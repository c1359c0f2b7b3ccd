//! Ordering of node indices by an integer key.
use vstd::prelude::*;

verus! {

/// `items` is ordered by ascending `keys`.
pub open spec fn sorted_by(items: Seq<usize>, keys: Seq<i64>) -> bool {
    forall|a: int, b: int|
        0 <= a < b < items.len() ==> keys[items[a] as int] <= keys[items[b] as int]
}

/// No index appears twice in `items`.
pub open spec fn distinct(items: Seq<usize>) -> bool {
    forall|a: int, b: int| 0 <= a < items.len() && 0 <= b < items.len() && a != b ==> items[a] != items[b]
}

/// Every item is a valid index into `keys`.
pub open spec fn indexes(items: Seq<usize>, n: int) -> bool {
    forall|a: int| 0 <= a < items.len() ==> items[a] < n
}

/// `s` with `x` inserted after every item whose key is at most that of `x`,
/// where `s` is ordered by key.
pub open spec fn insert_sorted(s: Seq<usize>, x: usize, keys: Seq<i64>) -> Seq<usize>
    decreases s.len(),
{
    if s.len() == 0 || keys[s.last() as int] <= keys[x as int] {
        s.push(x)
    } else {
        insert_sorted(s.drop_last(), x, keys).push(s.last())
    }
}

/// `s` ordered by ascending key, items of equal key kept in their order in `s`.
pub open spec fn stable_sorted(s: Seq<usize>, keys: Seq<i64>) -> Seq<usize>
    decreases s.len(),
{
    if s.len() == 0 {
        s
    } else {
        insert_sorted(stable_sorted(s.drop_last(), keys), s.last(), keys)
    }
}

proof fn lemma_insert_sorted(s: Seq<usize>, x: usize, keys: Seq<i64>)
    ensures
        insert_sorted(s, x, keys).len() == s.len() + 1,
        forall|y: usize| #[trigger] insert_sorted(s, x, keys).contains(y) <==> s.contains(y) || y == x,
        sorted_by(s, keys) ==> sorted_by(insert_sorted(s, x, keys), keys),
        distinct(s) && !s.contains(x) ==> distinct(insert_sorted(s, x, keys)),
    decreases s.len(),
{
    let t = insert_sorted(s, x, keys);
    if s.len() == 0 || keys[s.last() as int] <= keys[x as int] {
        assert forall|y: usize| #[trigger] t.contains(y) <==> s.contains(y) || y == x by {
            if t.contains(y) {
                let k = choose|k: int| 0 <= k < t.len() && t[k] == y;
                if k < s.len() {
                    assert(s[k] == y);
                }
            }
            if s.contains(y) {
                let k = choose|k: int| 0 <= k < s.len() && s[k] == y;
                assert(t[k] == y);
            }
            if y == x {
                assert(t[s.len() as int] == y);
            }
        }
        if sorted_by(s, keys) && s.len() > 0 {
            assert forall|a: int, b: int| 0 <= a < b < t.len() implies keys[t[a] as int] <= keys[t[b] as int] by {
                if b == s.len() {
                    assert(keys[s[a] as int] <= keys[s[s.len() - 1] as int]);
                }
            }
        }
        if distinct(s) && !s.contains(x) {
            assert forall|a: int, b: int| 0 <= a < t.len() && 0 <= b < t.len() && a != b implies t[a] != t[b] by {
                if a == s.len() {
                    assert(s.contains(t[b]));
                } else if b == s.len() {
                    assert(s.contains(t[a]));
                }
            }
        }
    } else {
        let s1 = s.drop_last();
        let m = s.last();
        lemma_insert_sorted(s1, x, keys);
        let u = insert_sorted(s1, x, keys);
        assert(t == u.push(m));
        assert forall|y: usize| #[trigger] t.contains(y) <==> s.contains(y) || y == x by {
            if t.contains(y) {
                let k = choose|k: int| 0 <= k < t.len() && t[k] == y;
                if k < u.len() {
                    assert(u[k] == y);
                    assert(u.contains(y));
                    if s1.contains(y) {
                        let j = choose|j: int| 0 <= j < s1.len() && s1[j] == y;
                        assert(s[j] == y);
                    }
                } else {
                    assert(s[s.len() - 1] == y);
                }
            }
            if s.contains(y) {
                let k = choose|k: int| 0 <= k < s.len() && s[k] == y;
                if k < s1.len() {
                    assert(s1[k] == y);
                    assert(u.contains(y));
                    let j = choose|j: int| 0 <= j < u.len() && u[j] == y;
                    assert(t[j] == y);
                } else {
                    assert(t[u.len() as int] == y);
                }
            }
            if y == x {
                assert(u.contains(x));
                let j = choose|j: int| 0 <= j < u.len() && u[j] == x;
                assert(t[j] == y);
            }
        }
        if sorted_by(s, keys) {
            assert(sorted_by(s1, keys)) by {
                assert forall|a: int, b: int| 0 <= a < b < s1.len() implies keys[s1[a] as int] <= keys[s1[b] as int] by {
                    assert(s1[a] == s[a] && s1[b] == s[b]);
                }
            }
            assert forall|a: int, b: int| 0 <= a < b < t.len() implies keys[t[a] as int] <= keys[t[b] as int] by {
                if b == u.len() {
                    assert(u.contains(u[a]));
                    if u[a] == x {
                    } else {
                        let j = choose|j: int| 0 <= j < s1.len() && s1[j] == u[a];
                        assert(keys[s[j] as int] <= keys[s[s.len() - 1] as int]);
                    }
                } else {
                    assert(t[a] == u[a] && t[b] == u[b]);
                }
            }
        }
        if distinct(s) && !s.contains(x) {
            assert(distinct(s1)) by {
                assert forall|a: int, b: int| 0 <= a < s1.len() && 0 <= b < s1.len() && a != b implies s1[a] != s1[b] by {
                    assert(s1[a] == s[a] && s1[b] == s[b]);
                }
            }
            assert(!s1.contains(x)) by {
                if s1.contains(x) {
                    let j = choose|j: int| 0 <= j < s1.len() && s1[j] == x;
                    assert(s[j] == x);
                }
            }
            assert(!u.contains(m)) by {
                if u.contains(m) {
                    if s1.contains(m) {
                        let j = choose|j: int| 0 <= j < s1.len() && s1[j] == m;
                        assert(s[j] == s[s.len() - 1]);
                    } else {
                        assert(s.contains(x)) by {
                            assert(s[s.len() - 1] == x);
                        }
                    }
                }
            }
            assert forall|a: int, b: int| 0 <= a < t.len() && 0 <= b < t.len() && a != b implies t[a] != t[b] by {
                if a == u.len() {
                    assert(u.contains(t[b]));
                } else if b == u.len() {
                    assert(u.contains(t[a]));
                } else {
                    assert(t[a] == u[a] && t[b] == u[b]);
                }
            }
        }
    }
}

/// What a stable sort keeps: the length and the items; it orders them, and
/// keeps distinct items distinct.
proof fn lemma_stable_sorted(s: Seq<usize>, keys: Seq<i64>)
    ensures
        stable_sorted(s, keys).len() == s.len(),
        forall|y: usize| #[trigger] stable_sorted(s, keys).contains(y) <==> s.contains(y),
        sorted_by(stable_sorted(s, keys), keys),
        distinct(s) ==> distinct(stable_sorted(s, keys)),
    decreases s.len(),
{
    if s.len() > 0 {
        let s1 = s.drop_last();
        let x = s.last();
        lemma_stable_sorted(s1, keys);
        lemma_insert_sorted(stable_sorted(s1, keys), x, keys);
        assert forall|y: usize| #[trigger] stable_sorted(s, keys).contains(y) <==> s.contains(y) by {
            if s.contains(y) {
                let k = choose|k: int| 0 <= k < s.len() && s[k] == y;
                if k < s1.len() {
                    assert(s1[k] == y);
                }
            }
            if s1.contains(y) {
                let k = choose|k: int| 0 <= k < s1.len() && s1[k] == y;
                assert(s[k] == y);
            }
            if y == x {
                assert(s[s.len() - 1] == y);
            }
        }
        if distinct(s) {
            assert(distinct(s1)) by {
                assert forall|a: int, b: int| 0 <= a < s1.len() && 0 <= b < s1.len() && a != b implies s1[a] != s1[b] by {
                    assert(s1[a] == s[a] && s1[b] == s[b]);
                }
            }
            assert(!stable_sorted(s1, keys).contains(x)) by {
                if s1.contains(x) {
                    let j = choose|j: int| 0 <= j < s1.len() && s1[j] == x;
                    assert(s[j] == s[s.len() - 1]);
                }
            }
        }
    } else {
        assert(sorted_by(s, keys));
    }
}

/// `a` and `b` merged from the back: on equal keys an item of `b` goes after an
/// item of `a`.
pub open spec fn merged(a: Seq<usize>, b: Seq<usize>, keys: Seq<i64>) -> Seq<usize>
    decreases a.len() + b.len(),
{
    if a.len() == 0 {
        b
    } else if b.len() == 0 {
        a
    } else if keys[a.last() as int] > keys[b.last() as int] {
        merged(a.drop_last(), b, keys).push(a.last())
    } else {
        merged(a, b.drop_last(), keys).push(b.last())
    }
}

proof fn lemma_insert_merged(a: Seq<usize>, b: Seq<usize>, x: usize, keys: Seq<i64>)
    ensures
        insert_sorted(merged(a, b, keys), x, keys) == merged(a, insert_sorted(b, x, keys), keys),
    decreases a.len() + b.len(),
{
    let bb = insert_sorted(b, x, keys);
    if a.len() == 0 {
        assert(merged(a, b, keys) == b);
        assert(merged(a, bb, keys) == bb);
    } else if b.len() == 0 {
        let a1 = a.drop_last();
        assert(merged(a, b, keys) == a);
        assert(bb == seq![x]);
        assert(seq![x].drop_last() =~= b);
        assert(seq![x].last() == x);
        if keys[a.last() as int] > keys[x as int] {
            lemma_insert_merged(a1, b, x, keys);
            assert(merged(a1, b, keys) == a1);
            assert(insert_sorted(a, x, keys) == insert_sorted(a1, x, keys).push(a.last()));
            assert(merged(a, seq![x], keys) == merged(a1, seq![x], keys).push(a.last()));
        } else {
            assert(insert_sorted(a, x, keys) == a.push(x));
            assert(merged(a, seq![x], keys) == merged(a, b, keys).push(x));
        }
    } else {
        let a1 = a.drop_last();
        let b1 = b.drop_last();
        let m = merged(a, b, keys);
        if keys[b.last() as int] <= keys[x as int] {
            assert(bb == b.push(x));
            assert(bb.drop_last() =~= b);
            assert(bb.last() == x);
            if keys[a.last() as int] > keys[b.last() as int] {
                assert(m == merged(a1, b, keys).push(a.last()));
                if keys[a.last() as int] > keys[x as int] {
                    lemma_insert_merged(a1, b, x, keys);
                    assert(m.drop_last() =~= merged(a1, b, keys));
                    assert(m.last() == a.last());
                    assert(insert_sorted(m, x, keys) == insert_sorted(merged(a1, b, keys), x, keys).push(a.last()));
                    assert(merged(a, bb, keys) == merged(a1, bb, keys).push(a.last()));
                } else {
                    assert(insert_sorted(m, x, keys) == m.push(x));
                    assert(merged(a, bb, keys) == merged(a, b, keys).push(x));
                }
            } else {
                assert(m == merged(a, b1, keys).push(b.last()));
                assert(insert_sorted(m, x, keys) == m.push(x));
                assert(merged(a, bb, keys) == merged(a, b, keys).push(x));
            }
        } else {
            let u = insert_sorted(b1, x, keys);
            assert(bb == u.push(b.last()));
            assert(bb.drop_last() =~= u);
            assert(bb.last() == b.last());
            if keys[a.last() as int] > keys[b.last() as int] {
                assert(m == merged(a1, b, keys).push(a.last()));
                lemma_insert_merged(a1, b, x, keys);
                assert(m.drop_last() =~= merged(a1, b, keys));
                assert(m.last() == a.last());
                assert(insert_sorted(m, x, keys) == insert_sorted(merged(a1, b, keys), x, keys).push(a.last()));
                assert(merged(a, bb, keys) == merged(a1, bb, keys).push(a.last()));
            } else {
                assert(m == merged(a, b1, keys).push(b.last()));
                lemma_insert_merged(a, b1, x, keys);
                assert(m.drop_last() =~= merged(a, b1, keys));
                assert(m.last() == b.last());
                assert(insert_sorted(m, x, keys) == insert_sorted(merged(a, b1, keys), x, keys).push(b.last()));
                assert(merged(a, bb, keys) == merged(a, u, keys).push(b.last()));
            }
        }
    }
}

/// Sorting a concatenation stably is merging the two sorted parts.
proof fn lemma_sorted_concat(a: Seq<usize>, b: Seq<usize>, keys: Seq<i64>)
    ensures
        stable_sorted(a + b, keys) == merged(stable_sorted(a, keys), stable_sorted(b, keys), keys),
    decreases b.len(),
{
    if b.len() == 0 {
        assert(a + b =~= a);
        let sa = stable_sorted(a, keys);
        if sa.len() > 0 {
            assert(merged(sa, Seq::<usize>::empty(), keys) == sa);
        }
    } else {
        let b1 = b.drop_last();
        let x = b.last();
        lemma_sorted_concat(a, b1, keys);
        assert((a + b).drop_last() =~= a + b1);
        assert((a + b).last() == x);
        lemma_insert_merged(stable_sorted(a, keys), stable_sorted(b1, keys), x, keys);
    }
}

/// Merges `a` and `b`, each ordered by key, from the back; on equal keys the
/// items of `a` come first.
fn merge(a: &Vec<usize>, b: &Vec<usize>, keys: &Vec<i64>) -> (r: Vec<usize>)
    requires
        indexes(a@, keys@.len() as int),
        indexes(b@, keys@.len() as int),
        a@.len() + b@.len() <= usize::MAX,
    ensures
        r@ == merged(a@, b@, keys@),
{
    let total = a.len() + b.len();
    let mut out: Vec<usize> = Vec::new();
    let mut k: usize = 0;
    while k < total
        invariant
            k <= total,
            out@.len() == k,
        decreases total - k,
    {
        out.push(0);
        k = k + 1;
    }
    let mut i = a.len();
    let mut j = b.len();
    proof {
        assert(a@.subrange(0, i as int) =~= a@);
        assert(b@.subrange(0, j as int) =~= b@);
        assert(merged(a@, b@, keys@) =~= merged(a@, b@, keys@) + out@.subrange(total as int, total as int));
    }
    while i > 0 || j > 0
        invariant
            i <= a@.len(),
            j <= b@.len(),
            total == a@.len() + b@.len(),
            out@.len() == total,
            indexes(a@, keys@.len() as int),
            indexes(b@, keys@.len() as int),
            merged(a@, b@, keys@) == merged(a@.subrange(0, i as int), b@.subrange(0, j as int), keys@)
                + out@.subrange(i + j, total as int),
        decreases i + j,
    {
        let ghost ai = a@.subrange(0, i as int);
        let ghost bj = b@.subrange(0, j as int);
        let ghost suffix = out@.subrange(i + j, total as int);
        if j == 0 || (i > 0 && keys[a[i - 1]] > keys[b[j - 1]]) {
            let v = a[i - 1];
            out.set(i + j - 1, v);
            proof {
                assert(ai.drop_last() =~= a@.subrange(0, i - 1));
                assert(ai.last() == v);
                if j == 0 {
                    assert(bj.len() == 0);
                    assert(merged(ai, bj, keys@) == ai);
                    if i - 1 > 0 {
                        assert(merged(ai.drop_last(), bj, keys@) == ai.drop_last());
                    } else {
                        assert(merged(ai.drop_last(), bj, keys@) =~= ai.drop_last());
                    }
                    assert(merged(ai, bj, keys@) =~= merged(ai.drop_last(), bj, keys@).push(v));
                } else {
                    assert(bj.last() == b@[j - 1]);
                    assert(merged(ai, bj, keys@) == merged(ai.drop_last(), bj, keys@).push(v));
                }
                assert(out@.subrange(i + j - 1, total as int) =~= seq![v] + suffix);
            }
            i = i - 1;
        } else {
            let v = b[j - 1];
            out.set(i + j - 1, v);
            proof {
                assert(bj.drop_last() =~= b@.subrange(0, j - 1));
                assert(bj.last() == v);
                if i == 0 {
                    assert(ai.len() == 0);
                    assert(merged(ai, bj, keys@) == bj);
                    assert(merged(ai, bj.drop_last(), keys@) == bj.drop_last());
                    assert(merged(ai, bj, keys@) =~= merged(ai, bj.drop_last(), keys@).push(v));
                } else {
                    assert(ai.last() == a@[i - 1]);
                    assert(merged(ai, bj, keys@) == merged(ai, bj.drop_last(), keys@).push(v));
                }
                assert(out@.subrange(i + j - 1, total as int) =~= seq![v] + suffix);
            }
            j = j - 1;
        }
    }
    proof {
        assert(a@.subrange(0, 0) =~= Seq::<usize>::empty());
        assert(b@.subrange(0, 0) =~= Seq::<usize>::empty());
        assert(out@.subrange(0, total as int) =~= out@);
    }
    out
}

/// `items[lo..hi]` sorted stably by key (merge sort).
fn merge_sort(items: &Vec<usize>, lo: usize, hi: usize, keys: &Vec<i64>) -> (r: Vec<usize>)
    requires
        lo <= hi <= items@.len(),
        indexes(items@, keys@.len() as int),
    ensures
        r@ == stable_sorted(items@.subrange(lo as int, hi as int), keys@),
    decreases hi - lo,
{
    let ghost part = items@.subrange(lo as int, hi as int);
    if hi - lo <= 1 {
        let mut r: Vec<usize> = Vec::new();
        if hi - lo == 1 {
            r.push(items[lo]);
            proof {
                assert(part.drop_last() =~= Seq::<usize>::empty());
                assert(stable_sorted(Seq::<usize>::empty(), keys@) == Seq::<usize>::empty());
                assert(r@ =~= insert_sorted(Seq::<usize>::empty(), part.last(), keys@));
            }
        } else {
            assert(part =~= Seq::<usize>::empty());
            assert(r@ =~= part);
        }
        return r;
    }
    let mid = lo + (hi - lo) / 2;
    let left = merge_sort(items, lo, mid, keys);
    let right = merge_sort(items, mid, hi, keys);
    proof {
        let pl = items@.subrange(lo as int, mid as int);
        let pr = items@.subrange(mid as int, hi as int);
        assert(pl + pr =~= part);
        lemma_sorted_concat(pl, pr, keys@);
        lemma_stable_sorted(pl, keys@);
        lemma_stable_sorted(pr, keys@);
        assert forall|k: int| 0 <= k < left@.len() implies left@[k] < keys@.len() by {
            assert(left@.contains(left@[k]));
            let q = choose|q: int| 0 <= q < pl.len() && pl[q] == left@[k];
            assert(pl[q] == items@[lo + q]);
        }
        assert forall|k: int| 0 <= k < right@.len() implies right@[k] < keys@.len() by {
            assert(right@.contains(right@[k]));
            let q = choose|q: int| 0 <= q < pr.len() && pr[q] == right@[k];
            assert(pr[q] == items@[mid + q]);
        }
    }
    merge(&left, &right, keys)
}

/// Sorts `items` in place by ascending `keys[item]`, keeping items of equal key in
/// their order (a stable merge sort).
pub fn sort_by_key(items: &mut Vec<usize>, keys: &Vec<i64>)
    requires
        indexes(old(items)@, keys@.len() as int),
    ensures
        final(items)@.len() == old(items)@.len(),
        sorted_by(final(items)@, keys@),
        indexes(final(items)@, keys@.len() as int),
        forall|x: usize| final(items)@.contains(x) <==> old(items)@.contains(x),
        distinct(old(items)@) ==> distinct(final(items)@),
        final(items)@ == stable_sorted(old(items)@, keys@),
{
    let ghost orig = items@;
    let n = items.len();
    let r = merge_sort(items, 0, n, keys);
    proof {
        assert(orig.subrange(0, n as int) =~= orig);
        lemma_stable_sorted(orig, keys@);
        assert forall|k: int| 0 <= k < r@.len() implies r@[k] < keys@.len() by {
            assert(r@.contains(r@[k]));
            let q = choose|q: int| 0 <= q < orig.len() && orig[q] == r@[k];
        }
    }
    *items = r;
}

/// The indices `0..n` ordered by ascending `keys`.
pub fn order_by_key(keys: &Vec<i64>) -> (r: Vec<usize>)
    ensures
        r@.len() == keys@.len(),
        sorted_by(r@, keys@),
        indexes(r@, keys@.len() as int),
        distinct(r@),
        forall|x: usize| x < keys@.len() ==> r@.contains(x),
        r@ == stable_sorted(Seq::new(keys@.len(), |i: int| i as usize), keys@),
{
    let n = keys.len();
    let mut r: Vec<usize> = Vec::new();
    let mut i: usize = 0;
    while i < n
        invariant
            i <= n == keys@.len(),
            r@.len() == i,
            forall|a: int| 0 <= a < i ==> r@[a] == a,
        decreases n - i,
    {
        r.push(i);
        i = i + 1;
    }
    proof {
        assert forall|x: usize| x < n implies r@.contains(x) by {
            assert(r@[x as int] == x);
        }
    }
    let ghost before = r@;
    assert(before =~= Seq::new(keys@.len(), |i: int| i as usize));
    sort_by_key(&mut r, keys);
    proof {
        assert forall|x: usize| x < n implies r@.contains(x) by {
            assert(before.contains(x));
        }
    }
    r
}

} // verus!
