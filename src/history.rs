//! The vocabulary of the territory simulation played on a generated world, and
//! the counter that hands out civilization ids.
use vstd::prelude::*;

verus! {

/// An action a civilization may attempt.
#[derive(Debug, Clone, Copy, PartialEq, Eq)]
pub enum ActionType {
    Occupy(usize),
    Grow,
    Defend,
}

/// A colour as red, green and blue components.
#[derive(Debug, Clone, Copy, PartialEq, Eq)]
pub struct Color(pub u8, pub u8, pub u8);

/// Occupy a cell, possibly taking it from its owner.
#[derive(Debug, Clone, PartialEq, Eq, Hash)]
pub enum Action {
    Occupy(usize, Option<usize>),
}

/// An action taken by a civilization, and whether it succeeded.
#[derive(Debug)]
pub struct Move {
    pub civ_id: usize,
    pub action: Action,
    pub successful: bool,
}

/// The opponent's tree search.
pub struct MCTS;

/// Hands out the next id from `counter` and advances it (wrapping at the top).
pub fn get_id(counter: &mut usize) -> (id: usize)
    ensures
        id == *old(counter),
        *final(counter) == if *old(counter) == usize::MAX {
            0
        } else {
            (*old(counter) + 1) as usize
        },
{
    let id = *counter;
    *counter = counter.wrapping_add(1);
    id
}

} // verus!
