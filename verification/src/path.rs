//! The path record: the ordered action sequence produced by a search,
//! together with its total energy cost.

use vstd::prelude::*;

verus! {

/// An orthogonal step direction on the grid. There is no diagonal movement.
#[derive(Clone, Copy, Debug, PartialEq, Eq, Structural)]
pub enum Direction {
    Up,
    Down,
    Left,
    Right,
}

/// One step of a path: either go one cell in a direction, or teleport to the
/// active teleport cell at the given `(row, col)` coordinates.
#[derive(Clone, Copy, Debug, PartialEq, Eq)]
pub enum Action {
    Go(Direction),
    Teleport((usize, usize)),
}

/// The path from a source cell to a destination cell: the actions to perform
/// in order, and the total energy cost of performing them. A cost of
/// `usize::MAX` is the sentinel for "no path known": every cell starts out
/// with it before relaxation, and a search result never carries it.
#[derive(Debug)]
pub struct Path {
    pub source: (usize, usize),
    pub destination: (usize, usize),
    pub actions: Vec<Action>,
    pub cost: usize,
}

impl Default for Path {
    /// The all-zero record: a zero-cost, zero-action path from the origin
    /// cell to itself.
    fn default() -> (p: Path)
        ensures
            p.source == ((0usize, 0usize)),
            p.destination == ((0usize, 0usize)),
            p.cost == 0,
            p.actions@ =~= Seq::<Action>::empty(),
    {
        Path { source: (0, 0), destination: (0, 0), actions: Vec::new(), cost: 0 }
    }
}

impl Path {
    /// A path record with no actions and the given cost: either the
    /// unreachable sentinel entry of a fresh table, or the zero-cost entry of
    /// the source cell.
    pub fn new(source: (usize, usize), destination: (usize, usize), cost: usize) -> (p: Path)
        ensures
            p.source == source,
            p.destination == destination,
            p.cost == cost,
            p.actions@ =~= Seq::<Action>::empty(),
    {
        Path { source, destination, actions: Vec::new(), cost }
    }

    /// A new record extending this one by a single action: the action
    /// sequence is a fresh copy of the predecessor's with `action` appended,
    /// never an alias, since several relaxations may branch from the same
    /// predecessor.
    pub fn extend(&self, action: Action, destination: (usize, usize), cost: usize) -> (p: Path)
        ensures
            p.source == self.source,
            p.destination == destination,
            p.cost == cost,
            p.actions@ =~= self.actions@.push(action),
    {
        let mut actions: Vec<Action> = Vec::new();
        let mut i: usize = 0;
        while i < self.actions.len()
            invariant
                i <= self.actions.len(),
                actions@ =~= self.actions@.subrange(0, i as int),
            decreases self.actions.len() - i,
        {
            actions.push(self.actions[i]);
            i = i + 1;
        }
        assert(actions@ =~= self.actions@);
        actions.push(action);
        Path { source: self.source, destination, actions, cost }
    }

    /// An equal, independent copy of this record.
    pub fn duplicate(&self) -> (p: Path)
        ensures
            p.source == self.source,
            p.destination == self.destination,
            p.cost == self.cost,
            p.actions@ =~= self.actions@,
    {
        let mut actions: Vec<Action> = Vec::new();
        let mut i: usize = 0;
        while i < self.actions.len()
            invariant
                i <= self.actions.len(),
                actions@ =~= self.actions@.subrange(0, i as int),
            decreases self.actions.len() - i,
        {
            actions.push(self.actions[i]);
            i = i + 1;
        }
        assert(actions@ =~= self.actions@);
        Path { source: self.source, destination: self.destination, actions, cost: self.cost }
    }
}

} // verus!
