//! The progress of a scan: the starting cell, the direction and the distance
//! being tried, and whether the current line may grow by one more letter.
use crate::board::{Board, Direction, WordPosition};
use vstd::prelude::*;

verus! {

#[derive(Debug, Clone, Copy, PartialEq, Eq)]
pub struct SearchState {
    pub position: (usize, usize),
    pub direction: Direction,
    pub distance: i32,
    pub feasible: bool,
}

impl Default for SearchState {
    /// The state a scan starts in: the first cell, the first direction,
    /// distance 0.
    fn default() -> (r: Self)
        ensures
            r == (SearchState { position: (0, 0), direction: Direction::Up, distance: 0, feasible: true }),
    {
        SearchState { position: (0, 0), direction: Direction::Up, distance: 0, feasible: true }
    }
}

impl SearchState {
    pub fn new() -> (r: Self)
        ensures
            r == (SearchState { position: (0, 0), direction: Direction::Up, distance: 0, feasible: true }),
    {
        SearchState::default()
    }

    pub fn from(position: (usize, usize), direction: Direction, distance: i32) -> (r: Self)
        ensures
            r == (SearchState { position, direction, distance, feasible: true }),
    {
        SearchState { position, direction, distance, feasible: true }
    }

    /// The span of the candidate this state describes, when its end is on
    /// `board`.
    pub fn current_prefix(&self, board: &Board) -> (r: Option<WordPosition>)
        requires
            board.wf(),
            self.distance >= 0,
        ensures
            r is Some <==> board.position_after(
                self.position.0 as int,
                self.position.1 as int,
                self.direction,
                self.distance as int,
            ) is Some,
            r matches Some(wp) ==> wp.start_spec() == self.position && Some(wp.end_spec())
                == board.position_after(
                self.position.0 as int,
                self.position.1 as int,
                self.direction,
                self.distance as int,
            ),
    {
        let start = self.position;
        match board.get_pos_from_direction(
            self.position.0,
            self.position.1,
            &self.direction,
            self.distance,
        ) {
            Some(end) => Some(WordPosition::new(start, end)),
            None => None,
        }
    }
}

} // verus!
