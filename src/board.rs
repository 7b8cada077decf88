//! The letter grid, the eight directions, and the spans of words on the grid.
use crate::state::search_state::SearchState;
use crate::trie::{begins_some, Trie};
use vstd::prelude::*;

verus! {

/// Appends one character to a string.
/// Relies on `String::push`, which appends the given char to the end of the string.
#[verifier::external_body]
pub(crate) fn push_char(s: &mut String, c: char)
    ensures
        final(s)@ == old(s)@.push(c),
{
    s.push(c)
}

/// The first and last cell of a word on the grid, as (row, column) pairs.
#[derive(Debug, Clone, Copy, PartialEq, Eq)]
pub struct WordPosition {
    start: (usize, usize),
    end: (usize, usize),
}

impl WordPosition {
    pub closed spec fn start_spec(&self) -> (usize, usize) {
        self.start
    }

    pub closed spec fn end_spec(&self) -> (usize, usize) {
        self.end
    }

    pub fn new(start: (usize, usize), end: (usize, usize)) -> (r: Self)
        ensures
            r.start_spec() == start,
            r.end_spec() == end,
    {
        WordPosition { start, end }
    }

    pub fn start(&self) -> (r: (usize, usize))
        ensures
            r == self.start_spec(),
    {
        self.start
    }

    pub fn end(&self) -> (r: (usize, usize))
        ensures
            r == self.end_spec(),
    {
        self.end
    }

    /// The row-major linear indices `row * board_size + col` of the start and
    /// the end cell.
    pub fn to_1d(&self, board_size: usize) -> (r: (usize, usize))
        requires
            self.start_spec().0 * board_size + self.start_spec().1 <= usize::MAX,
            self.end_spec().0 * board_size + self.end_spec().1 <= usize::MAX,
        ensures
            r.0 == self.start_spec().0 * board_size + self.start_spec().1,
            r.1 == self.end_spec().0 * board_size + self.end_spec().1,
    {
        let (start_i, start_j) = self.start;
        let (end_i, end_j) = self.end;
        proof {
            assert(0 <= start_i * board_size <= usize::MAX) by (nonlinear_arith)
                requires
                    start_i * board_size + start_j <= usize::MAX,
                    start_j >= 0,
            ;
            assert(0 <= end_i * board_size <= usize::MAX) by (nonlinear_arith)
                requires
                    end_i * board_size + end_j <= usize::MAX,
                    end_j >= 0,
            ;
        }
        let start = start_i * board_size + start_j;
        let end = end_i * board_size + end_j;
        (start, end)
    }
}

/// A unit step on the grid: (row delta, column delta).
pub struct CoordDiff(pub i32, pub i32);

/// The eight directions in which a word may run.
#[derive(Debug, Clone, Copy, PartialEq, Eq, Structural)]
pub enum Direction {
    Up,
    Down,
    Left,
    Right,
    UpRight,
    UpLeft,
    DownRight,
    DownLeft,
}

impl Default for Direction {
    fn default() -> (r: Direction)
        ensures
            r == Direction::Up,
    {
        Direction::Up
    }
}

/// All directions, in the order in which a scan tries them.
pub open spec fn canonical_order() -> Seq<Direction> {
    seq![
        Direction::Up,
        Direction::Down,
        Direction::Left,
        Direction::Right,
        Direction::UpRight,
        Direction::UpLeft,
        Direction::DownLeft,
        Direction::DownRight,
    ]
}

impl Direction {
    /// The (row, column) step of this direction.
    pub open spec fn delta(self) -> (int, int) {
        match self {
            Direction::Up => (-1, 0),
            Direction::Down => (1, 0),
            Direction::Left => (0, -1),
            Direction::Right => (0, 1),
            Direction::UpRight => (-1, 1),
            Direction::UpLeft => (-1, -1),
            Direction::DownRight => (1, 1),
            Direction::DownLeft => (1, -1),
        }
    }

    /// The place of this direction in the canonical order.
    pub open spec fn rank(self) -> int {
        match self {
            Direction::Up => 0,
            Direction::Down => 1,
            Direction::Left => 2,
            Direction::Right => 3,
            Direction::UpRight => 4,
            Direction::UpLeft => 5,
            Direction::DownLeft => 6,
            Direction::DownRight => 7,
        }
    }

    /// The direction after this one in the canonical order, if any.
    pub open spec fn successor(self) -> Option<Direction> {
        if self.rank() < 7 {
            Some(canonical_order()[self.rank() + 1])
        } else {
            None
        }
    }

    pub fn to_coord_diff(&self) -> (r: CoordDiff)
        ensures
            (r.0 as int, r.1 as int) == self.delta(),
    {
        match self {
            Direction::Up => CoordDiff(-1, 0),
            Direction::Down => CoordDiff(1, 0),
            Direction::Left => CoordDiff(0, -1),
            Direction::Right => CoordDiff(0, 1),
            Direction::UpRight => CoordDiff(-1, 1),
            Direction::UpLeft => CoordDiff(-1, -1),
            Direction::DownRight => CoordDiff(1, 1),
            Direction::DownLeft => CoordDiff(1, -1),
        }
    }

    /// All eight directions, in the canonical order.
    pub fn iterator() -> (r: Vec<Direction>)
        ensures
            r@ == canonical_order(),
    {
        let r = vec![
            Direction::Up,
            Direction::Down,
            Direction::Left,
            Direction::Right,
            Direction::UpRight,
            Direction::UpLeft,
            Direction::DownLeft,
            Direction::DownRight,
        ];
        assert(r@ =~= canonical_order());
        r
    }

    pub fn next(&self) -> (r: Option<Direction>)
        ensures
            r == self.successor(),
    {
        match self {
            Direction::Up => Some(Direction::Down),
            Direction::Down => Some(Direction::Left),
            Direction::Left => Some(Direction::Right),
            Direction::Right => Some(Direction::UpRight),
            Direction::UpRight => Some(Direction::UpLeft),
            Direction::UpLeft => Some(Direction::DownLeft),
            Direction::DownLeft => Some(Direction::DownRight),
            Direction::DownRight => None,
        }
    }
}


/// Why a grid cannot be built.
#[derive(Debug, Clone, Copy, PartialEq, Eq, Structural)]
pub enum GridError {
    /// The grid has no rows, or its first row has no letters.
    Empty,
    /// Some row differs in length from the first row.
    Ragged,
}

/// A rectangular grid of letters, stored row by row.
pub struct Board {
    pub letters: Vec<Vec<char>>,
    cols: usize,
    rows: usize,
}

/// `u + i`, when that is a valid index.
pub open spec fn offset_index(u: int, i: int) -> Option<usize> {
    if 0 <= u + i <= usize::MAX {
        Some((u + i) as usize)
    } else {
        None
    }
}

/// The coordinate `k` steps from `a` toward `b`.
pub open spec fn toward(a: int, b: int, k: int) -> int {
    if a < b {
        a + k
    } else if a > b {
        a - k
    } else {
        a
    }
}

pub open spec fn abs_diff(a: int, b: int) -> int {
    if a < b {
        b - a
    } else {
        a - b
    }
}

/// The number of steps of the walk from `(r0, c0)` toward `(r1, c1)`: along
/// a row or a column it reaches the far end; on a slant it stops where it
/// leaves the rectangle spanned by the two cells.
pub open spec fn walk_len(r0: int, c0: int, r1: int, c1: int) -> int {
    if r0 == r1 {
        abs_diff(c0, c1)
    } else if c0 == c1 {
        abs_diff(r0, r1)
    } else if abs_diff(r0, r1) < abs_diff(c0, c1) {
        abs_diff(r0, r1)
    } else {
        abs_diff(c0, c1)
    }
}

impl Board {
    /// The letters, row by row.
    pub closed spec fn grid(&self) -> Seq<Seq<char>> {
        self.letters@.map_values(|row: Vec<char>| row@)
    }

    pub closed spec fn num_rows(&self) -> int {
        self.rows as int
    }

    pub closed spec fn num_cols(&self) -> int {
        self.cols as int
    }

    /// At least one row and one column, every row as long as the first, and
    /// both sides shorter than the largest `i32` distance.
    pub open spec fn wf(&self) -> bool {
        &&& self.num_rows() == self.grid().len()
        &&& 1 <= self.num_rows() < i32::MAX
        &&& 1 <= self.num_cols() < i32::MAX
        &&& forall|r: int|
            0 <= r < self.grid().len() ==> #[trigger] self.grid()[r].len() == self.num_cols()
    }

    pub open spec fn in_bounds(&self, r: int, c: int) -> bool {
        0 <= r < self.num_rows() && 0 <= c < self.num_cols()
    }

    pub open spec fn cell(&self, r: int, c: int) -> char {
        self.grid()[r][c]
    }

    /// The `k`-th cell of the line from `(r, c)` in direction `d` is on the grid.
    pub open spec fn fits_at(&self, r: int, c: int, d: Direction, k: int) -> bool {
        self.in_bounds(r + d.delta().0 * k, c + d.delta().1 * k)
    }

    /// The letter in the `k`-th cell of the line from `(r, c)` in direction `d`.
    pub open spec fn letter_along(&self, r: int, c: int, d: Direction, k: int) -> char {
        self.cell(r + d.delta().0 * k, c + d.delta().1 * k)
    }

    /// All of the first `distance + 1` cells of the line lie on the grid.
    pub open spec fn line_fits(&self, r: int, c: int, d: Direction, distance: int) -> bool {
        forall|k: int| 0 <= k <= distance ==> #[trigger] self.fits_at(r, c, d, k)
    }

    /// The `distance + 1` letters read from `(r, c)` in direction `d`, or
    /// `None` when the line leaves the grid.
    pub open spec fn extract(&self, r: int, c: int, d: Direction, distance: int) -> Option<
        Seq<char>,
    > {
        if self.line_fits(r, c, d, distance) {
            Some(Seq::new((distance + 1) as nat, |k: int| self.letter_along(r, c, d, k)))
        } else {
            None
        }
    }

    /// The cell with row-major index `index`.
    pub open spec fn cell_of_index(&self, index: int) -> (int, int) {
        (index / self.num_cols(), index % self.num_cols())
    }

    /// The letters met on the walk from the cell with row-major index `start`
    /// toward the one with index `end`, both included when the walk reaches it.
    pub open spec fn word_between(&self, start: int, end: int) -> Seq<char> {
        let (r0, c0) = self.cell_of_index(start);
        let (r1, c1) = self.cell_of_index(end);
        Seq::new(
            (walk_len(r0, c0, r1, c1) + 1) as nat,
            |k: int| self.cell(toward(r0, r1, k), toward(c0, c1, k)),
        )
    }

    /// The state after `s` once its direction is given up: the next
    /// direction at distance 0, else the first direction at the next cell,
    /// else the end of the scan.
    pub open spec fn skip_direction(&self, s: SearchState) -> Option<SearchState> {
        match s.direction.successor() {
            Some(d) => Some(
                SearchState { position: s.position, direction: d, distance: 0, feasible: true },
            ),
            None => match self.next_cell(s.position.0 as int, s.position.1 as int) {
                Some(p) => Some(
                    SearchState { position: p, direction: Direction::Up, distance: 0, feasible: true },
                ),
                None => None,
            },
        }
    }

    /// The state after `s`: one letter further along the same line when the
    /// current line fits on the grid and may grow, else the next direction.
    pub open spec fn advance(&self, s: SearchState, feasible: bool) -> Option<SearchState> {
        if self.extract(s.position.0 as int, s.position.1 as int, s.direction, s.distance as int) is Some
            && feasible {
            Some(
                SearchState {
                    position: s.position,
                    direction: s.direction,
                    distance: (s.distance + 1) as i32,
                    feasible: true,
                },
            )
        } else {
            self.skip_direction(s)
        }
    }

    /// The cell reached from `(i, j)` after `distance` steps in direction
    /// `d`, when that cell is on the grid.
    pub open spec fn position_after(&self, i: int, j: int, d: Direction, distance: int) -> Option<
        (usize, usize),
    > {
        let r = i + d.delta().0 * distance;
        let c = j + d.delta().1 * distance;
        if self.in_bounds(r, c) {
            Some((r as usize, c as usize))
        } else {
            None
        }
    }

    /// The state `s` after its candidate is checked against `words`: when the
    /// candidate's letters fit on the grid, `feasible` tells whether they
    /// begin some word and one more cell fits; otherwise nothing changes.
    pub open spec fn after_check(&self, words: Set<Seq<char>>, s: SearchState) -> SearchState {
        let (i, j) = (s.position.0 as int, s.position.1 as int);
        match self.extract(i, j, s.direction, s.distance as int) {
            None => s,
            Some(w) => SearchState {
                position: s.position,
                direction: s.direction,
                distance: s.distance,
                feasible: begins_some(words, w) && self.extract(
                    i,
                    j,
                    s.direction,
                    s.distance + 1,
                ) is Some,
            },
        }
    }

    /// The cell after `(i, j)` in row-major order, if there is one.
    pub open spec fn next_cell(&self, i: int, j: int) -> Option<(usize, usize)> {
        if j + 1 < self.num_cols() {
            Some((i as usize, (j + 1) as usize))
        } else if i + 1 < self.num_rows() {
            Some(((i + 1) as usize, 0usize))
        } else {
            None
        }
    }

    /// Builds a grid from its rows. An empty grid and a ragged one are refused.
    pub fn new(letters: &Vec<Vec<char>>) -> (r: Result<Self, GridError>)
        requires
            letters@.len() < i32::MAX,
            forall|i: int| 0 <= i < letters@.len() ==> #[trigger] letters@[i]@.len() < i32::MAX,
        ensures
            (letters@.len() == 0 || letters@[0]@.len() == 0) ==> r == Err::<Self, GridError>(
                GridError::Empty,
            ),
            (letters@.len() > 0 && letters@[0]@.len() > 0) ==> (r is Err <==> exists|i: int|
                0 <= i < letters@.len() && #[trigger] letters@[i]@.len() != letters@[0]@.len()),
            (letters@.len() > 0 && letters@[0]@.len() > 0 && r is Err) ==> r == Err::<
                Self,
                GridError,
            >(GridError::Ragged),
            r matches Ok(b) ==> {
                &&& b.wf()
                &&& b.num_rows() == letters@.len()
                &&& b.num_cols() == letters@[0]@.len()
                &&& forall|i: int| 0 <= i < letters@.len() ==> #[trigger] b.grid()[i] == letters@[i]@
            },
    {
        if letters.len() == 0 || letters[0].len() == 0 {
            return Err(GridError::Empty);
        }
        let rows = letters.len();
        let cols = letters[0].len();
        let mut copy: Vec<Vec<char>> = Vec::new();
        for i in 0..rows
            invariant
                rows == letters@.len(),
                rows > 0,
                cols == letters@[0]@.len(),
                cols > 0,
                copy@.len() == i,
                forall|k: int| 0 <= k < i ==> #[trigger] copy@[k]@ == letters@[k]@,
                forall|k: int| 0 <= k < i ==> #[trigger] letters@[k]@.len() == cols,
        {
            let row = &letters[i];
            if row.len() != cols {
                return Err(GridError::Ragged);
            }
            let mut new_row: Vec<char> = Vec::new();
            for j in 0..cols
                invariant
                    cols == row@.len(),
                    new_row@ == row@.subrange(0, j as int),
            {
                new_row.push(row[j]);
                assert(new_row@ =~= row@.subrange(0, j + 1));
            }
            assert(new_row@ =~= row@);
            copy.push(new_row);
        }
        Ok(Board { letters: copy, cols, rows })
    }

    /// The cell after `(i, j)` in row-major order, or `None` after the last cell.
    pub fn next_pos(&self, i: usize, j: usize) -> (r: Option<(usize, usize)>)
        requires
            self.wf(),
            self.in_bounds(i as int, j as int),
        ensures
            r == self.next_cell(i as int, j as int),
    {
        let mut i = i;
        let mut j = j;
        j += 1;
        if j == self.cols {
            j = 0;
            i += 1;
        }
        if i == self.rows {
            None
        } else {
            Some((i, j))
        }
    }

    /// `u + i` when it is a valid index, `None` when it would be negative or
    /// overflow.
    pub fn add(u: usize, i: i32) -> (r: Option<usize>)
        ensures
            r == offset_index(u as int, i as int),
    {
        if i < 0 {
            let m: u32 = (0i64 - i as i64) as u32;
            u.checked_sub(m as usize)
        } else {
            u.checked_add(i as usize)
        }
    }

    pub fn get_rows(&self) -> (r: usize)
        ensures
            r == self.num_rows(),
    {
        self.rows
    }

    pub fn get_cols(&self) -> (r: usize)
        ensures
            r == self.num_cols(),
    {
        self.cols
    }

    /// The letter at `(x, y)`, or `None` when a coordinate is missing or off
    /// the grid.
    fn letter_char(&self, x: Option<usize>, y: Option<usize>) -> (r: Option<char>)
        requires
            self.wf(),
        ensures
            r is Some <==> (x is Some && y is Some && self.in_bounds(
                x->0 as int,
                y->0 as int,
            )),
            r matches Some(ch) ==> ch == self.cell(x->0 as int, y->0 as int),
    {
        let x = match x {
            Some(x) => x,
            None => return None,
        };
        let y = match y {
            Some(y) => y,
            None => return None,
        };
        assert(self.grid().len() == self.letters@.len());
        if x >= self.letters.len() {
            return None;
        }
        let row = &self.letters[x];
        assert(self.grid()[x as int] == row@);
        if y >= row.len() {
            return None;
        }
        Some(row[y])
    }

    /// The letter at `(x, y)` as a one-letter string, or `None` when a
    /// coordinate is missing or off the grid.
    pub fn get_letter(&self, x: Option<usize>, y: Option<usize>) -> (r: Option<String>)
        requires
            self.wf(),
        ensures
            r is Some <==> (x is Some && y is Some && self.in_bounds(
                x->0 as int,
                y->0 as int,
            )),
            r matches Some(s) ==> s@ == seq![self.cell(x->0 as int, y->0 as int)],
    {
        match self.letter_char(x, y) {
            Some(ch) => {
                let mut s = String::new();
                push_char(&mut s, ch);
                assert(s@ =~= seq![ch]);
                Some(s)
            },
            None => None,
        }
    }

    /// The `distance + 1` letters read from `(start_x, start_y)` in
    /// `direction`, or `None` when any of those cells is off the grid.
    pub fn get_string_from_direction(
        &self,
        start_x: usize,
        start_y: usize,
        direction: &Direction,
        distance: i32,
    ) -> (r: Option<String>)
        requires
            self.wf(),
            0 <= distance < i32::MAX,
        ensures
            r is Some <==> self.extract(start_x as int, start_y as int, *direction, distance as int) is Some,
            r matches Some(s) ==> self.extract(start_x as int, start_y as int, *direction, distance as int)
                == Some(s@),
    {
        let ghost (r0, c0, d) = (start_x as int, start_y as int, *direction);
        let mut seq = String::new();
        let coord_diff: CoordDiff = direction.to_coord_diff();
        let mut i: i32 = 0;
        while i <= distance
            invariant
                self.wf(),
                0 <= i <= distance + 1,
                distance < i32::MAX,
                d == *direction,
                r0 == start_x,
                c0 == start_y,
                (coord_diff.0 as int, coord_diff.1 as int) == d.delta(),
                seq@.len() == i,
                forall|k: int| 0 <= k < i ==> #[trigger] self.fits_at(r0, c0, d, k),
                forall|k: int| 0 <= k < i ==> seq@[k] == #[trigger] self.letter_along(r0, c0, d, k),
            decreases distance + 1 - i,
        {
            assert(-i32::MAX <= coord_diff.0 * i <= i32::MAX && -i32::MAX <= coord_diff.1 * i
                <= i32::MAX) by (nonlinear_arith)
                requires
                    -1 <= coord_diff.0 <= 1,
                    -1 <= coord_diff.1 <= 1,
                    0 <= i <= i32::MAX,
            ;
            let x = Board::add(start_x, coord_diff.0 * i);
            let y = Board::add(start_y, coord_diff.1 * i);
            let ch = match self.letter_char(x, y) {
                Some(ch) => ch,
                None => {
                    assert(!self.fits_at(r0, c0, d, i as int));
                    return None;
                },
            };
            push_char(&mut seq, ch);
            i = i + 1;
        }
        assert(seq@ =~= Seq::new(
            (distance + 1) as nat,
            |k: int| self.letter_along(r0, c0, d, k),
        ));
        Some(seq)
    }

    /// The cell reached from `(i, j)` after `distance` steps in `direction`,
    /// or `None` when that cell is off the grid.
    pub fn get_pos_from_direction(&self, i: usize, j: usize, direction: &Direction, distance: i32) -> (r:
        Option<(usize, usize)>)
        requires
            self.wf(),
            distance >= 0,
        ensures
            r == self.position_after(i as int, j as int, *direction, distance as int),
    {
        let coord_diff: CoordDiff = direction.to_coord_diff();
        assert(-i32::MAX <= coord_diff.0 * distance <= i32::MAX && -i32::MAX <= coord_diff.1
            * distance <= i32::MAX) by (nonlinear_arith)
            requires
                -1 <= coord_diff.0 <= 1,
                -1 <= coord_diff.1 <= 1,
                0 <= distance <= i32::MAX,
        ;
        let x = Board::add(i, coord_diff.0 * distance);
        let y = Board::add(j, coord_diff.1 * distance);
        match (x, y) {
            (Some(x), Some(y)) => {
                if x < self.rows && y < self.cols {
                    Some((x, y))
                } else {
                    None
                }
            },
            _ => None,
        }
    }

    /// The (row, column) of the cell with row-major index `index`.
    pub fn get_2d_position(&self, index: usize) -> (r: (usize, usize))
        requires
            self.wf(),
        ensures
            (r.0 as int, r.1 as int) == self.cell_of_index(index as int),
    {
        let row = index / self.cols;
        let col = index % self.cols;
        (row, col)
    }

    /// The word that runs from the cell with row-major index `start` toward
    /// the one with index `end`.
    pub fn get_word_from_1d_position(&self, start: usize, end: usize) -> (r: String)
        requires
            self.wf(),
            start < self.num_rows() * self.num_cols(),
            end < self.num_rows() * self.num_cols(),
        ensures
            r@ == self.word_between(start as int, end as int),
    {
        let (r0, c0) = self.get_2d_position(start);
        let (r1, c1) = self.get_2d_position(end);
        proof {
            lemma_index_in_bounds(start as int, self.num_rows(), self.num_cols());
            lemma_index_in_bounds(end as int, self.num_rows(), self.num_cols());
        }
        let dr: usize = if r0 < r1 { r1 - r0 } else { r0 - r1 };
        let dc: usize = if c0 < c1 { c1 - c0 } else { c0 - c1 };
        let n: usize = if r0 == r1 {
            dc
        } else if c0 == c1 {
            dr
        } else if dr < dc {
            dr
        } else {
            dc
        };
        let ghost len = walk_len(r0 as int, c0 as int, r1 as int, c1 as int);
        assert(n == len);
        let mut word = String::new();
        let mut i: usize = r0;
        let mut j: usize = c0;
        let mut k: usize = 0;
        assert(self.grid().len() == self.letters@.len());
        while k <= n
            invariant
                self.wf(),
                self.grid().len() == self.letters@.len(),
                0 <= r0 < self.num_rows(),
                0 <= r1 < self.num_rows(),
                0 <= c0 < self.num_cols(),
                0 <= c1 < self.num_cols(),
                n == len,
                n <= i32::MAX,
                0 <= len <= abs_diff(r0 as int, r1 as int) || r0 == r1,
                0 <= len <= abs_diff(c0 as int, c1 as int) || c0 == c1,
                k <= n + 1,
                k <= n ==> i == toward(r0 as int, r1 as int, k as int),
                k <= n ==> j == toward(c0 as int, c1 as int, k as int),
                word@.len() == k,
                forall|m: int|
                    0 <= m < k ==> word@[m] == self.cell(
                        #[trigger] toward(r0 as int, r1 as int, m),
                        toward(c0 as int, c1 as int, m),
                    ),
            decreases n + 1 - k,
        {
            let row = &self.letters[i];
            assert(self.grid()[i as int] == row@);
            push_char(&mut word, row[j]);
            if k < n {
                if r0 < r1 {
                    i = i + 1;
                } else if r0 > r1 {
                    i = i - 1;
                }
                if c0 < c1 {
                    j = j + 1;
                } else if c0 > c1 {
                    j = j - 1;
                }
            }
            k = k + 1;
        }
        assert(word@ =~= self.word_between(start as int, end as int));
        word
    }

    /// Tries the candidate that `state` describes. When its letters fit on
    /// the grid, records in `state.feasible` whether the line may grow (the
    /// letters begin some word and one more cell fits), and returns the span
    /// when they spell a word. When they do not fit, nothing changes.
    pub fn check_state(&self, state: &mut SearchState, trie: &Trie) -> (r: Option<WordPosition>)
        requires
            self.wf(),
            trie.wf(),
            self.in_bounds(old(state).position.0 as int, old(state).position.1 as int),
            0 <= old(state).distance < i32::MAX,
        ensures
            *final(state) == self.after_check(trie@, *old(state)),
            final(state).position == old(state).position,
            final(state).direction == old(state).direction,
            final(state).distance == old(state).distance,
            ({
                let (i, j) = (old(state).position.0 as int, old(state).position.1 as int);
                let (d, k) = (old(state).direction, old(state).distance as int);
                match self.extract(i, j, d, k) {
                    None => final(state).feasible == old(state).feasible && r is None,
                    Some(w) => {
                        &&& final(state).feasible == (begins_some(trie@, w) && self.extract(
                            i,
                            j,
                            d,
                            k + 1,
                        ) is Some)
                        &&& r is Some <==> trie@.contains(w)
                        &&& r matches Some(wp) ==> wp.start_spec() == old(state).position && Some(
                            wp.end_spec(),
                        ) == self.position_after(i, j, d, k)
                    },
                }
            }),
    {
        let (i, j) = state.position;
        let distance = state.distance;
        let direction = state.direction;
        let string = match self.get_string_from_direction(i, j, &direction, distance) {
            Some(s) => s,
            None => return None,
        };
        proof {
            self.lemma_line_shorter_than_side(i as int, j as int, direction, distance as int);
            self.lemma_line_end(i as int, j as int, direction, distance as int);
        }
        if !trie.starts_with(string.as_str()) {
            state.feasible = false;
            proof {
                if trie@.contains(string@) {
                    assert(string@.subrange(0, string@.len() as int) =~= string@);
                    assert(crate::trie::is_prefix(string@, string@));
                }
            }
        } else {
            match self.get_string_from_direction(i, j, &direction, distance + 1) {
                None => state.feasible = false,
                Some(_) => state.feasible = true,
            }
            if trie.search(string.as_str()) {
                let end = match self.get_pos_from_direction(i, j, &direction, distance) {
                    Some(p) => p,
                    None => (0, 0),
                };
                let word_position = WordPosition::new((i, j), end);
                return Some(word_position);
            }
        }
        None
    }

    /// The state that follows `state`, given whether its line may grow; `None`
    /// once the last direction at the last cell is given up.
    pub fn next_state(&self, state: &SearchState, feasible: bool) -> (r: Option<SearchState>)
        requires
            self.wf(),
            self.in_bounds(state.position.0 as int, state.position.1 as int),
            0 <= state.distance < i32::MAX,
        ensures
            r == self.advance(*state, feasible),
    {
        let (i, j) = state.position;
        let distance = state.distance;
        let direction = state.direction;
        if self.get_string_from_direction(i, j, &direction, distance).is_none() {
            if direction.next().is_none() {
                return match self.next_pos(i, j) {
                    Some(p) => Some(SearchState::from(p, Direction::Up, 0)),
                    None => None,
                };
            }
            return Some(SearchState::from(state.position, direction.next().unwrap(), 0));
        }
        if feasible {
            return Some(SearchState::from(state.position, state.direction, state.distance + 1));
        }
        if direction.next().is_none() {
            return match self.next_pos(i, j) {
                Some(p) => Some(SearchState::from(p, Direction::Up, 0)),
                None => None,
            };
        }
        Some(SearchState::from(state.position, direction.next().unwrap(), 0))
    }

    /// A line of `distance + 1` cells that fits on the grid is shorter than
    /// one of its sides, so one more step still fits in an `i32`.
    pub proof fn lemma_line_shorter_than_side(&self, r: int, c: int, d: Direction, distance: int)
        requires
            self.wf(),
            distance >= 0,
            self.extract(r, c, d, distance) is Some,
        ensures
            distance + 1 < i32::MAX,
    {
        assert(self.fits_at(r, c, d, 0));
        assert(self.fits_at(r, c, d, distance));
    }

    /// The last cell of a line that fits on the grid is where
    /// `position_after` puts it.
    pub proof fn lemma_line_end(&self, r: int, c: int, d: Direction, distance: int)
        requires
            self.wf(),
            distance >= 0,
            self.extract(r, c, d, distance) is Some,
        ensures
            self.position_after(r, c, d, distance) == Some(
                ((r + d.delta().0 * distance) as usize, (c + d.delta().1 * distance) as usize),
            ),
    {
        assert(self.fits_at(r, c, d, distance));
    }
}

/// From a cell of the grid, the position after `distance` steps is found
/// exactly when the line of `distance + 1` letters is, and the last of those
/// letters is the one at that position.
pub proof fn lemma_position_agrees_with_extract(
    board: &Board,
    r: int,
    c: int,
    d: Direction,
    distance: int,
)
    requires
        board.wf(),
        board.in_bounds(r, c),
        distance >= 0,
    ensures
        board.position_after(r, c, d, distance) is Some <==> board.extract(r, c, d, distance) is Some,
        board.position_after(r, c, d, distance) matches Some(p) ==> board.extract(
            r,
            c,
            d,
            distance,
        )->0.last() == board.cell(p.0 as int, p.1 as int),
{
    let (dr, dc) = d.delta();
    if board.position_after(r, c, d, distance) is Some {
        assert forall|k: int| 0 <= k <= distance implies #[trigger] board.fits_at(r, c, d, k) by {
            assert(dr * k == 0 || dr * k == k || dr * k == -k) by (nonlinear_arith)
                requires
                    -1 <= dr <= 1,
            ;
            assert(dc * k == 0 || dc * k == k || dc * k == -k) by (nonlinear_arith)
                requires
                    -1 <= dc <= 1,
            ;
            assert(dr == 0 ==> dr * k == 0 && dr * distance == 0) by (nonlinear_arith);
            assert(dr == 1 ==> dr * k == k && dr * distance == distance) by (nonlinear_arith);
            assert(dr == -1 ==> dr * k == -k && dr * distance == -distance) by (nonlinear_arith);
            assert(dc == 0 ==> dc * k == 0 && dc * distance == 0) by (nonlinear_arith);
            assert(dc == 1 ==> dc * k == k && dc * distance == distance) by (nonlinear_arith);
            assert(dc == -1 ==> dc * k == -k && dc * distance == -distance) by (nonlinear_arith);
        }
        assert(board.line_fits(r, c, d, distance));
    } else {
        assert(!board.fits_at(r, c, d, distance));
    }
}

/// Two spans with the same ends are the same value.
pub proof fn lemma_span_eq(a: WordPosition, b: WordPosition)
    requires
        a.start_spec() == b.start_spec(),
        a.end_spec() == b.end_spec(),
    ensures
        a == b,
{
}

/// A line of one cell always fits: reading at distance 0 from a cell of the
/// grid gives that cell's letter.
pub proof fn lemma_first_letter_fits(board: &Board, r: int, c: int, d: Direction)
    requires
        board.wf(),
        board.in_bounds(r, c),
    ensures
        board.extract(r, c, d, 0) == Some(seq![board.cell(r, c)]),
{
    assert(board.fits_at(r, c, d, 0));
    assert(board.line_fits(r, c, d, 0));
    assert(board.extract(r, c, d, 0)->0 =~= seq![board.cell(r, c)]);
}

/// Stepping with `next_cell` walks the cells in row-major order, one index
/// at a time: from the cell with index `n` it reaches the cell with index
/// `n + 1`, and it stops after the last of the `rows * cols` cells.
pub proof fn lemma_next_cell_row_major(board: &Board, i: int, j: int)
    requires
        board.wf(),
        board.in_bounds(i, j),
    ensures
        board.cell_of_index(i * board.num_cols() + j) == (i, j),
        ({
            let n = i * board.num_cols() + j + 1;
            if n < board.num_rows() * board.num_cols() {
                board.next_cell(i, j) matches Some(p) && (p.0 as int, p.1 as int)
                    == board.cell_of_index(n)
            } else {
                board.next_cell(i, j) is None
            }
        }),
{
    let cols = board.num_cols();
    let rows = board.num_rows();
    let n = i * cols + j + 1;
    vstd::arithmetic::div_mod::lemma_fundamental_div_mod_converse(i * cols + j, cols, i, j);
    if j + 1 < cols {
        vstd::arithmetic::div_mod::lemma_fundamental_div_mod_converse(n, cols, i, j + 1);
        assert((i + 1) * cols <= rows * cols) by (nonlinear_arith)
            requires
                0 <= i < rows,
                cols > 0,
        ;
        assert((i + 1) * cols == i * cols + cols) by (nonlinear_arith);
    } else {
        assert(n == (i + 1) * cols) by (nonlinear_arith)
            requires
                n == i * cols + j + 1,
                j + 1 == cols,
        ;
        vstd::arithmetic::div_mod::lemma_fundamental_div_mod_converse(n, cols, i + 1, 0);
        if i + 1 < rows {
            assert(n < rows * cols) by (nonlinear_arith)
                requires
                    n == (i + 1) * cols,
                    i + 1 < rows,
                    cols > 0,
            ;
        } else {
            assert(n == rows * cols);
        }
    }
}

/// A row-major index below `rows * cols` names a cell of the grid.
proof fn lemma_index_in_bounds(index: int, rows: int, cols: int)
    requires
        0 <= index < rows * cols,
        cols > 0,
    ensures
        0 <= index / cols < rows,
        0 <= index % cols < cols,
{
    assert(0 <= index / cols < rows) by (nonlinear_arith)
        requires
            0 <= index < rows * cols,
            cols > 0,
    ;
}

} // verus!
