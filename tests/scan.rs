use word_search_solver::board::{Board, Direction, WordPosition};
use word_search_solver::scan::find_words;
use word_search_solver::state::search_state::SearchState;
use word_search_solver::trie::Trie;

fn grid(rows: &[&str]) -> Board {
    let letters: Vec<Vec<char>> = rows.iter().map(|r| r.chars().collect()).collect();
    Board::new(&letters).unwrap()
}

fn grid3() -> Board {
    grid(&["abc", "def", "ghi"])
}

/// Runs the tick loop by hand, as a display would.
fn drive(board: &Board, trie: &Trie) -> (Vec<WordPosition>, usize) {
    let mut state = SearchState::new();
    let mut found = Vec::new();
    let mut ticks = 0usize;
    loop {
        ticks += 1;
        if let Some(wp) = board.check_state(&mut state, trie) {
            found.push(wp);
        }
        match board.next_state(&state, state.feasible) {
            Some(s) => state = s,
            None => break,
        }
    }
    (found, ticks)
}

#[test]
fn next_state_scenarios() {
    let b = grid3();
    let state = SearchState::from((0, 0), Direction::Right, 0);
    assert_eq!(b.next_state(&state, true), Some(SearchState::from((0, 0), Direction::Right, 1)));
    let state = SearchState::from((0, 0), Direction::Up, 0);
    assert_eq!(b.next_state(&state, false), Some(SearchState::from((0, 0), Direction::Down, 0)));
    let state = SearchState::from((2, 2), Direction::DownRight, 0);
    assert_eq!(b.next_state(&state, false), None);
    let state = SearchState::from((0, 2), Direction::DownRight, 0);
    assert_eq!(b.next_state(&state, false), Some(SearchState::from((1, 0), Direction::Up, 0)));
}

#[test]
fn off_grid_and_failed_prefix_recover_the_same_way() {
    let b = grid3();
    // Up from the top row at distance 1 runs off the grid: the flag is ignored.
    let off = SearchState::from((0, 1), Direction::Up, 1);
    assert_eq!(b.next_state(&off, true), Some(SearchState::from((0, 1), Direction::Down, 0)));
    assert_eq!(b.next_state(&off, false), Some(SearchState::from((0, 1), Direction::Down, 0)));
    // Right from (0,1) at distance 1 fits; a failed prefix gives up the direction too.
    let fits = SearchState::from((0, 1), Direction::Right, 1);
    assert_eq!(b.next_state(&fits, false), Some(SearchState::from((0, 1), Direction::UpRight, 0)));
    assert_eq!(b.next_state(&fits, true), Some(SearchState::from((0, 1), Direction::Right, 2)));
    // The last direction at the last cell ends the scan either way.
    let last = SearchState::from((2, 2), Direction::DownRight, 1);
    assert_eq!(b.next_state(&last, true), None);
}

#[test]
fn check_state_marks_feasibility() {
    let b = grid3();
    let trie = Trie::from(&vec!["abc", "ab"]);
    let mut s = SearchState::from((0, 0), Direction::Right, 1);
    let found = b.check_state(&mut s, &trie);
    assert_eq!(found, Some(WordPosition::new((0, 0), (0, 1))));
    assert!(s.feasible);
    let mut s = SearchState::from((0, 0), Direction::Right, 2);
    let found = b.check_state(&mut s, &trie);
    assert_eq!(found, Some(WordPosition::new((0, 0), (0, 2))));
    assert!(!s.feasible);
    let mut s = SearchState::from((0, 0), Direction::Down, 0);
    assert_eq!(b.check_state(&mut s, &trie), None);
    assert!(s.feasible);
    let mut s = SearchState::from((0, 0), Direction::Down, 1);
    assert_eq!(b.check_state(&mut s, &trie), None);
    assert!(!s.feasible);
    let mut s = SearchState::from((0, 0), Direction::Up, 1);
    assert_eq!(b.check_state(&mut s, &trie), None);
    assert!(s.feasible);
}

#[test]
fn current_prefix_span() {
    let b = grid3();
    let s = SearchState::from((1, 1), Direction::DownLeft, 1);
    assert_eq!(s.current_prefix(&b), Some(WordPosition::new((1, 1), (2, 0))));
    let s = SearchState::from((0, 0), Direction::Left, 1);
    assert_eq!(s.current_prefix(&b), None);
    let s = SearchState::from((0, 1), Direction::Right, 2);
    assert_eq!(s.current_prefix(&b), None);
    let s = SearchState::new();
    assert_eq!(s, SearchState::from((0, 0), Direction::Up, 0));
    assert_eq!(SearchState::default(), s);
}

#[test]
fn full_scan_finds_a_planted_word_once() {
    let b = grid(&["xqzw", "kdog", "vbnm"]);
    let trie = Trie::from(&vec!["DOG", "dog", "zq"]);
    let found = find_words(&b, &trie);
    let dog = WordPosition::new((1, 1), (1, 3));
    assert_eq!(found.iter().filter(|w| **w == dog).count(), 1);
    let zq = WordPosition::new((0, 2), (0, 1));
    assert_eq!(found.iter().filter(|w| **w == zq).count(), 1);
    assert_eq!(found.len(), 2);
    assert_eq!(found, vec![zq, dog]);
}

#[test]
fn full_scan_is_deterministic_and_matches_the_tick_loop() {
    let b = grid(&["catx", "aaty", "tatc"]);
    let trie = Trie::from(&vec!["cat", "at", "ta", "tat"]);
    let first = find_words(&b, &trie);
    let second = find_words(&b, &trie);
    assert_eq!(first, second);
    let (driven, _) = drive(&b, &trie);
    assert_eq!(first, driven);
    assert!(first.contains(&WordPosition::new((0, 0), (0, 2))));
    assert!(first.contains(&WordPosition::new((2, 0), (2, 2))));
}

#[test]
fn overlapping_words_from_one_cell() {
    let b = grid(&["CATERPILLAR", "XXXXXXXXXXX"]);
    let trie = Trie::from(&vec!["CAT", "CATERPILLAR"]);
    let found = find_words(&b, &trie);
    assert_eq!(
        found,
        vec![
            WordPosition::new((0, 0), (0, 2)),
            WordPosition::new((0, 0), (0, 10)),
        ]
    );
}

#[test]
fn single_letter_word_is_reported_per_direction() {
    let b = grid(&["a"]);
    let trie = Trie::from(&vec!["a"]);
    let found = find_words(&b, &trie);
    assert_eq!(found.len(), 8);
    assert!(found.iter().all(|w| *w == WordPosition::new((0, 0), (0, 0))));
}

#[test]
fn scan_with_no_words_visits_every_cell_and_direction() {
    let b = grid3();
    let trie = Trie::new();
    assert!(find_words(&b, &trie).is_empty());
    let (found, ticks) = drive(&b, &trie);
    assert!(found.is_empty());
    // With nothing to match, every (cell, direction) pair is tried once at distance 0.
    assert_eq!(ticks, 9 * 8);
}

#[test]
fn palindrome_found_from_both_ends() {
    let b = grid(&["aba"]);
    let trie = Trie::from(&vec!["aba"]);
    let found = find_words(&b, &trie);
    assert_eq!(
        found,
        vec![WordPosition::new((0, 0), (0, 2)), WordPosition::new((0, 2), (0, 0))]
    );
}
