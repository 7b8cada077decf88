//! The driver of a scan: tick by tick, check the current candidate and move
//! on, until the last direction at the last cell is given up. The words it
//! reports are exactly the dictionary words that lie on the grid, in scan
//! order.
use crate::board::{canonical_order, lemma_span_eq, Board, Direction, WordPosition};
use crate::state::search_state::SearchState;
use crate::trie::{begins_some, is_prefix, Trie};
use vstd::prelude::*;

verus! {

/// A candidate in scan order: (row, column, rank of the direction, distance).
pub type ScanKey = (int, int, int, int);

/// The order in which a scan meets candidates.
pub open spec fn key_lt(a: ScanKey, b: ScanKey) -> bool {
    a.0 < b.0 || (a.0 == b.0 && (a.1 < b.1 || (a.1 == b.1 && (a.2 < b.2 || (a.2 == b.2 && a.3
        < b.3)))))
}

pub open spec fn key_of(s: SearchState) -> ScanKey {
    (s.position.0 as int, s.position.1 as int, s.direction.rank(), s.distance as int)
}

/// The `distance + 1` letters from `(r, c)` in direction `d` fit on the grid
/// and spell a word of `words`.
pub open spec fn word_at(
    board: &Board,
    words: Set<Seq<char>>,
    r: int,
    c: int,
    d: Direction,
    distance: int,
) -> bool {
    distance >= 0 && match board.extract(r, c, d, distance) {
        Some(w) => words.contains(w),
        None => false,
    }
}

/// The candidate `t` is a word of `words` on the grid.
pub open spec fn found_key(board: &Board, words: Set<Seq<char>>, t: ScanKey) -> bool {
    0 <= t.2 < 8 && word_at(board, words, t.0, t.1, canonical_order()[t.2], t.3)
}

/// `wp` is the span of candidate `t`.
pub open spec fn spans_key(board: &Board, wp: WordPosition, t: ScanKey) -> bool {
    &&& wp.start_spec() == (t.0 as usize, t.1 as usize)
    &&& Some(wp.end_spec()) == board.position_after(t.0, t.1, canonical_order()[t.2], t.3)
}

/// `keys` lists, in scan order, exactly the candidates that are words, and
/// `out` holds their spans.
pub open spec fn scan_trace(
    board: &Board,
    words: Set<Seq<char>>,
    keys: Seq<ScanKey>,
    out: Seq<WordPosition>,
) -> bool {
    &&& forall|i: int, j: int| 0 <= i < j < keys.len() ==> key_lt(#[trigger] keys[i], #[trigger] keys[j])
    &&& forall|t: ScanKey| #[trigger] keys.contains(t) <==> found_key(board, words, t)
    &&& out.len() == keys.len()
    &&& forall|i: int| 0 <= i < out.len() ==> spans_key(board, #[trigger] out[i], keys[i])
}

/// `out` is what a full scan of `board` against `words` reports.
pub open spec fn is_scan_result(board: &Board, words: Set<Seq<char>>, out: Seq<WordPosition>) -> bool {
    exists|keys: Seq<ScanKey>| #[trigger] scan_trace(board, words, keys, out)
}

/// Facts on the canonical order of the directions.
pub proof fn lemma_rank(d: Direction)
    ensures
        0 <= d.rank() < 8,
        canonical_order()[d.rank()] == d,
        d.successor() is None <==> d.rank() == 7,
        d.successor() matches Some(n) ==> n.rank() == d.rank() + 1,
        Direction::Up.rank() == 0,
{
    match d {
        Direction::Up => {},
        Direction::Down => {},
        Direction::Left => {},
        Direction::Right => {},
        Direction::UpRight => {},
        Direction::UpLeft => {},
        Direction::DownLeft => {},
        Direction::DownRight => {},
    }
}

/// A longer line holds a shorter one: when the first `k + 1` letters of a
/// line begin no word, or the line cannot grow past them, no longer line from
/// the same cell in the same direction is a word.
pub proof fn lemma_no_word_past(
    board: &Board,
    words: Set<Seq<char>>,
    r: int,
    c: int,
    d: Direction,
    k: int,
    k2: int,
)
    requires
        board.wf(),
        0 <= k < k2,
        match board.extract(r, c, d, k) {
            None => true,
            Some(w) => !begins_some(words, w) || board.extract(r, c, d, k + 1) is None,
        },
    ensures
        !word_at(board, words, r, c, d, k2),
{
    if word_at(board, words, r, c, d, k2) {
        let w2 = board.extract(r, c, d, k2)->0;
        assert(board.line_fits(r, c, d, k));
        assert(board.line_fits(r, c, d, k + 1)) by {
            assert forall|m: int| 0 <= m <= k + 1 implies #[trigger] board.fits_at(r, c, d, m) by {
                assert(board.fits_at(r, c, d, m));
            }
        }
        let w = board.extract(r, c, d, k)->0;
        assert(w2.subrange(0, w.len() as int) =~= w);
        assert(is_prefix(w, w2));
    }
}

/// No candidate strictly between the current state `s` and the state that
/// follows it when its direction is given up is a word.
proof fn lemma_skip_finds_nothing(board: &Board, words: Set<Seq<char>>, s: SearchState, t: ScanKey)
    requires
        board.wf(),
        board.in_bounds(s.position.0 as int, s.position.1 as int),
        s.distance >= 0,
        match board.extract(s.position.0 as int, s.position.1 as int, s.direction, s.distance as int) {
            None => true,
            Some(w) => !begins_some(words, w) || board.extract(
                s.position.0 as int,
                s.position.1 as int,
                s.direction,
                s.distance + 1,
            ) is None,
        },
        key_lt(key_of(s), t),
        board.skip_direction(s) matches Some(n) ==> key_lt(t, key_of(n)),
    ensures
        !found_key(board, words, t),
{
    let (r, c) = (s.position.0 as int, s.position.1 as int);
    lemma_rank(s.direction);
    lemma_rank(Direction::Up);
    if found_key(board, words, t) {
        let d = canonical_order()[t.2];
        assert(board.fits_at(t.0, t.1, d, 0));
        if t.0 == r && t.1 == c && t.2 == s.direction.rank() {
            lemma_no_word_past(board, words, r, c, s.direction, s.distance as int, t.3);
        }
        if let Some(n) = s.direction.successor() {
            lemma_rank(n);
        }
    }
}

/// The candidates of `keys` come strictly in scan order.
pub open spec fn in_scan_order(keys: Seq<ScanKey>) -> bool {
    forall|i: int, j: int| 0 <= i < j < keys.len() ==> key_lt(#[trigger] keys[i], #[trigger] keys[j])
}

/// Before state `s` is checked, `keys` lists in scan order exactly the
/// candidates met so far that are words.
pub open spec fn scan_inv(board: &Board, words: Set<Seq<char>>, s: SearchState, keys: Seq<ScanKey>) -> bool {
    &&& board.in_bounds(s.position.0 as int, s.position.1 as int)
    &&& 0 <= s.distance < i32::MAX
    &&& in_scan_order(keys)
    &&& forall|i: int| 0 <= i < keys.len() ==> key_lt(#[trigger] keys[i], key_of(s))
    &&& forall|t: ScanKey|
        key_lt(t, key_of(s)) ==> (#[trigger] keys.contains(t) <==> found_key(board, words, t))
}

/// `keys` with the candidate of `s` added when it is a word.
pub open spec fn keys_after(board: &Board, words: Set<Seq<char>>, s: SearchState, keys: Seq<ScanKey>) -> Seq<
    ScanKey,
> {
    if word_at(board, words, s.position.0 as int, s.position.1 as int, s.direction, s.distance as int) {
        keys.push(key_of(s))
    } else {
        keys
    }
}

/// One tick, checking state `s` and then moving on, keeps the record of the
/// words met; after the last tick the record holds every word on the grid.
proof fn lemma_tick(board: &Board, words: Set<Seq<char>>, s: SearchState, keys: Seq<ScanKey>)
    requires
        board.wf(),
        scan_inv(board, words, s, keys),
    ensures
        ({
            let c = board.after_check(words, s);
            let keys2 = keys_after(board, words, s, keys);
            match board.advance(c, c.feasible) {
                Some(n) => scan_inv(board, words, n, keys2),
                None => in_scan_order(keys2) && forall|t: ScanKey| #[trigger]
                    keys2.contains(t) <==> found_key(board, words, t),
            }
        }),
{
    let state = board.after_check(words, s);
    let keys2 = keys_after(board, words, s, keys);
    let k = key_of(s);
    let (r, c, d, dist) = (s.position.0 as int, s.position.1 as int, s.direction, s.distance as int);
    lemma_rank(d);
    let hit = word_at(board, words, r, c, d, dist);
    assert(found_key(board, words, k) <==> hit);
    assert(hit ==> keys2 == keys.push(k));
    assert(!hit ==> keys2 == keys);
    assert forall|t: ScanKey| key_lt(t, k) || t == k implies (#[trigger] keys2.contains(t)
        <==> found_key(board, words, t)) by {
        if t != k {
            if keys.contains(t) {
                let i = choose|i: int| 0 <= i < keys.len() && keys[i] == t;
                assert(keys2[i] == t);
            }
            if keys2.contains(t) {
                let i = choose|i: int| 0 <= i < keys2.len() && keys2[i] == t;
                if i < keys.len() as int {
                    assert(keys[i] == t);
                }
            }
        } else {
            if keys2.contains(t) && !hit {
                let i = choose|i: int| 0 <= i < keys2.len() && keys2[i] == t;
                assert(key_lt(keys[i], k));
            }
            if hit {
                assert(keys2[keys2.len() - 1] == t);
            }
        }
    }
    assert forall|i: int| 0 <= i < keys2.len() implies (key_lt(#[trigger] keys2[i], k) || keys2[i]
        == k) by {
        if i < keys.len() {
            assert(keys2[i] == keys[i]);
        }
    }
    assert(in_scan_order(keys2)) by {
        assert forall|i: int, j: int| 0 <= i < j < keys2.len() implies key_lt(
            #[trigger] keys2[i],
            #[trigger] keys2[j],
        ) by {
            if j < keys.len() {
                assert(keys2[i] == keys[i] && keys2[j] == keys[j]);
            } else {
                assert(keys2[i] == keys[i]);
            }
        }
    }
    if board.extract(r, c, d, dist) is Some {
        board.lemma_line_shorter_than_side(r, c, d, dist);
    }
    let feasible = state.feasible;
    match board.advance(state, feasible) {
        Some(next) => {
            let extends = board.extract(r, c, d, dist) is Some && feasible;
            if !extends {
                assert forall|t: ScanKey| key_lt(k, t) && key_lt(t, key_of(next)) implies !found_key(
                    board,
                    words,
                    t,
                ) by {
                    lemma_skip_finds_nothing(board, words, state, t);
                }
                if d.rank() == 7 {
                    assert(next.position == board.next_cell(r, c)->0);
                }
                if let Some(n) = d.successor() {
                    lemma_rank(n);
                }
            }
            assert forall|t: ScanKey| key_lt(t, key_of(next)) implies (#[trigger] keys2.contains(t)
                <==> found_key(board, words, t)) by {
                if !(key_lt(t, k) || t == k) {
                    assert(key_lt(k, t));
                    if keys2.contains(t) {
                        let i = choose|i: int| 0 <= i < keys2.len() && keys2[i] == t;
                        assert(key_lt(keys2[i], k) || keys2[i] == k);
                    }
                }
            }
            assert forall|i: int| 0 <= i < keys2.len() implies key_lt(
                #[trigger] keys2[i],
                key_of(next),
            ) by {
                assert(key_lt(keys2[i], k) || keys2[i] == k);
            }
        },
        None => {
            assert forall|t: ScanKey| #[trigger] keys2.contains(t) <==> found_key(board, words, t) by {
                if !(key_lt(t, k) || t == k) {
                    assert(key_lt(k, t));
                    lemma_skip_finds_nothing(board, words, state, t);
                    if keys2.contains(t) {
                        let i = choose|i: int| 0 <= i < keys2.len() && keys2[i] == t;
                        assert(key_lt(keys2[i], k) || keys2[i] == k);
                    }
                }
            }
        },
    }
}

/// The state in which every scan starts.
pub open spec fn initial_state() -> SearchState {
    SearchState { position: (0, 0), direction: Direction::Up, distance: 0, feasible: true }
}

/// Before the first check of a scan, no candidate has been met yet.
proof fn lemma_initial_inv(board: &Board, words: Set<Seq<char>>)
    requires
        board.wf(),
    ensures
        scan_inv(board, words, initial_state(), Seq::empty()),
{
    assert forall|t: ScanKey| key_lt(t, key_of(initial_state())) implies !found_key(board, words, t) by {
        if found_key(board, words, t) {
            assert(board.fits_at(t.0, t.1, canonical_order()[t.2], 0));
        }
    }
}

/// Runs a whole scan of `board` against `trie` and returns the spans of the
/// words found, in the order the scan meets them.
pub fn find_words(board: &Board, trie: &Trie) -> (out: Vec<WordPosition>)
    requires
        board.wf(),
        trie.wf(),
    ensures
        is_scan_result(board, trie@, out@),
{
    let mut state = SearchState::new();
    let mut out: Vec<WordPosition> = Vec::new();
    let ghost mut keys: Seq<ScanKey> = Seq::empty();
    let ghost words = trie@;
    proof {
        lemma_initial_inv(board, words);
    }
    loop
        invariant
            board.wf(),
            trie.wf(),
            words == trie@,
            scan_inv(board, words, state, keys),
            out@.len() == keys.len(),
            forall|i: int| 0 <= i < out@.len() ==> spans_key(board, #[trigger] out@[i], keys[i]),
        decreases
            board.num_rows() - state.position.0,
            board.num_cols() - state.position.1,
            8 - state.direction.rank(),
            i32::MAX - state.distance,
    {
        let ghost before = state;
        proof {
            lemma_tick(board, words, state, keys);
            lemma_rank(state.direction);
        }
        let found = board.check_state(&mut state, trie);
        match found {
            Some(wp) => {
                out.push(wp);
            },
            None => {},
        }
        proof {
            keys = keys_after(board, words, before, keys);
        }
        let feasible = state.feasible;
        match board.next_state(&state, feasible) {
            Some(next) => {
                proof {
                    let d = before.direction;
                    if let Some(n) = d.successor() {
                        lemma_rank(n);
                    }
                    if board.extract(
                        before.position.0 as int,
                        before.position.1 as int,
                        d,
                        before.distance as int,
                    ) is Some {
                        board.lemma_line_shorter_than_side(
                            before.position.0 as int,
                            before.position.1 as int,
                            d,
                            before.distance as int,
                        );
                    }
                }
                state = next;
            },
            None => {
                proof {
                    assert(scan_trace(board, words, keys, out@));
                }
                return out;
            },
        }
    }
}

/// The candidates that are words among the first `n` states of a run, in
/// the order they were met.
pub open spec fn keys_upto(board: &Board, words: Set<Seq<char>>, states: Seq<SearchState>, n: nat) -> Seq<
    ScanKey,
>
    decreases n,
{
    if n == 0 {
        Seq::empty()
    } else {
        keys_after(board, words, states[n - 1], keys_upto(board, words, states, (n - 1) as nat))
    }
}

/// `states` and `out` are what a driver sees when, from the initial state,
/// it calls `check_state` and then `next_state` with the flag that the check
/// left, tick after tick, until `next_state` gives no state: the states it
/// passes through, and the spans that `check_state` returned, in order.
pub open spec fn driver_run(
    board: &Board,
    words: Set<Seq<char>>,
    states: Seq<SearchState>,
    out: Seq<WordPosition>,
) -> bool {
    let n = states.len();
    let keys = keys_upto(board, words, states, n);
    &&& n >= 1
    &&& states[0] == initial_state()
    &&& forall|i: int|
        0 <= i < n - 1 ==> board.advance(
            board.after_check(words, #[trigger] states[i]),
            board.after_check(words, states[i]).feasible,
        ) == Some(states[i + 1])
    &&& board.advance(
        board.after_check(words, states[n - 1]),
        board.after_check(words, states[n - 1]).feasible,
    ) is None
    &&& out.len() == keys.len()
    &&& forall|i: int| 0 <= i < out.len() ==> spans_key(board, #[trigger] out[i], keys[i])
}

/// A run of the driver loop reports exactly the words on the grid, in scan
/// order.
pub proof fn lemma_driver_run_is_scan(
    board: &Board,
    words: Set<Seq<char>>,
    states: Seq<SearchState>,
    out: Seq<WordPosition>,
)
    requires
        board.wf(),
        driver_run(board, words, states, out),
    ensures
        is_scan_result(board, words, out),
{
    let n = states.len();
    lemma_driver_run_inv(board, words, states, out, (n - 1) as nat);
    lemma_tick(board, words, states[n - 1], keys_upto(board, words, states, (n - 1) as nat));
    assert(scan_trace(board, words, keys_upto(board, words, states, n), out));
}

proof fn lemma_driver_run_inv(
    board: &Board,
    words: Set<Seq<char>>,
    states: Seq<SearchState>,
    out: Seq<WordPosition>,
    m: nat,
)
    requires
        board.wf(),
        driver_run(board, words, states, out),
        m < states.len(),
    ensures
        scan_inv(board, words, states[m as int], keys_upto(board, words, states, m)),
    decreases m,
{
    if m == 0 {
        lemma_initial_inv(board, words);
    } else {
        lemma_driver_run_inv(board, words, states, out, (m - 1) as nat);
        lemma_tick(board, words, states[m - 1], keys_upto(board, words, states, (m - 1) as nat));
        assert(board.advance(
            board.after_check(words, states[m - 1]),
            board.after_check(words, states[m - 1]).feasible,
        ) == Some(states[m as int]));
    }
}

/// Two runs of the driver loop over the same grid and words pass through
/// the same states and report the same spans in the same order.
pub proof fn lemma_driver_deterministic(
    board: &Board,
    words: Set<Seq<char>>,
    states1: Seq<SearchState>,
    out1: Seq<WordPosition>,
    states2: Seq<SearchState>,
    out2: Seq<WordPosition>,
)
    requires
        board.wf(),
        driver_run(board, words, states1, out1),
        driver_run(board, words, states2, out2),
    ensures
        states1 == states2,
        out1 == out2,
{
    let n1 = states1.len() as int;
    let n2 = states2.len() as int;
    assert forall|i: int| 0 <= i < n1 && i < n2 implies states1[i] == states2[i] by {
        lemma_same_prefix(board, words, states1, out1, states2, out2, i as nat);
    }
    if n1 < n2 {
        assert(states1[n1 - 1] == states2[n1 - 1]);
        assert(board.advance(
            board.after_check(words, states2[n1 - 1]),
            board.after_check(words, states2[n1 - 1]).feasible,
        ) == Some(states2[n1]));
    } else if n2 < n1 {
        assert(states1[n2 - 1] == states2[n2 - 1]);
        assert(board.advance(
            board.after_check(words, states1[n2 - 1]),
            board.after_check(words, states1[n2 - 1]).feasible,
        ) == Some(states1[n2]));
    }
    assert(states1 =~= states2);
    lemma_driver_run_is_scan(board, words, states1, out1);
    lemma_driver_run_is_scan(board, words, states2, out2);
    lemma_scan_deterministic(board, words, out1, out2);
}

proof fn lemma_same_prefix(
    board: &Board,
    words: Set<Seq<char>>,
    states1: Seq<SearchState>,
    out1: Seq<WordPosition>,
    states2: Seq<SearchState>,
    out2: Seq<WordPosition>,
    m: nat,
)
    requires
        driver_run(board, words, states1, out1),
        driver_run(board, words, states2, out2),
        m < states1.len(),
        m < states2.len(),
    ensures
        states1[m as int] == states2[m as int],
    decreases m,
{
    if m > 0 {
        lemma_same_prefix(board, words, states1, out1, states2, out2, (m - 1) as nat);
        assert(board.advance(
            board.after_check(words, states1[m - 1]),
            board.after_check(words, states1[m - 1]).feasible,
        ) == Some(states1[m as int]));
        assert(board.advance(
            board.after_check(words, states2[m - 1]),
            board.after_check(words, states2[m - 1]).feasible,
        ) == Some(states2[m as int]));
    }
}

/// Two lists of candidates, each strictly in scan order and holding the
/// same candidates, are the same list.
proof fn lemma_sorted_keys_unique(a: Seq<ScanKey>, b: Seq<ScanKey>)
    requires
        forall|i: int, j: int| 0 <= i < j < a.len() ==> key_lt(#[trigger] a[i], #[trigger] a[j]),
        forall|i: int, j: int| 0 <= i < j < b.len() ==> key_lt(#[trigger] b[i], #[trigger] b[j]),
        forall|t: ScanKey| #[trigger] a.contains(t) <==> b.contains(t),
    ensures
        a == b,
    decreases a.len(),
{
    if a.len() == 0 {
        if b.len() > 0 {
            assert(b.contains(b[0]));
            assert(a.contains(b[0]));
        }
        assert(a =~= b);
    } else {
        assert(a.contains(a[0]));
        assert(b.len() > 0);
        assert(b.contains(b[0]));
        assert(a.contains(b[0]));
        assert(b.contains(a[0]));
        let i = choose|i: int| 0 <= i < a.len() && a[i] == b[0];
        let j = choose|j: int| 0 <= j < b.len() && b[j] == a[0];
        if i > 0 {
            assert(key_lt(a[0], a[i]));
        }
        if j > 0 {
            assert(key_lt(b[0], b[j]));
        }
        assert(a[0] == b[0]);
        let (a1, b1) = (a.drop_first(), b.drop_first());
        assert forall|t: ScanKey| #[trigger] a1.contains(t) <==> b1.contains(t) by {
            if a1.contains(t) {
                let k = choose|k: int| 0 <= k < a1.len() && a1[k] == t;
                assert(a[k + 1] == t);
                assert(key_lt(a[0], a[k + 1]));
                assert(a.contains(t));
                assert(b.contains(t));
                let m = choose|m: int| 0 <= m < b.len() && b[m] == t;
                assert(m != 0);
                assert(b1[m - 1] == t);
            }
            if b1.contains(t) {
                let k = choose|k: int| 0 <= k < b1.len() && b1[k] == t;
                assert(b[k + 1] == t);
                assert(key_lt(b[0], b[k + 1]));
                assert(b.contains(t));
                assert(a.contains(t));
                let m = choose|m: int| 0 <= m < a.len() && a[m] == t;
                assert(m != 0);
                assert(a1[m - 1] == t);
            }
        }
        lemma_sorted_keys_unique(a1, b1);
        assert(a =~= b) by {
            assert forall|k: int| 0 <= k < a.len() implies a[k] == b[k] by {
                if k > 0 {
                    assert(a[k] == a1[k - 1]);
                    assert(b[k] == b1[k - 1]);
                }
            }
        }
    }
}

/// Two full scans of the same grid against the same words report the same
/// spans in the same order.
pub proof fn lemma_scan_deterministic(
    board: &Board,
    words: Set<Seq<char>>,
    out1: Seq<WordPosition>,
    out2: Seq<WordPosition>,
)
    requires
        is_scan_result(board, words, out1),
        is_scan_result(board, words, out2),
    ensures
        out1 == out2,
{
    let keys1 = choose|keys: Seq<ScanKey>| #[trigger] scan_trace(board, words, keys, out1);
    let keys2 = choose|keys: Seq<ScanKey>| #[trigger] scan_trace(board, words, keys, out2);
    lemma_sorted_keys_unique(keys1, keys2);
    assert forall|i: int| 0 <= i < out1.len() implies out1[i] == out2[i] by {
        assert(spans_key(board, out1[i], keys1[i]));
        assert(spans_key(board, out2[i], keys2[i]));
        lemma_span_eq(out1[i], out2[i]);
    }
    assert(out1 =~= out2);
}

/// Distinct lines of two or more letters from one cell end in distinct cells.
proof fn lemma_line_end_determines_line(d: Direction, k: int, d2: Direction, k2: int)
    requires
        k >= 1,
        k2 >= 0,
        d.delta().0 * k == d2.delta().0 * k2,
        d.delta().1 * k == d2.delta().1 * k2,
    ensures
        d == d2,
        k == k2,
{
    assert(k == k2) by (nonlinear_arith)
        requires
            k >= 1,
            k2 >= 0,
            d.delta().0 * k == d2.delta().0 * k2,
            d.delta().1 * k == d2.delta().1 * k2,
            -1 <= d.delta().0 <= 1,
            -1 <= d.delta().1 <= 1,
            -1 <= d2.delta().0 <= 1,
            -1 <= d2.delta().1 <= 1,
            d.delta().0 != 0 || d.delta().1 != 0,
            d2.delta().0 != 0 || d2.delta().1 != 0,
    ;
    assert(d.delta() == d2.delta()) by (nonlinear_arith)
        requires
            k >= 1,
            k == k2,
            d.delta().0 * k == d2.delta().0 * k2,
            d.delta().1 * k == d2.delta().1 * k2,
    ;
}

/// A word of two or more letters that lies on the grid is reported by a full
/// scan exactly once: some reported span starts at its first cell and ends at
/// its last, and no other reported span does.
pub proof fn lemma_word_reported_once(
    board: &Board,
    words: Set<Seq<char>>,
    out: Seq<WordPosition>,
    r: int,
    c: int,
    d: Direction,
    k: int,
)
    requires
        board.wf(),
        is_scan_result(board, words, out),
        k >= 1,
        word_at(board, words, r, c, d, k),
    ensures
        board.position_after(r, c, d, k) is Some,
        exists|i: int|
            0 <= i < out.len() && (#[trigger] out[i]).start_spec() == (r as usize, c as usize)
                && Some(out[i].end_spec()) == board.position_after(r, c, d, k),
        forall|i1: int, i2: int|
            0 <= i1 < out.len() && 0 <= i2 < out.len() && (#[trigger] out[i1]).start_spec() == (
            r as usize,
            c as usize,
            ) && Some(out[i1].end_spec()) == board.position_after(r, c, d, k) && (
            #[trigger] out[i2]).start_spec() == (r as usize, c as usize) && Some(out[i2].end_spec())
                == board.position_after(r, c, d, k) ==> i1 == i2,
{
    let keys = choose|keys: Seq<ScanKey>| #[trigger] scan_trace(board, words, keys, out);
    lemma_rank(d);
    board.lemma_line_end(r, c, d, k);
    assert(board.fits_at(r, c, d, 0));
    let t = (r, c, d.rank(), k);
    assert(found_key(board, words, t));
    assert(keys.contains(t));
    let i = choose|i: int| 0 <= i < keys.len() && keys[i] == t;
    assert(spans_key(board, out[i], keys[i]));
    assert forall|i1: int, i2: int|
        0 <= i1 < out.len() && 0 <= i2 < out.len() && (#[trigger] out[i1]).start_spec() == (
        r as usize,
        c as usize,
        ) && Some(out[i1].end_spec()) == board.position_after(r, c, d, k) && (
        #[trigger] out[i2]).start_spec() == (r as usize, c as usize) && Some(out[i2].end_spec())
            == board.position_after(r, c, d, k) implies i1 == i2 by {
        assert forall|m: int|
            0 <= m < out.len() && (#[trigger] out[m]).start_spec() == (r as usize, c as usize)
                && Some(out[m].end_spec()) == board.position_after(r, c, d, k) implies keys[m] == t by {
            let km = keys[m];
            assert(spans_key(board, out[m], km));
            assert(keys.contains(km));
            assert(found_key(board, words, km));
            let dm = canonical_order()[km.2];
            assert(board.fits_at(km.0, km.1, dm, 0));
            board.lemma_line_end(km.0, km.1, dm, km.3);
            lemma_line_end_determines_line(d, k, dm, km.3);
            lemma_rank(dm);
        }
        if i1 != i2 {
            if i1 < i2 {
                assert(key_lt(keys[i1], keys[i2]));
            } else {
                assert(key_lt(keys[i2], keys[i1]));
            }
        }
    }
}

/// Words that share a root are all reported: when a line from one cell spells
/// a word at two different lengths of two or more letters, a full scan
/// reports two distinct spans from that cell, one ending at each length.
pub proof fn lemma_shared_root_both_reported(
    board: &Board,
    words: Set<Seq<char>>,
    out: Seq<WordPosition>,
    r: int,
    c: int,
    d: Direction,
    k1: int,
    k2: int,
)
    requires
        board.wf(),
        is_scan_result(board, words, out),
        1 <= k1 < k2,
        word_at(board, words, r, c, d, k1),
        word_at(board, words, r, c, d, k2),
    ensures
        exists|i1: int, i2: int|
            0 <= i1 < out.len() && 0 <= i2 < out.len() && i1 != i2 && (#[trigger] out[i1]).start_spec()
                == (r as usize, c as usize) && Some(out[i1].end_spec()) == board.position_after(r, c, d, k1)
                && (#[trigger] out[i2]).start_spec() == (r as usize, c as usize) && Some(
                out[i2].end_spec(),
            ) == board.position_after(r, c, d, k2),
{
    lemma_word_reported_once(board, words, out, r, c, d, k1);
    lemma_word_reported_once(board, words, out, r, c, d, k2);
    let i1 = choose|i: int|
        0 <= i < out.len() && (#[trigger] out[i]).start_spec() == (r as usize, c as usize) && Some(
            out[i].end_spec(),
        ) == board.position_after(r, c, d, k1);
    let i2 = choose|i: int|
        0 <= i < out.len() && (#[trigger] out[i]).start_spec() == (r as usize, c as usize) && Some(
            out[i].end_spec(),
        ) == board.position_after(r, c, d, k2);
    if i1 == i2 {
        board.lemma_line_end(r, c, d, k1);
        board.lemma_line_end(r, c, d, k2);
        lemma_line_end_determines_line(d, k2, d, k1);
    }
}

/// A word of two or more letters that lies on the grid is reported by a run
/// of the driver loop exactly once: some span that `check_state` returned
/// starts at its first cell and ends at its last, and no other one does.
pub proof fn lemma_driver_reports_word_once(
    board: &Board,
    words: Set<Seq<char>>,
    states: Seq<SearchState>,
    out: Seq<WordPosition>,
    r: int,
    c: int,
    d: Direction,
    k: int,
)
    requires
        board.wf(),
        driver_run(board, words, states, out),
        k >= 1,
        word_at(board, words, r, c, d, k),
    ensures
        board.position_after(r, c, d, k) is Some,
        exists|i: int|
            0 <= i < out.len() && (#[trigger] out[i]).start_spec() == (r as usize, c as usize)
                && Some(out[i].end_spec()) == board.position_after(r, c, d, k),
        forall|i1: int, i2: int|
            0 <= i1 < out.len() && 0 <= i2 < out.len() && (#[trigger] out[i1]).start_spec() == (
            r as usize,
            c as usize,
            ) && Some(out[i1].end_spec()) == board.position_after(r, c, d, k) && (
            #[trigger] out[i2]).start_spec() == (r as usize, c as usize) && Some(out[i2].end_spec())
                == board.position_after(r, c, d, k) ==> i1 == i2,
{
    lemma_driver_run_is_scan(board, words, states, out);
    lemma_word_reported_once(board, words, out, r, c, d, k);
}

/// Words that share a root are all reported by a run of the driver loop:
/// when a line from one cell spells a word at two different lengths of two
/// or more letters, two distinct returned spans start at that cell, one
/// ending at each length.
pub proof fn lemma_driver_reports_shared_root(
    board: &Board,
    words: Set<Seq<char>>,
    states: Seq<SearchState>,
    out: Seq<WordPosition>,
    r: int,
    c: int,
    d: Direction,
    k1: int,
    k2: int,
)
    requires
        board.wf(),
        driver_run(board, words, states, out),
        1 <= k1 < k2,
        word_at(board, words, r, c, d, k1),
        word_at(board, words, r, c, d, k2),
    ensures
        exists|i1: int, i2: int|
            0 <= i1 < out.len() && 0 <= i2 < out.len() && i1 != i2 && (#[trigger] out[i1]).start_spec()
                == (r as usize, c as usize) && Some(out[i1].end_spec()) == board.position_after(r, c, d, k1)
                && (#[trigger] out[i2]).start_spec() == (r as usize, c as usize) && Some(
                out[i2].end_spec(),
            ) == board.position_after(r, c, d, k2),
{
    lemma_driver_run_is_scan(board, words, states, out);
    lemma_shared_root_both_reported(board, words, out, r, c, d, k1, k2);
}

/// `find_words` returns what a run of the driver loop reports.
pub proof fn lemma_find_words_is_driver_run(
    board: &Board,
    words: Set<Seq<char>>,
    found: Seq<WordPosition>,
    states: Seq<SearchState>,
    out: Seq<WordPosition>,
)
    requires
        board.wf(),
        is_scan_result(board, words, found),
        driver_run(board, words, states, out),
    ensures
        found == out,
{
    lemma_driver_run_is_scan(board, words, states, out);
    lemma_scan_deterministic(board, words, found, out);
}

} // verus!
