use word_search_solver::board::{Board, Direction, GridError, WordPosition};

fn grid3() -> Board {
    Board::new(&vec![
        vec!['a', 'b', 'c'],
        vec!['d', 'e', 'f'],
        vec!['g', 'h', 'i'],
    ])
    .unwrap()
}

#[test]
fn test_get_letter() {
    let b = grid3();
    assert_eq!(b.get_letter(Some(0), Some(0)), Some("a".to_string()));
    assert_eq!(b.get_letter(Some(0), Some(1)), Some("b".to_string()));
    assert_eq!(b.get_letter(Some(0), Some(2)), Some("c".to_string()));
}

#[test]
fn test_get_string_from_direction() {
    let b = grid3();
    assert_eq!(
        b.get_string_from_direction(0, 0, &Direction::Right, 2),
        Some("abc".to_string())
    );
    assert_eq!(
        b.get_string_from_direction(0, 0, &Direction::Down, 2),
        Some("adg".to_string())
    );
    assert_eq!(
        b.get_string_from_direction(0, 0, &Direction::DownRight, 2),
        Some("aei".to_string())
    );
    assert_eq!(b.get_string_from_direction(0, 0, &Direction::Left, 2), None);
    assert_eq!(b.get_string_from_direction(0, 0, &Direction::Up, 1), None);
}

#[test]
fn test_add() {
    assert_eq!(Board::add(0, 1), Some(1));
    assert_eq!(Board::add(0, -1), None);
    assert_eq!(Board::add(2, -1), Some(1));
}

#[test]
fn add_handles_extremes() {
    assert_eq!(Board::add(usize::MAX, 1), None);
    assert_eq!(Board::add(5, i32::MIN), None);
    assert_eq!(Board::add(1 << 31, i32::MIN), Some(0));
}

#[test]
fn get_letter_missing_or_off_grid() {
    let b = grid3();
    assert_eq!(b.get_letter(None, Some(0)), None);
    assert_eq!(b.get_letter(Some(0), None), None);
    assert_eq!(b.get_letter(None, None), None);
    assert_eq!(b.get_letter(Some(3), Some(0)), None);
    assert_eq!(b.get_letter(Some(0), Some(3)), None);
    assert_eq!(b.get_letter(Some(2), Some(2)), Some("i".to_string()));
}

#[test]
fn extract_in_every_direction() {
    let b = grid3();
    assert_eq!(b.get_string_from_direction(1, 1, &Direction::Up, 1), Some("eb".to_string()));
    assert_eq!(b.get_string_from_direction(1, 1, &Direction::Down, 1), Some("eh".to_string()));
    assert_eq!(b.get_string_from_direction(1, 1, &Direction::Left, 1), Some("ed".to_string()));
    assert_eq!(b.get_string_from_direction(1, 1, &Direction::Right, 1), Some("ef".to_string()));
    assert_eq!(b.get_string_from_direction(1, 1, &Direction::UpRight, 1), Some("ec".to_string()));
    assert_eq!(b.get_string_from_direction(1, 1, &Direction::UpLeft, 1), Some("ea".to_string()));
    assert_eq!(b.get_string_from_direction(1, 1, &Direction::DownRight, 1), Some("ei".to_string()));
    assert_eq!(b.get_string_from_direction(1, 1, &Direction::DownLeft, 1), Some("eg".to_string()));
    assert_eq!(b.get_string_from_direction(2, 2, &Direction::UpLeft, 2), Some("iea".to_string()));
    assert_eq!(b.get_string_from_direction(0, 0, &Direction::UpRight, 2), None);
    assert_eq!(b.get_string_from_direction(0, 0, &Direction::DownLeft, 2), None);
    assert_eq!(b.get_string_from_direction(0, 0, &Direction::Right, 3), None);
}

#[test]
fn extract_at_distance_zero_is_the_cell() {
    let b = grid3();
    let all = Direction::iterator();
    for r in 0..3 {
        for c in 0..3 {
            for d in all.iter() {
                let s = b.get_string_from_direction(r, c, d, 0);
                assert_eq!(s, b.get_letter(Some(r), Some(c)));
            }
        }
    }
}

#[test]
fn position_after_scenarios() {
    let b = grid3();
    assert_eq!(b.get_pos_from_direction(0, 0, &Direction::Right, 2), Some((0, 2)));
    assert_eq!(b.get_pos_from_direction(0, 0, &Direction::Down, 2), Some((2, 0)));
    assert_eq!(b.get_pos_from_direction(0, 0, &Direction::Left, 2), None);
    assert_eq!(b.get_pos_from_direction(2, 2, &Direction::UpLeft, 2), Some((0, 0)));
    assert_eq!(b.get_pos_from_direction(1, 1, &Direction::DownLeft, 0), Some((1, 1)));
}

#[test]
fn position_after_stays_on_the_grid() {
    let b = grid3();
    assert_eq!(b.get_pos_from_direction(0, 0, &Direction::Right, 5), None);
    assert_eq!(b.get_pos_from_direction(0, 0, &Direction::Right, 3), None);
    assert_eq!(b.get_pos_from_direction(0, 0, &Direction::Down, 3), None);
    assert_eq!(b.get_pos_from_direction(0, 0, &Direction::DownRight, 3), None);
}

#[test]
fn position_agrees_with_extraction() {
    let b = grid3();
    for r in 0..3usize {
        for c in 0..3usize {
            for d in Direction::iterator().iter() {
                for k in 0..5i32 {
                    let pos = b.get_pos_from_direction(r, c, d, k);
                    let s = b.get_string_from_direction(r, c, d, k);
                    assert_eq!(pos.is_some(), s.is_some());
                    if let (Some((er, ec)), Some(s)) = (pos, s) {
                        assert_eq!(s.chars().last(), Some(b.letters[er][ec]));
                    }
                }
            }
        }
    }
}

#[test]
fn next_pos_walks_row_major() {
    let b = grid3();
    assert_eq!(b.next_pos(0, 0), Some((0, 1)));
    assert_eq!(b.next_pos(0, 2), Some((1, 0)));
    assert_eq!(b.next_pos(2, 2), None);
    let mut seen = vec![(0usize, 0usize)];
    let mut cur = (0usize, 0usize);
    while let Some(p) = b.next_pos(cur.0, cur.1) {
        seen.push(p);
        cur = p;
    }
    assert_eq!(seen.len(), 9);
    for (n, p) in seen.iter().enumerate() {
        assert_eq!(*p, (n / 3, n % 3));
    }
}

#[test]
fn next_pos_on_one_cell_grid() {
    let b = Board::new(&vec![vec!['z']]).unwrap();
    assert_eq!(b.next_pos(0, 0), None);
}

#[test]
fn new_rejects_empty_and_ragged() {
    assert_eq!(Board::new(&vec![]).err(), Some(GridError::Empty));
    assert_eq!(Board::new(&vec![vec![]]).err(), Some(GridError::Empty));
    assert_eq!(
        Board::new(&vec![vec!['a', 'b'], vec!['c']]).err(),
        Some(GridError::Ragged)
    );
    let b = Board::new(&vec![vec!['a', 'b'], vec!['c', 'd'], vec!['e', 'f']]).unwrap();
    assert_eq!(b.get_rows(), 3);
    assert_eq!(b.get_cols(), 2);
}

#[test]
fn two_d_positions() {
    let b = grid3();
    assert_eq!(b.get_2d_position(0), (0, 0));
    assert_eq!(b.get_2d_position(1), (0, 1));
    assert_eq!(b.get_2d_position(2), (0, 2));
    assert_eq!(b.get_2d_position(3), (1, 0));
    assert_eq!(b.get_2d_position(4), (1, 1));
    assert_eq!(b.get_2d_position(8), (2, 2));
}

#[test]
fn words_from_1d_positions() {
    let b = grid3();
    assert_eq!(b.get_word_from_1d_position(0, 2), "abc");
    assert_eq!(b.get_word_from_1d_position(0, 4), "ae");
    assert_eq!(b.get_word_from_1d_position(0, 8), "aei");
    assert_eq!(b.get_word_from_1d_position(1, 5), "bf");
    assert_eq!(b.get_word_from_1d_position(2, 4), "ce");
    assert_eq!(b.get_word_from_1d_position(2, 0), "cba");
    assert_eq!(b.get_word_from_1d_position(4, 0), "ea");
    assert_eq!(b.get_word_from_1d_position(6, 0), "gda");
    assert_eq!(b.get_word_from_1d_position(4, 4), "e");
    assert_eq!(b.get_word_from_1d_position(0, 7), "ae");
}

#[test]
fn word_position_to_1d() {
    let wp = WordPosition::new((1, 2), (4, 4));
    assert_eq!(wp.to_1d(5), (7, 24));
    assert_eq!(wp.start(), (1, 2));
    assert_eq!(wp.end(), (4, 4));
}

#[test]
fn directions_in_canonical_order() {
    let all = Direction::iterator();
    assert_eq!(
        all,
        vec![
            Direction::Up,
            Direction::Down,
            Direction::Left,
            Direction::Right,
            Direction::UpRight,
            Direction::UpLeft,
            Direction::DownLeft,
            Direction::DownRight,
        ]
    );
    for w in all.windows(2) {
        assert_eq!(w[0].next(), Some(w[1]));
    }
    assert_eq!(Direction::DownRight.next(), None);
    assert_eq!(Direction::default(), Direction::Up);
}

#[test]
fn coord_diffs() {
    let expected = [
        (Direction::Up, (-1, 0)),
        (Direction::Down, (1, 0)),
        (Direction::Left, (0, -1)),
        (Direction::Right, (0, 1)),
        (Direction::UpRight, (-1, 1)),
        (Direction::UpLeft, (-1, -1)),
        (Direction::DownRight, (1, 1)),
        (Direction::DownLeft, (1, -1)),
    ];
    for (d, (dr, dc)) in expected.iter() {
        let cd = d.to_coord_diff();
        assert_eq!((cd.0, cd.1), (*dr, *dc));
    }
}
