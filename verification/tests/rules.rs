use backend::grid::{reverse, transpose};
use backend::tiles::{merge_row, slide_row, Tile};
use backend::{Direction, Game, Pair, PushResult, DEFAULT_SIZE, MAX_SIZE, MIN_SIZE};
use rand::rngs::StdRng;
use rand::{RngCore, SeedableRng};

const SEED: u64 = 10126721102020240073;

fn tiles_on(board: &Vec<Vec<u64>>) -> usize {
    board.iter().flatten().filter(|&&v| v != 0).count()
}

fn sum_of(board: &Vec<Vec<u64>>) -> u64 {
    board.iter().flatten().sum()
}

fn direction(step: u64) -> Direction {
    match step % 4 {
        0 => Direction::L,
        1 => Direction::U,
        2 => Direction::R,
        _ => Direction::D,
    }
}

fn row_of(values: &[u64]) -> Vec<Tile> {
    values
        .iter()
        .enumerate()
        .map(|(j, &value)| Tile {
            value,
            origin: if value != 0 { Pair::from((0, j)) } else { Pair::from(()) },
        })
        .collect()
}

fn values_of(row: &[Tile]) -> Vec<u64> {
    row.iter().map(|tile| tile.value).collect()
}

fn pushed_row(values: &[u64]) -> (Vec<u64>, u64) {
    let mut row = row_of(values);
    let mut score = 0;
    slide_row(&mut row);
    merge_row(&mut row, &mut score);
    slide_row(&mut row);
    (values_of(&row), score)
}

#[test]
fn sizes_outside_three_to_ten_are_rejected() {
    for h in 0..=20 {
        for w in 0..=20 {
            let valid = (3..=10).contains(&h) && (3..=10).contains(&w);
            assert_eq!(Game::from_seed(h, w, 1, 42).is_some(), valid, "{h}x{w}");
            assert_eq!(Game::new(h, w, 1).is_some(), valid, "{h}x{w}");
        }
    }
    assert!(Game::from_seed(usize::MAX, 4, 1, 42).is_none());
    assert!(Game::from_seed(4, usize::MAX, 1, 42).is_none());
}

#[test]
fn size_constants() {
    assert_eq!(MIN_SIZE, 3);
    assert_eq!(DEFAULT_SIZE, 4);
    assert_eq!(MAX_SIZE, 10);
}

#[test]
fn a_new_game_has_two_tiles_and_no_score() {
    for h in 3..=10 {
        for w in 3..=10 {
            for seed in 0..20 {
                let game = Game::from_seed(h, w, 3, seed).unwrap();
                assert_eq!(game.height(), h);
                assert_eq!(game.width(), w);
                assert_eq!(game.board().len(), h);
                assert!(game.board().iter().all(|row| row.len() == w));
                assert_eq!(tiles_on(game.board()), 2);
                assert!(game.board().iter().flatten().all(|&v| v == 0 || v == 2 || v == 4));
                assert_eq!(game.score(), 0);
                assert_eq!(game.max_history(), 3);
                assert_eq!(game.seed(), seed);
                assert!(game.history().is_empty());
            }
        }
    }
}

#[test]
fn the_default_game_is_four_by_four_with_one_undo() {
    let game = Game::default();
    assert_eq!(game.height(), 4);
    assert_eq!(game.width(), 4);
    assert_eq!(game.max_history(), 1);
    assert_eq!(tiles_on(game.board()), 2);
    assert_eq!(game.score(), 0);
}

#[test]
fn the_same_seed_gives_the_same_game() {
    let mut first = Game::from_seed(5, 6, 4, 99).unwrap();
    let mut second = Game::from_seed(5, 6, 4, 99).unwrap();
    assert_eq!(first.board(), second.board());
    for step in 0..200 {
        assert_eq!(first.push(direction(step)), second.push(direction(step)));
        assert_eq!(first.board(), second.board());
        assert_eq!(first.score(), second.score());
    }
}

#[test]
fn maximal_history_bound_allocates_lazily() {
    let mut game = Game::from_seed(4, 4, usize::MAX, 3).unwrap();
    assert_eq!(game.max_history(), usize::MAX);
    assert!(game.history().is_empty());
    let mut moved = 0;
    for step in 0..40 {
        if game.push(direction(step)).is_some() {
            moved += 1;
        }
    }
    assert_eq!(game.history().len(), moved);
}

#[test]
fn spawns_follow_the_generator_cell_first_then_value() {
    for seed in 0..200u64 {
        let game = Game::from_seed(4, 5, 1, seed).unwrap();
        let mut rng = StdRng::seed_from_u64(seed);
        let mut expected = vec![vec![0u64; 5]; 4];
        for _ in 0..2 {
            let (mut i, mut j) = (rng.next_u32() as usize % 4, rng.next_u32() as usize % 5);
            while expected[i][j] != 0 {
                i = rng.next_u32() as usize % 4;
                j = rng.next_u32() as usize % 5;
            }
            expected[i][j] = if rng.next_u32() % 10 == 0 { 4 } else { 2 };
        }
        assert_eq!(*game.board(), expected, "seed {seed}");
    }
}

#[test]
fn new_tiles_are_two_or_four_and_four_is_the_rarer() {
    let mut game = Game::from_seed(10, 10, 0, 5).unwrap();
    let (mut twos, mut fours) = (0, 0);
    for step in 0..2000 {
        if let Some(result) = game.push(direction(step)) {
            match result.spawned_value {
                2 => twos += 1,
                4 => fours += 1,
                other => panic!("spawned {other}"),
            }
        }
    }
    assert!(fours > 0);
    assert!(twos > 5 * fours);
}

#[test]
fn a_row_slides_and_merges_once() {
    assert_eq!(pushed_row(&[0, 0, 0, 0]), (vec![0, 0, 0, 0], 0));
    assert_eq!(pushed_row(&[0, 0, 2, 0]), (vec![2, 0, 0, 0], 0));
    assert_eq!(pushed_row(&[2, 0, 0, 0]), (vec![2, 0, 0, 0], 0));
    assert_eq!(pushed_row(&[2, 0, 2, 0]), (vec![4, 0, 0, 0], 4));
    assert_eq!(pushed_row(&[2, 2, 2, 2]), (vec![4, 4, 0, 0], 8));
    assert_eq!(pushed_row(&[2, 2, 2, 0]), (vec![4, 2, 0, 0], 4));
    assert_eq!(pushed_row(&[4, 2, 2, 0]), (vec![4, 4, 0, 0], 4));
    assert_eq!(pushed_row(&[2, 2, 4, 8]), (vec![4, 4, 8, 0], 4));
    assert_eq!(pushed_row(&[2, 4, 2, 4]), (vec![2, 4, 2, 4], 0));
    assert_eq!(pushed_row(&[0, 4, 0, 4, 8, 8, 0, 16, 16, 16]), (vec![8, 16, 32, 16, 0, 0, 0, 0, 0, 0], 56));
    assert_eq!(pushed_row(&[]), (vec![], 0));
    assert_eq!(pushed_row(&[8]), (vec![8], 0));
}

#[test]
fn merging_two_fours_scores_eight() {
    let mut row = row_of(&[4, 4, 0]);
    let mut score = 100;
    merge_row(&mut row, &mut score);
    assert_eq!(score, 108);
    assert_eq!(values_of(&row), vec![8, 0, 0]);
}

#[test]
fn the_merging_scan_leaves_gaps_and_keeps_origins() {
    let mut row = row_of(&[2, 2, 2, 2]);
    let mut score = 0;
    merge_row(&mut row, &mut score);
    assert_eq!(values_of(&row), vec![4, 0, 4, 0]);
    assert_eq!(row[0].origin, Pair::from(((0, 0), (0, 1))));
    assert_eq!(row[1].origin, Pair::from(()));
    assert_eq!(row[2].origin, Pair::from(((0, 2), (0, 3))));
    assert_eq!(row[0].origin.first, Some((0, 0)));
    assert_eq!(row[0].origin.second, Some((0, 1)));
    slide_row(&mut row);
    assert_eq!(values_of(&row), vec![4, 4, 0, 0]);
    assert_eq!(row[1].origin.first, Some((0, 2)));
    assert_eq!(row[1].origin.second, Some((0, 3)));
    assert_eq!(row[2].origin, Pair::from(()));
}

#[test]
fn sliding_keeps_the_order_of_the_tiles() {
    let mut row = row_of(&[0, 8, 0, 2, 4, 0]);
    slide_row(&mut row);
    assert_eq!(values_of(&row), vec![8, 2, 4, 0, 0, 0]);
    assert_eq!(row[0].origin, Pair::from((0, 1)));
    assert_eq!(row[1].origin, Pair::from((0, 3)));
    assert_eq!(row[2].origin, Pair::from((0, 4)));
}

#[test]
fn reverse_turns_every_row_around() {
    let mut matrix = vec![vec![1, 2, 3], vec![4, 5, 6]];
    reverse(&mut matrix);
    assert_eq!(matrix, vec![vec![3, 2, 1], vec![6, 5, 4]]);
    reverse(&mut matrix);
    assert_eq!(matrix, vec![vec![1, 2, 3], vec![4, 5, 6]]);
    let mut words = vec![vec![String::from("a"), String::from("b")], vec![]];
    reverse(&mut words);
    assert_eq!(words, vec![vec![String::from("b"), String::from("a")], vec![]]);
    let mut nothing: Vec<Vec<u8>> = vec![];
    reverse(&mut nothing);
    assert!(nothing.is_empty());
}

#[test]
fn transpose_exchanges_rows_and_columns() {
    let mut matrix = vec![vec![1, 2, 3], vec![4, 5, 6]];
    transpose(&mut matrix);
    assert_eq!(matrix, vec![vec![1, 4], vec![2, 5], vec![3, 6]]);
    transpose(&mut matrix);
    assert_eq!(matrix, vec![vec![1, 2, 3], vec![4, 5, 6]]);
}

#[test]
fn the_score_never_drops_and_grows_by_the_merged_tiles() {
    for seed in 0..30 {
        let mut game = Game::from_seed(4, 4, 2, seed).unwrap();
        for step in 0..400 {
            let before = game.board().clone();
            let score = game.score();
            let result = game.push(direction(step + seed));
            assert!(game.score() >= score);
            if let Some(result) = result {
                assert_eq!(result.new_score, game.score());
                let mut merged = 0;
                for (i, row) in result.transitions.iter().enumerate() {
                    for (j, pair) in row.iter().enumerate() {
                        if pair.second.is_some() {
                            let mut value = game.board()[i][j];
                            if (i, j) == (result.spawned_row, result.spawned_col) {
                                value = 0;
                            }
                            let (a, b) = (pair.first.unwrap(), pair.second.unwrap());
                            assert_eq!(before[a.0][a.1] * 2, value);
                            assert_eq!(before[b.0][b.1] * 2, value);
                            merged += value;
                        }
                    }
                }
                assert_eq!(game.score(), score + merged);
            } else {
                assert_eq!(game.score(), score);
            }
        }
    }
}

#[test]
fn a_push_adds_only_the_new_tile_to_the_board() {
    for seed in 0..30 {
        let mut game = Game::from_seed(5, 3, 2, seed).unwrap();
        for step in 0..400 {
            let sum = sum_of(game.board());
            let tiles = tiles_on(game.board());
            match game.push(direction(step)) {
                Some(result) => {
                    assert_eq!(sum_of(game.board()), sum + result.spawned_value);
                    assert_eq!(
                        game.board()[result.spawned_row][result.spawned_col],
                        result.spawned_value
                    );
                    assert!(tiles_on(game.board()) <= tiles + 1);
                }
                None => assert_eq!(sum_of(game.board()), sum),
            }
            assert!(game
                .board()
                .iter()
                .flatten()
                .all(|&v| v == 0 || (v >= 2 && v.is_power_of_two())));
        }
    }
}

#[test]
fn a_push_without_a_merge_adds_the_new_tile_and_no_score() {
    let mut game = Game::from_seed(4, 4, 2, SEED).unwrap();
    let sum = sum_of(game.board());
    let result = game.push(Direction::L).unwrap();
    assert_eq!(game.score(), 0);
    assert_eq!(sum_of(game.board()), sum + result.spawned_value + game.score());
}

#[test]
fn transitions_tell_where_every_tile_came_from() {
    for seed in 0..20 {
        let mut game = Game::from_seed(3, 6, 1, seed).unwrap();
        for step in 0..300 {
            let before = game.board().clone();
            let Some(result) = game.push(direction(step)) else {
                continue;
            };
            let spawn = (result.spawned_row, result.spawned_col);
            assert_eq!(result.transitions.len(), 3);
            let mut used = vec![vec![false; 6]; 3];
            for (i, row) in result.transitions.iter().enumerate() {
                assert_eq!(row.len(), 6);
                for (j, pair) in row.iter().enumerate() {
                    let value = if (i, j) == spawn { 0 } else { game.board()[i][j] };
                    match (pair.first, pair.second) {
                        (None, None) => {
                            if value != 0 {
                                assert_eq!(value, before[i][j]);
                                used[i][j] = true;
                            }
                        }
                        (Some(a), None) => {
                            assert_ne!(a, (i, j));
                            assert_eq!(before[a.0][a.1], value);
                            assert!(!used[a.0][a.1]);
                            used[a.0][a.1] = true;
                        }
                        (Some(a), Some(b)) => {
                            assert_ne!(a, b);
                            for origin in [a, b] {
                                assert_eq!(before[origin.0][origin.1] * 2, value);
                                assert!(!used[origin.0][origin.1]);
                                used[origin.0][origin.1] = true;
                            }
                        }
                        (None, Some(_)) => panic!("second origin without a first"),
                    }
                }
            }
            for i in 0..3 {
                for j in 0..6 {
                    assert_eq!(used[i][j], before[i][j] != 0);
                }
            }
        }
    }
}

#[test]
fn tiles_move_toward_the_edge_of_the_push() {
    for seed in 0..20 {
        for (d, pick) in [Direction::L, Direction::R, Direction::U, Direction::D]
            .into_iter()
            .zip(0..4)
        {
            let mut game = Game::from_seed(4, 7, 1, seed).unwrap();
            let Some(result) = game.push(d) else {
                continue;
            };
            let (h, w) = (game.height(), game.width());
            let mut board = game.board().clone();
            board[result.spawned_row][result.spawned_col] = 0;
            for i in 0..h {
                for j in 0..w {
                    if board[i][j] == 0 {
                        continue;
                    }
                    let nearer = match pick {
                        0 => (j > 0).then(|| board[i][j - 1]),
                        1 => (j + 1 < w).then(|| board[i][j + 1]),
                        2 => (i > 0).then(|| board[i - 1][j]),
                        _ => (i + 1 < h).then(|| board[i + 1][j]),
                    };
                    assert_ne!(nearer, Some(0));
                }
            }
        }
    }
}

#[test]
fn pushes_work_on_boards_that_are_not_square() {
    let mut tall = Game::from_seed(10, 3, 5, 8).unwrap();
    let mut wide = Game::from_seed(3, 10, 5, 8).unwrap();
    for step in 0..500 {
        for game in [&mut tall, &mut wide] {
            let (h, w) = (game.height(), game.width());
            if let Some(result) = game.push(direction(step)) {
                assert_eq!(result.transitions.len(), h);
                assert!(result.transitions.iter().all(|row| row.len() == w));
                assert!(result.spawned_row < h && result.spawned_col < w);
            }
            assert_eq!(game.board().len(), h);
            assert!(game.board().iter().all(|row| row.len() == w));
        }
    }
}

#[test]
fn undo_restores_board_score_and_the_spawns_to_come() {
    for seed in 0..30 {
        let mut game = Game::from_seed(4, 4, 3, seed).unwrap();
        for step in 0..100 {
            let board = game.board().clone();
            let score = game.score();
            let d = direction(step);
            let Some(first) = game.push(d) else {
                continue;
            };
            let after = game.board().clone();
            assert!(game.undo());
            assert_eq!(*game.board(), board);
            assert_eq!(game.score(), score);
            let again = game.push(d).unwrap();
            assert_eq!(again, first);
            assert_eq!(*game.board(), after);
        }
    }
}

#[test]
fn a_push_that_moves_nothing_changes_nothing() {
    let mut game = Game::from_seed(4, 4, 2, SEED).unwrap();
    assert!(game.push(Direction::L).is_some());
    assert!(game.push(Direction::L).is_some());
    let mut idle = 0;
    for step in 0..200 {
        let board = game.board().clone();
        let score = game.score();
        let history = game.history().len();
        let d = direction(step);
        let mut probe = game.clone();
        if probe.push(d).is_none() {
            idle += 1;
            assert!(game.push(d).is_none());
            assert_eq!(*game.board(), board);
            assert_eq!(game.score(), score);
            assert_eq!(game.history().len(), history);
            assert!(game.push(d).is_none());
            assert_eq!(*game.board(), board);
        } else {
            game.push(d);
        }
    }
    assert!(idle > 0);
}

#[test]
fn the_history_holds_at_most_its_bound() {
    for max_history in 0..6 {
        let mut game = Game::from_seed(4, 4, max_history, 17).unwrap();
        let mut moved = 0;
        let mut step = 0;
        while moved <= max_history {
            if game.push(direction(step)).is_some() {
                moved += 1;
            }
            assert!(game.history().len() <= max_history);
            step += 1;
        }
        assert_eq!(game.history().len(), max_history);
        for _ in 0..max_history {
            assert!(game.undo());
        }
        assert!(!game.undo());
        assert!(!game.undo());
    }
}

#[test]
fn without_history_there_is_no_undo() {
    let mut game = Game::from_seed(4, 4, 0, SEED).unwrap();
    assert!(!game.undo());
    assert!(game.push(Direction::L).is_some());
    let board = game.board().clone();
    assert!(game.history().is_empty());
    assert!(!game.undo());
    assert_eq!(*game.board(), board);
}

#[test]
fn the_history_lists_the_most_recent_push_first() {
    let mut game = Game::from_seed(4, 4, 2, SEED).unwrap();
    assert!(game.push(Direction::L).is_some());
    assert!(matches!(game.history()[..], [Direction::L]));
    assert!(game.push(Direction::R).is_some());
    assert!(matches!(game.history()[..], [Direction::R, Direction::L]));
    assert!(game.push(Direction::U).is_some());
    assert!(matches!(game.history()[..], [Direction::U, Direction::R]));
    assert!(game.undo());
    assert!(matches!(game.history()[..], [Direction::R]));
}

#[test]
fn the_scenario_of_the_first_two_pushes() {
    let mut game = Game::from_seed(4, 4, 2, SEED).unwrap();
    assert_eq!(game.seed(), SEED);
    assert_eq!(
        *game.board(),
        vec![vec![0, 0, 0, 0], vec![0, 0, 0, 0], vec![0, 0, 0, 2], vec![0, 2, 0, 0]]
    );
    assert_eq!(game.score(), 0);
    let first: PushResult = game.push(Direction::L).unwrap();
    assert_eq!((first.spawned_row, first.spawned_col, first.spawned_value), (2, 2, 2));
    assert_eq!(first.new_score, 0);
    let after_first = vec![vec![0, 0, 0, 0], vec![0, 0, 0, 0], vec![2, 0, 2, 0], vec![2, 0, 0, 0]];
    assert_eq!(*game.board(), after_first);
    let second = game.push(Direction::R).unwrap();
    assert_eq!((second.spawned_row, second.spawned_col), (3, 1));
    assert_eq!(second.new_score, 4);
    assert_eq!(game.score(), 4);
    assert_eq!(
        *game.board(),
        vec![vec![0, 0, 0, 0], vec![0, 0, 0, 0], vec![0, 0, 0, 4], vec![0, 2, 0, 2]]
    );
    assert!(game.undo());
    assert_eq!(*game.board(), after_first);
    assert_eq!(game.score(), 0);
}

#[test]
fn get_reads_the_board() {
    let game = Game::from_seed(4, 4, 2, SEED).unwrap();
    for i in 0..4 {
        for j in 0..4 {
            assert_eq!(game.get(i, j), game.board()[i][j]);
        }
    }
    assert_eq!(game.get(2, 3), 2);
    assert_eq!(game.get(3, 1), 2);
    assert_eq!(game.get(0, 0), 0);
}

#[test]
fn directions_are_read_from_their_letters() {
    assert!(matches!(Direction::try_from('U'), Ok(Direction::U)));
    assert!(matches!(Direction::try_from('u'), Ok(Direction::U)));
    assert!(matches!(Direction::try_from('R'), Ok(Direction::R)));
    assert!(matches!(Direction::try_from('r'), Ok(Direction::R)));
    assert!(matches!(Direction::try_from('L'), Ok(Direction::L)));
    assert!(matches!(Direction::try_from('l'), Ok(Direction::L)));
    assert!(matches!(Direction::try_from('D'), Ok(Direction::D)));
    assert!(matches!(Direction::try_from('d'), Ok(Direction::D)));
    for other in ['x', ' ', '0', 'W', '\u{ff35}', '\n'] {
        assert!(matches!(Direction::try_from(other), Err(())));
    }
}

#[test]
fn a_pair_fills_from_the_front_and_empties_from_the_back() {
    let mut pair = Pair::default();
    assert_eq!(pair.len(), 0);
    assert_eq!(pair.pop(), None);
    pair.push((1, 2));
    assert_eq!(pair.len(), 1);
    assert_eq!(pair.first, Some((1, 2)));
    assert_eq!(pair.second, None);
    pair.push((3, 4));
    assert_eq!(pair.len(), 2);
    assert_eq!(pair.second, Some((3, 4)));
    pair.push((5, 6));
    assert_eq!(pair.len(), 2);
    assert_eq!(pair.first, Some((1, 2)));
    assert_eq!(pair.second, Some((5, 6)));
    assert_eq!(pair.pop(), Some((5, 6)));
    assert_eq!(pair.len(), 1);
    assert_eq!(pair.pop(), Some((1, 2)));
    assert_eq!(pair.len(), 0);
    assert_eq!(pair.pop(), None);
    pair.push((7, 8));
    pair.push((9, 9));
    pair.clear();
    assert_eq!(pair.len(), 0);
    assert_eq!(pair.first, None);
    assert_eq!(pair.second, None);
}

#[test]
fn pairs_are_equal_in_either_order() {
    assert_eq!(Pair::from(()), Pair::default());
    assert_eq!(Pair::from((1, 2)), Pair::from((1, 2)));
    assert_ne!(Pair::from((1, 2)), Pair::from((2, 1)));
    assert_ne!(Pair::from((1, 2)), Pair::from(()));
    assert_eq!(Pair::from(((1, 2), (3, 4))), Pair::from(((3, 4), (1, 2))));
    assert_eq!(Pair::from(((1, 2), (3, 4))), Pair::from(((1, 2), (3, 4))));
    assert_ne!(Pair::from(((1, 2), (3, 4))), Pair::from(((1, 2), (3, 5))));
    assert_ne!(Pair::from(((1, 2), (3, 4))), Pair::from((1, 2)));
    let both = Pair::from(((1, 2), (3, 4)));
    assert_eq!(both.first, Some((1, 2)));
    assert_eq!(both.second, Some((3, 4)));
}

#[test]
fn a_cloned_game_plays_like_the_game_it_was_made_from() {
    let mut game = Game::from_seed(4, 5, 2, 77).unwrap();
    for step in 0..50 {
        game.push(direction(step));
    }
    let mut copy = game.clone();
    assert_eq!(copy.board(), game.board());
    assert_eq!(copy.score(), game.score());
    assert_eq!(copy.seed(), game.seed());
    assert_eq!(copy.max_history(), game.max_history());
    assert_eq!(copy.history().len(), game.history().len());
    for step in 50..150 {
        assert_eq!(copy.push(direction(step)), game.push(direction(step)));
        assert_eq!(copy.board(), game.board());
    }
    assert_eq!(copy.undo(), game.undo());
    assert_eq!(copy.undo(), game.undo());
    assert_eq!(copy.undo(), game.undo());
    assert_eq!(copy.board(), game.board());
    assert_eq!(copy.score(), game.score());
}

#[test]
fn the_score_has_room_in_any_game_that_can_be_played() {
    let mut game = Game::from_seed(3, 3, 1, 1).unwrap();
    assert!(game.score_fits());
    for step in 0..300 {
        game.push(direction(step));
        assert!(game.score_fits());
    }
}
