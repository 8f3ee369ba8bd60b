use std::collections::{HashSet, VecDeque};

use fifteen_puzzle::game::{Game, PuzzleError, MAX_SHUFFLE_ATTEMPTS};
use fifteen_puzzle::tile::Tile;

fn game_from(ids: &[u8], width: u8, height: u8) -> Game {
    let n = ids.len();
    let board: Vec<Tile> = ids.iter().map(|&id| Tile::new(id, id as usize == n)).collect();
    let solved = Game::is_solved(&ids.to_vec());
    Game { board, width, height, solved, move_count: 0, high_score: 0 }
}

fn ids_of(game: &Game) -> Vec<u8> {
    game.board.iter().map(|t| t.id).collect()
}

fn blank_index(game: &Game) -> usize {
    game.board.iter().position(|t| t.empty).unwrap()
}

fn assert_well_formed(game: &Game) {
    let n = game.width as usize * game.height as usize;
    assert_eq!(game.board.len(), n);
    let mut ids = ids_of(game);
    ids.sort();
    assert_eq!(ids, (1..=n as u8).collect::<Vec<u8>>());
    for tile in &game.board {
        assert_eq!(tile.empty, tile.id as usize == n);
    }
    assert_eq!(game.solved, Game::is_solved(&ids_of(game)));
}

/// 15 and 14 swapped: unsolved, blank bottom right.
fn nearly_solved_4x4() -> Vec<u8> {
    let mut ids: Vec<u8> = (1..=16).collect();
    ids.swap(13, 14);
    ids
}

#[test]
fn tile_new_keeps_fields() {
    let t = Tile::new(7, false);
    assert_eq!(t.id, 7);
    assert!(!t.empty);
    let b = Tile::new(16, true);
    assert!(b.empty);
}

#[test]
fn new_game_is_fresh_and_well_formed() {
    for _ in 0..20 {
        let game = Game::new(4, 4).unwrap();
        assert_well_formed(&game);
        assert_eq!(game.width, 4);
        assert_eq!(game.height, 4);
        assert!(!game.solved);
        assert_eq!(game.move_count, 0);
        assert_eq!(game.high_score, 0);
        assert!(Game::is_legal_order(&ids_of(&game), 4, 4));
    }
}

#[test]
fn new_rejects_invalid_dimensions() {
    assert_eq!(Game::new(1, 4).unwrap_err(), PuzzleError::InvalidDimensions);
    assert_eq!(Game::new(4, 1).unwrap_err(), PuzzleError::InvalidDimensions);
    assert_eq!(Game::new(0, 0).unwrap_err(), PuzzleError::InvalidDimensions);
    assert_eq!(Game::new(16, 16).unwrap_err(), PuzzleError::InvalidDimensions);
    assert_eq!(Game::random_legal_order(255, 2).unwrap_err(), PuzzleError::InvalidDimensions);
}

#[test]
fn largest_board_is_accepted() {
    let game = Game::new(15, 17).unwrap();
    assert_eq!(game.board.len(), 255);
    assert_well_formed(&game);
}

#[test]
fn smallest_board_is_accepted() {
    for _ in 0..20 {
        let game = Game::new(2, 2).unwrap();
        assert_well_formed(&game);
        assert!(!game.solved);
    }
}

#[test]
fn random_orders_are_solvable_unsolved_permutations() {
    for &(w, h) in &[(2u8, 2u8), (3, 3), (4, 4), (5, 3), (2, 7)] {
        for _ in 0..30 {
            let order = Game::random_legal_order(w, h).unwrap();
            let n = w as usize * h as usize;
            let mut sorted = order.clone();
            sorted.sort();
            assert_eq!(sorted, (1..=n as u8).collect::<Vec<u8>>());
            assert!(Game::is_legal_order(&order, w, h));
            assert!(!Game::is_solved(&order));
            assert!(Game::accepts_shuffle(&order, w, h));
        }
    }
}

#[test]
fn random_orders_differ_from_input_order() {
    // a draw that handed back 1..=N unchanged would be rejected as solved
    let order = Game::random_legal_order(4, 4).unwrap();
    assert_ne!(order, (1..=16u8).collect::<Vec<u8>>());
}

#[test]
fn solved_board_is_detected() {
    let goal: Vec<u8> = (1..=16).collect();
    assert!(Game::is_solved(&goal));
}

#[test]
fn any_transposition_is_not_solved() {
    let goal: Vec<u8> = (1..=16).collect();
    for i in 0..15 {
        for j in (i + 1)..15 {
            let mut order = goal.clone();
            order.swap(i, j);
            assert!(!Game::is_solved(&order), "swap {} {}", i, j);
        }
    }
}

#[test]
fn is_solved_on_empty_and_short_orders() {
    assert!(Game::is_solved(&vec![]));
    assert!(Game::is_solved(&vec![1]));
    assert!(!Game::is_solved(&vec![2, 1]));
}

#[test]
fn legal_order_examples() {
    let goal: Vec<u8> = (1..=16).collect();
    assert!(Game::is_legal_order(&goal, 4, 4));
    // one transposition of two tiles: the classic unsolvable 14-15 board
    assert!(!Game::is_legal_order(&nearly_solved_4x4(), 4, 4));
    // blank moved up one row from the goal by a legal move
    let mut up = goal.clone();
    up.swap(15, 11);
    assert!(Game::is_legal_order(&up, 4, 4));
    // odd width: the blank's row does not count
    let goal9: Vec<u8> = (1..=9).collect();
    let mut up9 = goal9.clone();
    up9.swap(8, 5);
    assert!(Game::is_legal_order(&up9, 3, 3));
    let mut swapped9 = goal9.clone();
    swapped9.swap(0, 1);
    assert!(!Game::is_legal_order(&swapped9, 3, 3));
}

#[test]
fn row_end_does_not_wrap_to_next_row() {
    // blank at index 4, start of row 1
    let ids: Vec<u8> = vec![1, 2, 3, 4, 16, 5, 6, 7, 8, 9, 10, 11, 12, 13, 14, 15];
    let game = game_from(&ids, 4, 4);
    assert!(!game.is_legal_move(3));
    assert!(game.is_legal_move(0));
    assert!(game.is_legal_move(5));
    assert!(game.is_legal_move(8));
    assert!(!game.is_legal_move(4));
    assert!(!game.is_legal_move(1));
    assert!(!game.is_legal_move(9));
    assert!(!game.is_legal_move(200));
}

#[test]
fn row_start_does_not_wrap_to_previous_row() {
    // blank at index 3, end of row 0
    let ids: Vec<u8> = vec![1, 2, 3, 16, 4, 5, 6, 7, 8, 9, 10, 11, 12, 13, 14, 15];
    let mut game = game_from(&ids, 4, 4);
    assert!(!game.is_legal_move(4));
    assert_eq!(game.click_tile(4), Ok(false));
    assert_eq!(ids_of(&game), ids);
    assert!(game.is_legal_move(2));
    assert!(game.is_legal_move(7));
}

#[test]
fn click_next_to_blank_then_same_square_again() {
    let ids = nearly_solved_4x4();
    let mut game = game_from(&ids, 4, 4);
    assert_eq!(blank_index(&game), 15);
    assert!(game.is_legal_move(14));
    assert_eq!(game.click_tile(14), Ok(true));
    assert_eq!(blank_index(&game), 14);
    assert_eq!(game.board[15].id, 14);
    assert_eq!(game.move_count, 1);
    // the blank now stands on 14: clicking it again is no move
    assert!(!game.is_legal_move(14));
    assert_eq!(game.click_tile(14), Ok(false));
    assert_eq!(game.move_count, 1);
    assert_eq!(blank_index(&game), 14);
    assert!(game.is_legal_move(13));
    assert!(game.is_legal_move(15));
    assert!(game.is_legal_move(10));
    assert!(!game.is_legal_move(11));
    assert!(!game.is_legal_move(12));
    assert_well_formed(&game);
}

#[test]
fn illegal_clicks_change_nothing() {
    let ids = nearly_solved_4x4();
    let mut game = game_from(&ids, 4, 4);
    game.move_count = 3;
    for index in 0..16u8 {
        if game.is_legal_move(index) {
            continue;
        }
        assert_eq!(game.click_tile(index), Ok(false));
        assert_eq!(ids_of(&game), ids);
        assert_eq!(game.move_count, 3);
        assert!(!game.solved);
    }
}

#[test]
fn out_of_range_click_is_an_error() {
    let ids = nearly_solved_4x4();
    let mut game = game_from(&ids, 4, 4);
    assert_eq!(game.click_tile(16), Err(PuzzleError::IndexOutOfRange));
    assert_eq!(game.click_tile(255), Err(PuzzleError::IndexOutOfRange));
    assert_eq!(ids_of(&game), ids);
    assert_eq!(game.move_count, 0);
}

#[test]
fn legal_moves_are_counted_and_restart_resets() {
    let mut game = Game::new(4, 4).unwrap();
    let mut made = 0u32;
    for step in 0..40usize {
        if game.solved {
            break;
        }
        let blank = blank_index(&game);
        let candidates = [blank.wrapping_sub(4), blank + 4, blank.wrapping_sub(1), blank + 1];
        let index = candidates
            .iter()
            .copied()
            .filter(|&c| c < 16 && game.is_legal_move(c as u8))
            .nth(step % 2)
            .or_else(|| candidates.iter().copied().find(|&c| c < 16 && game.is_legal_move(c as u8)))
            .unwrap();
        assert_eq!(game.click_tile(index as u8), Ok(true));
        made += 1;
        assert_eq!(game.move_count, made);
        assert_well_formed(&game);
    }
    assert!(made > 0);
    game.restart().unwrap();
    assert_eq!(game.move_count, 0);
    assert!(!game.solved);
    assert_well_formed(&game);
}

#[test]
fn winning_move_solves_and_sets_high_score() {
    let mut ids: Vec<u8> = (1..=16).collect();
    ids.swap(14, 15); // blank at 14
    let mut game = game_from(&ids, 4, 4);
    game.move_count = 9;
    assert!(!game.solved);
    assert_eq!(game.click_tile(15), Ok(true));
    assert!(game.solved);
    assert_eq!(game.move_count, 10);
    assert_eq!(game.high_score, 10);
    // a solved board takes no more moves
    assert_eq!(game.click_tile(14), Ok(false));
    assert_eq!(game.move_count, 10);
    assert_eq!(ids_of(&game), (1..=16).collect::<Vec<u8>>());
}

#[test]
fn high_score_keeps_the_lowest_count() {
    let mut ids: Vec<u8> = (1..=16).collect();
    ids.swap(14, 15);
    let mut game = game_from(&ids, 4, 4);
    game.move_count = 20;
    game.high_score = 12;
    assert_eq!(game.click_tile(15), Ok(true));
    assert_eq!(game.high_score, 12);

    let mut better = game_from(&ids, 4, 4);
    better.move_count = 4;
    better.high_score = 12;
    assert_eq!(better.click_tile(15), Ok(true));
    assert_eq!(better.high_score, 5);
}

#[test]
fn move_counter_stops_at_its_largest_value() {
    let ids = nearly_solved_4x4();
    let mut game = game_from(&ids, 4, 4);
    game.move_count = u32::MAX;
    assert_eq!(game.click_tile(14), Ok(true));
    assert_eq!(game.move_count, u32::MAX);
}

#[test]
fn restart_keeps_size_and_high_score() {
    let mut ids: Vec<u8> = (1..=16).collect();
    ids.swap(14, 15);
    let mut game = game_from(&ids, 4, 4);
    assert_eq!(game.click_tile(15), Ok(true));
    assert!(game.solved);
    let best = game.high_score;
    assert_eq!(game.restart(), Ok(()));
    assert!(!game.solved);
    assert_eq!(game.move_count, 0);
    assert_eq!(game.high_score, best);
    assert_eq!(game.width, 4);
    assert_eq!(game.height, 4);
    assert_well_formed(&game);
    assert!(Game::is_legal_order(&ids_of(&game), 4, 4));
}

#[test]
fn tile_ids_reads_the_board() {
    let ids = nearly_solved_4x4();
    let game = game_from(&ids, 4, 4);
    assert_eq!(game.tile_ids(), ids);
}

fn permutations(n: u8) -> Vec<Vec<u8>> {
    fn go(prefix: &mut Vec<u8>, left: &mut Vec<u8>, out: &mut Vec<Vec<u8>>) {
        if left.is_empty() {
            out.push(prefix.clone());
            return;
        }
        for k in 0..left.len() {
            let x = left.remove(k);
            prefix.push(x);
            go(prefix, left, out);
            prefix.pop();
            left.insert(k, x);
        }
    }
    let mut out = Vec::new();
    go(&mut Vec::new(), &mut (1..=n).collect(), &mut out);
    out
}

/// Every arrangement that the engine's own clicks reach from the goal.
fn reachable_from_goal(width: u8, height: u8) -> HashSet<Vec<u8>> {
    let n = width * height;
    let goal: Vec<u8> = (1..=n).collect();
    let mut seen: HashSet<Vec<u8>> = HashSet::new();
    let mut queue: VecDeque<Vec<u8>> = VecDeque::new();
    seen.insert(goal.clone());
    queue.push_back(goal);
    while let Some(ids) = queue.pop_front() {
        // expand as if play went on, the goal included
        let mut base = game_from(&ids, width, height);
        base.solved = false;
        for index in 0..n {
            let mut next = base.clone();
            if next.click_tile(index) == Ok(true) {
                let next_ids = ids_of(&next);
                if seen.insert(next_ids.clone()) {
                    queue.push_back(next_ids);
                }
            }
        }
    }
    seen
}

fn check_solvability_matches_reachability(width: u8, height: u8) {
    let reachable = reachable_from_goal(width, height);
    let all = permutations(width * height);
    assert_eq!(reachable.len() * 2, all.len());
    for order in all {
        assert_eq!(
            Game::is_legal_order(&order, width, height),
            reachable.contains(&order),
            "{:?}",
            order
        );
    }
}

#[test]
fn solvability_matches_reachability_2x2() {
    check_solvability_matches_reachability(2, 2);
}

#[test]
fn solvability_matches_reachability_2x3_and_3x2() {
    check_solvability_matches_reachability(2, 3);
    check_solvability_matches_reachability(3, 2);
}

#[test]
fn solvability_matches_reachability_4x2() {
    check_solvability_matches_reachability(4, 2);
    check_solvability_matches_reachability(2, 4);
}

#[test]
fn solvability_matches_reachability_3x3() {
    check_solvability_matches_reachability(3, 3);
}

#[test]
fn fresh_draw_is_kept_at_any_attempt() {
    let mut order: Vec<u8> = (1..=16).collect();
    order.swap(15, 11); // blank one row up: solvable, not solved
    assert_eq!(Game::judge_draw(&order, 4, 4, 0), Some(Ok(())));
    assert_eq!(Game::judge_draw(&order, 4, 4, MAX_SHUFFLE_ATTEMPTS - 1), Some(Ok(())));
}

#[test]
fn rejected_draw_is_redrawn_until_the_limit() {
    let unsolvable = nearly_solved_4x4();
    let goal: Vec<u8> = (1..=16).collect();
    assert_eq!(Game::judge_draw(&unsolvable, 4, 4, 0), None);
    assert_eq!(Game::judge_draw(&goal, 4, 4, 0), None);
    assert_eq!(Game::judge_draw(&unsolvable, 4, 4, MAX_SHUFFLE_ATTEMPTS - 2), None);
    assert_eq!(
        Game::judge_draw(&unsolvable, 4, 4, MAX_SHUFFLE_ATTEMPTS - 1),
        Some(Err(PuzzleError::ShuffleGenerationFailed))
    );
    assert_eq!(
        Game::judge_draw(&goal, 4, 4, MAX_SHUFFLE_ATTEMPTS - 1),
        Some(Err(PuzzleError::ShuffleGenerationFailed))
    );
}
