use matsuo::game::SquareGame;
use matsuo::play::{click_to_edge, next_player, play, play_ia, GameMode};

fn filled(game: &SquareGame, x: usize, y: usize) -> bool {
    game.cell(x, y) != 0
}

#[test]
fn new_board_is_empty() {
    let game = SquareGame::new(2);
    assert_eq!(game.size, 5);
    assert_eq!(game.board.len(), 25);
    assert_eq!(game.remaining().len(), 12);
    assert_eq!(game.score(0), 0);
    assert_eq!(game.score(1), 0);
    assert!(!game.is_over());
}

#[test]
fn single_box_closes_on_fourth_edge_in_any_order() {
    let edges = [[0, 1], [2, 1], [1, 0], [1, 2]];
    let orders = [[0, 1, 2, 3], [3, 2, 1, 0], [1, 3, 0, 2], [2, 0, 3, 1]];
    for order in orders.iter() {
        let mut game = SquareGame::new(1);
        for (step, &k) in order.iter().enumerate() {
            let closed = game.make_move_id(edges[k], 2);
            if step < 3 {
                assert!(!closed);
                assert_eq!(game.score(0), 0);
                assert_eq!(game.score(1), 0);
                assert_eq!(game.cell(1, 1), 0);
            } else {
                assert!(closed);
                assert_eq!(game.score(0), 0);
                assert_eq!(game.score(1), 1);
                assert_eq!(game.cell(1, 1), 2);
            }
        }
        assert!(game.is_over());
    }
}

#[test]
fn closing_credits_the_player_who_placed_the_last_edge() {
    let mut game = SquareGame::new(1);
    assert!(!game.make_move_id([0, 1], 2));
    assert!(!game.make_move_id([2, 1], 2));
    assert!(!game.make_move_id([1, 0], 2));
    assert!(game.make_move_id([1, 2], 1));
    assert_eq!(game.score(0), 1);
    assert_eq!(game.score(1), 0);
}

#[test]
fn shared_edge_closes_two_boxes() {
    let mut game = SquareGame::new(2);
    // Boxes (1, 1) and (1, 3) share edge (1, 2).
    for e in [[0, 1], [2, 1], [1, 0], [0, 3], [2, 3], [1, 4]].iter() {
        assert!(!game.make_move_id(*e, 1));
    }
    assert!(game.make_move_id([1, 2], 1));
    assert_eq!(game.score(0), 2);
    assert_eq!(game.cell(1, 1), 1);
    assert_eq!(game.cell(1, 3), 1);
}

#[test]
fn edge_neighbors_at_the_border() {
    let game = SquareGame::new(2);
    assert_eq!(game.edge_neighbors([0, 1]), [None, Some([1, 1])]);
    assert_eq!(game.edge_neighbors([2, 1]), [Some([1, 1]), Some([3, 1])]);
    assert_eq!(game.edge_neighbors([1, 4]), [Some([1, 3]), None]);
    assert_eq!(game.cell_neighbors([1, 1]), [(2, 1), (0, 1), (1, 2), (1, 0)]);
}

#[test]
fn remaining_shrinks_and_is_remaining_follows() {
    let mut game = SquareGame::new(1);
    assert!(game.is_remaining([0, 1]));
    assert!(!game.is_remaining([1, 1]));
    assert!(!game.is_remaining([0, 0]));
    assert!(!game.is_remaining([7, 0]));
    game.make_move_id([0, 1], 1);
    assert!(!game.is_remaining([0, 1]));
    assert_eq!(game.remaining(), vec![[1, 0], [1, 2], [2, 1]]);
}

#[test]
fn heuristic_priorities() {
    let mut game = SquareGame::new(1);
    // Empty box: each edge sees 0 filled edges -> 2.
    assert_eq!(game.box_priority(1, 1), 2);
    assert_eq!(game.move_priority([0, 1]), 2);
    game.make_move_id([0, 1], 1);
    assert_eq!(game.box_priority(1, 1), 1);
    game.make_move_id([2, 1], 1);
    assert_eq!(game.box_priority(1, 1), 0);
    game.make_move_id([1, 0], 1);
    assert_eq!(game.box_priority(1, 1), 3);
    assert_eq!(game.best_move(), Some([1, 2]));
}

#[test]
fn heuristic_takes_the_closing_move() {
    let mut game = SquareGame::new(2);
    game.make_move_id([0, 1], 1);
    game.make_move_id([2, 1], 1);
    game.make_move_id([1, 0], 1);
    let closed = play_ia(&mut game, 1);
    assert!(closed);
    assert_eq!(game.cell(1, 2), 2);
    assert_eq!(game.score(1), 1);
}

#[test]
fn heuristic_plays_a_full_game() {
    let mut game = SquareGame::new(3);
    let mut player = 0;
    let mut moves = 0;
    while !game.is_over() {
        let closed = play_ia(&mut game, player);
        player = next_player(player, closed);
        moves += 1;
    }
    assert_eq!(moves, 24);
    assert_eq!(game.score(0) + game.score(1), 9);
}

#[test]
fn features_of_border_edge() {
    let mut game = SquareGame::new(1);
    assert_eq!(game.move_features([0, 1]), vec![-1, -1, -1, 0, 0, 0]);
    game.make_move_id([1, 0], 1);
    // Box (1, 1) seen from edge (0, 1): edges (2, 1), (1, 2), (1, 0).
    assert_eq!(game.move_features([0, 1]), vec![-1, -1, -1, 0, 0, 1]);
    assert_eq!(game.move_features([2, 1]), vec![0, 0, 1, -1, -1, -1]);
    assert_eq!(game.move_features([1, 2]), vec![0, 0, 1, -1, -1, -1]);
}

#[test]
fn next_player_rule() {
    assert_eq!(next_player(0, false), 1);
    assert_eq!(next_player(1, false), 0);
    assert_eq!(next_player(0, true), 0);
    assert_eq!(next_player(1, true), 1);
}

#[test]
fn click_mapping() {
    assert_eq!(click_to_edge(3, 5), Some([1, 2]));
    assert_eq!(click_to_edge(5, 3), Some([2, 1]));
    assert_eq!(click_to_edge(0, 0), None);
    assert_eq!(click_to_edge(3, 4), None);
}

#[test]
fn play_waits_for_a_legal_human_move() {
    let mut game = SquareGame::new(1);
    let p = play(&mut game, GameMode::Game, 0, None);
    assert_eq!(p, 0);
    let p = play(&mut game, GameMode::Game, 0, Some([1, 1]));
    assert_eq!(p, 0);
    assert_eq!(game.remaining().len(), 4);
    let p = play(&mut game, GameMode::Game, 0, Some([0, 1]));
    assert_eq!(p, 1);
    assert!(filled(&game, 0, 1));
    assert_eq!(game.cell(0, 1), 1);
    let p = play(&mut game, GameMode::Game, 1, None);
    assert_eq!(p, 0);
    assert_eq!(game.remaining().len(), 2);
}

#[test]
fn autoplay_needs_no_human() {
    let mut game = SquareGame::new(1);
    let mut player = 0;
    while !game.is_over() {
        player = play(&mut game, GameMode::Autoplay, player, None);
    }
    assert_eq!(game.score(0) + game.score(1), 1);
}
