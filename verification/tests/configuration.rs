use blobwar::board::Board;
use blobwar::configuration::{Configuration, Movement};
use blobwar::positions::Positions;

fn code_from(player: char, cells: &[(usize, char)]) -> String {
    let mut chars = vec![' '; 64];
    for &(i, c) in cells {
        chars[i] = c;
    }
    let mut code = String::new();
    code.push(player);
    for c in chars {
        code.push(c);
    }
    code
}

#[test]
fn initial_configuration_occupancy() {
    let board = Board::default();
    let game = Configuration::new(&board);
    assert!(!game.current_player);
    assert!(game.blobs0.contains(0) && game.blobs0.contains(63));
    assert!(game.blobs1.contains(7) && game.blobs1.contains(56));
    assert_eq!(game.blobs0.len(), 2);
    assert_eq!(game.blobs1.len(), 2);
    assert_eq!(game.value(), 0);
}

#[test]
fn serialize_initial_configuration() {
    let board = Board::default();
    let game = Configuration::new(&board);
    let expected = code_from('0', &[(0, 'r'), (63, 'r'), (7, 'b'), (56, 'b')]);
    assert_eq!(game.serialize(), expected);
}

#[test]
fn serialize_deserialize_round_trip() {
    let board = Board::default();
    let mut game = Configuration::new(&board);
    // walk a few plies to reach a nontrivial state
    for _ in 0..4 {
        let moves = game.movements();
        assert!(!moves.is_empty());
        game.apply_movement(&moves[0]);
    }
    let code = game.serialize();
    let board2 = Board::deserialize(&code);
    let game2 = Configuration::deserialize(&code, &board2);
    assert_eq!(game2.blobs0.0, game.blobs0.0);
    assert_eq!(game2.blobs1.0, game.blobs1.0);
    assert_eq!(game2.current_player, game.current_player);
    assert_eq!(board2.holes.0, board.holes.0);
    assert_eq!(game2.serialize(), code);
}

#[test]
fn deserialize_with_holes_round_trips() {
    let code = code_from('1', &[(0, 'r'), (9, 'b'), (17, 'h'), (18, 'h'), (63, 'r')]);
    let board = Board::deserialize(&code);
    let game = Configuration::deserialize(&code, &board);
    assert!(game.current_player);
    assert!(game.blobs0.contains(0) && game.blobs0.contains(63));
    assert!(game.blobs1.contains(9));
    assert!(board.holes.contains(17) && board.holes.contains(18));
    assert_eq!(game.serialize(), code);
}

#[test]
fn play_leaves_the_parent_untouched() {
    let board = Board::default();
    let game = Configuration::new(&board);
    let moves = game.movements();
    let child = game.play(&moves[0]);
    // the parent still holds the initial occupancy
    assert!(game.blobs0.contains(0) && game.blobs0.contains(63));
    assert_eq!(game.blobs0.len(), 2);
    assert!(!game.current_player);
    // and play agrees with apply_movement on a copy
    let mut copy = game;
    copy.apply_movement(&moves[0]);
    assert_eq!(child.blobs0.0, copy.blobs0.0);
    assert_eq!(child.blobs1.0, copy.blobs1.0);
    assert_eq!(child.current_player, copy.current_player);
}

#[test]
fn blobs_stay_disjoint_after_every_movement() {
    let board = Board::default();
    let mut game = Configuration::new(&board);
    for _ in 0..10 {
        let moves = game.movements();
        if moves.is_empty() {
            break;
        }
        game.apply_movement(&moves[moves.len() / 2]);
        assert_eq!(game.blobs0.0 & game.blobs1.0, 0);
        assert_eq!(game.blobs0.0 & board.holes.0, 0);
        assert_eq!(game.blobs1.0 & board.holes.0, 0);
    }
}

#[test]
fn duplicate_captures_adjacent_enemy() {
    // player 0 holds cell 0; an enemy sits on cell 2, adjacent to the
    // empty cell 1 where player 0 can duplicate
    let code = code_from('0', &[(0, 'r'), (2, 'b'), (40, 'b')]);
    let board = Board::deserialize(&code);
    let mut game = Configuration::deserialize(&code, &board);
    let movement = Movement::Duplicate(1);
    assert!(game.check_move(&movement));
    let before = game.blobs0.len() + game.blobs1.len();
    game.apply_movement(&movement);
    // the enemy on cell 2 switched sides, cell 1 gained the new piece
    assert!(game.blobs0.contains(1));
    assert!(game.blobs0.contains(2));
    assert!(!game.blobs1.contains(2));
    assert!(game.blobs1.contains(40));
    assert_eq!(game.blobs0.len() + game.blobs1.len(), before + 1);
    assert!(game.current_player);
}

#[test]
fn jump_vacates_the_source() {
    let code = code_from('0', &[(0, 'r'), (40, 'b')]);
    let board = Board::deserialize(&code);
    let mut game = Configuration::deserialize(&code, &board);
    let movement = Movement::Jump(0, 2);
    assert!(game.check_move(&movement));
    game.apply_movement(&movement);
    assert!(!game.blobs0.contains(0));
    assert!(game.blobs0.contains(2));
    assert_eq!(game.blobs0.len(), 1);
}

#[test]
fn check_move_rejects_illegal_movements() {
    let board = Board::default();
    let game = Configuration::new(&board);
    // too far for a duplication
    assert!(!game.check_move(&Movement::Duplicate(3)));
    // occupied destination
    assert!(!game.check_move(&Movement::Duplicate(7)));
    // jump from a cell the mover does not own
    assert!(!game.check_move(&Movement::Jump(7, 5)));
    // jump of the wrong distance
    assert!(!game.check_move(&Movement::Jump(0, 1)));
    assert!(!game.check_move(&Movement::Jump(0, 3)));
    // out-of-board cells
    assert!(!game.check_move(&Movement::Duplicate(64)));
    assert!(!game.check_move(&Movement::Jump(64, 2)));
    // and a legal pair for contrast
    assert!(game.check_move(&Movement::Duplicate(1)));
    assert!(game.check_move(&Movement::Jump(0, 2)));
}

#[test]
fn check_move_rejects_hole_destination() {
    let code = code_from('0', &[(0, 'r'), (1, 'h'), (40, 'b')]);
    let board = Board::deserialize(&code);
    let game = Configuration::deserialize(&code, &board);
    assert!(!game.check_move(&Movement::Duplicate(1)));
    assert!(game.check_move(&Movement::Duplicate(8)));
}

#[test]
fn movements_lists_duplications_then_jumps() {
    let code = code_from('0', &[(0, 'r'), (40, 'b')]);
    let board = Board::deserialize(&code);
    let game = Configuration::deserialize(&code, &board);
    let moves = game.movements();
    assert_eq!(
        moves,
        vec![
            Movement::Duplicate(1),
            Movement::Duplicate(8),
            Movement::Duplicate(9),
            Movement::Jump(0, 2),
            Movement::Jump(0, 10),
            Movement::Jump(0, 16),
            Movement::Jump(0, 17),
            Movement::Jump(0, 18),
        ]
    );
}

#[test]
fn movements_empty_when_no_empty_cell_is_close() {
    // the mover's only piece sits in a corner walled off by holes
    let mut cells = vec![(0, 'r'), (40, 'b')];
    for i in 0..64usize {
        let x = i % 8;
        let y = i / 8;
        if x <= 2 && y <= 2 && i != 0 {
            cells.push((i, 'h'));
        }
    }
    let code = code_from('0', &cells);
    let board = Board::deserialize(&code);
    let game = Configuration::deserialize(&code, &board);
    assert!(game.movements().is_empty());
    // the game is not over: the opponent still has pieces and empty cells
    // remain, so the game loop must pass rather than stop
    assert!(!game.game_over());
    let passed = game.skip_play();
    assert!(passed.current_player);
    assert!(!passed.movements().is_empty());
}

#[test]
fn game_over_when_a_side_is_dead() {
    let code = code_from('0', &[(0, 'r'), (1, 'r')]);
    let board = Board::deserialize(&code);
    let game = Configuration::deserialize(&code, &board);
    assert!(game.game_over());
}

#[test]
fn game_over_when_no_empty_cell_remains() {
    let mut cells = vec![(0, 'r'), (1, 'b')];
    for i in 2..64usize {
        cells.push((i, 'h'));
    }
    let code = code_from('0', &cells);
    let board = Board::deserialize(&code);
    let game = Configuration::deserialize(&code, &board);
    assert!(game.game_over());
}

#[test]
fn game_not_over_initially() {
    let board = Board::default();
    let game = Configuration::new(&board);
    assert!(!game.game_over());
}

#[test]
fn value_counts_material_for_the_mover() {
    let code = code_from('0', &[(0, 'r'), (1, 'r'), (2, 'r'), (40, 'b')]);
    let board = Board::deserialize(&code);
    let game = Configuration::deserialize(&code, &board);
    // player 0 to move: loss = enemy count - own count = 1 - 3
    assert_eq!(game.value(), -2);
    let flipped = game.skip_play();
    assert_eq!(flipped.value(), 2);
}

#[test]
fn free_position_and_empty_cells() {
    let board = Board::default();
    let game = Configuration::new(&board);
    assert!(!game.free_position_at(0));
    assert!(game.free_position_at(1));
    let empties = game.empty_cells();
    assert_eq!(empties.len(), 60);
    assert!(!empties.contains(&0) && !empties.contains(&7));
    assert!(empties.contains(&1));
}

#[test]
fn has_blob_reads_each_side() {
    let board = Board::default();
    let game = Configuration::new(&board);
    assert!(game.has_blob(false, 0));
    assert!(!game.has_blob(true, 0));
    assert!(game.has_blob(true, 7));
    assert!(!game.has_blob(false, 7));
}
