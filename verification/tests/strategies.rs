use blobwar::alphabeta::AlphaBeta;
use blobwar::alphabetapass::AlphaBetaPass;
use blobwar::alphabetatable::{AlphaBetaTable, TranspositionTable, ZobristTable};
use blobwar::board::Board;
use blobwar::configuration::{Configuration, Movement};
use blobwar::minmax::MinMax;
use blobwar::strategy::{BenchmarkUnitaire, Greedy, IterativeDeepening, IterativeStrategy, Strategy};

fn code_from(player: char, cells: &[(usize, char)]) -> String {
    let mut chars = vec![' '; 64];
    for &(i, c) in cells {
        chars[i] = c;
    }
    let mut code = String::new();
    code.push(player);
    for c in chars {
        code.push(c);
    }
    code
}

#[test]
fn first_move_from_the_corners_is_a_duplication() {
    let board = Board::default();
    let game = Configuration::new(&board);
    let mut engine = AlphaBeta(1);
    let movement = engine.compute_next_move(&game).expect("a move must exist");
    assert!(matches!(movement, Movement::Duplicate(_)));
    assert!(game.check_move(&movement));
}

#[test]
fn minmax_and_alphabeta_agree_on_the_value() {
    let board = Board::default();
    let game = Configuration::new(&board);
    let minmax = MinMax(0);
    let alphabeta = AlphaBeta(0);
    for depth in 1..=3u8 {
        let (_, mm) = minmax.min_max(&game, depth);
        let (_, ab) = alphabeta.alphabeta(&game, depth, -127, 127);
        assert_eq!(mm, ab);
    }
}

#[test]
fn minmax_and_alphabeta_agree_on_a_holed_board() {
    let code = code_from('1', &[(0, 'r'), (9, 'b'), (17, 'h'), (18, 'h'), (63, 'r'), (54, 'b')]);
    let board = Board::deserialize(&code);
    let game = Configuration::deserialize(&code, &board);
    let minmax = MinMax(0);
    let alphabeta = AlphaBeta(0);
    for depth in 1..=3u8 {
        let (_, mm) = minmax.min_max(&game, depth);
        let (_, ab) = alphabeta.alphabeta(&game, depth, -127, 127);
        assert_eq!(mm, ab);
    }
}

#[test]
fn search_returns_none_without_moves() {
    let mut cells = vec![(0, 'r'), (40, 'b')];
    for i in 0..64usize {
        let x = i % 8;
        let y = i / 8;
        if x <= 2 && y <= 2 && i != 0 {
            cells.push((i, 'h'));
        }
    }
    let code = code_from('0', &cells);
    let board = Board::deserialize(&code);
    let game = Configuration::deserialize(&code, &board);
    assert_eq!(AlphaBeta(3).compute_next_move(&game), None);
    assert_eq!(MinMax(3).compute_next_move(&game), None);
    assert_eq!(AlphaBetaPass(3).compute_next_move(&game), None);
    assert_eq!(AlphaBetaTable(3).compute_next_move(&game), None);
    assert_eq!(Greedy().compute_next_move(&game), None);
}

#[test]
fn search_at_depth_zero_returns_none() {
    let board = Board::default();
    let game = Configuration::new(&board);
    assert_eq!(AlphaBeta(0).compute_next_move(&game), None);
    assert_eq!(MinMax(0).compute_next_move(&game), None);
}

#[test]
fn pass_heuristic_matches_plain_search_below_its_trigger_ply() {
    let board = Board::default();
    let game = Configuration::new(&board);
    for depth in 1..=2u8 {
        let (_, plain) = AlphaBeta(0).alphabeta(&game, depth, -127, 127);
        let (_, pass) = AlphaBetaPass(0).alphabeta_pass(&game, depth, -127, 127);
        assert_eq!(plain, pass);
    }
}

#[test]
fn pass_heuristic_matches_plain_search_when_nothing_triggers() {
    // from the initial position no candidate reaches the strongly
    // favourable threshold, so even at the trigger ply the heuristic
    // stays silent and the searches agree
    let board = Board::default();
    let game = Configuration::new(&board);
    let (_, plain) = AlphaBeta(0).alphabeta(&game, 3, -127, 127);
    let (_, pass) = AlphaBetaPass(0).alphabeta_pass(&game, 3, -127, 127);
    assert_eq!(plain, pass);
}

#[test]
fn greedy_takes_an_immediate_capture() {
    // duplicating onto cell 1 converts the enemy on cell 2
    let code = code_from('0', &[(0, 'r'), (2, 'b'), (40, 'b'), (42, 'b')]);
    let board = Board::deserialize(&code);
    let game = Configuration::deserialize(&code, &board);
    let movement = Greedy().compute_next_move(&game).expect("moves exist");
    let after = game.play(&movement);
    // best immediate outcome: the opponent, then to move, is down 3 to 2
    assert_eq!(after.value(), 1);
}

#[test]
fn table_strategy_returns_a_legal_move() {
    let board = Board::default();
    let game = Configuration::new(&board);
    let mut engine = AlphaBetaTable(3);
    let movement = engine.compute_next_move(&game).expect("a move must exist");
    assert!(game.check_move(&movement));
}

#[test]
fn benchmark_constructor_sets_the_depth() {
    let engine = <AlphaBetaTable as BenchmarkUnitaire>::new(4);
    assert_eq!(engine.0, 4);
}

#[test]
fn zobrist_keys_are_deterministic_per_table() {
    let table = ZobristTable::generate();
    assert_eq!(table.keys.len(), 128);
    let board = Board::default();
    let game = Configuration::new(&board);
    assert_eq!(table.zobrist_key(&game), table.zobrist_key(&game));
    let empty_code = code_from('0', &[]);
    let empty_board = Board::deserialize(&empty_code);
    let empty = Configuration::deserialize(&empty_code, &empty_board);
    assert_eq!(table.zobrist_key(&empty), 0);
}

#[test]
fn transposition_table_stores_and_returns_values() {
    let mut table = TranspositionTable::new();
    assert_eq!(table.get(42), None);
    table.set(42, -7);
    assert_eq!(table.get(42), Some(-7));
    table.set(42, 9);
    assert_eq!(table.get(42), Some(9));
    assert_eq!(table.get(43), None);
}

#[test]
fn iterative_deepening_builder() {
    let i = IterativeDeepening::new(IterativeStrategy::AlphaBeta);
    assert_eq!(i.duration, 1000);
    let j = i.duration(250);
    assert_eq!(j.duration, 250);
    assert!(matches!(j.strategy, IterativeStrategy::AlphaBeta));
    let k = IterativeDeepening::new(IterativeStrategy::MinMax);
    assert!(matches!(k.strategy, IterativeStrategy::MinMax));
}

#[test]
fn deeper_search_still_returns_sound_moves() {
    let board = Board::default();
    let mut game = Configuration::new(&board);
    // alternate two engines for a few plies, validating every move
    for ply in 0..6 {
        let movement = if ply % 2 == 0 {
            AlphaBeta(3).compute_next_move(&game)
        } else {
            AlphaBetaPass(3).compute_next_move(&game)
        };
        match movement {
            Some(m) => {
                assert!(game.check_move(&m));
                game.apply_movement(&m);
            },
            None => {
                game = game.skip_play();
            },
        }
        assert_eq!(game.blobs0.0 & game.blobs1.0, 0);
    }
}

#[test]
fn exact_values_from_the_initial_position() {
    let board = Board::default();
    let game = Configuration::new(&board);
    // depth 1: the best move duplicates without being capturable, leaving
    // the mover one piece ahead, a loss of -1
    let (_, v1) = AlphaBeta(0).alphabeta(&game, 1, -127, 127);
    assert_eq!(v1, -1);
    // depth 2: the opponent answers with a duplication of its own and the
    // material evens out
    let (_, v2) = AlphaBeta(0).alphabeta(&game, 2, -127, 127);
    assert_eq!(v2, 0);
}
