use blobwar::board::Board;
use blobwar::positions::Positions;

#[test]
fn corner_neighbours_without_holes() {
    let board = Board::new(Positions(0));
    assert_eq!(board.neighbours_dist1[0], vec![1, 8, 9]);
    assert_eq!(board.neighbours_dist2[0], vec![2, 10, 16, 17, 18]);
    // the distance-1 mask of the corner covers the same three cells
    assert!(board.neighbours[0].contains(1));
    assert!(board.neighbours[0].contains(8));
    assert!(board.neighbours[0].contains(9));
    assert_eq!(board.neighbours[0].len(), 3);
}

#[test]
fn centre_cell_has_eight_near_neighbours() {
    let board = Board::new(Positions(0));
    // cell 27 is (3, 3)
    assert_eq!(board.neighbours_dist1[27], vec![18, 19, 20, 26, 28, 34, 35, 36]);
    assert_eq!(board.neighbours[27].len(), 8);
    assert_eq!(board.neighbours_dist2[27].len(), 16);
}

#[test]
fn holes_are_left_out_of_neighbour_lists() {
    let board = Board::new(Positions::single(9).union_with(Positions::single(2)));
    assert_eq!(board.neighbours_dist1[0], vec![1, 8]);
    assert_eq!(board.neighbours_dist2[0], vec![10, 16, 17, 18]);
    assert!(!board.neighbours[0].contains(9));
}

#[test]
fn deserialize_reads_hole_glyphs() {
    let mut code = String::from("0");
    for i in 0..64 {
        code.push(if i == 5 || i == 40 { 'h' } else { ' ' });
    }
    let board = Board::deserialize(&code);
    assert!(board.holes.contains(5));
    assert!(board.holes.contains(40));
    assert_eq!(board.holes.len(), 2);
}

#[test]
fn deserialize_ignores_piece_glyphs() {
    let mut code = String::from("1");
    for i in 0..64 {
        code.push(match i {
            0 => 'r',
            7 => 'b',
            12 => 'h',
            _ => ' ',
        });
    }
    let board = Board::deserialize(&code);
    assert_eq!(board.holes.positions(), vec![12]);
}

#[test]
fn default_board_has_no_holes() {
    let board = Board::default();
    assert!(board.holes.is_empty());
    assert_eq!(board.neighbours_dist1.len(), 64);
    assert_eq!(board.neighbours_dist2.len(), 64);
    assert_eq!(board.neighbours.len(), 64);
}
