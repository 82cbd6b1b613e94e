use tiny_towns::board::{Board, Piece, TinyTownsError};
use tiny_towns::building::Building;
use tiny_towns::pattern::Resource;

#[test]
fn board_init_board() {
    let board = Board::new();
    assert!(board.board == vec![None; 16]);
}

#[test]
fn add_brick() {
    let mut board = Board::new();
    let _ = board.place_brick(0, 0);
    assert!(board.get_piece(0, 0) == Some(Piece::Cube(Resource::Brick)));
}

#[test]
fn add_glass() {
    let mut board = Board::new();
    let _ = board.place_glass(0, 0);
    assert!(board.get_piece(0, 0) == Some(Piece::Cube(Resource::Glass)));
}

#[test]
fn add_stone() {
    let mut board = Board::new();
    let _ = board.place_stone(0, 0);
    assert!(board.get_piece(0, 0) == Some(Piece::Cube(Resource::Stone)));
}

#[test]
fn add_wheat() {
    let mut board = Board::new();
    let _ = board.place_wheat(0, 0);
    assert!(board.get_piece(0, 0) == Some(Piece::Cube(Resource::Wheat)));
}

#[test]
fn add_wood() {
    let mut board = Board::new();
    let _ = board.place_wood(0, 0);
    assert!(board.get_piece(0, 0) == Some(Piece::Cube(Resource::Wood)));
}

#[test]
fn error_occupied() {
    let mut board = Board::new();
    let _ = board.place_wood(0, 0);
    assert!(board.place_brick(0, 0) == Err(TinyTownsError::Occupied));
}

#[test]
fn error_out_of_bounds_x() {
    let mut board = Board::new();
    assert!(board.place_wood(0, 100) == Err(TinyTownsError::OutOfBounds));
}

#[test]
fn error_out_of_bounds_y() {
    let mut board = Board::new();
    assert!(board.place_wood(100, 0) == Err(TinyTownsError::OutOfBounds));
}

#[test]
fn add_well() {
    let mut board = Board::new();
    let _ = board.place_building(0, 0, Building::Well);
    assert!(board.get_piece(0, 0) == Some(Piece::Structure(Building::Well)));
}

#[test]
fn occupied_cell_keeps_original_piece() {
    let mut board = Board::new();
    let _ = board.place_wood(0, 0);
    assert!(board.place_brick(0, 0) == Err(TinyTownsError::Occupied));
    assert!(board.get_piece(0, 0) == Some(Piece::Cube(Resource::Wood)));
}

#[test]
fn bound_is_rejected_exactly_at_four() {
    let mut board = Board::new();
    assert!(board.place_wood(4, 0) == Err(TinyTownsError::OutOfBounds));
    assert!(board.place_wood(0, 4) == Err(TinyTownsError::OutOfBounds));
    assert!(board.place_wood(3, 3) == Ok(()));
}

#[test]
fn new_board_reads_empty_everywhere() {
    let board = Board::new();
    for x in 0..4u8 {
        for y in 0..4u8 {
            assert!(board.get_piece(x, y) == None);
        }
    }
}

#[test]
fn building_placement_out_of_bounds() {
    let mut board = Board::new();
    assert!(board.place_building(100, 0, Building::Theater) == Err(TinyTownsError::OutOfBounds));
    assert!(board.place_building(0, 100, Building::Theater) == Err(TinyTownsError::OutOfBounds));
}

#[test]
fn building_placement_occupied() {
    let mut board = Board::new();
    let _ = board.place_building(2, 1, Building::TradingPost);
    assert!(board.place_building(2, 1, Building::Well) == Err(TinyTownsError::Occupied));
    assert!(board.get_piece(2, 1) == Some(Piece::Structure(Building::TradingPost)));
}
