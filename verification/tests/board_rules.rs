use chess::board::{Board, BoardError};
use chess::pieces::{Piece, PieceColor, PieceType};

fn empty_board() -> Board {
    Board { grid: vec![None; 64], last_move: None }
}

fn put(b: &mut Board, x: usize, y: usize, t: PieceType, c: PieceColor) {
    b.grid[y * 8 + x] = Some(Piece::new(t, c));
}

fn put_moved(b: &mut Board, x: usize, y: usize, t: PieceType, c: PieceColor) {
    b.grid[y * 8 + x] = Some(Piece { piece_type: t, color: c, has_moved: true });
}

fn at(b: &Board, x: usize, y: usize) -> Option<Piece> {
    b.grid[y * 8 + x]
}

fn moves_of(b: &Board, x: usize, y: usize) -> Vec<(usize, usize)> {
    b.get_valid_moves((x, y)).unwrap()
}

#[test]
fn initial_board_layout() {
    let b = Board::new();
    assert!(b.last_move.is_none());
    let back = [
        PieceType::Rook,
        PieceType::Knight,
        PieceType::Bishop,
        PieceType::Queen,
        PieceType::King,
        PieceType::Bishop,
        PieceType::Knight,
        PieceType::Rook,
    ];
    for x in 0..8 {
        let bp = at(&b, x, 1).unwrap();
        assert_eq!(bp.piece_type, PieceType::Pawn);
        assert_eq!(bp.color, PieceColor::Black);
        assert!(!bp.has_moved);
        let wp = at(&b, x, 6).unwrap();
        assert_eq!(wp.piece_type, PieceType::Pawn);
        assert_eq!(wp.color, PieceColor::White);
        let bb = at(&b, x, 0).unwrap();
        assert_eq!(bb.piece_type, back[x]);
        assert_eq!(bb.color, PieceColor::Black);
        let wb = at(&b, x, 7).unwrap();
        assert_eq!(wb.piece_type, back[x]);
        assert_eq!(wb.color, PieceColor::White);
        for y in 2..6 {
            assert!(at(&b, x, y).is_none());
        }
    }
    assert!(!b.is_in_check(PieceColor::White));
    assert!(!b.is_in_check(PieceColor::Black));
}

#[test]
fn pawn_double_step() {
    let b = Board::new();
    let ms = moves_of(&b, 4, 6);
    assert!(ms.contains(&(4, 5)));
    assert!(ms.contains(&(4, 4)));

    // after the pawn has moved, the double step is gone
    let mut b2 = Board::new();
    b2.move_piece((4, 6), (4, 5));
    let ms2 = moves_of(&b2, 4, 5);
    assert!(ms2.contains(&(4, 4)));
    assert!(!ms2.contains(&(4, 3)));

    // a blocked intervening square removes both advances
    let mut b3 = Board::new();
    put(&mut b3, 4, 5, PieceType::Knight, PieceColor::Black);
    let ms3 = moves_of(&b3, 4, 6);
    assert!(!ms3.contains(&(4, 5)));
    assert!(!ms3.contains(&(4, 4)));

    // a block on the far square alone removes only the double step
    let mut b4 = Board::new();
    put(&mut b4, 4, 4, PieceType::Knight, PieceColor::Black);
    let ms4 = moves_of(&b4, 4, 6);
    assert!(ms4.contains(&(4, 5)));
    assert!(!ms4.contains(&(4, 4)));
}

#[test]
fn en_passant_offered_and_executed() {
    let mut b = empty_board();
    put(&mut b, 4, 6, PieceType::Pawn, PieceColor::White);
    put_moved(&mut b, 3, 4, PieceType::Pawn, PieceColor::Black);
    b.move_piece((4, 6), (4, 4));
    assert_eq!(b.last_move, Some(((4, 6), (4, 4))));

    // the black pawn may capture diagonally onto the passed-over square
    let ms = moves_of(&b, 3, 4);
    assert!(ms.contains(&(4, 5)));

    // executing it removes the passed white pawn
    b.move_piece((3, 4), (4, 5));
    assert!(at(&b, 4, 4).is_none());
    let black_pawn = at(&b, 4, 5).unwrap();
    assert_eq!(black_pawn.piece_type, PieceType::Pawn);
    assert_eq!(black_pawn.color, PieceColor::Black);
}

#[test]
fn en_passant_window_closes() {
    let mut b = empty_board();
    put(&mut b, 4, 6, PieceType::Pawn, PieceColor::White);
    put_moved(&mut b, 3, 4, PieceType::Pawn, PieceColor::Black);
    put(&mut b, 0, 6, PieceType::Pawn, PieceColor::White);
    b.move_piece((4, 6), (4, 4));
    assert!(moves_of(&b, 3, 4).contains(&(4, 5)));

    // any other recorded move closes the window
    b.move_piece((0, 6), (0, 5));
    assert!(!moves_of(&b, 3, 4).contains(&(4, 5)));
}

#[test]
fn castling_offered_only_with_preconditions() {
    let base = || {
        let mut b = empty_board();
        put(&mut b, 4, 7, PieceType::King, PieceColor::White);
        put(&mut b, 7, 7, PieceType::Rook, PieceColor::White);
        put(&mut b, 0, 7, PieceType::Rook, PieceColor::White);
        b
    };

    // both castles offered from the clean position
    let b = base();
    let ms = moves_of(&b, 4, 7);
    assert!(ms.contains(&(6, 7)));
    assert!(ms.contains(&(2, 7)));

    // a king that has moved may not castle
    let mut b1 = base();
    b1.grid[7 * 8 + 4] =
        Some(Piece { piece_type: PieceType::King, color: PieceColor::White, has_moved: true });
    let ms1 = moves_of(&b1, 4, 7);
    assert!(!ms1.contains(&(6, 7)));
    assert!(!ms1.contains(&(2, 7)));

    // a rook that has moved may not castle
    let mut b2 = base();
    b2.grid[7 * 8 + 7] =
        Some(Piece { piece_type: PieceType::Rook, color: PieceColor::White, has_moved: true });
    assert!(!moves_of(&b2, 4, 7).contains(&(6, 7)));

    // a piece between king and rook blocks the castle
    let mut b3 = base();
    put(&mut b3, 5, 7, PieceType::Bishop, PieceColor::White);
    assert!(!moves_of(&b3, 4, 7).contains(&(6, 7)));

    // an attacked transit square blocks the castle
    let mut b4 = base();
    put(&mut b4, 5, 0, PieceType::Rook, PieceColor::Black);
    assert!(!moves_of(&b4, 4, 7).contains(&(6, 7)));
    // the queenside transit is unaffected by that rook
    assert!(moves_of(&b4, 4, 7).contains(&(2, 7)));

    // a king in check may not castle at all
    let mut b5 = base();
    put(&mut b5, 4, 0, PieceType::Rook, PieceColor::Black);
    let ms5 = moves_of(&b5, 4, 7);
    assert!(!ms5.contains(&(6, 7)));
    assert!(!ms5.contains(&(2, 7)));
}

#[test]
fn castling_relocates_the_rook() {
    let mut b = empty_board();
    put(&mut b, 4, 7, PieceType::King, PieceColor::White);
    put(&mut b, 7, 7, PieceType::Rook, PieceColor::White);
    b.move_piece((4, 7), (6, 7));
    assert!(at(&b, 7, 7).is_none());
    let rook = at(&b, 5, 7).unwrap();
    assert_eq!(rook.piece_type, PieceType::Rook);
    assert!(rook.has_moved);
    let king = at(&b, 6, 7).unwrap();
    assert_eq!(king.piece_type, PieceType::King);
    assert!(king.has_moved);
}

#[test]
fn fools_mate_is_checkmate() {
    let mut b = Board::new();
    b.move_piece((5, 6), (5, 5));
    b.move_piece((4, 1), (4, 3));
    b.move_piece((6, 6), (6, 4));
    b.move_piece((3, 0), (7, 4));
    assert!(b.is_in_check(PieceColor::White));
    assert!(b.is_checkmate(PieceColor::White));
    assert!(!b.is_checkmate(PieceColor::Black));
    for y in 0..8 {
        for x in 0..8 {
            if let Some(p) = at(&b, x, y) {
                if p.color == PieceColor::White {
                    assert!(moves_of(&b, x, y).is_empty());
                }
            }
        }
    }
}

#[test]
fn promotion_always_to_queen() {
    let mut b = empty_board();
    put_moved(&mut b, 0, 1, PieceType::Pawn, PieceColor::White);
    b.move_piece((0, 1), (0, 0));
    let q = at(&b, 0, 0).unwrap();
    assert_eq!(q.piece_type, PieceType::Queen);
    assert_eq!(q.color, PieceColor::White);

    let mut b2 = empty_board();
    put_moved(&mut b2, 3, 6, PieceType::Pawn, PieceColor::Black);
    b2.move_piece((3, 6), (3, 7));
    let q2 = at(&b2, 3, 7).unwrap();
    assert_eq!(q2.piece_type, PieceType::Queen);
    assert_eq!(q2.color, PieceColor::Black);
}

#[test]
fn move_piece_empty_source_is_noop() {
    let mut b = Board::new();
    let grid_before = b.grid.clone();
    b.move_piece((3, 3), (4, 4));
    assert_eq!(b.grid, grid_before);
    assert!(b.last_move.is_none());
}

#[test]
fn move_piece_off_board_is_noop() {
    let mut b = Board::new();
    let grid_before = b.grid.clone();
    b.move_piece((0, 6), (0, 9));
    b.move_piece((9, 9), (0, 0));
    assert_eq!(b.grid, grid_before);
    assert!(b.last_move.is_none());
}

#[test]
fn invalid_square_is_rejected() {
    let b = Board::new();
    assert_eq!(b.get_valid_moves((8, 0)), Err(BoardError::InvalidSquare));
    assert_eq!(b.get_valid_moves((0, 8)), Err(BoardError::InvalidSquare));
    assert_eq!(b.get_valid_moves((100, 100)), Err(BoardError::InvalidSquare));
}

#[test]
fn queries_are_idempotent() {
    let b = Board::new();
    let m1 = moves_of(&b, 1, 7);
    let m2 = moves_of(&b, 1, 7);
    assert_eq!(m1, m2);
    assert_eq!(b.is_in_check(PieceColor::White), b.is_in_check(PieceColor::White));
    assert_eq!(b.is_checkmate(PieceColor::Black), b.is_checkmate(PieceColor::Black));
}

#[test]
fn opposite_is_an_involution() {
    assert_eq!(PieceColor::White.opposite(), PieceColor::Black);
    assert_eq!(PieceColor::Black.opposite(), PieceColor::White);
    assert_eq!(PieceColor::White.opposite().opposite(), PieceColor::White);
    assert_eq!(PieceColor::Black.opposite().opposite(), PieceColor::Black);
}

#[test]
fn piece_new_starts_unmoved() {
    let p = Piece::new(PieceType::Bishop, PieceColor::Black);
    assert_eq!(p.piece_type, PieceType::Bishop);
    assert_eq!(p.color, PieceColor::Black);
    assert!(!p.has_moved);
}
