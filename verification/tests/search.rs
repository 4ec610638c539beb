use chess::ai::{
    choose_best_move, choose_best_move_exhaustive, evaluate, get_best_move, get_piece_value,
    get_position_bonus, minimax, minimax_full,
};
use chess::board::Board;
use chess::pieces::{Piece, PieceColor, PieceType};

fn empty_board() -> Board {
    Board { grid: vec![None; 64], last_move: None }
}

fn put(b: &mut Board, x: usize, y: usize, t: PieceType, c: PieceColor) {
    b.grid[y * 8 + x] = Some(Piece::new(t, c));
}

#[test]
fn piece_values() {
    assert_eq!(get_piece_value(PieceType::Pawn), 10);
    assert_eq!(get_piece_value(PieceType::Knight), 30);
    assert_eq!(get_piece_value(PieceType::Bishop), 30);
    assert_eq!(get_piece_value(PieceType::Rook), 50);
    assert_eq!(get_piece_value(PieceType::Queen), 90);
    assert_eq!(get_piece_value(PieceType::King), 900);
}

#[test]
fn position_bonus_formulas() {
    // central 2x2 square
    let q = Piece::new(PieceType::Queen, PieceColor::White);
    assert_eq!(get_position_bonus(q, 3, 3), 20);
    // extended 4x4 ring
    assert_eq!(get_position_bonus(q, 2, 2), 10);
    // edge
    assert_eq!(get_position_bonus(q, 0, 0), 0);
    // a white pawn gains 10 per rank advanced from its back rank
    let wp = Piece::new(PieceType::Pawn, PieceColor::White);
    assert_eq!(get_position_bonus(wp, 0, 6), 10);
    assert_eq!(get_position_bonus(wp, 3, 4), 20 + 30);
    // a black pawn advances downwards
    let bp = Piece::new(PieceType::Pawn, PieceColor::Black);
    assert_eq!(get_position_bonus(bp, 0, 1), 10);
    // knights dislike the rim
    let n = Piece::new(PieceType::Knight, PieceColor::White);
    assert_eq!(get_position_bonus(n, 0, 3), -30);
    assert_eq!(get_position_bonus(n, 3, 3), 20);
}

#[test]
fn evaluate_exact_values() {
    let mut b = empty_board();
    put(&mut b, 3, 4, PieceType::Pawn, PieceColor::White);
    // pawn 10, central 20, two ranks short of three advanced: (7-4)*10
    assert_eq!(evaluate(&b, PieceColor::White), 60);
    assert_eq!(evaluate(&b, PieceColor::Black), -60);

    let mut b2 = empty_board();
    put(&mut b2, 0, 0, PieceType::Knight, PieceColor::Black);
    // knight 30 on the rim: bonus -30, total value 0
    assert_eq!(evaluate(&b2, PieceColor::Black), 0);
    assert_eq!(evaluate(&b2, PieceColor::White), 0);

    let mut b3 = empty_board();
    put(&mut b3, 0, 0, PieceType::Rook, PieceColor::White);
    assert_eq!(evaluate(&b3, PieceColor::White), 50);
}

#[test]
fn evaluate_symmetry() {
    let boards = {
        let mut v = vec![Board::new(), empty_board()];
        let mut b = empty_board();
        put(&mut b, 3, 3, PieceType::Queen, PieceColor::White);
        put(&mut b, 4, 4, PieceType::Knight, PieceColor::Black);
        put(&mut b, 0, 6, PieceType::Pawn, PieceColor::White);
        put(&mut b, 7, 1, PieceType::Pawn, PieceColor::Black);
        v.push(b);
        let mut b2 = Board::new();
        b2.move_piece((4, 6), (4, 4));
        b2.move_piece((1, 0), (2, 2));
        v.push(b2);
        v
    };
    for b in &boards {
        assert_eq!(evaluate(b, PieceColor::White), -evaluate(b, PieceColor::Black));
        assert_eq!(evaluate(b, PieceColor::Black), -evaluate(b, PieceColor::White));
    }
}

fn small_position() -> Board {
    let mut b = empty_board();
    put(&mut b, 4, 7, PieceType::King, PieceColor::White);
    put(&mut b, 4, 0, PieceType::King, PieceColor::Black);
    put(&mut b, 0, 6, PieceType::Pawn, PieceColor::White);
    put(&mut b, 7, 1, PieceType::Pawn, PieceColor::Black);
    b
}

#[test]
fn alpha_beta_matches_full_width() {
    let b = small_position();
    let moves = b.all_legal_moves(PieceColor::White);
    assert!(!moves.is_empty());
    for depth in 1..4 {
        let pruned = choose_best_move(&b, &moves, depth, PieceColor::White);
        let full = choose_best_move_exhaustive(&b, &moves, depth, PieceColor::White);
        assert_eq!(pruned, full);
    }
    // the node values agree as well
    let v1 = minimax(&b, 3, -1_000_000, 1_000_000, true, PieceColor::White);
    let v2 = minimax_full(&b, 3, true, PieceColor::White);
    assert_eq!(v1, v2);
}

#[test]
fn stalemate_position() {
    // black king cornered by queen and far king: no moves, no check
    let mut b = empty_board();
    put(&mut b, 0, 0, PieceType::King, PieceColor::Black);
    put(&mut b, 2, 1, PieceType::Queen, PieceColor::White);
    put(&mut b, 7, 7, PieceType::King, PieceColor::White);
    assert!(!b.is_in_check(PieceColor::Black));
    assert!(!b.is_checkmate(PieceColor::Black));
    assert!(b.get_valid_moves((0, 0)).unwrap().is_empty());
    assert!(b.all_legal_moves(PieceColor::Black).is_empty());
    assert_eq!(get_best_move(&b, PieceColor::Black), None);
    // minimax scores the stalemate leaf as zero
    assert_eq!(minimax(&b, 2, -1_000_000, 1_000_000, true, PieceColor::Black), 0);
    assert_eq!(minimax_full(&b, 2, true, PieceColor::Black), 0);
}

#[test]
fn search_finds_a_mate() {
    // white mates on the back rank: the rook slides to the empty top row
    let mut b = empty_board();
    put(&mut b, 0, 0, PieceType::King, PieceColor::Black);
    put(&mut b, 0, 2, PieceType::King, PieceColor::White);
    put(&mut b, 7, 1, PieceType::Rook, PieceColor::White);
    let moves = b.all_legal_moves(PieceColor::White);
    let (_m, score) = choose_best_move(&b, &moves, 2, PieceColor::White).unwrap();
    assert_eq!(score, 99999);
    // the randomized entry point returns some legal move
    let best = get_best_move(&b, PieceColor::White).unwrap();
    let legal = b.get_valid_moves(best.0).unwrap();
    assert!(legal.contains(&best.1));
}

#[test]
fn checkmate_scores_against_the_mated_side() {
    // fool's mate position: white to move is mated
    let mut b = Board::new();
    b.move_piece((5, 6), (5, 5));
    b.move_piece((4, 1), (4, 3));
    b.move_piece((6, 6), (6, 4));
    b.move_piece((3, 0), (7, 4));
    assert_eq!(get_best_move(&b, PieceColor::White), None);
    assert_eq!(minimax(&b, 1, -1_000_000, 1_000_000, true, PieceColor::White), -99999);
    assert_eq!(minimax(&b, 1, -1_000_000, 1_000_000, false, PieceColor::Black), 99999);
}
