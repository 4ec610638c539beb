//! Laws of the rules engine, proved once over the model. Each lemma
//! pins down when one of the special moves is offered, for every
//! well-formed position.
use vstd::prelude::*;
use crate::pieces::Piece;
use crate::model::{
    BoardView, can_castle_spec, ep_capture, legal_move, pawn_dir, pseudo_move, sq_ok,
};

verus! {

/// A pawn's double step is offered only from an unmoved pawn and only
/// when both squares ahead of it are empty: any legal two-square pawn
/// advance implies the pawn never moved and the path was clear.
pub proof fn lemma_pawn_double_step(v: BoardView, from: (usize, usize), to: (usize, usize), p: Piece)
    requires
        v.wf(),
        from.0 < 8 && from.1 < 8,
        v.at(from.0 as int, from.1 as int) == Some(p),
        p.piece_type is Pawn,
        to.0 == from.0,
        to.1 as int == from.1 as int + 2 * pawn_dir(p.color),
    ensures
        legal_move(v, from, to) ==> (!p.has_moved && v.empty_at(
            from.0 as int,
            from.1 as int + pawn_dir(p.color),
        ) && v.empty_at(to.0 as int, to.1 as int)),
        pseudo_move(v, from.0 as int, from.1 as int, p, to.0 as int, to.1 as int) <==> (sq_ok(
            to.0 as int,
            to.1 as int,
        ) && !p.has_moved && sq_ok(from.0 as int, from.1 as int + pawn_dir(p.color)) && v.empty_at(
            from.0 as int,
            from.1 as int + pawn_dir(p.color),
        ) && v.empty_at(to.0 as int, to.1 as int)),
{
}

/// With the en-passant window open — the last recorded move was an
/// adjacent enemy pawn's double step — the diagonal capture onto the
/// empty passed-over square is pseudo-legal.
pub proof fn lemma_en_passant_offered(v: BoardView, x: int, y: int, p: Piece, tx: int)
    requires
        v.wf(),
        sq_ok(x, y),
        v.at(x, y) == Some(p),
        p.piece_type is Pawn,
        tx == x - 1 || tx == x + 1,
        sq_ok(tx, y + pawn_dir(p.color)),
        v.empty_at(tx, y + pawn_dir(p.color)),
        ep_capture(v, x, y, p, tx),
    ensures
        pseudo_move(v, x, y, p, tx, y + pawn_dir(p.color)),
{
}

/// A pawn's diagonal move onto an empty square is offered only inside
/// the en-passant window: as soon as any other move is recorded as
/// the last move, the capture disappears.
pub proof fn lemma_en_passant_window(v: BoardView, x: int, y: int, p: Piece, tx: int, ty: int)
    requires
        v.wf(),
        sq_ok(x, y),
        v.at(x, y) == Some(p),
        p.piece_type is Pawn,
        tx == x - 1 || tx == x + 1,
        ty == y + pawn_dir(p.color),
        v.empty_at(tx, ty),
    ensures
        pseudo_move(v, x, y, p, tx, ty) ==> ep_capture(v, x, y, p, tx),
{
}

/// A king's two-file move is offered exactly when the king has never
/// moved and the castling preconditions hold: the matching rook is
/// present, of the same side and unmoved, the path between them is
/// empty, the king is not in check, and neither square the king
/// crosses is attacked. Removing any one precondition removes the
/// move.
pub proof fn lemma_castling_offered(v: BoardView, x: int, y: int, p: Piece)
    requires
        v.wf(),
        sq_ok(x, y),
        v.at(x, y) == Some(p),
        p.piece_type is King,
    ensures
        pseudo_move(v, x, y, p, x + 2, y) <==> (sq_ok(x + 2, y) && !p.has_moved && can_castle_spec(
            v,
            x,
            y,
            true,
        )),
        pseudo_move(v, x, y, p, x - 2, y) <==> (sq_ok(x - 2, y) && !p.has_moved && can_castle_spec(
            v,
            x,
            y,
            false,
        )),
{
}

} // verus!
