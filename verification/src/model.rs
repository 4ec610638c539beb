//! The mathematical model of the board: a sequence of 64 optional
//! pieces (row-major, index `rank * 8 + file`) plus the last applied
//! move. Every contract of the executable engine is stated over this
//! model.
use vstd::prelude::*;
use crate::pieces::{Piece, PieceColor, PieceType};

verus! {

/// A move: source and destination coordinates, each `(file, rank)`.
pub type MovePair = ((usize, usize), (usize, usize));

#[verifier::ext_equal]
pub struct BoardView {
    pub cells: Seq<Option<Piece>>,
    pub last: Option<MovePair>,
}

pub open spec fn sq_ok(x: int, y: int) -> bool {
    0 <= x && x < 8 && 0 <= y && y < 8
}

pub open spec fn cell_idx(x: int, y: int) -> int {
    y * 8 + x
}

pub open spec fn mv_ok(m: MovePair) -> bool {
    m.0.0 < 8 && m.0.1 < 8 && m.1.0 < 8 && m.1.1 < 8
}

impl BoardView {
    pub open spec fn wf(self) -> bool {
        &&& self.cells.len() == 64
        &&& match self.last {
            Some(m) => mv_ok(m),
            None => true,
        }
    }

    pub open spec fn at(self, x: int, y: int) -> Option<Piece> {
        self.cells[cell_idx(x, y)]
    }

    pub open spec fn empty_at(self, x: int, y: int) -> bool {
        self.at(x, y) is None
    }

    /// The square holds a piece of the side opposite to `c`.
    pub open spec fn enemy_at(self, x: int, y: int, c: PieceColor) -> bool {
        match self.at(x, y) {
            Some(p) => p.color != c,
            None => false,
        }
    }

    /// A piece of side `c` may land here: empty or enemy-occupied.
    pub open spec fn open_to(self, x: int, y: int, c: PieceColor) -> bool {
        self.empty_at(x, y) || self.enemy_at(x, y, c)
    }
}

/// Direction of travel of a pawn of side `c` (rank 0 is the Black
/// back rank, rank 7 the White one).
pub open spec fn pawn_dir(c: PieceColor) -> int {
    if c is White {
        -1
    } else {
        1
    }
}

pub open spec fn knight_jump(x: int, y: int, tx: int, ty: int) -> bool {
    let dx = tx - x;
    let dy = ty - y;
    ((dx == 1 || dx == -1) && (dy == 2 || dy == -2)) || ((dx == 2 || dx == -2) && (dy == 1 || dy
        == -1))
}

pub open spec fn king_step(x: int, y: int, tx: int, ty: int) -> bool {
    let dx = tx - x;
    let dy = ty - y;
    -1 <= dx && dx <= 1 && -1 <= dy && dy <= 1 && !(dx == 0 && dy == 0)
}

/// A slider standing at `(x, y)` reaches `(tx, ty)` by repeated unit
/// steps `(dx, dy)`: every strictly intervening square is empty and
/// the destination is empty or enemy-occupied. `fuel` bounds the
/// walk; 8 steps always leave the board.
pub open spec fn ray_reaches(
    v: BoardView,
    x: int,
    y: int,
    dx: int,
    dy: int,
    tx: int,
    ty: int,
    c: PieceColor,
    fuel: nat,
) -> bool
    decreases fuel,
{
    if fuel == 0 {
        false
    } else {
        let nx = x + dx;
        let ny = y + dy;
        sq_ok(nx, ny) && {
            ||| (nx == tx && ny == ty && v.open_to(nx, ny, c))
            ||| (v.empty_at(nx, ny) && ray_reaches(v, nx, ny, dx, dy, tx, ty, c, (fuel - 1) as nat))
        }
    }
}

pub open spec fn ray_att(v: BoardView, x: int, y: int, dx: int, dy: int, tx: int, ty: int, c: PieceColor) -> bool {
    ray_reaches(v, x, y, dx, dy, tx, ty, c, 8)
}

pub open spec fn rook_att(v: BoardView, x: int, y: int, tx: int, ty: int, c: PieceColor) -> bool {
    ||| ray_att(v, x, y, 0, 1, tx, ty, c)
    ||| ray_att(v, x, y, 0, -1, tx, ty, c)
    ||| ray_att(v, x, y, 1, 0, tx, ty, c)
    ||| ray_att(v, x, y, -1, 0, tx, ty, c)
}

pub open spec fn bishop_att(v: BoardView, x: int, y: int, tx: int, ty: int, c: PieceColor) -> bool {
    ||| ray_att(v, x, y, 1, 1, tx, ty, c)
    ||| ray_att(v, x, y, 1, -1, tx, ty, c)
    ||| ray_att(v, x, y, -1, 1, tx, ty, c)
    ||| ray_att(v, x, y, -1, -1, tx, ty, c)
}

/// One basic attack of piece `p` standing at `(x, y)` onto `(tx, ty)`:
/// pawns attack their two forward diagonals regardless of occupancy,
/// kings their eight neighbours unconditionally (no castling), the
/// rest as they move.
pub open spec fn basic_attack(v: BoardView, x: int, y: int, p: Piece, tx: int, ty: int) -> bool {
    sq_ok(tx, ty) && match p.piece_type {
        PieceType::Pawn => ty == y + pawn_dir(p.color) && (tx == x - 1 || tx == x + 1),
        PieceType::King => king_step(x, y, tx, ty),
        PieceType::Knight => knight_jump(x, y, tx, ty),
        PieceType::Rook => rook_att(v, x, y, tx, ty, p.color),
        PieceType::Bishop => bishop_att(v, x, y, tx, ty, p.color),
        PieceType::Queen => rook_att(v, x, y, tx, ty, p.color) || bishop_att(v, x, y, tx, ty, p.color),
    }
}

/// An enemy of side `c` stands at `(x, y)` and attacks `(tx, ty)`.
pub open spec fn attacker_at(v: BoardView, x: int, y: int, tx: int, ty: int, c: PieceColor) -> bool {
    match v.at(x, y) {
        Some(p) => p.color != c && basic_attack(v, x, y, p, tx, ty),
        None => false,
    }
}

pub open spec fn square_attacked(v: BoardView, tx: int, ty: int, c: PieceColor) -> bool {
    exists|x: int, y: int| sq_ok(x, y) && #[trigger] attacker_at(v, x, y, tx, ty, c)
}

/// First square (in row-major order, starting at cell `i`) holding
/// the king of side `c`.
pub open spec fn king_scan(v: BoardView, c: PieceColor, i: int) -> Option<(usize, usize)>
    decreases 64 - i,
{
    if i < 0 || i >= 64 {
        None
    } else if match v.cells[i] {
        Some(p) => p.piece_type is King && p.color == c,
        None => false,
    } {
        Some(((i % 8) as usize, (i / 8) as usize))
    } else {
        king_scan(v, c, i + 1)
    }
}

pub open spec fn find_king_spec(v: BoardView, c: PieceColor) -> Option<(usize, usize)> {
    king_scan(v, c, 0)
}

/// Side `c` is in check: its king's square is attacked. With no king
/// on the board the query degenerates to false.
pub open spec fn in_check(v: BoardView, c: PieceColor) -> bool {
    match find_king_spec(v, c) {
        Some(k) => square_attacked(v, k.0 as int, k.1 as int, c),
        None => false,
    }
}

/// The king standing at `(kx, ky)` may castle to the given side:
/// matching unmoved rook, clear path, not currently in check, and the
/// two squares the king crosses are unattacked.
pub open spec fn can_castle_spec(v: BoardView, kx: int, ky: int, kingside: bool) -> bool {
    match v.at(kx, ky) {
        Some(p) => {
            let c = p.color;
            &&& !in_check(v, c)
            &&& match v.at(if kingside { 7 } else { 0 }, ky) {
                Some(r) => r.piece_type is Rook && !r.has_moved && r.color == c,
                None => false,
            }
            &&& if kingside {
                v.empty_at(5, ky) && v.empty_at(6, ky)
            } else {
                v.empty_at(1, ky) && v.empty_at(2, ky) && v.empty_at(3, ky)
            }
            &&& if kingside {
                !square_attacked(v, 5, ky, c) && !square_attacked(v, 6, ky, c)
            } else {
                !square_attacked(v, 3, ky, c) && !square_attacked(v, 2, ky, c)
            }
        }
        None => false,
    }
}

/// The en-passant window: the last recorded move was a double pawn
/// step of the enemy landing on `(tx, y)`, right beside the mover.
pub open spec fn ep_capture(v: BoardView, x: int, y: int, p: Piece, tx: int) -> bool {
    match v.last {
        Some((lf, lt)) => {
            &&& lt.0 as int == tx
            &&& lt.1 as int == y
            &&& ((lf.1 as int) - (lt.1 as int) == 2 || (lt.1 as int) - (lf.1 as int) == 2)
            &&& match v.at(lt.0 as int, lt.1 as int) {
                Some(q) => q.piece_type is Pawn && q.color != p.color,
                None => false,
            }
        }
        None => false,
    }
}

pub open spec fn pawn_pseudo(v: BoardView, x: int, y: int, p: Piece, tx: int, ty: int) -> bool {
    let d = pawn_dir(p.color);
    ||| (tx == x && ty == y + d && v.empty_at(x, y + d))
    ||| (tx == x && ty == y + 2 * d && !p.has_moved && sq_ok(x, y + d) && v.empty_at(x, y + d)
        && v.empty_at(x, y + 2 * d))
    ||| ((tx == x - 1 || tx == x + 1) && ty == y + d && v.enemy_at(tx, ty, p.color))
    ||| ((tx == x - 1 || tx == x + 1) && ty == y + d && v.empty_at(tx, ty) && ep_capture(v, x, y, p, tx))
}

pub open spec fn castle_dest(v: BoardView, x: int, y: int, p: Piece, tx: int, ty: int) -> bool {
    &&& !p.has_moved
    &&& ty == y
    &&& ((tx == x + 2 && can_castle_spec(v, x, y, true)) || (tx == x - 2 && can_castle_spec(v, x, y, false)))
}

/// A pseudo-legal destination of piece `p` standing at `(x, y)`:
/// consistent with the piece's movement rules, ignoring whether the
/// mover's own king is left in check.
pub open spec fn pseudo_move(v: BoardView, x: int, y: int, p: Piece, tx: int, ty: int) -> bool {
    sq_ok(tx, ty) && match p.piece_type {
        PieceType::Pawn => pawn_pseudo(v, x, y, p, tx, ty),
        PieceType::Rook => rook_att(v, x, y, tx, ty, p.color),
        PieceType::Bishop => bishop_att(v, x, y, tx, ty, p.color),
        PieceType::Queen => rook_att(v, x, y, tx, ty, p.color) || bishop_att(v, x, y, tx, ty, p.color),
        PieceType::Knight => knight_jump(x, y, tx, ty) && v.open_to(tx, ty, p.color),
        PieceType::King => (king_step(x, y, tx, ty) && v.open_to(tx, ty, p.color)) || castle_dest(
            v,
            x,
            y,
            p,
            tx,
            ty,
        ),
    }
}

/// The board after applying the move `(from, to)`, mirroring the
/// mutator step by step: a no-op on an empty or out-of-range source;
/// otherwise remove the mover, relocate the rook of a two-file king
/// move, remove the pawn passed by an en-passant capture, promote a
/// pawn reaching the far rank to a queen, mark the mover moved, place
/// it, and record the move.
pub open spec fn apply_move(v: BoardView, from: (usize, usize), to: (usize, usize)) -> BoardView {
    if !mv_ok((from, to)) {
        v
    } else {
        let fx = from.0 as int;
        let fy = from.1 as int;
        let tx = to.0 as int;
        let ty = to.1 as int;
        match v.at(fx, fy) {
            None => v,
            Some(p) => {
                let dx = if tx >= fx {
                    tx - fx
                } else {
                    fx - tx
                };
                let g0 = v.cells.update(cell_idx(fx, fy), None);
                let g1 = if p.piece_type is King && dx == 2 {
                    let rx = if tx > fx {
                        7int
                    } else {
                        0int
                    };
                    let nrx = if tx > fx {
                        5int
                    } else {
                        3int
                    };
                    match g0[cell_idx(rx, fy)] {
                        Some(r) => g0.update(cell_idx(rx, fy), None).update(
                            cell_idx(nrx, fy),
                            Some(Piece { piece_type: r.piece_type, color: r.color, has_moved: true }),
                        ),
                        None => g0,
                    }
                } else {
                    g0
                };
                let g2 = if p.piece_type is Pawn && dx == 1 && g1[cell_idx(tx, ty)] is None {
                    g1.update(cell_idx(tx, fy), None)
                } else {
                    g1
                };
                let promoted = p.piece_type is Pawn && ((p.color is White && ty == 0) || (p.color is Black
                    && ty == 7));
                let np = Piece {
                    piece_type: if promoted {
                        PieceType::Queen
                    } else {
                        p.piece_type
                    },
                    color: p.color,
                    has_moved: true,
                };
                BoardView { cells: g2.update(cell_idx(tx, ty), Some(np)), last: Some((from, to)) }
            }
        }
    }
}

pub proof fn lemma_apply_move_wf(v: BoardView, from: (usize, usize), to: (usize, usize))
    requires
        v.wf(),
    ensures
        apply_move(v, from, to).wf(),
{
}

/// A fully legal move: the source is on the board and occupied, the
/// destination is pseudo-legal, and the mover's own king is not left
/// in check afterwards.
pub open spec fn legal_move(v: BoardView, from: (usize, usize), to: (usize, usize)) -> bool {
    &&& from.0 < 8 && from.1 < 8
    &&& match v.at(from.0 as int, from.1 as int) {
        Some(p) => pseudo_move(v, from.0 as int, from.1 as int, p, to.0 as int, to.1 as int)
            && !in_check(apply_move(v, from, to), p.color),
        None => false,
    }
}

/// A legal move of side `c`: a legal move whose mover belongs to `c`.
pub open spec fn is_move_of(v: BoardView, c: PieceColor, m: MovePair) -> bool {
    &&& m.0.0 < 8 && m.0.1 < 8
    &&& match v.at(m.0.0 as int, m.0.1 as int) {
        Some(p) => p.color == c,
        None => false,
    }
    &&& legal_move(v, m.0, m.1)
}

pub open spec fn has_legal_move(v: BoardView, c: PieceColor) -> bool {
    exists|m: MovePair| #[trigger] is_move_of(v, c, m)
}

/// Checkmate: in check with no legal move. "No legal move and not in
/// check" is stalemate and is deliberately not covered here.
pub open spec fn checkmate_spec(v: BoardView, c: PieceColor) -> bool {
    in_check(v, c) && !has_legal_move(v, c)
}

/// A king able to castle stands far enough from the board's edge for
/// the two-file destination to be a board square.
pub proof fn lemma_castle_king_file(v: BoardView, kx: int, ky: int, kingside: bool)
    requires
        sq_ok(kx, ky),
        can_castle_spec(v, kx, ky, kingside),
        match v.at(kx, ky) {
            Some(p) => p.piece_type is King,
            None => false,
        },
    ensures
        kingside ==> 0 <= kx && kx <= 4,
        !kingside ==> 4 <= kx && kx <= 7,
{
}

/// A ray only ever reaches on-board squares.
pub proof fn lemma_ray_reaches_ok(
    v: BoardView,
    x: int,
    y: int,
    dx: int,
    dy: int,
    tx: int,
    ty: int,
    c: PieceColor,
    fuel: nat,
)
    ensures
        ray_reaches(v, x, y, dx, dy, tx, ty, c, fuel) ==> sq_ok(tx, ty),
    decreases fuel,
{
    if fuel > 0 {
        lemma_ray_reaches_ok(v, x + dx, y + dy, dx, dy, tx, ty, c, (fuel - 1) as nat);
    }
}

pub proof fn lemma_king_scan_bounds(v: BoardView, c: PieceColor, i: int)
    ensures
        match king_scan(v, c, i) {
            Some(k) => k.0 < 8 && k.1 < 8,
            None => true,
        },
    decreases 64 - i,
{
    if 0 <= i < 64 {
        lemma_king_scan_bounds(v, c, i + 1);
    }
}

/// Membership in a pushed sequence.
pub proof fn lemma_push_contains<A>(s: Seq<A>, v: A, x: A)
    ensures
        s.push(v).contains(x) <==> (s.contains(x) || x == v),
{
    if s.push(v).contains(x) {
        let i = choose|i: int| 0 <= i < s.push(v).len() && s.push(v)[i] == x;
        if i < s.len() {
            assert(s[i] == x);
        }
    }
    if s.contains(x) {
        let i = choose|i: int| 0 <= i < s.len() && s[i] == x;
        assert(s.push(v)[i] == x);
    }
    if x == v {
        assert(s.push(v)[s.len() as int] == x);
    }
}

/// Membership in a one-longer prefix.
pub proof fn lemma_take_succ_contains<A>(s: Seq<A>, i: int, x: A)
    requires
        0 <= i < s.len(),
    ensures
        s.take(i + 1).contains(x) <==> (s.take(i).contains(x) || s[i] == x),
{
    assert(s.take(i + 1) =~= s.take(i).push(s[i]));
    lemma_push_contains(s.take(i), s[i], x);
}

} // verus!
