//! The board engine: owns the 8x8 grid, generates legal moves, and
//! applies them.
use vstd::prelude::*;
use crate::pieces::{Piece, PieceColor, PieceType};
use crate::model::{
    BoardView, MovePair, apply_move, attacker_at, basic_attack, can_castle_spec, castle_dest,
    cell_idx, checkmate_spec, ep_capture, find_king_spec, has_legal_move, in_check, is_move_of,
    king_scan, king_step, legal_move, lemma_apply_move_wf, lemma_castle_king_file,
    lemma_king_scan_bounds, lemma_push_contains, lemma_ray_reaches_ok, lemma_take_succ_contains,
    pawn_dir, pawn_pseudo, pseudo_move, ray_att, ray_reaches, sq_ok, square_attacked,
};

verus! {

/// Failure reported for a coordinate outside the board.
#[derive(Clone, Copy, PartialEq, Eq, Structural, Debug)]
pub enum BoardError {
    InvalidSquare,
}

/// The 8x8 grid, stored row-major (`grid[rank * 8 + file]`), plus the
/// most recently applied move (used only for the en-passant window).
pub struct Board {
    pub grid: Vec<Option<Piece>>,
    pub last_move: Option<MovePair>,
}

impl View for Board {
    type V = BoardView;

    open spec fn view(&self) -> BoardView {
        BoardView { cells: self.grid@, last: self.last_move }
    }
}

/// The piece opening the standard game at `(x, y)`.
pub open spec fn initial_cell(x: int, y: int) -> Option<Piece> {
    if y == 0 {
        Some(Piece { piece_type: back_rank_type(x), color: PieceColor::Black, has_moved: false })
    } else if y == 1 {
        Some(Piece { piece_type: PieceType::Pawn, color: PieceColor::Black, has_moved: false })
    } else if y == 6 {
        Some(Piece { piece_type: PieceType::Pawn, color: PieceColor::White, has_moved: false })
    } else if y == 7 {
        Some(Piece { piece_type: back_rank_type(x), color: PieceColor::White, has_moved: false })
    } else {
        None
    }
}

/// The standard back-rank layout.
pub open spec fn back_rank_type(x: int) -> PieceType {
    if x == 0 || x == 7 {
        PieceType::Rook
    } else if x == 1 || x == 6 {
        PieceType::Knight
    } else if x == 2 || x == 5 {
        PieceType::Bishop
    } else if x == 3 {
        PieceType::Queen
    } else {
        PieceType::King
    }
}

impl Board {
    pub open spec fn wf(self) -> bool {
        self@.wf()
    }

    fn initial_piece(x: usize, y: usize) -> (r: Option<Piece>)
        requires
            x < 8,
            y < 8,
        ensures
            r == initial_cell(x as int, y as int),
    {
        if y == 2 || y == 3 || y == 4 || y == 5 {
            return None;
        }
        let color = if y <= 1 {
            PieceColor::Black
        } else {
            PieceColor::White
        };
        if y == 1 || y == 6 {
            Some(Piece::new(PieceType::Pawn, color))
        } else {
            let t = if x == 0 || x == 7 {
                PieceType::Rook
            } else if x == 1 || x == 6 {
                PieceType::Knight
            } else if x == 2 || x == 5 {
                PieceType::Bishop
            } else if x == 3 {
                PieceType::Queen
            } else {
                PieceType::King
            };
            Some(Piece::new(t, color))
        }
    }

    /// The standard starting position: pawns on ranks 1 and 6, the
    /// back-rank layout on ranks 0 and 7, no move recorded yet.
    pub fn new() -> (b: Board)
        ensures
            b.wf(),
            b.last_move is None,
            forall|x: int, y: int| sq_ok(x, y) ==> b@.at(x, y) == initial_cell(x, y),
    {
        let mut grid: Vec<Option<Piece>> = Vec::new();
        let mut i: usize = 0;
        while i < 64
            invariant
                i <= 64,
                grid@.len() == i,
                forall|j: int|
                    0 <= j < i ==> grid@[j] == initial_cell(j % 8, j / 8),
            decreases 64 - i,
        {
            grid.push(Board::initial_piece(i % 8, i / 8));
            i = i + 1;
        }
        let b = Board { grid, last_move: None };
        proof {
            assert forall|x: int, y: int| sq_ok(x, y) implies b@.at(x, y) == initial_cell(x, y) by {
                let j = cell_idx(x, y);
                assert(j % 8 == x && j / 8 == y) by (nonlinear_arith)
                    requires
                        0 <= x < 8 && 0 <= y < 8 && j == y * 8 + x,
                {}
            }
        }
        b
    }

    fn is_valid_pos(&self, x: i32, y: i32) -> (r: bool)
        ensures
            r == sq_ok(x as int, y as int),
    {
        x >= 0 && x < 8 && y >= 0 && y < 8
    }

    fn is_empty(&self, x: i32, y: i32) -> (r: bool)
        requires
            self.wf(),
            sq_ok(x as int, y as int),
        ensures
            r == self@.empty_at(x as int, y as int),
    {
        self.grid[(y as usize) * 8 + (x as usize)].is_none()
    }

    fn is_enemy(&self, x: i32, y: i32, color: PieceColor) -> (r: bool)
        requires
            self.wf(),
            sq_ok(x as int, y as int),
        ensures
            r == self@.enemy_at(x as int, y as int, color),
    {
        match self.grid[(y as usize) * 8 + (x as usize)] {
            Some(piece) => piece.color != color,
            None => false,
        }
    }

    /// An independent copy, relied on by the search to explore
    /// branches without backtracking.
    pub fn duplicate(&self) -> (b: Board)
        ensures
            b@ == self@,
    {
        let mut grid: Vec<Option<Piece>> = Vec::new();
        let mut i: usize = 0;
        while i < self.grid.len()
            invariant
                i <= self.grid@.len(),
                grid@.len() == i,
                forall|j: int| 0 <= j < i ==> grid@[j] == self.grid@[j],
            decreases self.grid@.len() - i,
        {
            grid.push(self.grid[i]);
            i = i + 1;
        }
        let b = Board { grid, last_move: self.last_move };
        proof {
            assert(b@.cells =~= self@.cells);
            assert(b@ =~= self@);
        }
        b
    }

    /// Apply a move. A no-op when the source square is empty or any
    /// coordinate is off the board; otherwise performs the relocation
    /// unconditionally, exactly as `apply_move` describes. Callers
    /// wanting legality must pick the move from `get_valid_moves`.
    pub fn move_piece(&mut self, from: (usize, usize), to: (usize, usize))
        requires
            old(self).wf(),
        ensures
            final(self).wf(),
            final(self)@ == apply_move(old(self)@, from, to),
    {
        let ghost v0 = self@;
        if !(from.0 < 8 && from.1 < 8 && to.0 < 8 && to.1 < 8) {
            return;
        }
        let fidx = from.1 * 8 + from.0;
        let tidx = to.1 * 8 + to.0;
        let cur: Option<Piece> = self.grid[fidx];
        match cur {
            None => {},
            Some(piece) => {
                self.grid.set(fidx, None);
                let dx = if to.0 >= from.0 {
                    to.0 - from.0
                } else {
                    from.0 - to.0
                };
                if piece.piece_type == PieceType::King && dx == 2 {
                    let rook_x: usize = if to.0 > from.0 {
                        7
                    } else {
                        0
                    };
                    let new_rook_x: usize = if to.0 > from.0 {
                        5
                    } else {
                        3
                    };
                    let ridx = from.1 * 8 + rook_x;
                    let rook_cur: Option<Piece> = self.grid[ridx];
                    match rook_cur {
                        Some(rook) => {
                            self.grid.set(ridx, None);
                            self.grid.set(
                                from.1 * 8 + new_rook_x,
                                Some(
                                    Piece {
                                        piece_type: rook.piece_type,
                                        color: rook.color,
                                        has_moved: true,
                                    },
                                ),
                            );
                        },
                        None => {},
                    }
                }
                if piece.piece_type == PieceType::Pawn && dx == 1 {
                    if self.grid[tidx].is_none() {
                        self.grid.set(from.1 * 8 + to.0, None);
                    }
                }
                let promoted = piece.piece_type == PieceType::Pawn && ((piece.color
                    == PieceColor::White && to.1 == 0) || (piece.color == PieceColor::Black && to.1
                    == 7));
                let np = Piece {
                    piece_type: if promoted {
                        PieceType::Queen
                    } else {
                        piece.piece_type
                    },
                    color: piece.color,
                    has_moved: true,
                };
                self.grid.set(tidx, Some(np));
                self.last_move = Some((from, to));
            },
        }
        proof {
            lemma_apply_move_wf(v0, from, to);
            assert(self@.cells =~= apply_move(v0, from, to).cells);
            assert(self@ =~= apply_move(v0, from, to));
        }
    }

    fn contains_square(v: &Vec<(usize, usize)>, t: (usize, usize)) -> (r: bool)
        ensures
            r == v@.contains(t),
    {
        let mut i: usize = 0;
        while i < v.len()
            invariant
                i <= v@.len(),
                forall|j: int| 0 <= j < i ==> v@[j] != t,
            decreases v@.len() - i,
        {
            if v[i].0 == t.0 && v[i].1 == t.1 {
                assert(v@[i as int] == t);
                return true;
            }
            i = i + 1;
        }
        false
    }

    /// Pushes the jump target if it is on the board, regardless of
    /// occupancy (the basic-attack rule for kings and knights).
    fn push_jump_any(&self, moves: &mut Vec<(usize, usize)>, tx: i32, ty: i32)
        requires
            self.wf(),
            -16 <= tx <= 16,
            -16 <= ty <= 16,
        ensures
            forall|t: (usize, usize)|
                final(moves)@.contains(t) <==> (old(moves)@.contains(t) || (sq_ok(tx as int, ty as int)
                    && t.0 as int == tx && t.1 as int == ty)),
    {
        if self.is_valid_pos(tx, ty) {
            let val = (tx as usize, ty as usize);
            moves.push(val);
            proof {
                assert forall|t: (usize, usize)|
                    moves@.contains(t) <==> (old(moves)@.contains(t) || (sq_ok(tx as int, ty as int)
                        && t.0 as int == tx && t.1 as int == ty)) by {
                    lemma_push_contains(old(moves)@, val, t);
                }
            }
        }
    }

    /// Pushes the jump target if it is on the board and empty or
    /// enemy-occupied (the pseudo-legal rule for kings and knights).
    fn push_jump_open(&self, moves: &mut Vec<(usize, usize)>, tx: i32, ty: i32, color: PieceColor)
        requires
            self.wf(),
            -16 <= tx <= 16,
            -16 <= ty <= 16,
        ensures
            forall|t: (usize, usize)|
                final(moves)@.contains(t) <==> (old(moves)@.contains(t) || (sq_ok(tx as int, ty as int)
                    && self@.open_to(tx as int, ty as int, color) && t.0 as int == tx && t.1 as int
                    == ty)),
    {
        if self.is_valid_pos(tx, ty) {
            if self.is_empty(tx, ty) || self.is_enemy(tx, ty, color) {
                let val = (tx as usize, ty as usize);
                moves.push(val);
                proof {
                    assert forall|t: (usize, usize)|
                        moves@.contains(t) <==> (old(moves)@.contains(t) || (sq_ok(tx as int, ty as int)
                            && self@.open_to(tx as int, ty as int, color) && t.0 as int == tx
                            && t.1 as int == ty)) by {
                        lemma_push_contains(old(moves)@, val, t);
                    }
                }
            }
        }
    }

    /// Walks one sliding direction, pushing empty squares and a final
    /// enemy-occupied square, stopping at the first occupied square.
    fn slide(&self, moves: &mut Vec<(usize, usize)>, x: i32, y: i32, dx: i32, dy: i32, color: PieceColor)
        requires
            self.wf(),
            sq_ok(x as int, y as int),
            dx == -1 || dx == 0 || dx == 1,
            dy == -1 || dy == 0 || dy == 1,
            !(dx == 0 && dy == 0),
        ensures
            forall|t: (usize, usize)|
                final(moves)@.contains(t) <==> (old(moves)@.contains(t) || ray_att(
                    self@,
                    x as int,
                    y as int,
                    dx as int,
                    dy as int,
                    t.0 as int,
                    t.1 as int,
                    color,
                )),
    {
        let ghost v = self@;
        let mut nx = x + dx;
        let mut ny = y + dy;
        let ghost mut px: int = x as int;
        let ghost mut py: int = y as int;
        let ghost mut fl: nat = 8;
        let mut go = true;
        while go && self.is_valid_pos(nx, ny)
            invariant
                self.wf(),
                v == self@,
                sq_ok(x as int, y as int),
                sq_ok(px, py),
                dx == -1 || dx == 0 || dx == 1,
                dy == -1 || dy == 0 || dy == 1,
                !(dx == 0 && dy == 0),
                1 <= fl <= 8,
                nx as int == px + dx,
                ny as int == py + dy,
                dx == 1 ==> px == x + (8 - fl),
                dx == -1 ==> px == x - (8 - fl),
                dx == 0 ==> px == x as int,
                dy == 1 ==> py == y + (8 - fl),
                dy == -1 ==> py == y - (8 - fl),
                dy == 0 ==> py == y as int,
                go ==> forall|t: (usize, usize)|
                    (moves@.contains(t) || ray_reaches(v, px, py, dx as int, dy as int, t.0 as int,
                        t.1 as int, color, fl)) <==> (old(moves)@.contains(t) || ray_att(v, x as int,
                        y as int, dx as int, dy as int, t.0 as int, t.1 as int, color)),
                !go ==> forall|t: (usize, usize)|
                    moves@.contains(t) <==> (old(moves)@.contains(t) || ray_att(v, x as int,
                        y as int, dx as int, dy as int, t.0 as int, t.1 as int, color)),
            decreases fl, (if go { 1int } else { 0int }),
        {
            proof {
                // the probe square is on the board, so at most seven
                // steps have been taken and fuel remains
                assert(fl >= 2);
            }
            let ghost f = fl;
            if self.is_empty(nx, ny) {
                let val = (nx as usize, ny as usize);
                let ghost m0 = moves@;
                moves.push(val);
                proof {
                    assert forall|t: (usize, usize)|
                        (moves@.contains(t) || ray_reaches(v, px + dx, py + dy, dx as int, dy as int,
                            t.0 as int, t.1 as int, color, (f - 1) as nat)) <==> (old(moves)@.contains(
                        t,
                    ) || ray_att(v, x as int, y as int, dx as int, dy as int, t.0 as int, t.1 as int,
                        color)) by {
                        lemma_push_contains(m0, val, t);
                        assert(ray_reaches(v, px, py, dx as int, dy as int, t.0 as int, t.1 as int,
                            color, f) == (sq_ok(px + dx, py + dy) && ((px + dx == t.0 as int && py
                            + dy == t.1 as int && v.open_to(px + dx, py + dy, color)) || (v.empty_at(
                            px + dx, py + dy) && ray_reaches(v, px + dx, py + dy, dx as int,
                            dy as int, t.0 as int, t.1 as int, color, (f - 1) as nat)))));
                    }
                    px = px + dx;
                    py = py + dy;
                    fl = (fl - 1) as nat;
                }
                nx = nx + dx;
                ny = ny + dy;
            } else {
                if self.is_enemy(nx, ny, color) {
                    let val = (nx as usize, ny as usize);
                    let ghost m0 = moves@;
                    moves.push(val);
                    proof {
                        assert forall|t: (usize, usize)|
                            moves@.contains(t) <==> (old(moves)@.contains(t) || ray_att(v, x as int,
                                y as int, dx as int, dy as int, t.0 as int, t.1 as int, color)) by {
                            lemma_push_contains(m0, val, t);
                            assert(ray_reaches(v, px, py, dx as int, dy as int, t.0 as int,
                                t.1 as int, color, f) == (sq_ok(px + dx, py + dy) && ((px + dx
                                == t.0 as int && py + dy == t.1 as int && v.open_to(px + dx, py + dy,
                                color)) || (v.empty_at(px + dx, py + dy) && ray_reaches(v, px + dx,
                                py + dy, dx as int, dy as int, t.0 as int, t.1 as int, color, (f
                                - 1) as nat)))));
                        }
                    }
                } else {
                    proof {
                        assert forall|t: (usize, usize)|
                            moves@.contains(t) <==> (old(moves)@.contains(t) || ray_att(v, x as int,
                                y as int, dx as int, dy as int, t.0 as int, t.1 as int, color)) by {
                            assert(ray_reaches(v, px, py, dx as int, dy as int, t.0 as int,
                                t.1 as int, color, f) == (sq_ok(px + dx, py + dy) && ((px + dx
                                == t.0 as int && py + dy == t.1 as int && v.open_to(px + dx, py + dy,
                                color)) || (v.empty_at(px + dx, py + dy) && ray_reaches(v, px + dx,
                                py + dy, dx as int, dy as int, t.0 as int, t.1 as int, color, (f
                                - 1) as nat)))));
                        }
                    }
                }
                go = false;
            }
        }
        proof {
            if go {
                assert forall|t: (usize, usize)|
                    moves@.contains(t) <==> (old(moves)@.contains(t) || ray_att(v, x as int, y as int,
                        dx as int, dy as int, t.0 as int, t.1 as int, color)) by {
                    assert(ray_reaches(v, px, py, dx as int, dy as int, t.0 as int, t.1 as int,
                        color, fl) == (sq_ok(px + dx, py + dy) && ((px + dx == t.0 as int && py + dy
                        == t.1 as int && v.open_to(px + dx, py + dy, color)) || (v.empty_at(px + dx,
                        py + dy) && ray_reaches(v, px + dx, py + dy, dx as int, dy as int, t.0 as int,
                        t.1 as int, color, (fl - 1) as nat)))));
                }
            }
        }
    }

    /// The basic-attack set of `piece` standing at `pos`: the second,
    /// restricted generator used only for attack and check queries.
    fn get_basic_attacks(&self, pos: (usize, usize), piece: &Piece) -> (r: Vec<(usize, usize)>)
        requires
            self.wf(),
            pos.0 < 8,
            pos.1 < 8,
        ensures
            forall|t: (usize, usize)|
                r@.contains(t) <==> basic_attack(self@, pos.0 as int, pos.1 as int, *piece,
                    t.0 as int, t.1 as int),
    {
        let mut moves: Vec<(usize, usize)> = Vec::new();
        let x = pos.0 as i32;
        let y = pos.1 as i32;
        proof {
            assert(x as int == pos.0 as int && y as int == pos.1 as int);
        }
        match piece.piece_type {
            PieceType::Pawn => {
                let dir: i32 = if piece.color == PieceColor::White {
                    -1
                } else {
                    1
                };
                self.push_jump_any(&mut moves, x - 1, y + dir);
                self.push_jump_any(&mut moves, x + 1, y + dir);
                proof {
                    assert forall|t: (usize, usize)|
                        moves@.contains(t) <==> basic_attack(self@, pos.0 as int, pos.1 as int,
                            *piece, t.0 as int, t.1 as int) by {}
                }
            },
            PieceType::King => {
                self.push_jump_any(&mut moves, x, y + 1);
                self.push_jump_any(&mut moves, x, y - 1);
                self.push_jump_any(&mut moves, x + 1, y);
                self.push_jump_any(&mut moves, x - 1, y);
                self.push_jump_any(&mut moves, x + 1, y + 1);
                self.push_jump_any(&mut moves, x + 1, y - 1);
                self.push_jump_any(&mut moves, x - 1, y + 1);
                self.push_jump_any(&mut moves, x - 1, y - 1);
                proof {
                    assert forall|t: (usize, usize)|
                        moves@.contains(t) <==> basic_attack(self@, pos.0 as int, pos.1 as int,
                            *piece, t.0 as int, t.1 as int) by {}
                }
            },
            PieceType::Knight => {
                self.push_jump_any(&mut moves, x + 1, y + 2);
                self.push_jump_any(&mut moves, x + 1, y - 2);
                self.push_jump_any(&mut moves, x - 1, y + 2);
                self.push_jump_any(&mut moves, x - 1, y - 2);
                self.push_jump_any(&mut moves, x + 2, y + 1);
                self.push_jump_any(&mut moves, x + 2, y - 1);
                self.push_jump_any(&mut moves, x - 2, y + 1);
                self.push_jump_any(&mut moves, x - 2, y - 1);
                proof {
                    assert forall|t: (usize, usize)|
                        moves@.contains(t) <==> basic_attack(self@, pos.0 as int, pos.1 as int,
                            *piece, t.0 as int, t.1 as int) by {}
                }
            },
            PieceType::Rook => {
                self.slide(&mut moves, x, y, 0, 1, piece.color);
                self.slide(&mut moves, x, y, 0, -1, piece.color);
                self.slide(&mut moves, x, y, 1, 0, piece.color);
                self.slide(&mut moves, x, y, -1, 0, piece.color);
                proof {
                    assert forall|t: (usize, usize)|
                        moves@.contains(t) <==> basic_attack(self@, pos.0 as int, pos.1 as int,
                            *piece, t.0 as int, t.1 as int) by {
                        lemma_ray_reaches_ok(self@, pos.0 as int, pos.1 as int, 0, 1, t.0 as int, t.1 as int, piece.color, 8);
                        lemma_ray_reaches_ok(self@, pos.0 as int, pos.1 as int, 0, -1, t.0 as int, t.1 as int, piece.color, 8);
                        lemma_ray_reaches_ok(self@, pos.0 as int, pos.1 as int, 1, 0, t.0 as int, t.1 as int, piece.color, 8);
                        lemma_ray_reaches_ok(self@, pos.0 as int, pos.1 as int, -1, 0, t.0 as int, t.1 as int, piece.color, 8);
                        lemma_ray_reaches_ok(self@, pos.0 as int, pos.1 as int, 1, 1, t.0 as int, t.1 as int, piece.color, 8);
                        lemma_ray_reaches_ok(self@, pos.0 as int, pos.1 as int, 1, -1, t.0 as int, t.1 as int, piece.color, 8);
                        lemma_ray_reaches_ok(self@, pos.0 as int, pos.1 as int, -1, 1, t.0 as int, t.1 as int, piece.color, 8);
                        lemma_ray_reaches_ok(self@, pos.0 as int, pos.1 as int, -1, -1, t.0 as int, t.1 as int, piece.color, 8);
                    }
                }
            },
            PieceType::Bishop => {
                self.slide(&mut moves, x, y, 1, 1, piece.color);
                self.slide(&mut moves, x, y, 1, -1, piece.color);
                self.slide(&mut moves, x, y, -1, 1, piece.color);
                self.slide(&mut moves, x, y, -1, -1, piece.color);
                proof {
                    assert forall|t: (usize, usize)|
                        moves@.contains(t) <==> basic_attack(self@, pos.0 as int, pos.1 as int,
                            *piece, t.0 as int, t.1 as int) by {
                        lemma_ray_reaches_ok(self@, pos.0 as int, pos.1 as int, 0, 1, t.0 as int, t.1 as int, piece.color, 8);
                        lemma_ray_reaches_ok(self@, pos.0 as int, pos.1 as int, 0, -1, t.0 as int, t.1 as int, piece.color, 8);
                        lemma_ray_reaches_ok(self@, pos.0 as int, pos.1 as int, 1, 0, t.0 as int, t.1 as int, piece.color, 8);
                        lemma_ray_reaches_ok(self@, pos.0 as int, pos.1 as int, -1, 0, t.0 as int, t.1 as int, piece.color, 8);
                        lemma_ray_reaches_ok(self@, pos.0 as int, pos.1 as int, 1, 1, t.0 as int, t.1 as int, piece.color, 8);
                        lemma_ray_reaches_ok(self@, pos.0 as int, pos.1 as int, 1, -1, t.0 as int, t.1 as int, piece.color, 8);
                        lemma_ray_reaches_ok(self@, pos.0 as int, pos.1 as int, -1, 1, t.0 as int, t.1 as int, piece.color, 8);
                        lemma_ray_reaches_ok(self@, pos.0 as int, pos.1 as int, -1, -1, t.0 as int, t.1 as int, piece.color, 8);
                    }
                }
            },
            PieceType::Queen => {
                self.slide(&mut moves, x, y, 0, 1, piece.color);
                self.slide(&mut moves, x, y, 0, -1, piece.color);
                self.slide(&mut moves, x, y, 1, 0, piece.color);
                self.slide(&mut moves, x, y, -1, 0, piece.color);
                self.slide(&mut moves, x, y, 1, 1, piece.color);
                self.slide(&mut moves, x, y, 1, -1, piece.color);
                self.slide(&mut moves, x, y, -1, 1, piece.color);
                self.slide(&mut moves, x, y, -1, -1, piece.color);
                proof {
                    assert forall|t: (usize, usize)|
                        moves@.contains(t) <==> basic_attack(self@, pos.0 as int, pos.1 as int,
                            *piece, t.0 as int, t.1 as int) by {
                        lemma_ray_reaches_ok(self@, pos.0 as int, pos.1 as int, 0, 1, t.0 as int, t.1 as int, piece.color, 8);
                        lemma_ray_reaches_ok(self@, pos.0 as int, pos.1 as int, 0, -1, t.0 as int, t.1 as int, piece.color, 8);
                        lemma_ray_reaches_ok(self@, pos.0 as int, pos.1 as int, 1, 0, t.0 as int, t.1 as int, piece.color, 8);
                        lemma_ray_reaches_ok(self@, pos.0 as int, pos.1 as int, -1, 0, t.0 as int, t.1 as int, piece.color, 8);
                        lemma_ray_reaches_ok(self@, pos.0 as int, pos.1 as int, 1, 1, t.0 as int, t.1 as int, piece.color, 8);
                        lemma_ray_reaches_ok(self@, pos.0 as int, pos.1 as int, 1, -1, t.0 as int, t.1 as int, piece.color, 8);
                        lemma_ray_reaches_ok(self@, pos.0 as int, pos.1 as int, -1, 1, t.0 as int, t.1 as int, piece.color, 8);
                        lemma_ray_reaches_ok(self@, pos.0 as int, pos.1 as int, -1, -1, t.0 as int, t.1 as int, piece.color, 8);
                    }
                }
            },
        }
        moves
    }

    /// True when an enemy of `color` attacks `pos`.
    fn is_square_attacked(&self, pos: (usize, usize), color: PieceColor) -> (r: bool)
        requires
            self.wf(),
            pos.0 < 8,
            pos.1 < 8,
        ensures
            r == square_attacked(self@, pos.0 as int, pos.1 as int, color),
    {
        let mut i: usize = 0;
        while i < 64
            invariant
                self.wf(),
                pos.0 < 8,
                pos.1 < 8,
                i <= 64,
                forall|xx: int, yy: int|
                    sq_ok(xx, yy) && yy * 8 + xx < i ==> !#[trigger] attacker_at(self@, xx, yy,
                        pos.0 as int, pos.1 as int, color),
            decreases 64 - i,
        {
            let x = i % 8;
            let y = i / 8;
            let cur: Option<Piece> = self.grid[i];
            match cur {
                Some(piece) => {
                    if piece.color != color {
                        let attacks = self.get_basic_attacks((x, y), &piece);
                        if Board::contains_square(&attacks, pos) {
                            proof {
                                assert(self@.at(x as int, y as int) == self@.cells[i as int]);
                                assert(attacker_at(self@, x as int, y as int, pos.0 as int,
                                    pos.1 as int, color));
                            }
                            return true;
                        }
                    }
                },
                None => {},
            }
            proof {
                assert(self@.at(i as int % 8, i as int / 8) == self@.cells[i as int]);
                assert(!attacker_at(self@, i as int % 8, i as int / 8, pos.0 as int, pos.1 as int,
                    color));
                assert forall|xx: int, yy: int|
                    sq_ok(xx, yy) && yy * 8 + xx < i + 1 implies !attacker_at(self@, xx, yy,
                    pos.0 as int, pos.1 as int, color) by {
                    if yy * 8 + xx == i {
                        assert(xx == i as int % 8 && yy == i as int / 8) by (nonlinear_arith)
                            requires
                                0 <= xx < 8 && 0 <= yy < 8 && yy * 8 + xx == i,
                        {}
                    }
                }
            }
            i = i + 1;
        }
        proof {
            assert forall|x: int, y: int| sq_ok(x, y) implies !attacker_at(self@, x, y, pos.0 as int,
                pos.1 as int, color) by {
                assert(y * 8 + x < 64);
            }
        }
        false
    }

    fn find_king(&self, color: PieceColor) -> (r: Option<(usize, usize)>)
        requires
            self.wf(),
        ensures
            r == find_king_spec(self@, color),
    {
        let mut i: usize = 0;
        while i < 64
            invariant
                self.wf(),
                i <= 64,
                king_scan(self@, color, 0) == king_scan(self@, color, i as int),
            decreases 64 - i,
        {
            let cur: Option<Piece> = self.grid[i];
            match cur {
                Some(p) => {
                    if p.piece_type == PieceType::King && p.color == color {
                        assert(king_scan(self@, color, i as int) == Some(((i % 8), (i / 8))));
                        return Some((i % 8, i / 8));
                    }
                },
                None => {},
            }
            assert(king_scan(self@, color, i as int) == king_scan(self@, color, i as int + 1));
            i = i + 1;
        }
        assert(king_scan(self@, color, 64) is None);
        None
    }

    /// Whether `color`'s king currently stands attacked.
    pub fn is_in_check(&self, color: PieceColor) -> (r: bool)
        requires
            self.wf(),
        ensures
            r == in_check(self@, color),
    {
        proof {
            lemma_king_scan_bounds(self@, color, 0);
        }
        match self.find_king(color) {
            Some(k) => self.is_square_attacked(k, color),
            None => false,
        }
    }

    /// Castling preconditions for the king standing at `king_pos`:
    /// matching unmoved rook, clear path, not in check, transit
    /// squares unattacked.
    fn can_castle(&self, king_pos: (usize, usize), kingside: bool) -> (r: bool)
        requires
            self.wf(),
            king_pos.0 < 8,
            king_pos.1 < 8,
            self@.at(king_pos.0 as int, king_pos.1 as int) is Some,
        ensures
            r == can_castle_spec(self@, king_pos.0 as int, king_pos.1 as int, kingside),
    {
        let piece = self.grid[king_pos.1 * 8 + king_pos.0].unwrap();
        let color = piece.color;
        if self.is_in_check(color) {
            return false;
        }
        let y = king_pos.1;
        let rook_x: usize = if kingside {
            7
        } else {
            0
        };
        match self.grid[y * 8 + rook_x] {
            Some(rp) => {
                if !(rp.piece_type == PieceType::Rook) || rp.has_moved || rp.color != color {
                    return false;
                }
            },
            None => {
                return false;
            },
        }
        if kingside {
            if !(self.grid[y * 8 + 5].is_none() && self.grid[y * 8 + 6].is_none()) {
                return false;
            }
            if self.is_square_attacked((5, y), color) {
                return false;
            }
            if self.is_square_attacked((6, y), color) {
                return false;
            }
            true
        } else {
            if !(self.grid[y * 8 + 1].is_none() && self.grid[y * 8 + 2].is_none() && self.grid[y * 8
                + 3].is_none()) {
                return false;
            }
            if self.is_square_attacked((3, y), color) {
                return false;
            }
            if self.is_square_attacked((2, y), color) {
                return false;
            }
            true
        }
    }

    /// Pushes the pawn's diagonal capture towards file `x + dx`: a
    /// normal capture onto an enemy square, or an en-passant capture
    /// onto an empty square inside the window.
    #[verifier::rlimit(50)]
    fn push_pawn_capture(&self, moves: &mut Vec<(usize, usize)>, x: i32, y: i32, dx: i32, piece: &Piece)
        requires
            self.wf(),
            sq_ok(x as int, y as int),
            dx == -1 || dx == 1,
        ensures
            forall|t: (usize, usize)|
                final(moves)@.contains(t) <==> (old(moves)@.contains(t) || (sq_ok(x + dx, y
                    + pawn_dir(piece.color)) && t.0 as int == x + dx && t.1 as int == y + pawn_dir(
                    piece.color,
                ) && (self@.enemy_at(x + dx, y + pawn_dir(piece.color), piece.color) || (self@.empty_at(
                    x + dx,
                    y + pawn_dir(piece.color),
                ) && ep_capture(self@, x as int, y as int, *piece, x + dx))))),
    {
        let dir: i32 = if piece.color == PieceColor::White {
            -1
        } else {
            1
        };
        proof {
            assert(dir as int == pawn_dir(piece.color));
        }
        let cx = x + dx;
        let cy = y + dir;
        let ghost dcond = sq_ok(x + dx, y + pawn_dir(piece.color)) && (self@.enemy_at(x + dx, y
            + pawn_dir(piece.color), piece.color) || (self@.empty_at(x + dx, y + pawn_dir(piece.color))
            && ep_capture(self@, x as int, y as int, *piece, x + dx)));
        let mut capture = false;
        if self.is_valid_pos(cx, cy) {
            if self.is_enemy(cx, cy, piece.color) {
                capture = true;
                proof {
                    assert(dcond);
                }
            } else if self.is_empty(cx, cy) {
                match self.last_move {
                    Some((lf, lt)) => {
                        let dy_abs = if lf.1 >= lt.1 {
                            lf.1 - lt.1
                        } else {
                            lt.1 - lf.1
                        };
                        if lt.0 == cx as usize && lt.1 == y as usize && dy_abs == 2 {
                            match self.grid[lt.1 * 8 + lt.0] {
                                Some(target) => {
                                    if target.piece_type == PieceType::Pawn && target.color
                                        != piece.color {
                                        capture = true;
                                        proof {
                                            assert(ep_capture(self@, x as int, y as int, *piece, x
                                                + dx));
                                            assert(dcond);
                                        }
                                    } else {
                                        proof {
                                            assert(!ep_capture(self@, x as int, y as int, *piece, x
                                                + dx));
                                        }
                                    }
                                },
                                None => {
                                    proof {
                                        assert(!ep_capture(self@, x as int, y as int, *piece, x
                                            + dx));
                                    }
                                },
                            }
                        } else {
                            proof {
                                assert(!ep_capture(self@, x as int, y as int, *piece, x + dx));
                            }
                        }
                    },
                    None => {
                        proof {
                            assert(!ep_capture(self@, x as int, y as int, *piece, x + dx));
                        }
                    },
                }
            } else {
                proof {
                    assert(!dcond);
                }
            }
        } else {
            proof {
                assert(!dcond);
            }
        }
        if capture {
            let val = (cx as usize, cy as usize);
            let ghost m0 = moves@;
            moves.push(val);
            proof {
                assert(dcond);
                assert forall|t: (usize, usize)|
                    moves@.contains(t) <==> (old(moves)@.contains(t) || (dcond && t.0 as int == x
                        + dx && t.1 as int == y + pawn_dir(piece.color))) by {
                    lemma_push_contains(m0, val, t);
                }
            }
        } else {
            proof {
                assert(!dcond);
            }
        }
    }

    /// The pseudo-legal destinations of `piece` standing at `pos`:
    /// movement rules only, ignoring whether the mover's own king is
    /// left in check.
    #[verifier::rlimit(80)]
    fn get_pseudo_legal_moves(&self, pos: (usize, usize), piece: &Piece) -> (r: Vec<(usize, usize)>)
        requires
            self.wf(),
            pos.0 < 8,
            pos.1 < 8,
            self@.at(pos.0 as int, pos.1 as int) == Some(*piece),
        ensures
            forall|t: (usize, usize)|
                r@.contains(t) <==> pseudo_move(self@, pos.0 as int, pos.1 as int, *piece,
                    t.0 as int, t.1 as int),
    {
        let mut moves: Vec<(usize, usize)> = Vec::new();
        let x = pos.0 as i32;
        let y = pos.1 as i32;
        proof {
            assert(x as int == pos.0 as int && y as int == pos.1 as int);
        }
        match piece.piece_type {
            PieceType::Pawn => {
                let dir: i32 = if piece.color == PieceColor::White {
                    -1
                } else {
                    1
                };
                proof {
                    assert(dir as int == pawn_dir(piece.color));
                }
                let ghost d = pawn_dir(piece.color);
                let ghost fcond = sq_ok(x as int, y + d) && self@.empty_at(x as int, y + d);
                let ghost dcond = fcond && !piece.has_moved && sq_ok(x as int, y + 2 * d)
                    && self@.empty_at(x as int, y + 2 * d);
                let ny = y + dir;
                if self.is_valid_pos(x, ny) && self.is_empty(x, ny) {
                    let val = (x as usize, ny as usize);
                    let ghost m0 = moves@;
                    moves.push(val);
                    proof {
                        assert forall|t: (usize, usize)|
                            moves@.contains(t) <==> (fcond && t.0 as int == x && t.1 as int == y
                                + d) by {
                            lemma_push_contains(m0, val, t);
                            assert(!m0.contains(t));
                        }
                    }
                    if !piece.has_moved {
                        let yy = y + 2 * dir;
                        if self.is_valid_pos(x, yy) && self.is_empty(x, yy) {
                            let val2 = (x as usize, yy as usize);
                            let ghost m1 = moves@;
                            moves.push(val2);
                            proof {
                                assert forall|t: (usize, usize)|
                                    moves@.contains(t) <==> ((fcond && t.0 as int == x && t.1 as int
                                        == y + d) || (dcond && t.0 as int == x && t.1 as int == y + 2
                                        * d)) by {
                                    lemma_push_contains(m1, val2, t);
                                }
                            }
                        }
                    }
                }
                proof {
                    assert forall|t: (usize, usize)|
                        moves@.contains(t) <==> ((fcond && t.0 as int == x && t.1 as int == y + d)
                            || (dcond && t.0 as int == x && t.1 as int == y + 2 * d)) by {}
                }
                self.push_pawn_capture(&mut moves, x, y, -1, piece);
                self.push_pawn_capture(&mut moves, x, y, 1, piece);
                proof {
                    assert forall|t: (usize, usize)|
                        moves@.contains(t) <==> pseudo_move(self@, pos.0 as int, pos.1 as int,
                            *piece, t.0 as int, t.1 as int) by {
                        let tx = t.0 as int;
                        let ty = t.1 as int;
                        assert((fcond && tx == x && ty == y + d) ==> (sq_ok(tx, ty) && pawn_pseudo(
                            self@, x as int, y as int, *piece, tx, ty)));
                        assert((dcond && tx == x && ty == y + 2 * d) ==> (sq_ok(tx, ty)
                            && pawn_pseudo(self@, x as int, y as int, *piece, tx, ty)));
                    }
                }
            },
            PieceType::King => {
                self.push_jump_open(&mut moves, x, y + 1, piece.color);
                self.push_jump_open(&mut moves, x, y - 1, piece.color);
                self.push_jump_open(&mut moves, x + 1, y, piece.color);
                self.push_jump_open(&mut moves, x - 1, y, piece.color);
                self.push_jump_open(&mut moves, x + 1, y + 1, piece.color);
                self.push_jump_open(&mut moves, x + 1, y - 1, piece.color);
                self.push_jump_open(&mut moves, x - 1, y + 1, piece.color);
                self.push_jump_open(&mut moves, x - 1, y - 1, piece.color);
                proof {
                    assert forall|t: (usize, usize)| #![trigger moves@.contains(t)]
                        moves@.contains(t) <==> (sq_ok(t.0 as int, t.1 as int) && king_step(
                            x as int, y as int, t.0 as int, t.1 as int) && self@.open_to(t.0 as int,
                            t.1 as int, piece.color)) by {}
                }
                let ghost mka = moves@;
                let ghost ck = !piece.has_moved && can_castle_spec(self@, x as int, y as int,
                    true);
                let ghost cq = !piece.has_moved && can_castle_spec(self@, x as int, y as int,
                    false);
                let ks = !piece.has_moved && self.can_castle(pos, true);
                if ks {
                    proof {
                        lemma_castle_king_file(self@, pos.0 as int, pos.1 as int, true);
                    }
                    moves.push(((x + 2) as usize, y as usize));
                }
                proof {
                    assert forall|t: (usize, usize)| #![trigger moves@.contains(t)]
                        moves@.contains(t) <==> (mka.contains(t) || (ck && t.0 as int == x + 2
                            && t.1 as int == y as int)) by {
                        if ks {
                            lemma_castle_king_file(self@, pos.0 as int, pos.1 as int, true);
                            lemma_push_contains(mka, (((x + 2) as usize), (y as usize)), t);
                        }
                    }
                }
                let ghost mkb = moves@;
                let qs = !piece.has_moved && self.can_castle(pos, false);
                if qs {
                    proof {
                        lemma_castle_king_file(self@, pos.0 as int, pos.1 as int, false);
                    }
                    moves.push(((x - 2) as usize, y as usize));
                }
                proof {
                    assert forall|t: (usize, usize)| #![trigger moves@.contains(t)]
                        moves@.contains(t) <==> (mkb.contains(t) || (cq && t.0 as int == x - 2
                            && t.1 as int == y as int)) by {
                        if qs {
                            lemma_castle_king_file(self@, pos.0 as int, pos.1 as int, false);
                            lemma_push_contains(mkb, (((x - 2) as usize), (y as usize)), t);
                        }
                    }
                    assert forall|t: (usize, usize)|
                        moves@.contains(t) <==> (mka.contains(t) || (ck && t.0 as int == x + 2
                            && t.1 as int == y as int) || (cq && t.0 as int == x - 2 && t.1 as int
                            == y as int)) by {
                        assert(moves@.contains(t) <==> (mkb.contains(t) || (cq && t.0 as int == x
                            - 2 && t.1 as int == y as int)));
                        assert(mkb.contains(t) <==> (mka.contains(t) || (ck && t.0 as int == x + 2
                            && t.1 as int == y as int)));
                    }
                }
                proof {
                    assert forall|t: (usize, usize)|
                        moves@.contains(t) <==> ((sq_ok(t.0 as int, t.1 as int) && king_step(
                            x as int, y as int, t.0 as int, t.1 as int) && self@.open_to(t.0 as int,
                            t.1 as int, piece.color)) || (ck && t.0 as int == x + 2 && t.1 as int
                            == y as int) || (cq && t.0 as int == x - 2 && t.1 as int
                            == y as int)) by {
                        assert(moves@.contains(t) <==> (mka.contains(t) || (ck && t.0 as int == x
                            + 2 && t.1 as int == y as int) || (cq && t.0 as int == x - 2
                            && t.1 as int == y as int)));
                        assert(mka.contains(t) <==> (sq_ok(t.0 as int, t.1 as int) && king_step(
                            x as int, y as int, t.0 as int, t.1 as int) && self@.open_to(t.0 as int,
                            t.1 as int, piece.color)));
                    }
                    assert forall|t: (usize, usize)|
                        moves@.contains(t) <==> pseudo_move(self@, pos.0 as int, pos.1 as int,
                            *piece, t.0 as int, t.1 as int) by {
                        let tx = t.0 as int;
                        let ty = t.1 as int;
                        if ck {
                            lemma_castle_king_file(self@, x as int, y as int, true);
                            assert((ck && tx == x + 2 && ty == y as int) ==> sq_ok(tx, ty));
                        }
                        if cq {
                            lemma_castle_king_file(self@, x as int, y as int, false);
                            assert((cq && tx == x - 2 && ty == y as int) ==> sq_ok(tx, ty));
                        }
                        assert(castle_dest(self@, x as int, y as int, *piece, tx, ty) <==> ((ck
                            && tx == x + 2 && ty == y as int) || (cq && tx == x - 2 && ty
                            == y as int)));
                    }
                }
            },
            PieceType::Knight => {
                self.push_jump_open(&mut moves, x + 1, y + 2, piece.color);
                self.push_jump_open(&mut moves, x + 1, y - 2, piece.color);
                self.push_jump_open(&mut moves, x - 1, y + 2, piece.color);
                self.push_jump_open(&mut moves, x - 1, y - 2, piece.color);
                self.push_jump_open(&mut moves, x + 2, y + 1, piece.color);
                self.push_jump_open(&mut moves, x + 2, y - 1, piece.color);
                self.push_jump_open(&mut moves, x - 2, y + 1, piece.color);
                self.push_jump_open(&mut moves, x - 2, y - 1, piece.color);
                proof {
                    assert forall|t: (usize, usize)|
                        moves@.contains(t) <==> pseudo_move(self@, pos.0 as int, pos.1 as int,
                            *piece, t.0 as int, t.1 as int) by {}
                }
            },
            PieceType::Rook => {
                self.slide(&mut moves, x, y, 0, 1, piece.color);
                self.slide(&mut moves, x, y, 0, -1, piece.color);
                self.slide(&mut moves, x, y, 1, 0, piece.color);
                self.slide(&mut moves, x, y, -1, 0, piece.color);
                proof {
                    assert forall|t: (usize, usize)|
                        moves@.contains(t) <==> pseudo_move(self@, pos.0 as int, pos.1 as int,
                            *piece, t.0 as int, t.1 as int) by {
                        lemma_ray_reaches_ok(self@, pos.0 as int, pos.1 as int, 0, 1, t.0 as int, t.1 as int, piece.color, 8);
                        lemma_ray_reaches_ok(self@, pos.0 as int, pos.1 as int, 0, -1, t.0 as int, t.1 as int, piece.color, 8);
                        lemma_ray_reaches_ok(self@, pos.0 as int, pos.1 as int, 1, 0, t.0 as int, t.1 as int, piece.color, 8);
                        lemma_ray_reaches_ok(self@, pos.0 as int, pos.1 as int, -1, 0, t.0 as int, t.1 as int, piece.color, 8);
                    }
                }
            },
            PieceType::Bishop => {
                self.slide(&mut moves, x, y, 1, 1, piece.color);
                self.slide(&mut moves, x, y, 1, -1, piece.color);
                self.slide(&mut moves, x, y, -1, 1, piece.color);
                self.slide(&mut moves, x, y, -1, -1, piece.color);
                proof {
                    assert forall|t: (usize, usize)|
                        moves@.contains(t) <==> pseudo_move(self@, pos.0 as int, pos.1 as int,
                            *piece, t.0 as int, t.1 as int) by {
                        lemma_ray_reaches_ok(self@, pos.0 as int, pos.1 as int, 1, 1, t.0 as int, t.1 as int, piece.color, 8);
                        lemma_ray_reaches_ok(self@, pos.0 as int, pos.1 as int, 1, -1, t.0 as int, t.1 as int, piece.color, 8);
                        lemma_ray_reaches_ok(self@, pos.0 as int, pos.1 as int, -1, 1, t.0 as int, t.1 as int, piece.color, 8);
                        lemma_ray_reaches_ok(self@, pos.0 as int, pos.1 as int, -1, -1, t.0 as int, t.1 as int, piece.color, 8);
                    }
                }
            },
            PieceType::Queen => {
                self.slide(&mut moves, x, y, 0, 1, piece.color);
                self.slide(&mut moves, x, y, 0, -1, piece.color);
                self.slide(&mut moves, x, y, 1, 0, piece.color);
                self.slide(&mut moves, x, y, -1, 0, piece.color);
                self.slide(&mut moves, x, y, 1, 1, piece.color);
                self.slide(&mut moves, x, y, 1, -1, piece.color);
                self.slide(&mut moves, x, y, -1, 1, piece.color);
                self.slide(&mut moves, x, y, -1, -1, piece.color);
                proof {
                    assert forall|t: (usize, usize)|
                        moves@.contains(t) <==> pseudo_move(self@, pos.0 as int, pos.1 as int,
                            *piece, t.0 as int, t.1 as int) by {
                        lemma_ray_reaches_ok(self@, pos.0 as int, pos.1 as int, 0, 1, t.0 as int, t.1 as int, piece.color, 8);
                        lemma_ray_reaches_ok(self@, pos.0 as int, pos.1 as int, 0, -1, t.0 as int, t.1 as int, piece.color, 8);
                        lemma_ray_reaches_ok(self@, pos.0 as int, pos.1 as int, 1, 0, t.0 as int, t.1 as int, piece.color, 8);
                        lemma_ray_reaches_ok(self@, pos.0 as int, pos.1 as int, -1, 0, t.0 as int, t.1 as int, piece.color, 8);
                        lemma_ray_reaches_ok(self@, pos.0 as int, pos.1 as int, 1, 1, t.0 as int, t.1 as int, piece.color, 8);
                        lemma_ray_reaches_ok(self@, pos.0 as int, pos.1 as int, 1, -1, t.0 as int, t.1 as int, piece.color, 8);
                        lemma_ray_reaches_ok(self@, pos.0 as int, pos.1 as int, -1, 1, t.0 as int, t.1 as int, piece.color, 8);
                        lemma_ray_reaches_ok(self@, pos.0 as int, pos.1 as int, -1, -1, t.0 as int, t.1 as int, piece.color, 8);
                    }
                }
            },
        }
        moves
    }

    /// The legal destinations of the piece at `pos`: each pseudo-legal
    /// candidate kept only when playing it does not leave the mover's
    /// own king in check. An off-board coordinate is rejected; an
    /// empty source yields an empty list.
    pub fn get_valid_moves(&self, pos: (usize, usize)) -> (r: Result<Vec<(usize, usize)>, BoardError>)
        requires
            self.wf(),
        ensures
            match r {
                Ok(ms) => pos.0 < 8 && pos.1 < 8 && forall|t: (usize, usize)|
                    #![trigger ms@.contains(t)]
                    ms@.contains(t) <==> legal_move(self@, pos, t),
                Err(e) => !(pos.0 < 8 && pos.1 < 8) && e == BoardError::InvalidSquare,
            },
    {
        if !(pos.0 < 8 && pos.1 < 8) {
            return Err(BoardError::InvalidSquare);
        }
        let mut moves: Vec<(usize, usize)> = Vec::new();
        let cur: Option<Piece> = self.grid[pos.1 * 8 + pos.0];
        match cur {
            None => {},
            Some(piece) => {
                let candidates = self.get_pseudo_legal_moves(pos, &piece);
                let mut i: usize = 0;
                while i < candidates.len()
                    invariant
                        self.wf(),
                        pos.0 < 8,
                        pos.1 < 8,
                        self@.at(pos.0 as int, pos.1 as int) == Some(piece),
                        i <= candidates@.len(),
                        forall|t: (usize, usize)|
                            #![trigger candidates@.contains(t)]
                            candidates@.contains(t) <==> pseudo_move(self@, pos.0 as int,
                                pos.1 as int, piece, t.0 as int, t.1 as int),
                        forall|t: (usize, usize)|
                            #![trigger moves@.contains(t)]
                            moves@.contains(t) <==> (candidates@.take(i as int).contains(t)
                                && legal_move(self@, pos, t)),
                    decreases candidates@.len() - i,
                {
                    let dest = candidates[i];
                    let mut temp = self.duplicate();
                    temp.move_piece(pos, dest);
                    let ghost m0 = moves@;
                    let pushed = if !temp.is_in_check(piece.color) {
                        moves.push(dest);
                        true
                    } else {
                        false
                    };
                    proof {
                        assert(candidates@.contains(candidates@[i as int]));
                        assert forall|t: (usize, usize)|
                            #![trigger moves@.contains(t)]
                            moves@.contains(t) <==> (candidates@.take(i as int + 1).contains(t)
                                && legal_move(self@, pos, t)) by {
                            lemma_take_succ_contains(candidates@, i as int, t);
                            if pushed {
                                lemma_push_contains(m0, dest, t);
                            }
                        }
                    }
                    i = i + 1;
                }
                proof {
                    assert(candidates@.take(candidates@.len() as int) =~= candidates@);
                }
            },
        }
        Ok(moves)
    }

    /// Checkmate: currently in check and no piece of `color` has a
    /// legal move. "No legal moves and not in check" is stalemate and
    /// reports false here; callers distinguish it via `is_in_check`.
    pub fn is_checkmate(&self, color: PieceColor) -> (r: bool)
        requires
            self.wf(),
        ensures
            r == checkmate_spec(self@, color),
    {
        if !self.is_in_check(color) {
            return false;
        }
        let mut i: usize = 0;
        while i < 64
            invariant
                self.wf(),
                i <= 64,
                forall|m: MovePair|
                    #![trigger is_move_of(self@, color, m)]
                    is_move_of(self@, color, m) ==> m.0.1 * 8 + m.0.0 >= i,
            decreases 64 - i,
        {
            let x = i % 8;
            let y = i / 8;
            let cur: Option<Piece> = self.grid[i];
            match cur {
                Some(piece) => {
                    if piece.color == color {
                        let ms = match self.get_valid_moves((x, y)) {
                            Ok(v) => v,
                            Err(_) => {
                                return false;
                            },
                        };
                        if ms.len() > 0 {
                            proof {
                                assert(ms@.contains(ms@[0]));
                                assert(self@.at(x as int, y as int) == self@.cells[i as int]);
                                assert(is_move_of(self@, color, ((x, y), ms@[0])));
                            }
                            return false;
                        }
                        proof {
                            assert forall|m: MovePair|
                                is_move_of(self@, color, m) implies m.0.1 * 8 + m.0.0 != i by {
                                if m.0.1 * 8 + m.0.0 == i {
                                    assert(m.0.0 as int == i as int % 8 && m.0.1 as int == i as int
                                        / 8) by (nonlinear_arith)
                                        requires
                                            m.0.0 < 8 && m.0.1 < 8 && m.0.1 * 8 + m.0.0 == i,
                                    {}
                                    assert(m.0 == (x, y));
                                    assert(!ms@.contains(m.1));
                                }
                            }
                        }
                    } else {
                        proof {
                            assert forall|m: MovePair|
                                is_move_of(self@, color, m) implies m.0.1 * 8 + m.0.0 != i by {
                                if m.0.1 * 8 + m.0.0 == i {
                                    assert(m.0.0 as int == i as int % 8 && m.0.1 as int == i as int
                                        / 8) by (nonlinear_arith)
                                        requires
                                            m.0.0 < 8 && m.0.1 < 8 && m.0.1 * 8 + m.0.0 == i,
                                    {}
                                    assert(self@.at(m.0.0 as int, m.0.1 as int)
                                        == self@.cells[i as int]);
                                }
                            }
                        }
                    }
                },
                None => {
                    proof {
                        assert forall|m: MovePair|
                            is_move_of(self@, color, m) implies m.0.1 * 8 + m.0.0 != i by {
                            if m.0.1 * 8 + m.0.0 == i {
                                assert(m.0.0 as int == i as int % 8 && m.0.1 as int == i as int
                                    / 8) by (nonlinear_arith)
                                    requires
                                        m.0.0 < 8 && m.0.1 < 8 && m.0.1 * 8 + m.0.0 == i,
                                {}
                                assert(self@.at(m.0.0 as int, m.0.1 as int)
                                    == self@.cells[i as int]);
                            }
                        }
                    }
                },
            }
            i = i + 1;
        }
        proof {
            if has_legal_move(self@, color) {
                let m = choose|m: MovePair| is_move_of(self@, color, m);
                assert(m.0.1 * 8 + m.0.0 < 64);
            }
        }
        true
    }

    /// Every legal move of `color`, as `(source, destination)` pairs,
    /// gathered over the whole board.
    pub fn all_legal_moves(&self, color: PieceColor) -> (r: Vec<MovePair>)
        requires
            self.wf(),
        ensures
            forall|m: MovePair| #![trigger r@.contains(m)] r@.contains(m) <==> is_move_of(self@, color, m),
    {
        let mut result: Vec<MovePair> = Vec::new();
        let mut i: usize = 0;
        while i < 64
            invariant
                self.wf(),
                i <= 64,
                forall|m: MovePair|
                    #![trigger result@.contains(m)]
                    result@.contains(m) <==> (is_move_of(self@, color, m) && m.0.1 * 8 + m.0.0 < i),
            decreases 64 - i,
        {
            let x = i % 8;
            let y = i / 8;
            let cur: Option<Piece> = self.grid[i];
            match cur {
                Some(piece) => {
                    if piece.color == color {
                        let ms = match self.get_valid_moves((x, y)) {
                            Ok(v) => v,
                            Err(_) => {
                                return result;
                            },
                        };
                        proof {
                            assert(self@.at(x as int, y as int) == self@.cells[i as int]);
                        }
                        let mut j: usize = 0;
                        while j < ms.len()
                            invariant
                                self.wf(),
                                i < 64,
                                j <= ms@.len(),
                                x == i % 8,
                                y == i / 8,
                                x < 8,
                                y < 8,
                                self@.at(x as int, y as int) == Some(piece),
                                piece.color == color,
                                forall|t: (usize, usize)|
                                    #![trigger ms@.contains(t)]
                                    ms@.contains(t) <==> legal_move(self@, (x, y), t),
                                forall|m: MovePair|
                                    #![trigger result@.contains(m)]
                                    result@.contains(m) <==> ((is_move_of(self@, color, m) && m.0.1
                                        * 8 + m.0.0 < i) || (m.0 == (x, y) && ms@.take(
                                        j as int,
                                    ).contains(m.1))),
                            decreases ms@.len() - j,
                        {
                            let dest = ms[j];
                            let ghost r0 = result@;
                            result.push(((x, y), dest));
                            proof {
                                assert forall|m: MovePair|
                                    #![trigger result@.contains(m)]
                                    result@.contains(m) <==> ((is_move_of(self@, color, m) && m.0.1
                                        * 8 + m.0.0 < i) || (m.0 == (x, y) && ms@.take(
                                        j as int + 1,
                                    ).contains(m.1))) by {
                                    lemma_push_contains(r0, ((x, y), dest), m);
                                    lemma_take_succ_contains(ms@, j as int, m.1);
                                }
                            }
                            j = j + 1;
                        }
                        proof {
                            assert(ms@.take(ms@.len() as int) =~= ms@);
                            assert forall|m: MovePair|
                                #![trigger result@.contains(m)]
                                result@.contains(m) <==> (is_move_of(self@, color, m) && m.0.1 * 8
                                    + m.0.0 < i + 1) by {
                                if m.0.1 * 8 + m.0.0 == i && m.0.0 < 8 && m.0.1 < 8 {
                                    assert(m.0.0 as int == i as int % 8 && m.0.1 as int == i as int
                                        / 8) by (nonlinear_arith)
                                        requires
                                            m.0.0 < 8 && m.0.1 < 8 && m.0.1 * 8 + m.0.0 == i,
                                    {}
                                    assert(m.0 == (x, y));
                                }
                                if m.0 == (x, y) {
                                    assert(m.0.1 * 8 + m.0.0 == i as int) by (nonlinear_arith)
                                        requires
                                            m.0.0 == i % 8 && m.0.1 == i / 8 && i < 64,
                                    {}
                                }
                            }
                        }
                    } else {
                        proof {
                            assert forall|m: MovePair|
                                is_move_of(self@, color, m) implies m.0.1 * 8 + m.0.0 != i by {
                                if m.0.1 * 8 + m.0.0 == i {
                                    assert(m.0.0 as int == i as int % 8 && m.0.1 as int == i as int
                                        / 8) by (nonlinear_arith)
                                        requires
                                            m.0.0 < 8 && m.0.1 < 8 && m.0.1 * 8 + m.0.0 == i,
                                    {}
                                    assert(self@.at(m.0.0 as int, m.0.1 as int)
                                        == self@.cells[i as int]);
                                }
                            }
                        }
                    }
                },
                None => {
                    proof {
                        assert forall|m: MovePair|
                            is_move_of(self@, color, m) implies m.0.1 * 8 + m.0.0 != i by {
                            if m.0.1 * 8 + m.0.0 == i {
                                assert(m.0.0 as int == i as int % 8 && m.0.1 as int == i as int
                                    / 8) by (nonlinear_arith)
                                    requires
                                        m.0.0 < 8 && m.0.1 < 8 && m.0.1 * 8 + m.0.0 == i,
                                {}
                                assert(self@.at(m.0.0 as int, m.0.1 as int)
                                    == self@.cells[i as int]);
                            }
                        }
                    }
                },
            }
            i = i + 1;
        }
        proof {
            assert forall|m: MovePair| result@.contains(m) <==> is_move_of(self@, color, m) by {
                if is_move_of(self@, color, m) {
                    assert(m.0.1 * 8 + m.0.0 < 64);
                }
            }
        }
        result
    }
}

} // verus!
