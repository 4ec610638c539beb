//! The search engine: depth-limited minimax with alpha-beta pruning
//! over the board engine's legal moves, scored by a material-and-
//! position evaluation. The specification-level `spec_minimax` is the
//! plain full-width minimax; the pruned executable search is proved to
//! return exactly that value.
use vstd::prelude::*;
use rand::seq::SliceRandom;
use crate::pieces::{Piece, PieceColor, PieceType};
use crate::model::{BoardView, MovePair, apply_move, has_legal_move, in_check, is_move_of};
use crate::board::Board;

verus! {

/// Search depth in plies.
pub const MAX_DEPTH: i32 = 4;

/// Material value of a piece kind.
pub open spec fn piece_value(t: PieceType) -> int {
    match t {
        PieceType::Pawn => 10,
        PieceType::Knight => 30,
        PieceType::Bishop => 30,
        PieceType::Rook => 50,
        PieceType::Queen => 90,
        PieceType::King => 900,
    }
}

/// Positional bonus: central squares are worth more, pawns gain by
/// advancing, knights lose on the rim.
pub open spec fn position_bonus(p: Piece, x: int, y: int) -> int {
    let center = if 3 <= x && x <= 4 && 3 <= y && y <= 4 {
        20int
    } else if 2 <= x && x <= 5 && 2 <= y && y <= 5 {
        10int
    } else {
        0int
    };
    center + (match p.piece_type {
        PieceType::Pawn => (if p.color is White {
            7 - y
        } else {
            y
        }) * 10,
        PieceType::Knight => if x == 0 || x == 7 || y == 0 || y == 7 {
            -30int
        } else {
            0int
        },
        _ => 0int,
    })
}

/// Signed contribution of cell `i` to the evaluation for `c`.
pub open spec fn cell_score(v: BoardView, i: int, c: PieceColor) -> int {
    match v.cells[i] {
        Some(p) => {
            let s = piece_value(p.piece_type) + position_bonus(p, i % 8, i / 8);
            if p.color == c {
                s
            } else {
                -s
            }
        },
        None => 0,
    }
}

pub open spec fn eval_prefix(v: BoardView, c: PieceColor, n: int) -> int
    decreases n,
{
    if n <= 0 {
        0
    } else {
        eval_prefix(v, c, n - 1) + cell_score(v, n - 1, c)
    }
}

/// Full-board evaluation for `c`: own material and position added,
/// the opponent's subtracted.
pub open spec fn spec_evaluate(v: BoardView, c: PieceColor) -> int {
    eval_prefix(v, c, 64)
}

pub proof fn lemma_cell_score_bound(v: BoardView, i: int, c: PieceColor)
    requires
        0 <= i < 64,
    ensures
        -1000 <= cell_score(v, i, c) <= 1000,
{
}

pub proof fn lemma_eval_prefix_bound(v: BoardView, c: PieceColor, n: int)
    requires
        0 <= n <= 64,
    ensures
        -1000 * n <= eval_prefix(v, c, n),
        eval_prefix(v, c, n) <= 1000 * n,
    decreases n,
{
    if n > 0 {
        lemma_eval_prefix_bound(v, c, n - 1);
        lemma_cell_score_bound(v, n - 1, c);
    }
}

/// The evaluation stays far below the mate sentinels, so a sentinel
/// can never be mistaken for a reachable material score.
pub proof fn lemma_eval_bound(v: BoardView, c: PieceColor)
    ensures
        -64000 <= spec_evaluate(v, c) <= 64000,
{
    lemma_eval_prefix_bound(v, c, 64);
}

pub proof fn lemma_eval_prefix_antisym(v: BoardView, c: PieceColor, n: int)
    ensures
        eval_prefix(v, c, n) == -eval_prefix(v, c.opposite_spec(), n),
    decreases n,
{
    if n > 0 {
        lemma_eval_prefix_antisym(v, c, n - 1);
    }
}

/// Evaluation antisymmetry: the two sides' scores of one position are
/// exact negatives of each other.
pub proof fn lemma_evaluate_antisym(v: BoardView, c: PieceColor)
    ensures
        spec_evaluate(v, c) == -spec_evaluate(v, c.opposite_spec()),
{
    lemma_eval_prefix_antisym(v, c, 64);
}

/// The canonical square order: row-major over the 64 cells.
pub open spec fn sq_of(i: int) -> (usize, usize) {
    (((i % 8) as usize), ((i / 8) as usize))
}

/// Every ordered pair of board squares, in a fixed canonical order.
pub open spec fn all_pairs() -> Seq<MovePair> {
    Seq::new(4096, |i: int| (sq_of(i / 64), sq_of(i % 64)))
}

/// The legal moves of `c` in canonical order: the reference move list
/// the search's value is defined over.
pub open spec fn legal_moves_seq(v: BoardView, c: PieceColor) -> Seq<MovePair> {
    all_pairs().filter(|m: MovePair| is_move_of(v, c, m))
}

pub proof fn lemma_legal_moves_seq(v: BoardView, c: PieceColor)
    ensures
        forall|m: MovePair|
            #![trigger legal_moves_seq(v, c).contains(m)]
            legal_moves_seq(v, c).contains(m) <==> is_move_of(v, c, m),
{
    let pairs = all_pairs();
    let pred = |m: MovePair| is_move_of(v, c, m);
    broadcast use vstd::seq_lib::group_filter_ensures;
    assert forall|m: MovePair|
        legal_moves_seq(v, c).contains(m) <==> is_move_of(v, c, m) by {
        if legal_moves_seq(v, c).contains(m) {
            let i = choose|i: int|
                0 <= i < legal_moves_seq(v, c).len() && legal_moves_seq(v, c)[i] == m;
            assert(pred(legal_moves_seq(v, c)[i]));
        }
        if is_move_of(v, c, m) {
            let a = m.0.0 as int;
            let b = m.0.1 as int;
            let cc = m.1.0 as int;
            let dd = m.1.1 as int;
            let fi = b * 8 + a;
            let ti = dd * 8 + cc;
            let i = fi * 64 + ti;
            assert(0 <= fi < 64 && 0 <= ti < 64);
            assert(0 <= i < 4096 && i / 64 == fi && i % 64 == ti) by (nonlinear_arith)
                requires
                    0 <= fi < 64 && 0 <= ti < 64 && i == fi * 64 + ti,
            {}
            assert(fi % 8 == a && fi / 8 == b && ti % 8 == cc && ti / 8 == dd) by (nonlinear_arith)
                requires
                    0 <= a < 8 && 0 <= b < 8 && 0 <= cc < 8 && 0 <= dd < 8 && fi == b * 8 + a && ti
                        == dd * 8 + cc,
            {}
            assert(pairs[i] == m);
            assert(pred(pairs[i]));
            assert(legal_moves_seq(v, c).contains(pairs[i]));
        }
    }
}

/// The value a move is searched at: the minimax value of the position
/// after it, one ply shallower, with the roles swapped.
pub open spec fn move_val(v: BoardView, m: MovePair, depth: nat, maximizing: bool, root: PieceColor) -> int {
    spec_minimax(apply_move(v, m.0, m.1), (depth - 1) as nat, !maximizing, root)
}

/// Plain full-width minimax value of a position, `depth` plies deep,
/// evaluated from `root`'s standpoint. A side with no legal moves is a
/// terminal: a mate sentinel under check, a stalemate zero otherwise.
pub open spec fn spec_minimax(v: BoardView, depth: nat, maximizing: bool, root: PieceColor) -> int
    decreases depth,
        legal_moves_seq(
            v,
            if maximizing {
                root
            } else {
                root.opposite_spec()
            },
        ).len() + 1,
{
    if depth == 0 {
        spec_evaluate(v, root)
    } else {
        let c = if maximizing {
            root
        } else {
            root.opposite_spec()
        };
        let ms = legal_moves_seq(v, c);
        if ms.len() == 0 {
            if in_check(v, c) {
                if maximizing {
                    -99999
                } else {
                    99999
                }
            } else {
                0
            }
        } else {
            best_of(v, ms, 0, depth, maximizing, root)
        }
    }
}

/// Best (max or min) searched value among the moves `ms[i..]`.
pub open spec fn best_of(v: BoardView, ms: Seq<MovePair>, i: int, depth: nat, maximizing: bool, root: PieceColor) -> int
    decreases depth, ms.len() - i,
{
    if depth == 0 {
        0
    } else {
        let child = spec_minimax(apply_move(v, ms[i].0, ms[i].1), (depth - 1) as nat, !maximizing, root);
        if i + 1 >= ms.len() {
            child
        } else {
            let rest = best_of(v, ms, i + 1, depth, maximizing, root);
            if maximizing {
                if child >= rest {
                    child
                } else {
                    rest
                }
            } else {
                if child <= rest {
                    child
                } else {
                    rest
                }
            }
        }
    }
}

/// `best_of` bounds every move's searched value and is attained by one
/// of them.
pub proof fn lemma_best_of_is_bound(v: BoardView, ms: Seq<MovePair>, i: int, depth: nat, maximizing: bool, root: PieceColor)
    requires
        depth >= 1,
        0 <= i < ms.len(),
    ensures
        forall|j: int|
            i <= j < ms.len() ==> (if maximizing {
                #[trigger] move_val(v, ms[j], depth, maximizing, root) <= best_of(v, ms, i, depth, maximizing, root)
            } else {
                move_val(v, ms[j], depth, maximizing, root) >= best_of(v, ms, i, depth, maximizing, root)
            }),
        exists|j: int|
            i <= j < ms.len() && #[trigger] move_val(v, ms[j], depth, maximizing, root) == best_of(
                v,
                ms,
                i,
                depth,
                maximizing,
                root,
            ),
    decreases ms.len() - i,
{
    if i + 1 < ms.len() {
        lemma_best_of_is_bound(v, ms, i + 1, depth, maximizing, root);
    }
    assert(move_val(v, ms[i], depth, maximizing, root) == spec_minimax(
        apply_move(v, ms[i].0, ms[i].1),
        (depth - 1) as nat,
        !maximizing,
        root,
    ));
}

/// Two move lists with the same membership have the same best value.
pub proof fn lemma_best_of_membership(v: BoardView, s1: Seq<MovePair>, s2: Seq<MovePair>, depth: nat, maximizing: bool, root: PieceColor)
    requires
        depth >= 1,
        s1.len() > 0,
        s2.len() > 0,
        forall|m: MovePair| #![trigger s1.contains(m)] #![trigger s2.contains(m)] s1.contains(m) <==> s2.contains(m),
    ensures
        best_of(v, s1, 0, depth, maximizing, root) == best_of(v, s2, 0, depth, maximizing, root),
{
    lemma_best_of_is_bound(v, s1, 0, depth, maximizing, root);
    lemma_best_of_is_bound(v, s2, 0, depth, maximizing, root);
    let b1 = best_of(v, s1, 0, depth, maximizing, root);
    let b2 = best_of(v, s2, 0, depth, maximizing, root);
    let j1 = choose|j: int| 0 <= j < s1.len() && #[trigger] move_val(v, s1[j], depth, maximizing, root) == b1;
    let j2 = choose|j: int| 0 <= j < s2.len() && #[trigger] move_val(v, s2[j], depth, maximizing, root) == b2;
    assert(s1.contains(s1[j1]));
    assert(s2.contains(s2[j2]));
    let k1 = choose|k: int| 0 <= k < s2.len() && s2[k] == s1[j1];
    let k2 = choose|k: int| 0 <= k < s1.len() && s1[k] == s2[j2];
    assert(move_val(v, s2[k1], depth, maximizing, root) == b1);
    assert(move_val(v, s1[k2], depth, maximizing, root) == b2);
}

/// Minimax values stay within the mate sentinels.
pub proof fn lemma_minimax_bound(v: BoardView, depth: nat, maximizing: bool, root: PieceColor)
    ensures
        -99999 <= spec_minimax(v, depth, maximizing, root) <= 99999,
    decreases depth,
        legal_moves_seq(
            v,
            if maximizing {
                root
            } else {
                root.opposite_spec()
            },
        ).len() + 1,
{
    if depth == 0 {
        lemma_eval_bound(v, root);
    } else {
        let c = if maximizing {
            root
        } else {
            root.opposite_spec()
        };
        let ms = legal_moves_seq(v, c);
        if ms.len() > 0 {
            lemma_best_of_bound(v, ms, 0, depth, maximizing, root);
        }
    }
}

pub proof fn lemma_best_of_bound(v: BoardView, ms: Seq<MovePair>, i: int, depth: nat, maximizing: bool, root: PieceColor)
    requires
        depth >= 1,
        0 <= i < ms.len(),
    ensures
        -99999 <= best_of(v, ms, i, depth, maximizing, root) <= 99999,
    decreases depth, ms.len() - i,
{
    lemma_minimax_bound(apply_move(v, ms[i].0, ms[i].1), (depth - 1) as nat, !maximizing, root);
    if i + 1 < ms.len() {
        lemma_best_of_bound(v, ms, i + 1, depth, maximizing, root);
    }
}

/// Material value of a piece kind.
pub fn get_piece_value(piece_type: PieceType) -> (r: i32)
    ensures
        r as int == piece_value(piece_type),
{
    match piece_type {
        PieceType::Pawn => 10,
        PieceType::Knight => 30,
        PieceType::Bishop => 30,
        PieceType::Rook => 50,
        PieceType::Queen => 90,
        PieceType::King => 900,
    }
}

/// Positional bonus of `piece` standing on `(x, y)`.
pub fn get_position_bonus(piece: Piece, x: usize, y: usize) -> (r: i32)
    requires
        x < 8,
        y < 8,
    ensures
        r as int == position_bonus(piece, x as int, y as int),
{
    let center_bonus: i32 = if 3 <= x && x <= 4 && 3 <= y && y <= 4 {
        20
    } else if 2 <= x && x <= 5 && 2 <= y && y <= 5 {
        10
    } else {
        0
    };
    let mut bonus = center_bonus;
    match piece.piece_type {
        PieceType::Pawn => {
            let rank = if piece.color == PieceColor::White {
                7 - y
            } else {
                y
            };
            bonus = bonus + (rank as i32) * 10;
        },
        PieceType::Knight => {
            if x == 0 || x == 7 || y == 0 || y == 7 {
                bonus = bonus - 30;
            }
        },
        _ => {},
    }
    bonus
}

/// Evaluate the whole board for `my_color`: material plus positional
/// bonus, own pieces added, enemy pieces subtracted.
pub fn evaluate(board: &Board, my_color: PieceColor) -> (r: i32)
    requires
        board.wf(),
    ensures
        r as int == spec_evaluate(board@, my_color),
        -64000 <= r <= 64000,
    {
    let ghost v = board@;
    let mut score: i32 = 0;
    let mut i: usize = 0;
    while i < 64
        invariant
            board.wf(),
            v == board@,
            i <= 64,
            score as int == eval_prefix(v, my_color, i as int),
            -1000 * (i as int) <= score as int <= 1000 * (i as int),
        decreases 64 - i,
    {
        proof {
            lemma_cell_score_bound(v, i as int, my_color);
        }
        let cur: Option<Piece> = board.grid[i];
        match cur {
            Some(piece) => {
                let x = i % 8;
                let y = i / 8;
                let value = get_piece_value(piece.piece_type);
                let bonus = get_position_bonus(piece, x, y);
                if piece.color == my_color {
                    score = score + value;
                    score = score + bonus;
                } else {
                    score = score - value;
                    score = score - bonus;
                }
            },
            None => {},
        }
        i = i + 1;
    }
    proof {
        lemma_eval_bound(v, my_color);
    }
    score
}

/// Depth-limited minimax with fail-soft alpha-beta pruning. Inside
/// the `(alpha, beta)` window the result is exactly the full-width
/// minimax value; a result at or outside the window is a sound bound
/// on it, which is all a pruned sibling needs.
pub fn minimax(board: &Board, depth: i32, alpha: i32, beta: i32, is_maximizing: bool, my_color: PieceColor) -> (r: i32)
    requires
        board.wf(),
        depth >= 0,
        alpha < beta,
    ensures
        -99999 <= r <= 99999,
        alpha < r && r < beta ==> r as int == spec_minimax(board@, depth as nat, is_maximizing, my_color),
        r <= alpha ==> spec_minimax(board@, depth as nat, is_maximizing, my_color) <= r as int,
        r >= beta ==> spec_minimax(board@, depth as nat, is_maximizing, my_color) >= r as int,
    decreases depth,
{
    let ghost v = board@;
    let ghost d = depth as nat;
    if depth == 0 {
        return evaluate(board, my_color);
    }
    let current_turn_color = if is_maximizing {
        my_color
    } else {
        my_color.opposite()
    };
    let all_moves = board.all_legal_moves(current_turn_color);
    proof {
        lemma_legal_moves_seq(v, current_turn_color);
    }
    let ghost ls = legal_moves_seq(v, current_turn_color);
    if all_moves.len() == 0 {
        proof {
            if ls.len() > 0 {
                assert(ls.contains(ls[0]));
                assert(all_moves@.contains(ls[0]));
            }
        }
        if board.is_in_check(current_turn_color) {
            return if is_maximizing {
                -99999
            } else {
                99999
            };
        } else {
            return 0;
        }
    }
    proof {
        assert(all_moves@.contains(all_moves@[0]));
        assert(ls.contains(all_moves@[0]));
        assert forall|m: MovePair| all_moves@.contains(m) <==> ls.contains(m) by {}
        lemma_best_of_is_bound(v, all_moves@, 0, d, is_maximizing, my_color);
        lemma_best_of_membership(v, all_moves@, ls, d, is_maximizing, my_color);
    }
    let ghost m_target = best_of(v, all_moves@, 0, d, is_maximizing, my_color);
    proof {
        assert(spec_minimax(v, d, is_maximizing, my_color) == m_target);
    }
    if is_maximizing {
        let mut max_eval = i32::MIN;
        let mut a = alpha;
        let mut j: usize = 0;
        let mut done = false;
        while j < all_moves.len() && !done
            invariant
                board.wf(),
                v == board@,
                depth >= 1,
                d == depth as nat,
                alpha < beta,
                is_maximizing,
                j <= all_moves@.len(),
                all_moves@.len() > 0,
                m_target == best_of(v, all_moves@, 0, d, true, my_color),
                forall|k: int|
                    0 <= k < all_moves@.len() ==> #[trigger] move_val(v, all_moves@[k], d, true, my_color) <= m_target,
                exists|k: int|
                    0 <= k < all_moves@.len() && #[trigger] move_val(v, all_moves@[k], d, true, my_color) == m_target,
                !done && j == 0 ==> max_eval == i32::MIN && a == alpha,
                !done && j > 0 ==> -99999 <= max_eval <= 99999 && a as int == (if max_eval > alpha {
                    max_eval as int
                } else {
                    alpha as int
                }),
                !done ==> a < beta,
                !done ==> forall|k: int|
                    0 <= k < j ==> #[trigger] move_val(v, all_moves@[k], d, true, my_color) <= max_eval,
                !done ==> (max_eval > alpha ==> exists|k: int|
                    0 <= k < j && #[trigger] move_val(v, all_moves@[k], d, true, my_color) >= max_eval),
                done ==> -99999 <= max_eval <= 99999 && max_eval >= beta && m_target >= max_eval,
            decreases all_moves@.len() - j, (if done { 0int } else { 1int }),
        {
            let mv = all_moves[j];
            let from = mv.0;
            let to = mv.1;
            let mut new_board = board.duplicate();
            new_board.move_piece(from, to);
            let ghost a_old = a;
            let ghost max_old = max_eval;
            let eval = minimax(&new_board, depth - 1, a, beta, false, my_color);
            let ghost tv = move_val(v, all_moves@[j as int], d, true, my_color);
            proof {
                assert(new_board@ == apply_move(v, all_moves@[j as int].0, all_moves@[j as int].1));
                assert(tv == spec_minimax(new_board@, (depth - 1) as nat, false, my_color));
            }
            if eval > max_eval {
                max_eval = eval;
            }
            if eval > a {
                a = eval;
            }
            if beta <= a {
                done = true;
                proof {
                    assert(eval >= beta);
                    assert(tv >= eval);
                    assert(max_eval == eval);
                    assert(m_target >= tv);
                }
            } else {
                proof {
                    assert(max_eval as int == (if eval > max_old { eval as int } else { max_old as int }));
                    if eval as int <= a_old {
                        assert(tv <= eval);
                    } else {
                        assert(eval < beta);
                        assert(tv == eval);
                    }
                }
            }
            j = j + 1;
        }
        proof {
            if !done {
                assert(max_eval < beta);
                if max_eval > alpha {
                    let k2 = choose|k: int|
                        0 <= k < all_moves@.len() && #[trigger] move_val(v, all_moves@[k], d, true, my_color) >= max_eval;
                    let ka = choose|k: int|
                        0 <= k < all_moves@.len() && #[trigger] move_val(v, all_moves@[k], d, true, my_color) == m_target;
                    assert(move_val(v, all_moves@[ka], d, true, my_color) <= max_eval);
                    assert(move_val(v, all_moves@[k2], d, true, my_color) <= m_target);
                } else {
                    let ka = choose|k: int|
                        0 <= k < all_moves@.len() && #[trigger] move_val(v, all_moves@[k], d, true, my_color) == m_target;
                    assert(move_val(v, all_moves@[ka], d, true, my_color) <= max_eval);
                }
            }
        }
        max_eval
    } else {
        let mut min_eval = i32::MAX;
        let mut b = beta;
        let mut j: usize = 0;
        let mut done = false;
        while j < all_moves.len() && !done
            invariant
                board.wf(),
                v == board@,
                depth >= 1,
                d == depth as nat,
                alpha < beta,
                !is_maximizing,
                j <= all_moves@.len(),
                all_moves@.len() > 0,
                m_target == best_of(v, all_moves@, 0, d, false, my_color),
                forall|k: int|
                    0 <= k < all_moves@.len() ==> #[trigger] move_val(v, all_moves@[k], d, false, my_color) >= m_target,
                exists|k: int|
                    0 <= k < all_moves@.len() && #[trigger] move_val(v, all_moves@[k], d, false, my_color) == m_target,
                !done && j == 0 ==> min_eval == i32::MAX && b == beta,
                !done && j > 0 ==> -99999 <= min_eval <= 99999 && b as int == (if min_eval < beta {
                    min_eval as int
                } else {
                    beta as int
                }),
                !done ==> alpha < b,
                !done ==> forall|k: int|
                    0 <= k < j ==> #[trigger] move_val(v, all_moves@[k], d, false, my_color) >= min_eval,
                !done ==> (min_eval < beta ==> exists|k: int|
                    0 <= k < j && #[trigger] move_val(v, all_moves@[k], d, false, my_color) <= min_eval),
                done ==> -99999 <= min_eval <= 99999 && min_eval <= alpha && m_target <= min_eval,
            decreases all_moves@.len() - j, (if done { 0int } else { 1int }),
        {
            let mv = all_moves[j];
            let from = mv.0;
            let to = mv.1;
            let mut new_board = board.duplicate();
            new_board.move_piece(from, to);
            let ghost b_old = b;
            let ghost min_old = min_eval;
            let eval = minimax(&new_board, depth - 1, alpha, b, true, my_color);
            let ghost tv = move_val(v, all_moves@[j as int], d, false, my_color);
            proof {
                assert(new_board@ == apply_move(v, all_moves@[j as int].0, all_moves@[j as int].1));
                assert(tv == spec_minimax(new_board@, (depth - 1) as nat, true, my_color));
            }
            if eval < min_eval {
                min_eval = eval;
            }
            if eval < b {
                b = eval;
            }
            if b <= alpha {
                done = true;
                proof {
                    assert(eval <= alpha);
                    assert(tv <= eval);
                    assert(min_eval == eval);
                    assert(m_target <= tv);
                }
            } else {
                proof {
                    assert(min_eval as int == (if eval < min_old { eval as int } else { min_old as int }));
                    if eval as int >= b_old {
                        assert(tv >= eval);
                    } else {
                        assert(eval > alpha);
                        assert(tv == eval);
                    }
                }
            }
            j = j + 1;
        }
        proof {
            if !done {
                assert(min_eval > alpha);
                if min_eval < beta {
                    let k2 = choose|k: int|
                        0 <= k < all_moves@.len() && #[trigger] move_val(v, all_moves@[k], d, false, my_color) <= min_eval;
                    let ka = choose|k: int|
                        0 <= k < all_moves@.len() && #[trigger] move_val(v, all_moves@[k], d, false, my_color) == m_target;
                    assert(move_val(v, all_moves@[ka], d, false, my_color) >= min_eval);
                    assert(move_val(v, all_moves@[k2], d, false, my_color) >= m_target);
                } else {
                    let ka = choose|k: int|
                        0 <= k < all_moves@.len() && #[trigger] move_val(v, all_moves@[k], d, false, my_color) == m_target;
                    assert(move_val(v, all_moves@[ka], d, false, my_color) >= min_eval);
                }
            }
        }
        min_eval
    }
}

/// Exhaustive full-width minimax without pruning: always returns the
/// exact `spec_minimax` value. Kept alongside the pruned search so the
/// two can be compared; both contracts pin the same value.
pub fn minimax_full(board: &Board, depth: i32, is_maximizing: bool, my_color: PieceColor) -> (r: i32)
    requires
        board.wf(),
        depth >= 0,
    ensures
        -99999 <= r <= 99999,
        r as int == spec_minimax(board@, depth as nat, is_maximizing, my_color),
    decreases depth,
{
    let ghost v = board@;
    let ghost d = depth as nat;
    if depth == 0 {
        return evaluate(board, my_color);
    }
    let current_turn_color = if is_maximizing {
        my_color
    } else {
        my_color.opposite()
    };
    let all_moves = board.all_legal_moves(current_turn_color);
    proof {
        lemma_legal_moves_seq(v, current_turn_color);
    }
    let ghost ls = legal_moves_seq(v, current_turn_color);
    if all_moves.len() == 0 {
        proof {
            if ls.len() > 0 {
                assert(ls.contains(ls[0]));
                assert(all_moves@.contains(ls[0]));
            }
        }
        if board.is_in_check(current_turn_color) {
            return if is_maximizing {
                -99999
            } else {
                99999
            };
        } else {
            return 0;
        }
    }
    proof {
        assert(all_moves@.contains(all_moves@[0]));
        assert(ls.contains(all_moves@[0]));
        assert forall|m: MovePair| all_moves@.contains(m) <==> ls.contains(m) by {}
        lemma_best_of_is_bound(v, all_moves@, 0, d, is_maximizing, my_color);
        lemma_best_of_membership(v, all_moves@, ls, d, is_maximizing, my_color);
    }
    let ghost m_target = best_of(v, all_moves@, 0, d, is_maximizing, my_color);
    proof {
        assert(spec_minimax(v, d, is_maximizing, my_color) == m_target);
    }
    let mut best: i32 = if is_maximizing {
        i32::MIN
    } else {
        i32::MAX
    };
    let mut j: usize = 0;
    while j < all_moves.len()
        invariant
            board.wf(),
            v == board@,
            depth >= 1,
            d == depth as nat,
            j <= all_moves@.len(),
            all_moves@.len() > 0,
            m_target == best_of(v, all_moves@, 0, d, is_maximizing, my_color),
            forall|k: int|
                0 <= k < all_moves@.len() ==> (if is_maximizing {
                    #[trigger] move_val(v, all_moves@[k], d, is_maximizing, my_color) <= m_target
                } else {
                    move_val(v, all_moves@[k], d, is_maximizing, my_color) >= m_target
                }),
            exists|k: int|
                0 <= k < all_moves@.len() && #[trigger] move_val(v, all_moves@[k], d, is_maximizing, my_color) == m_target,
            j == 0 ==> best == (if is_maximizing {
                i32::MIN
            } else {
                i32::MAX
            }),
            j > 0 ==> -99999 <= best <= 99999,
            j > 0 ==> forall|k: int|
                0 <= k < j ==> (if is_maximizing {
                    #[trigger] move_val(v, all_moves@[k], d, is_maximizing, my_color) <= best as int
                } else {
                    move_val(v, all_moves@[k], d, is_maximizing, my_color) >= best as int
                }),
            j > 0 ==> exists|k: int|
                0 <= k < j && #[trigger] move_val(v, all_moves@[k], d, is_maximizing, my_color) == best as int,
        decreases all_moves@.len() - j,
    {
        let mv = all_moves[j];
        let mut new_board = board.duplicate();
        new_board.move_piece(mv.0, mv.1);
        let eval = minimax_full(&new_board, depth - 1, !is_maximizing, my_color);
        proof {
            assert(new_board@ == apply_move(v, all_moves@[j as int].0, all_moves@[j as int].1));
            assert(eval as int == move_val(v, all_moves@[j as int], d, is_maximizing, my_color));
        }
        if is_maximizing {
            if eval > best {
                best = eval;
            }
        } else {
            if eval < best {
                best = eval;
            }
        }
        j = j + 1;
    }
    proof {
        let ka = choose|k: int|
            0 <= k < all_moves@.len() && #[trigger] move_val(v, all_moves@[k], d, is_maximizing, my_color) == m_target;
        let kb = choose|k: int|
            0 <= k < all_moves@.len() && #[trigger] move_val(v, all_moves@[k], d, is_maximizing, my_color) == best as int;
        assert(move_val(v, all_moves@[ka], d, is_maximizing, my_color) == m_target);
        assert(move_val(v, all_moves@[kb], d, is_maximizing, my_color) == best as int);
    }
    best
}

/// Picks from `moves` (searched left to right, the given order kept)
/// the first move attaining the best searched value at the given
/// depth, using the pruned search with a window that tightens as
/// better moves are found. Returns the move and its exact value.
pub fn choose_best_move(board: &Board, moves: &Vec<MovePair>, depth: i32, color: PieceColor) -> (r: Option<(MovePair, i32)>)
    requires
        board.wf(),
        depth >= 1,
    ensures
        r is None <==> moves@.len() == 0,
        match r {
            Some((m, s)) => {
                &&& -99999 <= s <= 99999
                &&& s as int == best_of(board@, moves@, 0, depth as nat, true, color)
                &&& exists|k: int|
                    0 <= k < moves@.len() && moves@[k] == m && #[trigger] move_val(board@, moves@[k], depth as nat, true, color)
                        == s as int && (forall|i2: int|
                        0 <= i2 < k ==> #[trigger] move_val(board@, moves@[i2], depth as nat, true, color) < s as int)
            },
            None => true,
        },
{
    let ghost v = board@;
    let ghost d = depth as nat;
    let mut best_move: Option<MovePair> = None;
    let mut best_value: i32 = i32::MIN;
    let mut a: i32 = i32::MIN;
    let ghost mut bk: int = 0;
    let mut j: usize = 0;
    if moves.len() > 0 {
        proof {
            lemma_best_of_is_bound(v, moves@, 0, d, true, color);
        }
    }
    while j < moves.len()
        invariant
            board.wf(),
            v == board@,
            depth >= 1,
            d == depth as nat,
            j <= moves@.len(),
            j == 0 ==> best_move is None && best_value == i32::MIN && a == i32::MIN,
            j > 0 ==> {
                &&& -99999 <= best_value <= 99999
                &&& a == best_value
                &&& 0 <= bk < j
                &&& best_move == Some(moves@[bk])
                &&& move_val(v, moves@[bk], d, true, color) == best_value as int
                &&& forall|i2: int|
                    0 <= i2 < bk ==> #[trigger] move_val(v, moves@[i2], d, true, color) < best_value as int
                &&& forall|k: int|
                    0 <= k < j ==> #[trigger] move_val(v, moves@[k], d, true, color) <= best_value as int
            },
        decreases moves@.len() - j,
    {
        let mv = moves[j];
        let mut new_board = board.duplicate();
        new_board.move_piece(mv.0, mv.1);
        let eval = minimax(&new_board, depth - 1, a, i32::MAX, false, color);
        let ghost tv = move_val(v, moves@[j as int], d, true, color);
        proof {
            assert(new_board@ == apply_move(v, moves@[j as int].0, moves@[j as int].1));
            assert(tv == spec_minimax(new_board@, (depth - 1) as nat, false, color));
            assert(eval < i32::MAX);
        }
        if eval > best_value {
            proof {
                assert(eval > a);
                assert(tv == eval as int);
                bk = j as int;
            }
            best_value = eval;
            best_move = Some(mv);
        } else {
            proof {
                if eval <= a {
                    assert(tv <= eval as int);
                } else {
                    assert(tv == eval as int);
                }
            }
        }
        if best_value > a {
            a = best_value;
        }
        j = j + 1;
    }
    match best_move {
        Some(m) => {
            proof {
                let ka = choose|k: int|
                    0 <= k < moves@.len() && #[trigger] move_val(v, moves@[k], d, true, color) == best_of(
                        v,
                        moves@,
                        0,
                        d,
                        true,
                        color,
                    );
                assert(move_val(v, moves@[ka], d, true, color) <= best_value as int);
                assert(move_val(v, moves@[bk], d, true, color) <= best_of(v, moves@, 0, d, true, color));
            }
            Some((m, best_value))
        },
        None => None,
    }
}

/// `choose_best_move` without pruning: searches every move full-width
/// and keeps the first attaining the best value. Its contract pins
/// the same move and score as the pruned version.
pub fn choose_best_move_exhaustive(board: &Board, moves: &Vec<MovePair>, depth: i32, color: PieceColor) -> (r: Option<(MovePair, i32)>)
    requires
        board.wf(),
        depth >= 1,
    ensures
        r is None <==> moves@.len() == 0,
        match r {
            Some((m, s)) => {
                &&& -99999 <= s <= 99999
                &&& s as int == best_of(board@, moves@, 0, depth as nat, true, color)
                &&& exists|k: int|
                    0 <= k < moves@.len() && moves@[k] == m && #[trigger] move_val(board@, moves@[k], depth as nat, true, color)
                        == s as int && (forall|i2: int|
                        0 <= i2 < k ==> #[trigger] move_val(board@, moves@[i2], depth as nat, true, color) < s as int)
            },
            None => true,
        },
{
    let ghost v = board@;
    let ghost d = depth as nat;
    let mut best_move: Option<MovePair> = None;
    let mut best_value: i32 = i32::MIN;
    let ghost mut bk: int = 0;
    let mut j: usize = 0;
    if moves.len() > 0 {
        proof {
            lemma_best_of_is_bound(v, moves@, 0, d, true, color);
        }
    }
    while j < moves.len()
        invariant
            board.wf(),
            v == board@,
            depth >= 1,
            d == depth as nat,
            j <= moves@.len(),
            j == 0 ==> best_move is None && best_value == i32::MIN,
            j > 0 ==> {
                &&& -99999 <= best_value <= 99999
                &&& 0 <= bk < j
                &&& best_move == Some(moves@[bk])
                &&& move_val(v, moves@[bk], d, true, color) == best_value as int
                &&& forall|i2: int|
                    0 <= i2 < bk ==> #[trigger] move_val(v, moves@[i2], d, true, color) < best_value as int
                &&& forall|k: int|
                    0 <= k < j ==> #[trigger] move_val(v, moves@[k], d, true, color) <= best_value as int
            },
        decreases moves@.len() - j,
    {
        let mv = moves[j];
        let mut new_board = board.duplicate();
        new_board.move_piece(mv.0, mv.1);
        let eval = minimax_full(&new_board, depth - 1, false, color);
        proof {
            assert(new_board@ == apply_move(v, moves@[j as int].0, moves@[j as int].1));
            assert(eval as int == move_val(v, moves@[j as int], d, true, color));
        }
        if eval > best_value {
            proof {
                bk = j as int;
            }
            best_value = eval;
            best_move = Some(mv);
        }
        j = j + 1;
    }
    match best_move {
        Some(m) => {
            proof {
                let ka = choose|k: int|
                    0 <= k < moves@.len() && #[trigger] move_val(v, moves@[k], d, true, color) == best_of(
                        v,
                        moves@,
                        0,
                        d,
                        true,
                        color,
                    );
                assert(move_val(v, moves@[ka], d, true, color) <= best_value as int);
                assert(move_val(v, moves@[bk], d, true, color) <= best_of(v, moves@, 0, d, true, color));
            }
            Some((m, best_value))
        },
        None => None,
    }
}

#[verifier::external_type_specification]
#[verifier::external_body]
pub struct ExThreadRng(rand::rngs::ThreadRng);

/// Relies on rand::thread_rng: a handle to the thread-local random
/// number generator. Nothing can be promised of the numbers it draws.
#[verifier::external_body]
fn new_rng() -> rand::rngs::ThreadRng {
    rand::thread_rng()
}

/// Relies on rand::seq::SliceRandom::shuffle: it permutes the slice
/// in place by element swaps, so the moves afterwards form the same
/// multiset as before, in an order nothing is promised about.
#[verifier::external_body]
fn shuffle_moves(moves: &mut Vec<MovePair>, rng: &mut rand::rngs::ThreadRng)
    ensures
        final(moves)@.to_multiset() == old(moves)@.to_multiset(),
{
    moves.shuffle(rng);
}

/// The automated opponent's move for `color`: every legal move,
/// shuffled (equal scores then vary between runs and pruning
/// improves), searched `MAX_DEPTH` plies deep. Whatever order the
/// shuffle produced, the returned move is a legal move of `color`
/// whose searched value is the minimax value of the position; no move
/// exists exactly when the returned value is nothing (the caller
/// tells stalemate from checkmate via `is_in_check`).
pub fn get_best_move(board: &Board, color: PieceColor) -> (r: Option<MovePair>)
    requires
        board.wf(),
    ensures
        r is Some <==> has_legal_move(board@, color),
        match r {
            Some(m) => is_move_of(board@, color, m) && move_val(board@, m, MAX_DEPTH as nat, true, color)
                == spec_minimax(board@, MAX_DEPTH as nat, true, color),
            None => true,
        },
{
    let ghost v = board@;
    let mut all_moves = board.all_legal_moves(color);
    let ghost pre = all_moves@;
    let mut rng = new_rng();
    shuffle_moves(&mut all_moves, &mut rng);
    proof {
        broadcast use vstd::seq_lib::group_to_multiset_ensures;

        assert forall|m: MovePair| #![trigger all_moves@.contains(m)]
            all_moves@.contains(m) <==> is_move_of(v, color, m) by {
            assert(all_moves@.contains(m) <==> all_moves@.to_multiset().count(m) > 0);
            assert(pre.contains(m) <==> pre.to_multiset().count(m) > 0);
        }
        assert(all_moves@.len() == all_moves@.to_multiset().len());
        assert(pre.len() == pre.to_multiset().len());
        lemma_legal_moves_seq(v, color);
    }
    let ghost ls = legal_moves_seq(v, color);
    match choose_best_move(board, &all_moves, MAX_DEPTH, color) {
        Some((m, s)) => {
            proof {
                let k = choose|k: int|
                    0 <= k < all_moves@.len() && all_moves@[k] == m && #[trigger] move_val(v, all_moves@[k], MAX_DEPTH as nat, true, color)
                        == s as int;
                assert(all_moves@.contains(all_moves@[k]));
                assert(is_move_of(v, color, m));
                assert(ls.contains(m));
                assert forall|mm: MovePair| all_moves@.contains(mm) <==> ls.contains(mm) by {}
                lemma_best_of_membership(v, all_moves@, ls, MAX_DEPTH as nat, true, color);
                assert(spec_minimax(v, MAX_DEPTH as nat, true, color) == best_of(v, ls, 0, MAX_DEPTH as nat, true, color));
            }
            Some(m)
        },
        None => {
            proof {
                if has_legal_move(v, color) {
                    let m = choose|m: MovePair| is_move_of(v, color, m);
                    assert(all_moves@.contains(m));
                }
            }
            None
        },
    }
}

} // verus!
