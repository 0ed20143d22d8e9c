//! The evaluator and the searcher: static material score, and fixed-depth
//! negamax over the legal moves.
use vstd::prelude::*;
use crate::apply::spec_apply;
use crate::attack::spec_king_attacked;
use crate::bits::count_bits;
use crate::bits::pc;
use crate::board::ChessBoard;
use crate::board::Move;
use crate::board::Piece;
use crate::attack::bishops_of;
use crate::attack::knight_off;
use crate::attack::knights_of;
use crate::attack::pawns_of;
use crate::attack::queens_of;
use crate::attack::rooks_of;
use crate::bits::bit;
use crate::movegen::bishop_mover;
use crate::movegen::castle_case;
use crate::movegen::castle_king_dest;
use crate::movegen::is_king_move;
use crate::movegen::is_king_step_at;
use crate::movegen::is_knight_move;
use crate::movegen::is_knight_move_at;
use crate::movegen::is_legal_move;
use crate::movegen::is_pawn_move;
use crate::movegen::is_pawn_move_at;
use crate::movegen::is_pseudo_move;
use crate::movegen::is_slider_move;
use crate::movegen::is_slider_move_at;
use crate::movegen::king_home;
use crate::movegen::king_move_ok;
use crate::movegen::king_off;
use crate::movegen::knight_move_ok;
use crate::movegen::pawn_dir;
use crate::movegen::pawn_promo;
use crate::movegen::pawn_start_row;
use crate::movegen::queen_piece;
use crate::movegen::ray_move_ok;
use crate::movegen::ray_square;
use crate::movegen::rook_mover;
use crate::movegen::slider_dir;

verus! {

/// The material of one side: pawn 1, knight 3, bishop 3, rook 5, queen 9,
/// king 100.
pub open spec fn side_material(b: ChessBoard, white: bool) -> int {
    if white {
        pc(b.w_pawn) + 3 * pc(b.w_knight) + 3 * pc(b.w_bishop) + 5 * pc(b.w_rook) + 9 * pc(
            b.w_queen,
        ) + 100 * pc(b.w_king) as int
    } else {
        pc(b.b_pawn) + 3 * pc(b.b_knight) + 3 * pc(b.b_bishop) + 5 * pc(b.b_rook) + 9 * pc(
            b.b_queen,
        ) + 100 * pc(b.b_king) as int
    }
}

/// The static score of the position from one side's perspective: its own
/// material minus the other side's.
pub open spec fn spec_material(b: ChessBoard, for_white: bool) -> int {
    side_material(b, for_white) - side_material(b, !for_white)
}

/// Each side's material is at most 64 squares of 100 points and change.
pub proof fn lemma_material_bounds(b: ChessBoard)
    ensures
        0 <= side_material(b, true) <= 7744,
        0 <= side_material(b, false) <= 7744,
        -7744 <= spec_material(b, true) <= 7744,
        -7744 <= spec_material(b, false) <= 7744,
{
    crate::bits::lemma_pc_bound(b.w_pawn);
    crate::bits::lemma_pc_bound(b.w_knight);
    crate::bits::lemma_pc_bound(b.w_bishop);
    crate::bits::lemma_pc_bound(b.w_rook);
    crate::bits::lemma_pc_bound(b.w_queen);
    crate::bits::lemma_pc_bound(b.w_king);
    crate::bits::lemma_pc_bound(b.b_pawn);
    crate::bits::lemma_pc_bound(b.b_knight);
    crate::bits::lemma_pc_bound(b.b_bishop);
    crate::bits::lemma_pc_bound(b.b_rook);
    crate::bits::lemma_pc_bound(b.b_queen);
    crate::bits::lemma_pc_bound(b.b_king);
}

impl ChessBoard {
    /// The static material score from the perspective of the side given by
    /// `for_white`.
    pub fn evaluate_board(&mut self, for_white: bool) -> (r: i32)
        ensures
            *final(self) == *old(self),
            r == spec_material(*old(self), for_white),
            -7744 <= r <= 7744,
    {
        proof {
            lemma_material_bounds(*self);
        }
        let white_score = (count_bits(self.w_pawn) as i32) * 1 + (count_bits(self.w_knight)
            as i32) * 3 + (count_bits(self.w_bishop) as i32) * 3 + (count_bits(self.w_rook) as i32)
            * 5 + (count_bits(self.w_queen) as i32) * 9 + (count_bits(self.w_king) as i32) * 100;

        let black_score = (count_bits(self.b_pawn) as i32) * 1 + (count_bits(self.b_knight)
            as i32) * 3 + (count_bits(self.b_bishop) as i32) * 3 + (count_bits(self.b_rook) as i32)
            * 5 + (count_bits(self.b_queen) as i32) * 9 + (count_bits(self.b_king) as i32) * 100;

        let score = if for_white {
            white_score - black_score
        } else {
            black_score - white_score
        };
        score
    }
}

/// The piece identity numbered `p` in the fixed enumeration of all moves.
pub open spec fn piece_of_index(p: int) -> Piece {
    if p == 0 {
        Piece::w_pawn
    } else if p == 1 {
        Piece::w_knight
    } else if p == 2 {
        Piece::w_bishop
    } else if p == 3 {
        Piece::w_rook
    } else if p == 4 {
        Piece::w_queen
    } else if p == 5 {
        Piece::w_king
    } else if p == 6 {
        Piece::b_pawn
    } else if p == 7 {
        Piece::b_knight
    } else if p == 8 {
        Piece::b_bishop
    } else if p == 9 {
        Piece::b_rook
    } else if p == 10 {
        Piece::b_queen
    } else {
        Piece::b_king
    }
}

/// The number of a piece identity in the fixed enumeration.
pub open spec fn index_of_piece(p: Piece) -> int {
    match p {
        Piece::w_pawn => 0,
        Piece::w_knight => 1,
        Piece::w_bishop => 2,
        Piece::w_rook => 3,
        Piece::w_queen => 4,
        Piece::w_king => 5,
        Piece::b_pawn => 6,
        Piece::b_knight => 7,
        Piece::b_bishop => 8,
        Piece::b_rook => 9,
        Piece::b_queen => 10,
        Piece::b_king => 11,
    }
}

/// The number of entries in the fixed enumeration of all moves: 12 pieces,
/// 64 source squares, 64 destination squares, 2 promotion flags.
pub open spec fn move_index_count() -> int {
    98304
}

/// The move numbered `k` in the fixed enumeration. Every move whose source
/// and destination are single squares appears at some number, so the
/// enumeration covers every pseudo-legal move.
pub open spec fn move_of_index(k: int) -> Move {
    Move {
        piece: piece_of_index(k / 8192),
        start: 1u64 << ((k / 128 % 64) as u64),
        dest: 1u64 << ((k / 2 % 64) as u64),
        promotion: k % 2 == 1,
    }
}

/// The best negated child value over the enumerated moves numbered `k` and
/// up that are legal for the side to move; `None` when none is legal.
pub open spec fn best_over(b: ChessBoard, depth: int, k: int) -> Option<int>
    decreases depth, move_index_count() - k + 1,
{
    if k < 0 || k >= move_index_count() || depth <= 0 {
        None
    } else {
        let rest = best_over(b, depth, k + 1);
        if is_legal_move(b, b.turn, move_of_index(k)) {
            let v = -spec_negamax(spec_apply(b, move_of_index(k)), depth - 1);
            match rest {
                None => Some(v),
                Some(w) => Some(
                    if v >= w {
                        v
                    } else {
                        w
                    },
                ),
            }
        } else {
            rest
        }
    }
}

/// The negamax value of the position for its side to move: the static
/// material score at depth zero; with no legal move, a large loss when in
/// check (checkmate) and zero otherwise (stalemate); else the maximum over
/// the legal moves of the negated value of the resulting position.
pub open spec fn spec_negamax(b: ChessBoard, depth: int) -> int
    decreases depth, move_index_count() + 2,
{
    if depth <= 0 {
        spec_material(b, b.turn)
    } else {
        match best_over(b, depth, 0) {
            None => if spec_king_attacked(b, b.turn) {
                -10000
            } else {
                0
            },
            Some(v) => v,
        }
    }
}

/// The value the searcher gives a candidate move: the negated negamax
/// value, one ply shallower, of the position it leads to.
pub open spec fn spec_search_value(b: ChessBoard, depth: int, mv: Move) -> int {
    -spec_negamax(spec_apply(b, mv), depth - 1)
}

/// What `best_over` computes: `None` exactly when no enumerated move from
/// `k` up is legal, and otherwise the maximum search value among them,
/// attained by one of them.
proof fn lemma_best_over(b: ChessBoard, depth: int, k: int)
    requires
        0 <= k <= move_index_count(),
        depth >= 1,
    ensures
        (best_over(b, depth, k) == None::<int>) <==> (forall|j: int|
            k <= j < move_index_count() ==> !is_legal_move(b, b.turn, #[trigger] move_of_index(j))),
        best_over(b, depth, k) matches Some(v) ==> ((exists|j: int|
            k <= j < move_index_count() && is_legal_move(b, b.turn, #[trigger] move_of_index(j))
                && v == spec_search_value(b, depth, move_of_index(j))) && (forall|j: int|
            k <= j < move_index_count() && is_legal_move(b, b.turn, #[trigger] move_of_index(j))
                ==> spec_search_value(b, depth, move_of_index(j)) <= v)),
    decreases move_index_count() - k,
{
    if k < move_index_count() {
        lemma_best_over(b, depth, k + 1);
    }
}

/// Ties a piece index, source square, destination square and promotion
/// flag to the number of the move they make up in the enumeration.
proof fn lemma_finish_encode(mv: Move, p: int, i: int, j: int, t: int)
    requires
        0 <= p < 12,
        0 <= i < 64,
        0 <= j < 64,
        t == (if mv.promotion {
            1int
        } else {
            0int
        }),
        piece_of_index(p) == mv.piece,
        mv.start == 1u64 << (i as u64),
        mv.dest == 1u64 << (j as u64),
    ensures
        exists|k: int| 0 <= k < move_index_count() && #[trigger] move_of_index(k) == mv,
{
    let k = p * 8192 + i * 128 + j * 2 + t;
    vstd::arithmetic::div_mod::lemma_fundamental_div_mod_converse(
        k,
        8192,
        p,
        i * 128 + j * 2 + t,
    );
    vstd::arithmetic::div_mod::lemma_fundamental_div_mod_converse(
        k,
        128,
        p * 64 + i,
        j * 2 + t,
    );
    vstd::arithmetic::div_mod::lemma_fundamental_div_mod_converse(
        p * 64 + i,
        64,
        p,
        i,
    );
    vstd::arithmetic::div_mod::lemma_fundamental_div_mod_converse(
        k,
        2,
        p * 4096 + i * 64 + j,
        t,
    );
    vstd::arithmetic::div_mod::lemma_fundamental_div_mod_converse(
        p * 4096 + i * 64 + j,
        64,
        p * 64 + i,
        j,
    );
    assert(k / 128 % 64 == i);
    assert(k / 2 % 64 == j);
    assert(move_of_index(k) == mv);
}

/// Every pseudo-legal ray move appears in the fixed enumeration.
proof fn lemma_slider_enumerated(
    pieces: u64,
    empty: u64,
    e_pieces: u64,
    pid: Piece,
    diagonal: bool,
    mv: Move,
)
    requires
        is_slider_move(pieces, empty, e_pieces, pid, diagonal, mv),
        piece_of_index(index_of_piece(mv.piece)) == mv.piece,
    ensures
        exists|k: int| 0 <= k < move_index_count() && #[trigger] move_of_index(k) == mv,
{
    let t: int = if mv.promotion {
        1
    } else {
        0
    };
    let i = choose|i: int| #[trigger] is_slider_move_at(pieces, empty, e_pieces, pid, diagonal, i, mv);
    let (k2, d2) = choose|k2: int, d2: int|
        0 <= k2 < 4 && #[trigger] ray_move_ok(empty, e_pieces, i, diagonal, k2, d2, mv);
    let x = slider_dir(diagonal, k2).0;
    let y = slider_dir(diagonal, k2).1;
    let j = ray_square(i, x, y, d2);
    assert(0 <= j < 64);
    lemma_finish_encode(mv, index_of_piece(mv.piece), i, j, t);
}

/// Every pseudo-legal move appears in the fixed enumeration of all moves.
pub(crate) proof fn lemma_pseudo_enumerated(b: ChessBoard, white: bool, mv: Move)
    requires
        is_pseudo_move(b, white, mv),
    ensures
        exists|k: int| 0 <= k < move_index_count() && #[trigger] move_of_index(k) == mv,
{
    let empty = b.empty_mask();
    let e_pieces = b.enemy_mask(white);
    let t: int = if mv.promotion {
        1
    } else {
        0
    };
    assert(piece_of_index(index_of_piece(mv.piece)) == mv.piece);
    let p = index_of_piece(mv.piece);
    if is_pawn_move(pawns_of(b, white), empty, e_pieces, white, mv) {
        let i = choose|i: int| #[trigger] is_pawn_move_at(
            pawns_of(b, white),
            empty,
            e_pieces,
            white,
            i,
            mv,
        );
        let dir = pawn_dir(white);
        let one = i + dir;
        let two = i + 2 * dir;
        let cl = if white {
            i + 7
        } else {
            i - 9
        };
        let cr = if white {
            i + 9
        } else {
            i - 7
        };
        let j: int = if bit(empty, one) && mv.dest == 1u64 << (one as u64) && mv.promotion
            == pawn_promo(white, i) {
            one
        } else if bit(empty, one) && i / 8 == pawn_start_row(white) && bit(empty, two) && mv.dest
            == 1u64 << (two as u64) && mv.promotion == false {
            two
        } else if i % 8 != 0 && 0 <= cl < 64 && bit(e_pieces, cl) && mv.dest == 1u64 << (
        cl as u64) {
            cl
        } else {
            cr
        };
        assert(0 <= j < 64 && mv.dest == 1u64 << (j as u64));
        lemma_finish_encode(mv, p, i, j, t);
    } else if is_knight_move(knights_of(b, white), empty, e_pieces, white, mv) {
        let i = choose|i: int| #[trigger] is_knight_move_at(
            knights_of(b, white),
            empty,
            e_pieces,
            white,
            i,
            mv,
        );
        let k2 = choose|k2: int| 0 <= k2 < 8 && #[trigger] knight_move_ok(empty, e_pieces, i, k2, mv);
        let x = knight_off(k2).0;
        let y = knight_off(k2).1;
        let j = i + y * 8 + x;
        vstd::arithmetic::div_mod::lemma_fundamental_div_mod(i, 8);
        assert(j == (i / 8 + y) * 8 + (i % 8 + x));
        assert(0 <= j < 64);
        lemma_finish_encode(mv, p, i, j, t);
    } else if is_slider_move(bishops_of(b, white), empty, e_pieces, bishop_mover(white, false), true, mv) {
        lemma_slider_enumerated(bishops_of(b, white), empty, e_pieces, bishop_mover(white, false), true, mv);
    } else if is_slider_move(rooks_of(b, white), empty, e_pieces, rook_mover(white, false), false, mv) {
        lemma_slider_enumerated(rooks_of(b, white), empty, e_pieces, rook_mover(white, false), false, mv);
    } else if is_slider_move(queens_of(b, white), empty, e_pieces, queen_piece(white), true, mv) {
        lemma_slider_enumerated(queens_of(b, white), empty, e_pieces, queen_piece(white), true, mv);
    } else if is_slider_move(queens_of(b, white), empty, e_pieces, queen_piece(white), false, mv) {
        lemma_slider_enumerated(queens_of(b, white), empty, e_pieces, queen_piece(white), false, mv);
    } else {
        assert(is_king_move(b, empty, e_pieces, white, mv));
        if exists|i: int| #[trigger] is_king_step_at(
            crate::attack::kings_of(b, white),
            empty,
            e_pieces,
            white,
            i,
            mv,
        ) {
            let i = choose|i: int| #[trigger] is_king_step_at(
                crate::attack::kings_of(b, white),
                empty,
                e_pieces,
                white,
                i,
                mv,
            );
            let k2 = choose|k2: int| 0 <= k2 < 8 && #[trigger] king_move_ok(empty, e_pieces, i, k2, mv);
            let x = king_off(k2).0;
            let y = king_off(k2).1;
            let j = (i / 8 + y) * 8 + (i % 8 + x);
            assert(0 <= j < 64);
            lemma_finish_encode(mv, p, i, j, t);
        } else if castle_case(b, white, empty, true, mv) {
            lemma_finish_encode(mv, p, king_home(white), castle_king_dest(white, true), t);
        } else {
            assert(castle_case(b, white, empty, false, mv));
            lemma_finish_encode(mv, p, king_home(white), castle_king_dest(white, false), t);
        }
    }
}

impl ChessBoard {
    /// Plain negamax without pruning: the returned score is exactly the
    /// negamax value of the position for its side to move.
    fn minimax(&mut self, depth: i32) -> (r: i32)
        requires
            depth >= 0,
        ensures
            *final(self) == *old(self),
            r == spec_negamax(*old(self), depth as int),
            -10000 <= r <= 10000,
        decreases depth,
    {
        if depth == 0 {
            let score = self.evaluate_board(self.turn);
            return score;
        }
        let moves = self.legal_moves(self.turn, false);

        if moves.len() == 0 {
            proof {
                lemma_best_over(*self, depth as int, 0);
                assert forall|j: int|
                    0 <= j < move_index_count() implies !is_legal_move(
                    *self,
                    self.turn,
                    #[trigger] move_of_index(j),
                ) by {
                    if is_legal_move(*self, self.turn, move_of_index(j)) {
                        assert(moves@.contains(move_of_index(j)));
                    }
                }
                assert(best_over(*self, depth as int, 0) == None::<int>);
            }
            if self.is_king_under_attack(self.turn) {
                return -10000;
            }
            return 0;
        }

        proof {
            lemma_best_over(*self, depth as int, 0);
            assert(moves@.contains(moves@[0]));
            assert(is_legal_move(*self, self.turn, moves@[0]));
            lemma_pseudo_enumerated(*self, self.turn, moves@[0]);
            let k0 = choose|k: int|
                0 <= k < move_index_count() && #[trigger] move_of_index(k) == moves@[0];
            assert(is_legal_move(*self, self.turn, move_of_index(k0)));
            assert(best_over(*self, depth as int, 0) != None::<int>);
        }
        let ghost v = spec_negamax(*self, depth as int);
        proof {
            assert(best_over(*self, depth as int, 0) == Some(v));
        }

        let mut best_score = i32::MIN;
        let mut idx: usize = 0;
        while idx < moves.len()
            invariant
                depth >= 1,
                idx <= moves.len(),
                forall|mv: Move| #[trigger]
                    moves@.contains(mv) <==> is_legal_move(*self, self.turn, mv),
                idx == 0 ==> best_score == i32::MIN,
                idx > 0 ==> (-10000 <= best_score <= 10000 && (exists|q: int|
                    0 <= q < idx && best_score == spec_search_value(
                        *self,
                        depth as int,
                        #[trigger] moves@[q],
                    )) && (forall|q: int|
                    0 <= q < idx ==> spec_search_value(*self, depth as int, #[trigger] moves@[q])
                        <= best_score)),
            decreases moves.len() - idx,
        {
            let mv = moves[idx];
            let mut board_copy = self.clone();
            board_copy.make_move(&mv);
            let score = -board_copy.minimax(depth - 1);
            proof {
                assert(score == spec_search_value(*self, depth as int, moves@[idx as int]));
            }
            if score > best_score {
                best_score = score;
            }
            idx = idx + 1;
        }
        proof {
            let q = choose|q: int|
                0 <= q < moves@.len() && best_score == spec_search_value(
                    *self,
                    depth as int,
                    #[trigger] moves@[q],
                );
            assert(moves@.contains(moves@[q]));
            lemma_pseudo_enumerated(*self, self.turn, moves@[q]);
            let k0 = choose|k: int|
                0 <= k < move_index_count() && #[trigger] move_of_index(k) == moves@[q];
            assert(is_legal_move(*self, self.turn, move_of_index(k0)));
            assert(spec_search_value(*self, depth as int, move_of_index(k0)) <= v);
            let j0 = choose|j: int|
                0 <= j < move_index_count() && is_legal_move(
                    *self,
                    self.turn,
                    #[trigger] move_of_index(j),
                ) && v == spec_search_value(*self, depth as int, move_of_index(j));
            assert(moves@.contains(move_of_index(j0)));
            let idx2 = choose|ii: int| 0 <= ii < moves@.len() && moves@[ii] == move_of_index(j0);
            assert(spec_search_value(*self, depth as int, moves@[idx2]) <= best_score);
            assert(best_score == v);
        }
        best_score
    }

    /// Search the game tree to the given depth and return a legal move for
    /// the side to move whose searched value no other legal move beats: the
    /// first such move in generation order, so earlier moves win ties.
    /// The caller must know the side has a legal move at all.
    pub fn get_computer_move(&mut self, depth: i32) -> (r: Move)
        requires
            depth >= 1,
            exists|mv: Move| #[trigger] is_legal_move(*old(self), old(self).turn, mv),
        ensures
            *final(self) == *old(self),
            is_legal_move(*old(self), old(self).turn, r),
            forall|mv: Move| #[trigger]
                is_legal_move(*old(self), old(self).turn, mv) ==> spec_search_value(
                    *old(self),
                    depth as int,
                    mv,
                ) <= spec_search_value(*old(self), depth as int, r),
            exists|n: int|
                0 <= n < crate::movegen::legal_list(*old(self), old(self).turn).len() && r
                    == #[trigger] crate::movegen::legal_list(*old(self), old(self).turn)[n] && (
                forall|j: int|
                    0 <= j < n ==> spec_search_value(
                        *old(self),
                        depth as int,
                        #[trigger] crate::movegen::legal_list(*old(self), old(self).turn)[j],
                    ) < spec_search_value(*old(self), depth as int, r)),
    {
        let moves = self.legal_moves(self.turn, false);
        proof {
            let w = choose|mv: Move| #[trigger] is_legal_move(*self, self.turn, mv);
            assert(moves@.contains(w));
        }
        let mut best_score = i32::MIN;
        let mut best_move = moves[0].clone();
        let mut idx: usize = 0;
        let ghost mut best_idx: int = 0;
        while idx < moves.len()
            invariant
                depth >= 1,
                moves@.len() > 0,
                idx <= moves.len(),
                moves@ == crate::movegen::legal_list(*self, self.turn),
                forall|mv: Move| #[trigger]
                    moves@.contains(mv) <==> is_legal_move(*self, self.turn, mv),
                idx == 0 ==> best_score == i32::MIN && best_move == moves@[0],
                idx > 0 ==> (-10000 <= best_score <= 10000 && 0 <= best_idx < idx && best_move
                    == moves@[best_idx] && moves@.contains(best_move) && best_score
                    == spec_search_value(*self, depth as int, best_move) && (forall|q: int|
                    0 <= q < idx ==> spec_search_value(*self, depth as int, #[trigger] moves@[q])
                        <= best_score) && (forall|q: int|
                    0 <= q < best_idx ==> spec_search_value(
                        *self,
                        depth as int,
                        #[trigger] moves@[q],
                    ) < best_score)),
            decreases moves.len() - idx,
        {
            let mv = moves[idx];
            let mut board_copy = self.clone();
            board_copy.make_move(&mv);
            let score = -board_copy.minimax(depth - 1);
            proof {
                assert(score == spec_search_value(*self, depth as int, moves@[idx as int]));
            }
            if score > best_score {
                best_score = score;
                best_move = mv;
                proof {
                    best_idx = idx as int;
                }
            }
            idx = idx + 1;
        }
        proof {
            assert(moves@.contains(best_move));
            assert(is_legal_move(*self, self.turn, best_move));
            assert forall|mv: Move| #[trigger]
                is_legal_move(*self, self.turn, mv) implies spec_search_value(
                *self,
                depth as int,
                mv,
            ) <= spec_search_value(*self, depth as int, best_move) by {
                assert(moves@.contains(mv));
                let q = choose|q: int| 0 <= q < moves@.len() && moves@[q] == mv;
                assert(spec_search_value(*self, depth as int, moves@[q]) <= best_score);
            }
            assert(0 <= best_idx < crate::movegen::legal_list(*self, self.turn).len() && best_move
                == crate::movegen::legal_list(*self, self.turn)[best_idx] && (forall|j: int|
                0 <= j < best_idx ==> spec_search_value(
                    *self,
                    depth as int,
                    #[trigger] crate::movegen::legal_list(*self, self.turn)[j],
                ) < spec_search_value(*self, depth as int, best_move)));
        }
        best_move
    }
}

/// At depth one the searcher's value of a move is exactly the immediate
/// material delta of the position it creates, seen from the mover's side:
/// a depth-one search returns a legal move with the locally best immediate
/// material change.
pub proof fn lemma_search_depth_one(b: ChessBoard, mv: Move)
    ensures
        spec_search_value(b, 1, mv) == spec_material(spec_apply(b, mv), b.turn),
{
    let c = spec_apply(b, mv);
    assert(c.turn == !b.turn);
    assert(spec_negamax(c, 0) == spec_material(c, c.turn));
    assert(spec_material(c, !b.turn) == -spec_material(c, b.turn));
}

} // verus!
