//! The move generator: pseudo-legal move enumeration per piece family, and
//! the legal filter on top of it.
use vstd::prelude::*;
use crate::attack::bishops_of;
use crate::attack::kings_of;
use crate::attack::knight_off;
use crate::attack::spec_attacked;
use crate::attack::spec_king_attacked;
use crate::attack::knights_of;
use crate::attack::on_board;
use crate::attack::pawns_of;
use crate::attack::queens_of;
use crate::attack::rooks_of;
use crate::bits::bit;
use crate::bits::lemma_bit;
use crate::bits::lemma_pop_lsb;
use crate::board::ChessBoard;
use crate::board::Move;
use crate::board::Piece;
use crate::seqs::lemma_push_contains;

verus! {

/// Forward direction of one side's pawns, in square numbers.
pub open spec fn pawn_dir(white: bool) -> int {
    if white {
        8
    } else {
        -8
    }
}

/// The rank a pawn of one side starts on, from which it may advance two.
pub open spec fn pawn_start_row(white: bool) -> int {
    if white {
        1
    } else {
        6
    }
}

/// The pawn identity of one side.
pub open spec fn pawn_piece(white: bool) -> Piece {
    if white {
        Piece::w_pawn
    } else {
        Piece::b_pawn
    }
}

/// A one-step advance from square `i` reaches the farthest rank for the
/// side, so the move promotes.
pub open spec fn pawn_promo(white: bool, i: int) -> bool {
    i / 8 + pawn_dir(white) / 8 == 7 || i / 8 + pawn_dir(white) / 8 == 0
}

/// `mv` is a pseudo-legal move of the pawn of the side given by `white`
/// standing on square `i`: a single push onto an empty square, a double
/// push from the starting rank across two empty squares, or a diagonal
/// capture onto an enemy piece; pushes onto the farthest rank and captures
/// reaching it carry the promotion flag.
pub open spec fn is_pawn_move_at(
    pawns: u64,
    empty: u64,
    e_pieces: u64,
    white: bool,
    i: int,
    mv: Move,
) -> bool {
    let dir = pawn_dir(white);
    let one = i + dir;
    let two = i + 2 * dir;
    let col = i % 8;
    let cl = if white {
        i + 7
    } else {
        i - 9
    };
    let cr = if white {
        i + 9
    } else {
        i - 7
    };
    0 <= i < 64 && bit(pawns, i) && mv.piece == pawn_piece(white) && mv.start == 1u64 << (i as u64)
        && 0 <= one < 64 && ((bit(empty, one) && mv.dest == 1u64 << (one as u64) && mv.promotion
        == pawn_promo(white, i)) || (bit(empty, one) && i / 8 == pawn_start_row(white) && bit(
        empty,
        two,
    ) && mv.dest == 1u64 << (two as u64) && mv.promotion == false) || (col != 0 && 0 <= cl < 64
        && bit(e_pieces, cl) && mv.dest == 1u64 << (cl as u64) && mv.promotion == pawn_promo(
        white,
        i,
    )) || (col != 7 && 0 <= cr < 64 && bit(e_pieces, cr) && mv.dest == 1u64 << (cr as u64)
        && mv.promotion == pawn_promo(white, i)))
}

/// `mv` is a pseudo-legal pawn move of the side given by `white`, for the
/// given empty-square and enemy-occupancy masks.
pub open spec fn is_pawn_move(
    pawns: u64,
    empty: u64,
    e_pieces: u64,
    white: bool,
    mv: Move,
) -> bool {
    exists|i: int| #[trigger] is_pawn_move_at(pawns, empty, e_pieces, white, i, mv)
}

/// The moves of the pawn on square `i`, in generation order: single push,
/// double push, the capture toward the lower file, the capture toward the
/// higher file.
pub open spec fn pawn_src_seq(empty: u64, e_pieces: u64, white: bool, i: int) -> Seq<Move> {
    let dir = pawn_dir(white);
    let one = i + dir;
    let two = i + 2 * dir;
    let cl = if white {
        i + 7
    } else {
        i - 9
    };
    let cr = if white {
        i + 9
    } else {
        i - 7
    };
    if !(0 <= one < 64) {
        Seq::empty()
    } else {
        (if bit(empty, one) {
            seq![
                Move {
                    piece: pawn_piece(white),
                    start: 1u64 << (i as u64),
                    dest: 1u64 << (one as u64),
                    promotion: pawn_promo(white, i),
                },
            ]
        } else {
            Seq::empty()
        }) + (if bit(empty, one) && i / 8 == pawn_start_row(white) && bit(empty, two) {
            seq![
                Move {
                    piece: pawn_piece(white),
                    start: 1u64 << (i as u64),
                    dest: 1u64 << (two as u64),
                    promotion: false,
                },
            ]
        } else {
            Seq::empty()
        }) + (if i % 8 != 0 && 0 <= cl < 64 && bit(e_pieces, cl) {
            seq![
                Move {
                    piece: pawn_piece(white),
                    start: 1u64 << (i as u64),
                    dest: 1u64 << (cl as u64),
                    promotion: pawn_promo(white, i),
                },
            ]
        } else {
            Seq::empty()
        }) + (if i % 8 != 7 && 0 <= cr < 64 && bit(e_pieces, cr) {
            seq![
                Move {
                    piece: pawn_piece(white),
                    start: 1u64 << (i as u64),
                    dest: 1u64 << (cr as u64),
                    promotion: pawn_promo(white, i),
                },
            ]
        } else {
            Seq::empty()
        })
    }
}

/// The pawn moves of the sources from square `i` up, sources in ascending
/// order.
pub open spec fn pawn_list(pawns: u64, empty: u64, e_pieces: u64, white: bool, i: int) -> Seq<Move>
    decreases 64 - i,
{
    if i < 0 || i >= 64 {
        Seq::empty()
    } else {
        (if bit(pawns, i) {
            pawn_src_seq(empty, e_pieces, white, i)
        } else {
            Seq::empty()
        }) + pawn_list(pawns, empty, e_pieces, white, i + 1)
    }
}

/// Sources without a pawn contribute nothing to the list.
proof fn lemma_pawn_list_skip(pawns: u64, empty: u64, e_pieces: u64, white: bool, a: int, b: int)
    requires
        0 <= a <= b <= 64,
        forall|j: int| a <= j < b ==> !bit(pawns, j),
    ensures
        pawn_list(pawns, empty, e_pieces, white, a) == pawn_list(pawns, empty, e_pieces, white, b),
    decreases b - a,
{
    if a < b {
        lemma_pawn_list_skip(pawns, empty, e_pieces, white, a + 1, b);
        assert(Seq::<Move>::empty() + pawn_list(pawns, empty, e_pieces, white, a + 1) =~= pawn_list(
            pawns,
            empty,
            e_pieces,
            white,
            a + 1,
        ));
    }
}

/// One source's moves all start on that source, and their destinations are
/// pairwise distinct, so the list is duplicate-free.
proof fn lemma_pawn_src_wf(empty: u64, e_pieces: u64, white: bool, i: int)
    requires
        0 <= i < 64,
    ensures
        pawn_src_seq(empty, e_pieces, white, i).no_duplicates(),
        forall|mv: Move| #[trigger]
            pawn_src_seq(empty, e_pieces, white, i).contains(mv) ==> mv.start == 1u64 << (i as u64),
{
    lemma_bit();
    crate::bits::lemma_shift_injective();
    let sq = pawn_src_seq(empty, e_pieces, white, i);
    let dir = pawn_dir(white);
    let one = i + dir;
    let two = i + 2 * dir;
    let cl = if white {
        i + 7
    } else {
        i - 9
    };
    let cr = if white {
        i + 9
    } else {
        i - 7
    };
    if 0 <= one < 64 {
        let c1 = bit(empty, one);
        let c2 = bit(empty, one) && i / 8 == pawn_start_row(white) && bit(empty, two);
        let c3 = i % 8 != 0 && 0 <= cl < 64 && bit(e_pieces, cl);
        let la: int = if c1 {
            1
        } else {
            0
        };
        let lb: int = la + (if c2 {
            1int
        } else {
            0
        });
        let lc: int = lb + (if c3 {
            1int
        } else {
            0
        });
        assert forall|n: int| 0 <= n < sq.len() implies (sq[n].start == 1u64 << (i as u64) && (if n
            < la {
            sq[n].dest == 1u64 << (one as u64)
        } else if n < lb {
            sq[n].dest == 1u64 << (two as u64)
        } else if n < lc {
            sq[n].dest == 1u64 << (cl as u64)
        } else {
            sq[n].dest == 1u64 << (cr as u64)
        })) by {}
        assert forall|n1: int, n2: int|
            0 <= n1 < sq.len() && 0 <= n2 < sq.len() && n1 != n2 implies sq[n1] != sq[n2] by {
            assert(c2 ==> 0 <= two < 64);
            assert(one != two && one != cl && one != cr && two != cl && two != cr && cl != cr);
        }
    }
}

/// The whole pawn list is duplicate-free, and every entry starts on a
/// source at or above `i`.
proof fn lemma_pawn_list_wf(pawns: u64, empty: u64, e_pieces: u64, white: bool, i: int)
    requires
        0 <= i,
    ensures
        pawn_list(pawns, empty, e_pieces, white, i).no_duplicates(),
        forall|mv: Move| #[trigger]
            pawn_list(pawns, empty, e_pieces, white, i).contains(mv) ==> exists|j: int|
                i <= j < 64 && mv.start == #[trigger] (1u64 << (j as u64)),
    decreases 64 - i,
{
    lemma_bit();
    crate::bits::lemma_shift_injective();
    crate::seqs::lemma_concat_contains();
    if i < 64 {
        lemma_pawn_list_wf(pawns, empty, e_pieces, white, i + 1);
        let head: Seq<Move> = if bit(pawns, i) {
            pawn_src_seq(empty, e_pieces, white, i)
        } else {
            Seq::empty()
        };
        let tail = pawn_list(pawns, empty, e_pieces, white, i + 1);
        if bit(pawns, i) {
            lemma_pawn_src_wf(empty, e_pieces, white, i);
        }
        assert forall|x: Move| !(#[trigger] head.contains(x) && tail.contains(x)) by {
            if head.contains(x) && tail.contains(x) {
                let j = choose|j: int| i + 1 <= j < 64 && x.start == #[trigger] (1u64 << (j as u64));
                assert(x.start == (1u64 << (i as u64)));
                assert(false);
            }
        }
        crate::seqs::lemma_no_dup_concat(head, tail);
        assert forall|mv: Move| #[trigger]
            pawn_list(pawns, empty, e_pieces, white, i).contains(mv) implies exists|j: int|
            i <= j < 64 && mv.start == #[trigger] (1u64 << (j as u64)) by {
            if head.contains(mv) {
                assert(i <= i < 64 && mv.start == (1u64 << (i as u64)));
            } else {
                assert(tail.contains(mv));
                let j = choose|j: int|
                    i + 1 <= j < 64 && mv.start == #[trigger] (1u64 << (j as u64));
                assert(i <= j < 64 && mv.start == (1u64 << (j as u64)));
            }
        }
    }
}

/// The king identity of one side.
pub open spec fn king_piece(white: bool) -> Piece {
    if white {
        Piece::w_king
    } else {
        Piece::b_king
    }
}

/// The eight king offsets, as (file step, rank step).
pub open spec fn king_off(k: int) -> (int, int) {
    if k == 0 {
        (1, 0)
    } else if k == 1 {
        (1, 1)
    } else if k == 2 {
        (0, 1)
    } else if k == 3 {
        (-1, 1)
    } else if k == 4 {
        (-1, 0)
    } else if k == 5 {
        (-1, -1)
    } else if k == 6 {
        (0, -1)
    } else {
        (1, -1)
    }
}

/// Step number `k` from square `i` stays on the board, lands on a square
/// that is empty or holds an enemy piece, and `mv` goes there.
pub open spec fn king_move_ok(empty: u64, e_pieces: u64, i: int, k: int, mv: Move) -> bool {
    let x = king_off(k).0;
    let y = king_off(k).1;
    let d = (i / 8 + y) * 8 + (i % 8 + x);
    on_board(i % 8 + x, i / 8 + y) && (bit(empty, d) || bit(e_pieces, d)) && mv.dest == 1u64 << (
    d as u64) && mv.promotion == false
}

/// `mv` is a single step of the king on square `i`, with steps numbered
/// below `k` considered.
pub open spec fn king_partial(
    kings: u64,
    empty: u64,
    e_pieces: u64,
    white: bool,
    i: int,
    k: int,
    mv: Move,
) -> bool {
    0 <= i < 64 && bit(kings, i) && mv.piece == king_piece(white) && mv.start == 1u64 << (i as u64)
        && exists|k2: int| 0 <= k2 < k && #[trigger] king_move_ok(empty, e_pieces, i, k2, mv)
}

/// `mv` is a pseudo-legal single step of the king standing on square `i`.
pub open spec fn is_king_step_at(
    kings: u64,
    empty: u64,
    e_pieces: u64,
    white: bool,
    i: int,
    mv: Move,
) -> bool {
    king_partial(kings, empty, e_pieces, white, i, 8, mv)
}

/// The castling-rights bit of one corner.
pub open spec fn castle_right_bits(white: bool, kingside: bool) -> u8 {
    if white {
        if kingside {
            0b0010
        } else {
            0b0001
        }
    } else {
        if kingside {
            0b1000
        } else {
            0b0100
        }
    }
}

/// The canonical starting square of one side's king.
pub open spec fn king_home(white: bool) -> int {
    if white {
        4
    } else {
        60
    }
}

/// The canonical starting square of one corner's rook.
pub open spec fn castle_rook_home(white: bool, kingside: bool) -> int {
    if white {
        if kingside {
            7
        } else {
            0
        }
    } else {
        if kingside {
            63
        } else {
            56
        }
    }
}

/// The king's destination square when castling to one corner.
pub open spec fn castle_king_dest(white: bool, kingside: bool) -> int {
    if white {
        if kingside {
            6
        } else {
            2
        }
    } else {
        if kingside {
            62
        } else {
            58
        }
    }
}

/// The castling king-move of one corner.
pub open spec fn castle_move(white: bool, kingside: bool) -> Move {
    Move {
        piece: king_piece(white),
        start: 1u64 << (king_home(white) as u64),
        dest: 1u64 << (castle_king_dest(white, kingside) as u64),
        promotion: false,
    }
}

/// The corner-local castling preconditions: the corner's right is held,
/// its rook stands on its canonical square, the squares strictly between
/// king and rook are empty, and no square the king passes through (its
/// start, the crossed square, its destination) is attacked by the other
/// side.
pub open spec fn castle_allowed(b: ChessBoard, white: bool, kingside: bool, empty: u64) -> bool {
    let home = king_home(white);
    &&& b.castle_rights & castle_right_bits(white, kingside) != 0
    &&& bit(rooks_of(b, white), castle_rook_home(white, kingside))
    &&& if kingside {
        bit(empty, home + 1) && bit(empty, home + 2)
    } else {
        bit(empty, home - 3) && bit(empty, home - 2) && bit(empty, home - 1)
    }
    &&& !spec_attacked(b, home, !white)
    &&& if kingside {
        !spec_attacked(b, home + 1, !white) && !spec_attacked(b, home + 2, !white)
    } else {
        !spec_attacked(b, home - 2, !white) && !spec_attacked(b, home - 1, !white)
    }
}

/// `mv` is the castling move of one corner, offered because the side is
/// not in check, its king stands on its canonical starting square, and the
/// corner's own preconditions hold.
pub open spec fn castle_case(
    b: ChessBoard,
    white: bool,
    empty: u64,
    kingside: bool,
    mv: Move,
) -> bool {
    &&& !spec_king_attacked(b, white)
    &&& bit(kings_of(b, white), king_home(white))
    &&& castle_allowed(b, white, kingside, empty)
    &&& mv == castle_move(white, kingside)
}

/// Step number `k` from square `i` lands on the board, on a square that is
/// empty or holds an enemy piece.
pub open spec fn king_can(empty: u64, e_pieces: u64, i: int, k: int) -> bool {
    let x = king_off(k).0;
    let y = king_off(k).1;
    let d = (i / 8 + y) * 8 + (i % 8 + x);
    on_board(i % 8 + x, i / 8 + y) && (bit(empty, d) || bit(e_pieces, d))
}

/// The move of step number `k` from square `i`.
pub open spec fn king_mv(white: bool, i: int, k: int) -> Move {
    let x = king_off(k).0;
    let y = king_off(k).1;
    Move {
        piece: king_piece(white),
        start: 1u64 << (i as u64),
        dest: 1u64 << (((i / 8 + y) * 8 + (i % 8 + x)) as u64),
        promotion: false,
    }
}

/// The single steps of the king on square `i`, steps numbered `k` and up,
/// in step order.
pub open spec fn king_src(empty: u64, e_pieces: u64, white: bool, i: int, k: int) -> Seq<Move>
    decreases 8 - k,
{
    if k < 0 || k >= 8 {
        Seq::empty()
    } else {
        (if king_can(empty, e_pieces, i, k) {
            seq![king_mv(white, i, k)]
        } else {
            Seq::empty()
        }) + king_src(empty, e_pieces, white, i, k + 1)
    }
}

/// The king steps of the sources from square `i` up, sources in ascending
/// order.
pub open spec fn king_steps_list(
    kings: u64,
    empty: u64,
    e_pieces: u64,
    white: bool,
    i: int,
) -> Seq<Move>
    decreases 64 - i,
{
    if i < 0 || i >= 64 {
        Seq::empty()
    } else {
        (if bit(kings, i) {
            king_src(empty, e_pieces, white, i, 0)
        } else {
            Seq::empty()
        }) + king_steps_list(kings, empty, e_pieces, white, i + 1)
    }
}

/// The castling moves on offer, kingside first.
pub open spec fn castle_extra(b: ChessBoard, white: bool, empty: u64) -> Seq<Move> {
    (if castle_case(b, white, empty, true, castle_move(white, true)) {
        seq![castle_move(white, true)]
    } else {
        Seq::empty()
    }) + (if castle_case(b, white, empty, false, castle_move(white, false)) {
        seq![castle_move(white, false)]
    } else {
        Seq::empty()
    })
}

/// Sources without a king contribute nothing to the step list.
proof fn lemma_king_list_skip(kings: u64, empty: u64, e_pieces: u64, white: bool, a: int, b: int)
    requires
        0 <= a <= b <= 64,
        forall|j: int| a <= j < b ==> !bit(kings, j),
    ensures
        king_steps_list(kings, empty, e_pieces, white, a) == king_steps_list(
            kings,
            empty,
            e_pieces,
            white,
            b,
        ),
    decreases b - a,
{
    if a < b {
        lemma_king_list_skip(kings, empty, e_pieces, white, a + 1, b);
        assert(Seq::<Move>::empty() + king_steps_list(kings, empty, e_pieces, white, a + 1)
            =~= king_steps_list(kings, empty, e_pieces, white, a + 1));
    }
}

/// One source's steps land on pairwise distinct squares, so its list is
/// duplicate-free; every entry starts on the source.
proof fn lemma_king_src_wf(empty: u64, e_pieces: u64, white: bool, i: int, k: int)
    requires
        0 <= i < 64,
        0 <= k,
    ensures
        king_src(empty, e_pieces, white, i, k).no_duplicates(),
        forall|mv: Move| #[trigger]
            king_src(empty, e_pieces, white, i, k).contains(mv) ==> (mv.start == 1u64 << (i as u64)
                && exists|k2: int|
                k <= k2 < 8 && king_can(empty, e_pieces, i, k2) && mv == #[trigger] king_mv(
                    white,
                    i,
                    k2,
                )),
    decreases 8 - k,
{
    lemma_bit();
    crate::bits::lemma_shift_injective();
    crate::seqs::lemma_concat_contains();
    vstd::arithmetic::div_mod::lemma_fundamental_div_mod(i, 8);
    if k < 8 {
        lemma_king_src_wf(empty, e_pieces, white, i, k + 1);
        let head: Seq<Move> = if king_can(empty, e_pieces, i, k) {
            seq![king_mv(white, i, k)]
        } else {
            Seq::empty()
        };
        let tail = king_src(empty, e_pieces, white, i, k + 1);
        assert forall|x: Move| !(#[trigger] head.contains(x) && tail.contains(x)) by {
            if head.contains(x) && tail.contains(x) {
                let k2 = choose|k2: int|
                    k + 1 <= k2 < 8 && king_can(empty, e_pieces, i, k2) && x == #[trigger] king_mv(
                        white,
                        i,
                        k2,
                    );
                assert(king_off(k).1 * 8 + king_off(k).0 != king_off(k2).1 * 8 + king_off(k2).0);
                assert((i / 8 + king_off(k).1) * 8 + (i % 8 + king_off(k).0) != (i / 8 + king_off(
                    k2,
                ).1) * 8 + (i % 8 + king_off(k2).0));
                assert(0 <= (i / 8 + king_off(k).1) * 8 + (i % 8 + king_off(k).0) < 64);
                assert(0 <= (i / 8 + king_off(k2).1) * 8 + (i % 8 + king_off(k2).0) < 64);
                assert(false);
            }
        }
        crate::seqs::lemma_no_dup_concat(head, tail);
        assert forall|mv: Move| #[trigger]
            king_src(empty, e_pieces, white, i, k).contains(mv) implies (mv.start == 1u64 << (
        i as u64) && exists|k2: int|
            k <= k2 < 8 && king_can(empty, e_pieces, i, k2) && mv == #[trigger] king_mv(
                white,
                i,
                k2,
            )) by {
            if head.contains(mv) {
                assert(king_can(empty, e_pieces, i, k) && mv == king_mv(white, i, k));
            } else {
                assert(tail.contains(mv));
            }
        }
    }
}

/// The whole step list is duplicate-free; every entry starts on a source at
/// or above `i`, and is a step of that source.
proof fn lemma_king_list_wf(kings: u64, empty: u64, e_pieces: u64, white: bool, i: int)
    requires
        0 <= i,
    ensures
        king_steps_list(kings, empty, e_pieces, white, i).no_duplicates(),
        forall|mv: Move| #[trigger]
            king_steps_list(kings, empty, e_pieces, white, i).contains(mv) ==> exists|
                j: int,
                k2: int,
            |
                i <= j < 64 && 0 <= k2 < 8 && king_can(empty, e_pieces, j, k2) && mv
                    == #[trigger] king_mv(white, j, k2),
    decreases 64 - i,
{
    lemma_bit();
    crate::bits::lemma_shift_injective();
    crate::seqs::lemma_concat_contains();
    if i < 64 {
        lemma_king_list_wf(kings, empty, e_pieces, white, i + 1);
        let head: Seq<Move> = if bit(kings, i) {
            king_src(empty, e_pieces, white, i, 0)
        } else {
            Seq::empty()
        };
        let tail = king_steps_list(kings, empty, e_pieces, white, i + 1);
        if bit(kings, i) {
            lemma_king_src_wf(empty, e_pieces, white, i, 0);
        }
        assert forall|x: Move| !(#[trigger] head.contains(x) && tail.contains(x)) by {
            if head.contains(x) && tail.contains(x) {
                let (j, k2) = choose|j: int, k2: int|
                    i + 1 <= j < 64 && 0 <= k2 < 8 && king_can(empty, e_pieces, j, k2) && x
                        == #[trigger] king_mv(white, j, k2);
                assert(x.start == (1u64 << (i as u64)));
                assert(x.start == (1u64 << (j as u64)));
                assert(false);
            }
        }
        crate::seqs::lemma_no_dup_concat(head, tail);
        assert forall|mv: Move| #[trigger]
            king_steps_list(kings, empty, e_pieces, white, i).contains(mv) implies exists|
            j: int,
            k2: int,
        |
            i <= j < 64 && 0 <= k2 < 8 && king_can(empty, e_pieces, j, k2) && mv
                == #[trigger] king_mv(white, j, k2) by {
            if head.contains(mv) {
                let k2 = choose|k2: int|
                    0 <= k2 < 8 && king_can(empty, e_pieces, i, k2) && mv == #[trigger] king_mv(
                        white,
                        i,
                        k2,
                    );
                assert(i <= i < 64 && 0 <= k2 < 8 && king_can(empty, e_pieces, i, k2) && mv
                    == king_mv(white, i, k2));
            } else {
                assert(tail.contains(mv));
            }
        }
    }
}

/// `mv` is a pseudo-legal king move of the side given by `white`: a single
/// step of some king, or one of the two castling moves.
pub open spec fn is_king_move(
    b: ChessBoard,
    empty: u64,
    e_pieces: u64,
    white: bool,
    mv: Move,
) -> bool {
    ||| exists|i: int| #[trigger] is_king_step_at(kings_of(b, white), empty, e_pieces, white, i, mv)
    ||| castle_case(b, white, empty, true, mv)
    ||| castle_case(b, white, empty, false, mv)
}

/// The queen identity of one side.
pub open spec fn queen_piece(white: bool) -> Piece {
    if white {
        Piece::w_queen
    } else {
        Piece::b_queen
    }
}

/// The four ray directions of a piece family, as (file step, rank step):
/// the diagonals for the bishop family, the orthogonals for the rook family.
pub open spec fn slider_dir(diagonal: bool, k: int) -> (int, int) {
    if diagonal {
        if k == 0 {
            (1, 1)
        } else if k == 1 {
            (1, -1)
        } else if k == 2 {
            (-1, 1)
        } else {
            (-1, -1)
        }
    } else {
        if k == 0 {
            (1, 0)
        } else if k == 1 {
            (-1, 0)
        } else if k == 2 {
            (0, 1)
        } else {
            (0, -1)
        }
    }
}

/// `mv` starts on square `i` with the given piece, whose mask holds `i`.
pub open spec fn slider_header(pieces: u64, pid: Piece, i: int, mv: Move) -> bool {
    0 <= i < 64 && bit(pieces, i) && mv.piece == pid && mv.start == 1u64 << (i as u64)
}

/// Ray number `k` from square `i`, walked `dist` steps, stays on the board,
/// crosses only strictly empty squares, lands on a square that is empty or
/// holds an enemy piece, and `mv` goes there.
/// The square `dist` steps along the ray with steps (`x`, `y`) from
/// square `i`.
pub open spec fn ray_square(i: int, x: int, y: int, d: int) -> int {
    (i / 8 + y * d) * 8 + (i % 8 + x * d)
}

/// The square `d2` steps along the ray is on the board and strictly empty,
/// so the walk passes it.
pub open spec fn ray_clear(empty: u64, e_pieces: u64, i: int, x: int, y: int, d2: int) -> bool {
    on_board(i % 8 + x * d2, i / 8 + y * d2) && bit(empty, ray_square(i, x, y, d2)) && !bit(
        e_pieces,
        ray_square(i, x, y, d2),
    )
}

pub open spec fn ray_move_ok(
    empty: u64,
    e_pieces: u64,
    i: int,
    diagonal: bool,
    k: int,
    dist: int,
    mv: Move,
) -> bool {
    let x = slider_dir(diagonal, k).0;
    let y = slider_dir(diagonal, k).1;
    let d = ray_square(i, x, y, dist);
    1 <= dist < 8 && on_board(i % 8 + x * dist, i / 8 + y * dist) && (forall|d2: int|
        1 <= d2 < dist ==> #[trigger] ray_clear(empty, e_pieces, i, x, y, d2)) && (bit(empty, d)
        || bit(e_pieces, d)) && mv.dest == 1u64 << (d as u64) && mv.promotion == false
}

/// `mv` is a ray move from square `i`, with directions numbered below `k`
/// considered.
pub open spec fn slider_partial(
    pieces: u64,
    empty: u64,
    e_pieces: u64,
    pid: Piece,
    diagonal: bool,
    i: int,
    k: int,
    mv: Move,
) -> bool {
    slider_header(pieces, pid, i, mv) && exists|k2: int, d2: int|
        0 <= k2 < k && #[trigger] ray_move_ok(empty, e_pieces, i, diagonal, k2, d2, mv)
}

/// `mv` is a pseudo-legal ray move of the piece standing on square `i`.
pub open spec fn is_slider_move_at(
    pieces: u64,
    empty: u64,
    e_pieces: u64,
    pid: Piece,
    diagonal: bool,
    i: int,
    mv: Move,
) -> bool {
    slider_partial(pieces, empty, e_pieces, pid, diagonal, i, 4, mv)
}

/// `mv` is a pseudo-legal ray move of some piece in `pieces`.
pub open spec fn is_slider_move(
    pieces: u64,
    empty: u64,
    e_pieces: u64,
    pid: Piece,
    diagonal: bool,
    mv: Move,
) -> bool {
    exists|i: int| #[trigger] is_slider_move_at(pieces, empty, e_pieces, pid, diagonal, i, mv)
}

/// The move landing `dist` steps along ray `k` from square `i`.
pub open spec fn ray_mv(pid: Piece, diagonal: bool, i: int, k: int, dist: int) -> Move {
    let x = slider_dir(diagonal, k).0;
    let y = slider_dir(diagonal, k).1;
    Move {
        piece: pid,
        start: 1u64 << (i as u64),
        dest: 1u64 << ((ray_square(i, x, y, dist)) as u64),
        promotion: false,
    }
}

/// The moves of ray `k` from square `i`, walked from `dist` out: emitted
/// square by square over empty squares, ending with a capture or at the
/// first blocked or off-board square.
pub open spec fn slider_ray_seq(
    empty: u64,
    e_pieces: u64,
    pid: Piece,
    diagonal: bool,
    i: int,
    k: int,
    dist: int,
) -> Seq<Move>
    decreases 8 - dist,
{
    let x = slider_dir(diagonal, k).0;
    let y = slider_dir(diagonal, k).1;
    let d = ray_square(i, x, y, dist);
    if dist < 1 || dist >= 8 || !on_board(i % 8 + x * dist, i / 8 + y * dist) {
        Seq::empty()
    } else if bit(e_pieces, d) {
        seq![ray_mv(pid, diagonal, i, k, dist)]
    } else if bit(empty, d) {
        seq![ray_mv(pid, diagonal, i, k, dist)] + slider_ray_seq(
            empty,
            e_pieces,
            pid,
            diagonal,
            i,
            k,
            dist + 1,
        )
    } else {
        Seq::empty()
    }
}

/// The moves of the piece on square `i`, rays numbered `k` and up, in ray
/// order.
pub open spec fn slider_src_seq(
    empty: u64,
    e_pieces: u64,
    pid: Piece,
    diagonal: bool,
    i: int,
    k: int,
) -> Seq<Move>
    decreases 4 - k,
{
    if k < 0 || k >= 4 {
        Seq::empty()
    } else {
        slider_ray_seq(empty, e_pieces, pid, diagonal, i, k, 1) + slider_src_seq(
            empty,
            e_pieces,
            pid,
            diagonal,
            i,
            k + 1,
        )
    }
}

/// The ray moves of the sources from square `i` up, sources in ascending
/// order.
pub open spec fn slider_list(
    pieces: u64,
    empty: u64,
    e_pieces: u64,
    pid: Piece,
    diagonal: bool,
    i: int,
) -> Seq<Move>
    decreases 64 - i,
{
    if i < 0 || i >= 64 {
        Seq::empty()
    } else {
        (if bit(pieces, i) {
            slider_src_seq(empty, e_pieces, pid, diagonal, i, 0)
        } else {
            Seq::empty()
        }) + slider_list(pieces, empty, e_pieces, pid, diagonal, i + 1)
    }
}

/// Sources without a piece contribute nothing to the list.
proof fn lemma_slider_list_skip(
    pieces: u64,
    empty: u64,
    e_pieces: u64,
    pid: Piece,
    diagonal: bool,
    a: int,
    b: int,
)
    requires
        0 <= a <= b <= 64,
        forall|j: int| a <= j < b ==> !bit(pieces, j),
    ensures
        slider_list(pieces, empty, e_pieces, pid, diagonal, a) == slider_list(
            pieces,
            empty,
            e_pieces,
            pid,
            diagonal,
            b,
        ),
    decreases b - a,
{
    if a < b {
        lemma_slider_list_skip(pieces, empty, e_pieces, pid, diagonal, a + 1, b);
        assert(Seq::<Move>::empty() + slider_list(pieces, empty, e_pieces, pid, diagonal, a + 1)
            =~= slider_list(pieces, empty, e_pieces, pid, diagonal, a + 1));
    }
}

/// A product of a unit step and a positive distance determines both.
proof fn lemma_unit_prod(a: int, b: int, da: int, db: int)
    requires
        -1 <= a <= 1,
        -1 <= b <= 1,
        1 <= da,
        1 <= db,
        a * da == b * db,
    ensures
        a == b,
        a != 0 ==> da == db,
{
    assert(a == b && (a != 0 ==> da == db)) by (nonlinear_arith)
        requires
            -1 <= a <= 1,
            -1 <= b <= 1,
            1 <= da,
            1 <= db,
            a * da == b * db,
    ;
}

/// Distinct rays, or distinct distances along one ray, land on distinct
/// squares.
proof fn lemma_ray_square_distinct(
    i: int,
    diag1: bool,
    k1: int,
    d1: int,
    diag2: bool,
    k2: int,
    d2: int,
)
    requires
        0 <= i < 64,
        0 <= k1 < 4,
        0 <= k2 < 4,
        1 <= d1 < 8,
        1 <= d2 < 8,
        on_board(
            i % 8 + slider_dir(diag1, k1).0 * d1,
            i / 8 + slider_dir(diag1, k1).1 * d1,
        ),
        on_board(
            i % 8 + slider_dir(diag2, k2).0 * d2,
            i / 8 + slider_dir(diag2, k2).1 * d2,
        ),
        !(slider_dir(diag1, k1) == slider_dir(diag2, k2) && d1 == d2),
    ensures
        ray_square(i, slider_dir(diag1, k1).0, slider_dir(diag1, k1).1, d1) != ray_square(
            i,
            slider_dir(diag2, k2).0,
            slider_dir(diag2, k2).1,
            d2,
        ),
{
    let x1 = slider_dir(diag1, k1).0;
    let y1 = slider_dir(diag1, k1).1;
    let x2 = slider_dir(diag2, k2).0;
    let y2 = slider_dir(diag2, k2).1;
    if ray_square(i, x1, y1, d1) == ray_square(i, x2, y2, d2) {
        assert(y1 * d1 == y2 * d2 && x1 * d1 == x2 * d2);
        lemma_unit_prod(x1, x2, d1, d2);
        lemma_unit_prod(y1, y2, d1, d2);
        assert(x1 != 0 || y1 != 0);
        assert(false);
    }
}

/// One ray's moves all start on the source and land on pairwise distinct
/// squares along the ray.
proof fn lemma_slider_ray_wf(
    empty: u64,
    e_pieces: u64,
    pid: Piece,
    diagonal: bool,
    i: int,
    k: int,
    dist: int,
)
    requires
        0 <= i < 64,
        0 <= k < 4,
        1 <= dist,
    ensures
        slider_ray_seq(empty, e_pieces, pid, diagonal, i, k, dist).no_duplicates(),
        forall|mv: Move| #[trigger]
            slider_ray_seq(empty, e_pieces, pid, diagonal, i, k, dist).contains(mv) ==> (mv.start
                == 1u64 << (i as u64) && mv.piece == pid && exists|d2: int|
                dist <= d2 < 8 && on_board(
                    i % 8 + slider_dir(diagonal, k).0 * d2,
                    i / 8 + slider_dir(diagonal, k).1 * d2,
                ) && mv == #[trigger] ray_mv(pid, diagonal, i, k, d2)),
    decreases 8 - dist,
{
    lemma_bit();
    crate::bits::lemma_shift_injective();
    crate::seqs::lemma_concat_contains();
    let x = slider_dir(diagonal, k).0;
    let y = slider_dir(diagonal, k).1;
    let d = ray_square(i, x, y, dist);
    if dist < 8 && on_board(i % 8 + x * dist, i / 8 + y * dist) && !bit(e_pieces, d) && bit(
        empty,
        d,
    ) {
        lemma_slider_ray_wf(empty, e_pieces, pid, diagonal, i, k, dist + 1);
        let head = seq![ray_mv(pid, diagonal, i, k, dist)];
        let tail = slider_ray_seq(empty, e_pieces, pid, diagonal, i, k, dist + 1);
        assert forall|m2: Move| !(#[trigger] head.contains(m2) && tail.contains(m2)) by {
            if head.contains(m2) && tail.contains(m2) {
                let d2 = choose|d2: int|
                    dist + 1 <= d2 < 8 && on_board(
                        i % 8 + slider_dir(diagonal, k).0 * d2,
                        i / 8 + slider_dir(diagonal, k).1 * d2,
                    ) && m2 == #[trigger] ray_mv(pid, diagonal, i, k, d2);
                lemma_ray_square_distinct(i, diagonal, k, dist, diagonal, k, d2);
                assert(0 <= ray_square(i, x, y, dist) < 64);
                assert(0 <= ray_square(i, x, y, d2) < 64);
                assert(false);
            }
        }
        crate::seqs::lemma_no_dup_concat(head, tail);
    }
}

/// One source's rays land on pairwise distinct squares, so its list is
/// duplicate-free; every entry starts on the source and carries the piece.
proof fn lemma_slider_src_wf(
    empty: u64,
    e_pieces: u64,
    pid: Piece,
    diagonal: bool,
    i: int,
    k: int,
)
    requires
        0 <= i < 64,
        0 <= k,
    ensures
        slider_src_seq(empty, e_pieces, pid, diagonal, i, k).no_duplicates(),
        forall|mv: Move| #[trigger]
            slider_src_seq(empty, e_pieces, pid, diagonal, i, k).contains(mv) ==> (mv.start == 1u64
                << (i as u64) && mv.piece == pid && exists|k2: int, d2: int|
                k <= k2 < 4 && 1 <= d2 < 8 && on_board(
                    i % 8 + slider_dir(diagonal, k2).0 * d2,
                    i / 8 + slider_dir(diagonal, k2).1 * d2,
                ) && mv == #[trigger] ray_mv(pid, diagonal, i, k2, d2)),
    decreases 4 - k,
{
    crate::seqs::lemma_concat_contains();
    crate::bits::lemma_shift_injective();
    if k < 4 {
        lemma_slider_src_wf(empty, e_pieces, pid, diagonal, i, k + 1);
        lemma_slider_ray_wf(empty, e_pieces, pid, diagonal, i, k, 1);
        let head = slider_ray_seq(empty, e_pieces, pid, diagonal, i, k, 1);
        let tail = slider_src_seq(empty, e_pieces, pid, diagonal, i, k + 1);
        assert forall|m2: Move| !(#[trigger] head.contains(m2) && tail.contains(m2)) by {
            if head.contains(m2) && tail.contains(m2) {
                let d1 = choose|d1: int|
                    1 <= d1 < 8 && on_board(
                        i % 8 + slider_dir(diagonal, k).0 * d1,
                        i / 8 + slider_dir(diagonal, k).1 * d1,
                    ) && m2 == #[trigger] ray_mv(pid, diagonal, i, k, d1);
                let (k2, d2) = choose|k2: int, d2: int|
                    k + 1 <= k2 < 4 && 1 <= d2 < 8 && on_board(
                        i % 8 + slider_dir(diagonal, k2).0 * d2,
                        i / 8 + slider_dir(diagonal, k2).1 * d2,
                    ) && m2 == #[trigger] ray_mv(pid, diagonal, i, k2, d2);
                assert(slider_dir(diagonal, k) != slider_dir(diagonal, k2));
                lemma_ray_square_distinct(i, diagonal, k, d1, diagonal, k2, d2);
                assert(0 <= ray_square(i, slider_dir(diagonal, k).0, slider_dir(diagonal, k).1, d1)
                    < 64);
                assert(0 <= ray_square(
                    i,
                    slider_dir(diagonal, k2).0,
                    slider_dir(diagonal, k2).1,
                    d2,
                ) < 64);
                assert(false);
            }
        }
        crate::seqs::lemma_no_dup_concat(head, tail);
    }
}

/// The whole ray-move list is duplicate-free; every entry starts on a
/// source at or above `i` and carries the piece.
proof fn lemma_slider_list_wf(
    pieces: u64,
    empty: u64,
    e_pieces: u64,
    pid: Piece,
    diagonal: bool,
    i: int,
)
    requires
        0 <= i,
    ensures
        slider_list(pieces, empty, e_pieces, pid, diagonal, i).no_duplicates(),
        forall|mv: Move| #[trigger]
            slider_list(pieces, empty, e_pieces, pid, diagonal, i).contains(mv) ==> (mv.piece == pid
                && exists|j: int| i <= j < 64 && mv.start == #[trigger] (1u64 << (j as u64))),
        forall|mv: Move| #[trigger]
            slider_list(pieces, empty, e_pieces, pid, diagonal, i).contains(mv) ==> exists|
                i2: int,
                k2: int,
                d2: int,
            |
                0 <= i2 < 64 && 0 <= k2 < 4 && 1 <= d2 < 8 && on_board(
                    i2 % 8 + slider_dir(diagonal, k2).0 * d2,
                    i2 / 8 + slider_dir(diagonal, k2).1 * d2,
                ) && mv == #[trigger] ray_mv(pid, diagonal, i2, k2, d2),
    decreases 64 - i,
{
    lemma_bit();
    crate::bits::lemma_shift_injective();
    crate::seqs::lemma_concat_contains();
    if i < 64 {
        lemma_slider_list_wf(pieces, empty, e_pieces, pid, diagonal, i + 1);
        let head: Seq<Move> = if bit(pieces, i) {
            slider_src_seq(empty, e_pieces, pid, diagonal, i, 0)
        } else {
            Seq::empty()
        };
        let tail = slider_list(pieces, empty, e_pieces, pid, diagonal, i + 1);
        if bit(pieces, i) {
            lemma_slider_src_wf(empty, e_pieces, pid, diagonal, i, 0);
        }
        assert forall|m2: Move| !(#[trigger] head.contains(m2) && tail.contains(m2)) by {
            if head.contains(m2) && tail.contains(m2) {
                let j = choose|j: int|
                    i + 1 <= j < 64 && m2.start == #[trigger] (1u64 << (j as u64));
                assert(m2.start == (1u64 << (i as u64)));
                assert(false);
            }
        }
        crate::seqs::lemma_no_dup_concat(head, tail);
        assert forall|mv: Move| #[trigger]
            slider_list(pieces, empty, e_pieces, pid, diagonal, i).contains(mv) implies (mv.piece
            == pid && exists|j: int| i <= j < 64 && mv.start == #[trigger] (1u64 << (j as u64))) by {
            if head.contains(mv) {
                assert(i <= i < 64 && mv.start == (1u64 << (i as u64)));
            } else {
                assert(tail.contains(mv));
                let j = choose|j: int|
                    i + 1 <= j < 64 && mv.start == #[trigger] (1u64 << (j as u64));
                assert(i <= j < 64 && mv.start == (1u64 << (j as u64)));
            }
        }
        assert forall|mv: Move| #[trigger]
            slider_list(pieces, empty, e_pieces, pid, diagonal, i).contains(mv) implies exists|
            i2: int,
            k2: int,
            d2: int,
        |
            0 <= i2 < 64 && 0 <= k2 < 4 && 1 <= d2 < 8 && on_board(
                i2 % 8 + slider_dir(diagonal, k2).0 * d2,
                i2 / 8 + slider_dir(diagonal, k2).1 * d2,
            ) && mv == #[trigger] ray_mv(pid, diagonal, i2, k2, d2) by {
            if head.contains(mv) {
                let (k2, d2) = choose|k2: int, d2: int|
                    0 <= k2 < 4 && 1 <= d2 < 8 && on_board(
                        i % 8 + slider_dir(diagonal, k2).0 * d2,
                        i / 8 + slider_dir(diagonal, k2).1 * d2,
                    ) && mv == #[trigger] ray_mv(pid, diagonal, i, k2, d2);
                assert(0 <= i < 64 && 0 <= k2 < 4 && 1 <= d2 < 8 && mv == ray_mv(
                    pid,
                    diagonal,
                    i,
                    k2,
                    d2,
                ));
            } else {
                assert(tail.contains(mv));
            }
        }
    }
}

/// The ray direction numbered `k`, as executable steps.
fn slider_step(diagonal: bool, k: usize) -> (r: (i32, i32))
    requires
        k < 4,
    ensures
        (r.0 as int, r.1 as int) == slider_dir(diagonal, k as int),
        -1 <= r.0 <= 1,
        -1 <= r.1 <= 1,
{
    if diagonal {
        if k == 0 {
            (1, 1)
        } else if k == 1 {
            (1, -1)
        } else if k == 2 {
            (-1, 1)
        } else {
            (-1, -1)
        }
    } else {
        if k == 0 {
            (1, 0)
        } else if k == 1 {
            (-1, 0)
        } else if k == 2 {
            (0, 1)
        } else {
            (0, -1)
        }
    }
}

/// A square on a ray stays on the board only if every nearer square on the
/// ray does.
proof fn lemma_ray_monotone(col: int, row: int, x: int, y: int, d_small: int, d_big: int)
    requires
        0 <= col < 8,
        0 <= row < 8,
        -1 <= x <= 1,
        -1 <= y <= 1,
        1 <= d_small <= d_big,
        on_board(col + x * d_big, row + y * d_big),
    ensures
        on_board(col + x * d_small, row + y * d_small),
{
    assert(x * d_big == (if x == 0 {
        0int
    } else if x == 1 {
        d_big
    } else {
        -d_big
    }) && x * d_small == (if x == 0 {
        0int
    } else if x == 1 {
        d_small
    } else {
        -d_small
    })) by (nonlinear_arith)
        requires
            -1 <= x <= 1,
    ;
    assert(y * d_big == (if y == 0 {
        0int
    } else if y == 1 {
        d_big
    } else {
        -d_big
    }) && y * d_small == (if y == 0 {
        0int
    } else if y == 1 {
        d_small
    } else {
        -d_small
    })) by (nonlinear_arith)
        requires
            -1 <= y <= 1,
    ;
}

/// All pseudo-legal ray moves of the pieces in `pieces_all`, walking the
/// diagonal or orthogonal direction set: the returned list holds a move if
/// and only if some piece in the mask can make it.
fn slider_moves(pieces_all: u64, piece_name: Piece, diagonal: bool, empty: u64, e_pieces: u64) -> (r:
    Vec<Move>)
    ensures
        forall|mv: Move| #[trigger]
            r@.contains(mv) <==> is_slider_move(
                pieces_all,
                empty,
                e_pieces,
                piece_name,
                diagonal,
                mv,
            ),
        r@ == slider_list(pieces_all, empty, e_pieces, piece_name, diagonal, 0),
        r@.no_duplicates(),
{
    let mut moves: Vec<Move> = Vec::new();
    let mut pieces = pieces_all;
    let ghost mut bound: int = 0;

    while pieces != 0
        invariant
            0 <= bound <= 64,
            forall|j: int| #[trigger] bit(pieces, j) == (bit(pieces_all, j) && j >= bound),
            moves@ + slider_list(pieces_all, empty, e_pieces, piece_name, diagonal, bound)
                == slider_list(pieces_all, empty, e_pieces, piece_name, diagonal, 0),
            forall|mv: Move| #[trigger]
                moves@.contains(mv) <==> exists|i: int|
                    i < bound && #[trigger] is_slider_move_at(
                        pieces_all,
                        empty,
                        e_pieces,
                        piece_name,
                        diagonal,
                        i,
                        mv,
                    ),
        decreases pieces,
    {
        proof {
            lemma_bit();
            lemma_push_contains();
            lemma_pop_lsb(pieces);
        }
        let index = pieces.trailing_zeros() as i32;
        let ghost t = index as int;
        let ghost old_bound = bound;
        let ghost outer_pre = moves@;
        proof {
            assert(bit(pieces, t));
            assert forall|j: int| bound <= j < t implies !#[trigger] bit(pieces_all, j) by {
                assert(!bit(pieces, j));
            }
        }
        let row = index / 8;
        let col = index % 8;

        let mut k: usize = 0;
        while k < 4
            invariant
                k <= 4,
                0 <= t < 64,
                index == t,
                row == t / 8,
                col == t % 8,
                bit(pieces_all, t),
                moves@ + slider_src_seq(empty, e_pieces, piece_name, diagonal, t, k as int)
                    == outer_pre + slider_src_seq(empty, e_pieces, piece_name, diagonal, t, 0),
                forall|mv: Move| #[trigger]
                    moves@.contains(mv) <==> (exists|i: int|
                        i < old_bound && #[trigger] is_slider_move_at(
                            pieces_all,
                            empty,
                            e_pieces,
                            piece_name,
                            diagonal,
                            i,
                            mv,
                        )) || slider_partial(
                        pieces_all,
                        empty,
                        e_pieces,
                        piece_name,
                        diagonal,
                        t,
                        k as int,
                        mv,
                    ),
            decreases 4 - k,
        {
            let (x, y) = slider_step(diagonal, k);
            let ghost k_pre = moves@;
            let mut distance: i32 = 1;
            while distance < 8
                invariant_except_break
                    1 <= distance <= 8,
                    moves@ + slider_ray_seq(
                        empty,
                        e_pieces,
                        piece_name,
                        diagonal,
                        t,
                        k as int,
                        distance as int,
                    ) == k_pre + slider_ray_seq(empty, e_pieces, piece_name, diagonal, t, k as int, 1),
                    k < 4,
                    0 <= t < 64,
                    index == t,
                    row == t / 8,
                    col == t % 8,
                    bit(pieces_all, t),
                    piece_name == piece_name,
                    (x as int, y as int) == slider_dir(diagonal, k as int),
                    -1 <= x <= 1,
                    -1 <= y <= 1,
                    forall|d2: int|
                        1 <= d2 < distance ==> #[trigger] ray_clear(
                            empty,
                            e_pieces,
                            t,
                            x as int,
                            y as int,
                            d2,
                        ),
                    forall|mv: Move| #[trigger]
                        moves@.contains(mv) <==> (exists|i: int|
                            i < old_bound && #[trigger] is_slider_move_at(
                                pieces_all,
                                empty,
                                e_pieces,
                                piece_name,
                                diagonal,
                                i,
                                mv,
                            )) || slider_partial(
                            pieces_all,
                            empty,
                            e_pieces,
                            piece_name,
                            diagonal,
                            t,
                            k as int,
                            mv,
                        ) || (slider_header(pieces_all, piece_name, t, mv) && exists|d2: int|
                            1 <= d2 < distance && #[trigger] ray_move_ok(
                                empty,
                                e_pieces,
                                t,
                                diagonal,
                                k as int,
                                d2,
                                mv,
                            )),
                ensures
                    moves@ == k_pre + slider_ray_seq(
                        empty,
                        e_pieces,
                        piece_name,
                        diagonal,
                        t,
                        k as int,
                        1,
                    ),
                    forall|mv: Move| #[trigger]
                        moves@.contains(mv) <==> (exists|i: int|
                            i < old_bound && #[trigger] is_slider_move_at(
                                pieces_all,
                                empty,
                                e_pieces,
                                piece_name,
                                diagonal,
                                i,
                                mv,
                            )) || slider_partial(
                            pieces_all,
                            empty,
                            e_pieces,
                            piece_name,
                            diagonal,
                            t,
                            k as int + 1,
                            mv,
                        ),
                decreases 8 - distance,
            {
                proof {
                    lemma_bit();
                    lemma_push_contains();
                    assert(-7 <= x * distance <= 7 && -7 <= y * distance <= 7)
                        by (nonlinear_arith)
                        requires
                            -1 <= x <= 1,
                            -1 <= y <= 1,
                            1 <= distance < 8,
                    ;
                }
                let ghost pre = moves@;
                let new_row = row + y * distance;
                let new_col = col + x * distance;
                if !ChessBoard::in_bounds(new_col, new_row) {
                    proof {
                        assert(slider_ray_seq(
                            empty,
                            e_pieces,
                            piece_name,
                            diagonal,
                            t,
                            k as int,
                            distance as int,
                        ) =~= Seq::<Move>::empty());
                        assert(moves@ =~= k_pre + slider_ray_seq(
                            empty,
                            e_pieces,
                            piece_name,
                            diagonal,
                            t,
                            k as int,
                            1,
                        ));
                        assert forall|mv: Move| #[trigger]
                            moves@.contains(mv) <==> (exists|i: int|
                                i < old_bound && #[trigger] is_slider_move_at(
                                    pieces_all,
                                    empty,
                                    e_pieces,
                                    piece_name,
                                    diagonal,
                                    i,
                                    mv,
                                )) || slider_partial(
                                pieces_all,
                                empty,
                                e_pieces,
                                piece_name,
                                diagonal,
                                t,
                                k as int + 1,
                                mv,
                            ) by {
                            if slider_partial(
                                pieces_all,
                                empty,
                                e_pieces,
                                piece_name,
                                diagonal,
                                t,
                                k as int + 1,
                                mv,
                            ) && !slider_partial(
                                pieces_all,
                                empty,
                                e_pieces,
                                piece_name,
                                diagonal,
                                t,
                                k as int,
                                mv,
                            ) {
                                let (k2, d2) = choose|k2: int, d2: int|
                                    0 <= k2 < k + 1 && #[trigger] ray_move_ok(
                                        empty,
                                        e_pieces,
                                        t,
                                        diagonal,
                                        k2,
                                        d2,
                                        mv,
                                    );
                                assert(k2 == k as int);
                                if d2 >= distance {
                                    lemma_ray_monotone(
                                        col as int,
                                        row as int,
                                        x as int,
                                        y as int,
                                        distance as int,
                                        d2,
                                    );
                                    assert(false);
                                } else {
                                    assert(exists|d3: int|
                                        1 <= d3 < distance && #[trigger] ray_move_ok(
                                            empty,
                                            e_pieces,
                                            t,
                                            diagonal,
                                            k as int,
                                            d3,
                                            mv,
                                        ));
                                }
                            }
                        }
                    }
                    break ;
                }
                let dest = (new_row * 8) + new_col;
                let target = 1u64 << (dest as u64);
                if target & (empty | e_pieces) != 0 {
                    moves.push(
                        Move {
                            piece: piece_name,
                            start: 1u64 << (index as u64),
                            dest: target,
                            promotion: false,
                        },
                    );
                    proof {
                        assert(ray_move_ok(
                            empty,
                            e_pieces,
                            t,
                            diagonal,
                            k as int,
                            distance as int,
                            moves@[moves@.len() - 1],
                        ));
                        assert(moves@[moves@.len() - 1] == ray_mv(
                            piece_name,
                            diagonal,
                            t,
                            k as int,
                            distance as int,
                        ));
                    }
                    if target & e_pieces != 0 {
                        proof {
                            assert(slider_ray_seq(
                                empty,
                                e_pieces,
                                piece_name,
                                diagonal,
                                t,
                                k as int,
                                distance as int,
                            ) =~= seq![ray_mv(piece_name, diagonal, t, k as int, distance as int)]);
                            assert(moves@ =~= pre + slider_ray_seq(
                                empty,
                                e_pieces,
                                piece_name,
                                diagonal,
                                t,
                                k as int,
                                distance as int,
                            ));
                            assert(moves@ =~= k_pre + slider_ray_seq(
                                empty,
                                e_pieces,
                                piece_name,
                                diagonal,
                                t,
                                k as int,
                                1,
                            ));
                            assert forall|mv: Move| #[trigger]
                                moves@.contains(mv) <==> (exists|i: int|
                                    i < old_bound && #[trigger] is_slider_move_at(
                                        pieces_all,
                                        empty,
                                        e_pieces,
                                        piece_name,
                                        diagonal,
                                        i,
                                        mv,
                                    )) || slider_partial(
                                    pieces_all,
                                    empty,
                                    e_pieces,
                                    piece_name,
                                    diagonal,
                                    t,
                                    k as int + 1,
                                    mv,
                                ) by {
                                if slider_partial(
                                    pieces_all,
                                    empty,
                                    e_pieces,
                                    piece_name,
                                    diagonal,
                                    t,
                                    k as int + 1,
                                    mv,
                                ) && !slider_partial(
                                    pieces_all,
                                    empty,
                                    e_pieces,
                                    piece_name,
                                    diagonal,
                                    t,
                                    k as int,
                                    mv,
                                ) {
                                    let (k2, d2) = choose|k2: int, d2: int|
                                        0 <= k2 < k + 1 && #[trigger] ray_move_ok(
                                            empty,
                                            e_pieces,
                                            t,
                                            diagonal,
                                            k2,
                                            d2,
                                            mv,
                                        );
                                    assert(k2 == k as int);
                                    if d2 > distance {
                                        assert(!ray_clear(
                                            empty,
                                            e_pieces,
                                            t,
                                            x as int,
                                            y as int,
                                            distance as int,
                                        ));
                                        assert(false);
                                    } else if d2 == distance {
                                        assert(mv == moves@[moves@.len() - 1]);
                                        assert(moves@.contains(mv));
                                    } else {
                                        assert(exists|d3: int|
                                            1 <= d3 < distance && #[trigger] ray_move_ok(
                                                empty,
                                                e_pieces,
                                                t,
                                                diagonal,
                                                k as int,
                                                d3,
                                                mv,
                                            ));
                                    }
                                }
                                if moves@.contains(mv) && !pre.contains(mv) {
                                    assert(ray_move_ok(
                                        empty,
                                        e_pieces,
                                        t,
                                        diagonal,
                                        k as int,
                                        distance as int,
                                        mv,
                                    ));
                                }
                            }
                        }
                        break ;
                    }
                    proof {
                        assert forall|mv: Move|
                            moves@.contains(mv) == (pre.contains(mv) || mv == moves@[moves@.len()
                                - 1]) by {}
                        assert(slider_ray_seq(
                            empty,
                            e_pieces,
                            piece_name,
                            diagonal,
                            t,
                            k as int,
                            distance as int,
                        ) =~= seq![ray_mv(piece_name, diagonal, t, k as int, distance as int)]
                            + slider_ray_seq(
                            empty,
                            e_pieces,
                            piece_name,
                            diagonal,
                            t,
                            k as int,
                            distance + 1,
                        ));
                        assert(moves@ + slider_ray_seq(
                            empty,
                            e_pieces,
                            piece_name,
                            diagonal,
                            t,
                            k as int,
                            distance + 1,
                        ) =~= pre + slider_ray_seq(
                            empty,
                            e_pieces,
                            piece_name,
                            diagonal,
                            t,
                            k as int,
                            distance as int,
                        ));
                    }
                } else {
                    proof {
                        assert(slider_ray_seq(
                            empty,
                            e_pieces,
                            piece_name,
                            diagonal,
                            t,
                            k as int,
                            distance as int,
                        ) =~= Seq::<Move>::empty());
                        assert(moves@ =~= k_pre + slider_ray_seq(
                            empty,
                            e_pieces,
                            piece_name,
                            diagonal,
                            t,
                            k as int,
                            1,
                        ));
                        assert forall|mv: Move| #[trigger]
                            moves@.contains(mv) <==> (exists|i: int|
                                i < old_bound && #[trigger] is_slider_move_at(
                                    pieces_all,
                                    empty,
                                    e_pieces,
                                    piece_name,
                                    diagonal,
                                    i,
                                    mv,
                                )) || slider_partial(
                                pieces_all,
                                empty,
                                e_pieces,
                                piece_name,
                                diagonal,
                                t,
                                k as int + 1,
                                mv,
                            ) by {
                            if slider_partial(
                                pieces_all,
                                empty,
                                e_pieces,
                                piece_name,
                                diagonal,
                                t,
                                k as int + 1,
                                mv,
                            ) && !slider_partial(
                                pieces_all,
                                empty,
                                e_pieces,
                                piece_name,
                                diagonal,
                                t,
                                k as int,
                                mv,
                            ) {
                                let (k2, d2) = choose|k2: int, d2: int|
                                    0 <= k2 < k + 1 && #[trigger] ray_move_ok(
                                        empty,
                                        e_pieces,
                                        t,
                                        diagonal,
                                        k2,
                                        d2,
                                        mv,
                                    );
                                assert(k2 == k as int);
                                if d2 >= distance {
                                    assert(!ray_clear(
                                        empty,
                                        e_pieces,
                                        t,
                                        x as int,
                                        y as int,
                                        distance as int,
                                    ));
                                    assert(false);
                                } else {
                                    assert(exists|d3: int|
                                        1 <= d3 < distance && #[trigger] ray_move_ok(
                                            empty,
                                            e_pieces,
                                            t,
                                            diagonal,
                                            k as int,
                                            d3,
                                            mv,
                                        ));
                                }
                            }
                        }
                    }
                    break ;
                }
                distance = distance + 1;
            }
            proof {
                assert(slider_src_seq(empty, e_pieces, piece_name, diagonal, t, k as int)
                    =~= slider_ray_seq(empty, e_pieces, piece_name, diagonal, t, k as int, 1)
                    + slider_src_seq(empty, e_pieces, piece_name, diagonal, t, k + 1));
                assert(moves@ + slider_src_seq(empty, e_pieces, piece_name, diagonal, t, k + 1)
                    =~= k_pre + slider_src_seq(empty, e_pieces, piece_name, diagonal, t, k as int));
            }
            k = k + 1;
        }

        proof {
            bound = t + 1;
            lemma_slider_list_skip(
                pieces_all,
                empty,
                e_pieces,
                piece_name,
                diagonal,
                old_bound,
                t,
            );
            assert(slider_src_seq(empty, e_pieces, piece_name, diagonal, t, 4) =~= Seq::<
                Move,
            >::empty());
            assert(moves@ =~= outer_pre + slider_src_seq(empty, e_pieces, piece_name, diagonal, t, 0));
            assert(slider_list(pieces_all, empty, e_pieces, piece_name, diagonal, t)
                =~= slider_src_seq(empty, e_pieces, piece_name, diagonal, t, 0) + slider_list(
                pieces_all,
                empty,
                e_pieces,
                piece_name,
                diagonal,
                t + 1,
            ));
            assert(moves@ + slider_list(pieces_all, empty, e_pieces, piece_name, diagonal, t + 1)
                =~= outer_pre + slider_list(
                pieces_all,
                empty,
                e_pieces,
                piece_name,
                diagonal,
                old_bound,
            ));
            assert forall|mv: Move| #[trigger]
                moves@.contains(mv) <==> exists|i: int|
                    i < bound && #[trigger] is_slider_move_at(
                        pieces_all,
                        empty,
                        e_pieces,
                        piece_name,
                        diagonal,
                        i,
                        mv,
                    ) by {
                if moves@.contains(mv) {
                    if !(exists|i: int|
                        i < old_bound && #[trigger] is_slider_move_at(
                            pieces_all,
                            empty,
                            e_pieces,
                            piece_name,
                            diagonal,
                            i,
                            mv,
                        )) {
                        assert(is_slider_move_at(
                            pieces_all,
                            empty,
                            e_pieces,
                            piece_name,
                            diagonal,
                            t,
                            mv,
                        ));
                    }
                }
                if exists|i: int|
                    i < bound && #[trigger] is_slider_move_at(
                        pieces_all,
                        empty,
                        e_pieces,
                        piece_name,
                        diagonal,
                        i,
                        mv,
                    ) {
                    let i = choose|i: int|
                        i < bound && #[trigger] is_slider_move_at(
                            pieces_all,
                            empty,
                            e_pieces,
                            piece_name,
                            diagonal,
                            i,
                            mv,
                        );
                    if old_bound <= i < t {
                        assert(!bit(pieces_all, i));
                        assert(false);
                    }
                    assert(moves@.contains(mv));
                }
            }
        }
        pieces = pieces & (pieces - 1);
    }
    proof {
        lemma_bit();
        assert forall|j: int| bound <= j < 64 implies !bit(pieces_all, j) by {
            assert(!bit(pieces, j));
        }
        lemma_slider_list_skip(pieces_all, empty, e_pieces, piece_name, diagonal, bound, 64);
        assert(moves@ + slider_list(pieces_all, empty, e_pieces, piece_name, diagonal, 64)
            =~= moves@);
        lemma_slider_list_wf(pieces_all, empty, e_pieces, piece_name, diagonal, 0);
        assert forall|mv: Move| #[trigger]
            moves@.contains(mv) <==> is_slider_move(
                pieces_all,
                empty,
                e_pieces,
                piece_name,
                diagonal,
                mv,
            ) by {
            if is_slider_move(pieces_all, empty, e_pieces, piece_name, diagonal, mv) {
                let i = choose|i: int| #[trigger] is_slider_move_at(
                    pieces_all,
                    empty,
                    e_pieces,
                    piece_name,
                    diagonal,
                    i,
                    mv,
                );
                assert(!bit(pieces, i));
                assert(i < bound);
            }
        }
    }
    moves
}

/// The knight identity of one side.
pub open spec fn knight_piece(white: bool) -> Piece {
    if white {
        Piece::w_knight
    } else {
        Piece::b_knight
    }
}

/// Jump number `k` from square `i` lands on the board, on a square that is
/// empty or holds an enemy piece, and `mv` goes there.
pub open spec fn knight_move_ok(empty: u64, e_pieces: u64, i: int, k: int, mv: Move) -> bool {
    let x = knight_off(k).0;
    let y = knight_off(k).1;
    let d = i + y * 8 + x;
    on_board(i % 8 + x, i / 8 + y) && (bit(empty, d) || bit(e_pieces, d)) && mv.dest == 1u64 << (
    d as u64) && mv.promotion == false
}

/// `mv` is a move of the knight on square `i`, with jumps numbered below
/// `k` considered.
pub open spec fn knight_partial(
    knights: u64,
    empty: u64,
    e_pieces: u64,
    white: bool,
    i: int,
    k: int,
    mv: Move,
) -> bool {
    0 <= i < 64 && bit(knights, i) && mv.piece == knight_piece(white) && mv.start == 1u64 << (
    i as u64) && exists|k2: int| 0 <= k2 < k && #[trigger] knight_move_ok(empty, e_pieces, i, k2, mv)
}

/// `mv` is a pseudo-legal move of the knight standing on square `i`.
pub open spec fn is_knight_move_at(
    knights: u64,
    empty: u64,
    e_pieces: u64,
    white: bool,
    i: int,
    mv: Move,
) -> bool {
    knight_partial(knights, empty, e_pieces, white, i, 8, mv)
}

/// `mv` is a pseudo-legal knight move of the side given by `white`.
pub open spec fn is_knight_move(
    knights: u64,
    empty: u64,
    e_pieces: u64,
    white: bool,
    mv: Move,
) -> bool {
    exists|i: int| #[trigger] is_knight_move_at(knights, empty, e_pieces, white, i, mv)
}

/// Jump number `k` from square `i` lands on the board, on a square that is
/// empty or holds an enemy piece.
pub open spec fn knight_can(empty: u64, e_pieces: u64, i: int, k: int) -> bool {
    let x = knight_off(k).0;
    let y = knight_off(k).1;
    let d = i + y * 8 + x;
    on_board(i % 8 + x, i / 8 + y) && (bit(empty, d) || bit(e_pieces, d))
}

/// The move of jump number `k` from square `i`.
pub open spec fn knight_mv(white: bool, i: int, k: int) -> Move {
    let x = knight_off(k).0;
    let y = knight_off(k).1;
    Move {
        piece: knight_piece(white),
        start: 1u64 << (i as u64),
        dest: 1u64 << ((i + y * 8 + x) as u64),
        promotion: false,
    }
}

/// The moves of the knight on square `i`, jumps numbered `k` and up, in
/// jump order.
pub open spec fn knight_src(empty: u64, e_pieces: u64, white: bool, i: int, k: int) -> Seq<Move>
    decreases 8 - k,
{
    if k < 0 || k >= 8 {
        Seq::empty()
    } else {
        (if knight_can(empty, e_pieces, i, k) {
            seq![knight_mv(white, i, k)]
        } else {
            Seq::empty()
        }) + knight_src(empty, e_pieces, white, i, k + 1)
    }
}

/// The knight moves of the sources from square `i` up, sources in
/// ascending order.
pub open spec fn knight_list(
    knights: u64,
    empty: u64,
    e_pieces: u64,
    white: bool,
    i: int,
) -> Seq<Move>
    decreases 64 - i,
{
    if i < 0 || i >= 64 {
        Seq::empty()
    } else {
        (if bit(knights, i) {
            knight_src(empty, e_pieces, white, i, 0)
        } else {
            Seq::empty()
        }) + knight_list(knights, empty, e_pieces, white, i + 1)
    }
}

/// Sources without a knight contribute nothing to the list.
proof fn lemma_knight_list_skip(
    knights: u64,
    empty: u64,
    e_pieces: u64,
    white: bool,
    a: int,
    b: int,
)
    requires
        0 <= a <= b <= 64,
        forall|j: int| a <= j < b ==> !bit(knights, j),
    ensures
        knight_list(knights, empty, e_pieces, white, a) == knight_list(
            knights,
            empty,
            e_pieces,
            white,
            b,
        ),
    decreases b - a,
{
    if a < b {
        lemma_knight_list_skip(knights, empty, e_pieces, white, a + 1, b);
        assert(Seq::<Move>::empty() + knight_list(knights, empty, e_pieces, white, a + 1)
            =~= knight_list(knights, empty, e_pieces, white, a + 1));
    }
}

/// One source's jumps land on pairwise distinct squares, so its list is
/// duplicate-free; every entry starts on the source.
proof fn lemma_knight_src_wf(empty: u64, e_pieces: u64, white: bool, i: int, k: int)
    requires
        0 <= i < 64,
        0 <= k,
    ensures
        knight_src(empty, e_pieces, white, i, k).no_duplicates(),
        forall|mv: Move| #[trigger]
            knight_src(empty, e_pieces, white, i, k).contains(mv) ==> (mv.start == 1u64 << (
            i as u64) && exists|k2: int|
                k <= k2 < 8 && knight_can(empty, e_pieces, i, k2) && mv == #[trigger] knight_mv(
                    white,
                    i,
                    k2,
                )),
    decreases 8 - k,
{
    lemma_bit();
    crate::bits::lemma_shift_injective();
    crate::seqs::lemma_concat_contains();
    vstd::arithmetic::div_mod::lemma_fundamental_div_mod(i, 8);
    if k < 8 {
        lemma_knight_src_wf(empty, e_pieces, white, i, k + 1);
        let head: Seq<Move> = if knight_can(empty, e_pieces, i, k) {
            seq![knight_mv(white, i, k)]
        } else {
            Seq::empty()
        };
        let tail = knight_src(empty, e_pieces, white, i, k + 1);
        assert forall|x: Move| !(#[trigger] head.contains(x) && tail.contains(x)) by {
            if head.contains(x) && tail.contains(x) {
                let k2 = choose|k2: int|
                    k + 1 <= k2 < 8 && knight_can(empty, e_pieces, i, k2) && x
                        == #[trigger] knight_mv(white, i, k2);
                assert(knight_off(k).1 * 8 + knight_off(k).0 != knight_off(k2).1 * 8 + knight_off(
                    k2,
                ).0);
                assert(0 <= i + knight_off(k).1 * 8 + knight_off(k).0 < 64);
                assert(0 <= i + knight_off(k2).1 * 8 + knight_off(k2).0 < 64);
                assert(knight_mv(white, i, k).dest != knight_mv(white, i, k2).dest);
                assert(false);
            }
        }
        crate::seqs::lemma_no_dup_concat(head, tail);
        assert forall|mv: Move| #[trigger]
            knight_src(empty, e_pieces, white, i, k).contains(mv) implies (mv.start == 1u64 << (
        i as u64) && exists|k2: int|
            k <= k2 < 8 && knight_can(empty, e_pieces, i, k2) && mv == #[trigger] knight_mv(
                white,
                i,
                k2,
            )) by {
            if head.contains(mv) {
                assert(knight_can(empty, e_pieces, i, k) && mv == knight_mv(white, i, k));
            } else {
                assert(tail.contains(mv));
            }
        }
    }
}

/// The whole knight list is duplicate-free, and every entry starts on a
/// source at or above `i`.
proof fn lemma_knight_list_wf(knights: u64, empty: u64, e_pieces: u64, white: bool, i: int)
    requires
        0 <= i,
    ensures
        knight_list(knights, empty, e_pieces, white, i).no_duplicates(),
        forall|mv: Move| #[trigger]
            knight_list(knights, empty, e_pieces, white, i).contains(mv) ==> exists|j: int|
                i <= j < 64 && mv.start == #[trigger] (1u64 << (j as u64)),
    decreases 64 - i,
{
    lemma_bit();
    crate::bits::lemma_shift_injective();
    crate::seqs::lemma_concat_contains();
    if i < 64 {
        lemma_knight_list_wf(knights, empty, e_pieces, white, i + 1);
        let head: Seq<Move> = if bit(knights, i) {
            knight_src(empty, e_pieces, white, i, 0)
        } else {
            Seq::empty()
        };
        let tail = knight_list(knights, empty, e_pieces, white, i + 1);
        if bit(knights, i) {
            lemma_knight_src_wf(empty, e_pieces, white, i, 0);
        }
        assert forall|x: Move| !(#[trigger] head.contains(x) && tail.contains(x)) by {
            if head.contains(x) && tail.contains(x) {
                let j = choose|j: int| i + 1 <= j < 64 && x.start == #[trigger] (1u64 << (j as u64));
                assert(x.start == (1u64 << (i as u64)));
                assert(false);
            }
        }
        crate::seqs::lemma_no_dup_concat(head, tail);
        assert forall|mv: Move| #[trigger]
            knight_list(knights, empty, e_pieces, white, i).contains(mv) implies exists|j: int|
            i <= j < 64 && mv.start == #[trigger] (1u64 << (j as u64)) by {
            if head.contains(mv) {
                assert(i <= i < 64 && mv.start == (1u64 << (i as u64)));
            } else {
                assert(tail.contains(mv));
                let j = choose|j: int|
                    i + 1 <= j < 64 && mv.start == #[trigger] (1u64 << (j as u64));
                assert(i <= j < 64 && mv.start == (1u64 << (j as u64)));
            }
        }
    }
}

/// The source mask of the bishop family call: the side's queens when
/// `queen` is set, else its bishops.
pub open spec fn bishop_source(b: ChessBoard, white: bool, queen: bool) -> u64 {
    if queen {
        queens_of(b, white)
    } else {
        bishops_of(b, white)
    }
}

/// The piece identity of the bishop family call.
pub open spec fn bishop_mover(white: bool, queen: bool) -> Piece {
    if queen {
        queen_piece(white)
    } else if white {
        Piece::w_bishop
    } else {
        Piece::b_bishop
    }
}

/// The source mask of the rook family call: the side's queens when `queen`
/// is set, else its rooks.
pub open spec fn rook_source(b: ChessBoard, white: bool, queen: bool) -> u64 {
    if queen {
        queens_of(b, white)
    } else {
        rooks_of(b, white)
    }
}

/// The piece identity of the rook family call.
pub open spec fn rook_mover(white: bool, queen: bool) -> Piece {
    if queen {
        queen_piece(white)
    } else if white {
        Piece::w_rook
    } else {
        Piece::b_rook
    }
}

/// The king offset numbered `k`, as executable steps.
fn king_step(k: usize) -> (r: (i32, i32))
    requires
        k < 8,
    ensures
        (r.0 as int, r.1 as int) == king_off(k as int),
        -1 <= r.0 <= 1,
        -1 <= r.1 <= 1,
{
    if k == 0 {
        (1, 0)
    } else if k == 1 {
        (1, 1)
    } else if k == 2 {
        (0, 1)
    } else if k == 3 {
        (-1, 1)
    } else if k == 4 {
        (-1, 0)
    } else if k == 5 {
        (-1, -1)
    } else if k == 6 {
        (0, -1)
    } else {
        (1, -1)
    }
}

impl ChessBoard {
    /// Probe one castling corner: the corner's right must be held, king and
    /// rook must stand on their canonical squares (the king within the
    /// still-unprocessed king mask `kings`), the squares between them must
    /// be empty, and the king's path must be unattacked. Whether the king
    /// is currently in check is the caller's test.
    fn castle_probe(&self, for_white: bool, kingside: bool, kings: u64, empty: u64) -> (r: Option<
        Move,
    >)
        ensures
            r.is_some() <==> (bit(kings, king_home(for_white)) && castle_allowed(
                *self,
                for_white,
                kingside,
                empty,
            )),
            r.is_some() ==> r == Some(castle_move(for_white, kingside)),
    {
        proof {
            lemma_bit();
            crate::bits::lemma_tz_single(0);
            crate::bits::lemma_tz_single(1);
            crate::bits::lemma_tz_single(2);
            crate::bits::lemma_tz_single(3);
            crate::bits::lemma_tz_single(4);
            crate::bits::lemma_tz_single(5);
            crate::bits::lemma_tz_single(6);
            crate::bits::lemma_tz_single(57);
            crate::bits::lemma_tz_single(58);
            crate::bits::lemma_tz_single(59);
            crate::bits::lemma_tz_single(60);
            crate::bits::lemma_tz_single(61);
            crate::bits::lemma_tz_single(62);
        }
        if for_white && kingside {
            if self.castle_rights & 0b0010 != 0 && kings & (1u64 << 4) != 0 && self.w_rook & (1u64
                << 7) != 0 && empty & (1u64 << 5) != 0 && empty & (1u64 << 6) != 0
                && !self.is_square_under_attack(1u64 << 4, false) && !self.is_square_under_attack(
                1u64 << 5,
                false,
            ) && !self.is_square_under_attack(1u64 << 6, false) {
                Some(
                    Move {
                        piece: Piece::w_king,
                        start: 1u64 << 4,
                        dest: 1u64 << 6,
                        promotion: false,
                    },
                )
            } else {
                None
            }
        } else if for_white {
            if self.castle_rights & 0b0001 != 0 && kings & (1u64 << 4) != 0 && self.w_rook & (1u64
                << 0) != 0 && empty & (1u64 << 1) != 0 && empty & (1u64 << 2) != 0 && empty & (1u64
                << 3) != 0 && !self.is_square_under_attack(1u64 << 4, false)
                && !self.is_square_under_attack(1u64 << 2, false) && !self.is_square_under_attack(
                1u64 << 3,
                false,
            ) {
                Some(
                    Move {
                        piece: Piece::w_king,
                        start: 1u64 << 4,
                        dest: 1u64 << 2,
                        promotion: false,
                    },
                )
            } else {
                None
            }
        } else if kingside {
            if self.castle_rights & 0b1000 != 0 && kings & (1u64 << 60) != 0 && self.b_rook & (1u64
                << 63) != 0 && empty & (1u64 << 61) != 0 && empty & (1u64 << 62) != 0
                && !self.is_square_under_attack(1u64 << 60, true) && !self.is_square_under_attack(
                1u64 << 61,
                true,
            ) && !self.is_square_under_attack(1u64 << 62, true) {
                Some(
                    Move {
                        piece: Piece::b_king,
                        start: 1u64 << 60,
                        dest: 1u64 << 62,
                        promotion: false,
                    },
                )
            } else {
                None
            }
        } else {
            if self.castle_rights & 0b0100 != 0 && kings & (1u64 << 60) != 0 && self.b_rook & (1u64
                << 56) != 0 && empty & (1u64 << 57) != 0 && empty & (1u64 << 58) != 0 && empty & (
            1u64 << 59) != 0 && !self.is_square_under_attack(1u64 << 60, true)
                && !self.is_square_under_attack(1u64 << 58, true) && !self.is_square_under_attack(
                1u64 << 59,
                true,
            ) {
                Some(
                    Move {
                        piece: Piece::b_king,
                        start: 1u64 << 60,
                        dest: 1u64 << 58,
                        promotion: false,
                    },
                )
            } else {
                None
            }
        }
    }

    /// All pseudo-legal king moves of one side — single steps and castling:
    /// the returned list holds a move if and only if the king can make it,
    /// each exactly once, steps in source-then-direction order with the
    /// castling moves last, kingside before queenside.
    pub fn king_moves(&self, for_white: bool, empty: u64, e_pieces: u64) -> (r: Vec<Move>)
        ensures
            forall|mv: Move| #[trigger]
                r@.contains(mv) <==> is_king_move(*self, empty, e_pieces, for_white, mv),
            r@ == king_steps_list(kings_of(*self, for_white), empty, e_pieces, for_white, 0)
                + castle_extra(*self, for_white, empty),
            r@.no_duplicates(),
    {
        let mut moves: Vec<Move> = Vec::new();
        let (kings_all, piece_name): (u64, Piece) = match for_white {
            true => (self.w_king, Piece::w_king),
            false => (self.b_king, Piece::b_king),
        };
        let mut kings = kings_all;
        let ghost mut bound: int = 0;

        while kings != 0
            invariant
                kings_all == kings_of(*self, for_white),
                piece_name == king_piece(for_white),
                0 <= bound <= 64,
                forall|j: int| #[trigger] bit(kings, j) == (bit(kings_all, j) && j >= bound),
                moves@ + king_steps_list(kings_all, empty, e_pieces, for_white, bound)
                    == king_steps_list(kings_all, empty, e_pieces, for_white, 0),
                forall|mv: Move| #[trigger]
                    moves@.contains(mv) <==> exists|i: int|
                        i < bound && #[trigger] is_king_step_at(
                            kings_all,
                            empty,
                            e_pieces,
                            for_white,
                            i,
                            mv,
                        ),
            decreases kings,
        {
            proof {
                lemma_bit();
                lemma_push_contains();
                lemma_pop_lsb(kings);
            }
            let index = kings.trailing_zeros() as i32;
            let ghost t = index as int;
            let ghost old_bound = bound;
            let ghost outer_pre = moves@;
            proof {
                assert(bit(kings, t));
                assert forall|j: int| bound <= j < t implies !#[trigger] bit(kings_all, j) by {
                    assert(!bit(kings, j));
                }
            }
            let row = index / 8;
            let col = index % 8;

            // Single steps to the eight adjacent squares.
            let mut k: usize = 0;
            while k < 8
                invariant
                    k <= 8,
                    0 <= t < 64,
                    index == t,
                    row == t / 8,
                    col == t % 8,
                    piece_name == king_piece(for_white),
                    bit(kings_all, t),
                    moves@ + king_src(empty, e_pieces, for_white, t, k as int) == outer_pre
                        + king_src(empty, e_pieces, for_white, t, 0),
                    forall|mv: Move| #[trigger]
                        moves@.contains(mv) <==> (exists|i: int|
                            i < old_bound && #[trigger] is_king_step_at(
                                kings_all,
                                empty,
                                e_pieces,
                                for_white,
                                i,
                                mv,
                            )) || king_partial(kings_all, empty, e_pieces, for_white, t, k as int, mv),
                decreases 8 - k,
            {
                proof {
                    lemma_bit();
                    lemma_push_contains();
                }
                let (x, y) = king_step(k);
                let new_row = row + y;
                let new_col = col + x;
                let ghost pre = moves@;
                if ChessBoard::in_bounds(new_col, new_row) {
                    let dest = (new_row * 8) + new_col;
                    if (1u64 << (dest as u64)) & (empty | e_pieces) != 0 {
                        moves.push(
                            Move {
                                piece: piece_name,
                                start: 1u64 << (index as u64),
                                dest: 1u64 << (dest as u64),
                                promotion: false,
                            },
                        );
                    }
                }
                proof {
                    assert(king_src(empty, e_pieces, for_white, t, k as int) =~= (if king_can(
                        empty,
                        e_pieces,
                        t,
                        k as int,
                    ) {
                        seq![king_mv(for_white, t, k as int)]
                    } else {
                        Seq::empty()
                    }) + king_src(empty, e_pieces, for_white, t, k + 1));
                    assert(moves@ + king_src(empty, e_pieces, for_white, t, k + 1) =~= pre
                        + king_src(empty, e_pieces, for_white, t, k as int));
                    assert forall|mv: Move| #[trigger]
                        moves@.contains(mv) <==> (exists|i: int|
                            i < old_bound && #[trigger] is_king_step_at(
                                kings_all,
                                empty,
                                e_pieces,
                                for_white,
                                i,
                                mv,
                            )) || king_partial(
                            kings_all,
                            empty,
                            e_pieces,
                            for_white,
                            t,
                            k + 1,
                            mv,
                        ) by {
                        if moves@.contains(mv) && !pre.contains(mv) {
                            assert(king_move_ok(empty, e_pieces, t, k as int, mv));
                        }
                        if king_partial(kings_all, empty, e_pieces, for_white, t, k + 1, mv) {
                            let k2 = choose|k2: int|
                                0 <= k2 < k + 1 && #[trigger] king_move_ok(
                                    empty,
                                    e_pieces,
                                    t,
                                    k2,
                                    mv,
                                );
                            if k2 < k {
                                assert(king_partial(
                                    kings_all,
                                    empty,
                                    e_pieces,
                                    for_white,
                                    t,
                                    k as int,
                                    mv,
                                ));
                                assert(pre.contains(mv));
                            } else {
                                assert(moves@.contains(mv));
                            }
                        }
                    }
                }
                k = k + 1;
            }

            proof {
                bound = t + 1;
                lemma_king_list_skip(kings_all, empty, e_pieces, for_white, old_bound, t);
                assert(king_src(empty, e_pieces, for_white, t, 8) =~= Seq::<Move>::empty());
                assert(moves@ =~= outer_pre + king_src(empty, e_pieces, for_white, t, 0));
                assert(king_steps_list(kings_all, empty, e_pieces, for_white, t) =~= king_src(
                    empty,
                    e_pieces,
                    for_white,
                    t,
                    0,
                ) + king_steps_list(kings_all, empty, e_pieces, for_white, t + 1));
                assert(moves@ + king_steps_list(kings_all, empty, e_pieces, for_white, t + 1)
                    =~= outer_pre + king_steps_list(
                    kings_all,
                    empty,
                    e_pieces,
                    for_white,
                    old_bound,
                ));
                assert forall|mv: Move| #[trigger]
                    moves@.contains(mv) <==> exists|i: int|
                        i < bound && #[trigger] is_king_step_at(
                            kings_all,
                            empty,
                            e_pieces,
                            for_white,
                            i,
                            mv,
                        ) by {
                    if moves@.contains(mv) {
                        if !(exists|i: int|
                            i < old_bound && #[trigger] is_king_step_at(
                                kings_all,
                                empty,
                                e_pieces,
                                for_white,
                                i,
                                mv,
                            )) {
                            assert(is_king_step_at(kings_all, empty, e_pieces, for_white, t, mv));
                        }
                    }
                    if exists|i: int|
                        i < bound && #[trigger] is_king_step_at(
                            kings_all,
                            empty,
                            e_pieces,
                            for_white,
                            i,
                            mv,
                        ) {
                        let i = choose|i: int|
                            i < bound && #[trigger] is_king_step_at(
                                kings_all,
                                empty,
                                e_pieces,
                                for_white,
                                i,
                                mv,
                            );
                        if old_bound <= i < t {
                            assert(!bit(kings_all, i));
                            assert(false);
                        }
                        assert(moves@.contains(mv));
                    }
                }
            }
            kings = kings & (kings - 1);
        }

        proof {
            lemma_bit();
            lemma_push_contains();
            assert forall|j: int| bound <= j < 64 implies !bit(kings_all, j) by {
                assert(!bit(kings, j));
            }
            lemma_king_list_skip(kings_all, empty, e_pieces, for_white, bound, 64);
            assert(moves@ + king_steps_list(kings_all, empty, e_pieces, for_white, 64) =~= moves@);
            lemma_king_list_wf(kings_all, empty, e_pieces, for_white, 0);
        }
        let ghost steps_done = moves@;

        // Castling, for a side not currently in check: kingside first.
        if !self.is_king_under_attack(for_white) {
            if let Some(m) = self.castle_probe(for_white, true, kings_all, empty) {
                moves.push(m);
            }
            if let Some(m) = self.castle_probe(for_white, false, kings_all, empty) {
                moves.push(m);
            }
        }

        proof {
            lemma_bit();
            lemma_push_contains();
            crate::bits::lemma_shift_injective();
            crate::seqs::lemma_concat_contains();
            vstd::arithmetic::div_mod::lemma_fundamental_div_mod(king_home(for_white), 8);
            assert(moves@ =~= steps_done + castle_extra(*self, for_white, empty));
            // A castling move duplicates no single step: it starts on the
            // king's home square yet moves two files, which no step does.
            assert forall|x: Move|
                !(#[trigger] steps_done.contains(x) && castle_extra(
                    *self,
                    for_white,
                    empty,
                ).contains(x)) by {
                if steps_done.contains(x) && castle_extra(*self, for_white, empty).contains(x) {
                    let (j, k2) = choose|j: int, k2: int|
                        0 <= j < 64 && 0 <= k2 < 8 && king_can(empty, e_pieces, j, k2) && x
                            == #[trigger] king_mv(for_white, j, k2);
                    let home = king_home(for_white);
                    assert(x.start == (1u64 << (home as u64)));
                    assert(j == home);
                    vstd::arithmetic::div_mod::lemma_fundamental_div_mod(j, 8);
                    let d = (j / 8 + king_off(k2).1) * 8 + (j % 8 + king_off(k2).0);
                    assert(0 <= d < 64);
                    if x == castle_move(for_white, true) {
                        assert(x.dest == (1u64 << ((home + 2) as u64)));
                        assert(d == home + 2);
                        assert(false);
                    } else {
                        assert(x == castle_move(for_white, false));
                        assert(x.dest == (1u64 << ((home - 2) as u64)));
                        assert(d == home - 2);
                        assert(false);
                    }
                }
            }
            assert(castle_extra(*self, for_white, empty).no_duplicates()) by {
                let ce = castle_extra(*self, for_white, empty);
                assert(castle_move(for_white, true).dest != castle_move(for_white, false).dest);
                assert forall|i1: int, i2: int|
                    0 <= i1 < ce.len() && 0 <= i2 < ce.len() && i1 != i2 implies ce[i1]
                    != ce[i2] by {}
            }
            crate::seqs::lemma_no_dup_concat(steps_done, castle_extra(*self, for_white, empty));
            assert forall|mv: Move| #[trigger]
                moves@.contains(mv) <==> is_king_move(*self, empty, e_pieces, for_white, mv) by {
                if exists|i: int| #[trigger] is_king_step_at(
                    kings_of(*self, for_white),
                    empty,
                    e_pieces,
                    for_white,
                    i,
                    mv,
                ) {
                    let i = choose|i: int| #[trigger] is_king_step_at(
                        kings_all,
                        empty,
                        e_pieces,
                        for_white,
                        i,
                        mv,
                    );
                    assert(!bit(kings, i));
                    assert(i < bound);
                    assert(steps_done.contains(mv));
                }
            }
        }
        moves
    }

    /// All pseudo-legal diagonal ray moves of one side's bishops — or of
    /// its queens, when `queen` is set: the returned list holds a move if
    /// and only if some such piece can make it, each exactly once, pieces
    /// in ascending square order, rays in the fixed direction order walked
    /// outward.
    pub fn bishop_moves(&self, for_white: bool, queen: bool, empty: u64, e_pieces: u64) -> (r: Vec<
        Move,
    >)
        ensures
            forall|mv: Move| #[trigger]
                r@.contains(mv) <==> is_slider_move(
                    bishop_source(*self, for_white, queen),
                    empty,
                    e_pieces,
                    bishop_mover(for_white, queen),
                    true,
                    mv,
                ),
            r@ == slider_list(
                bishop_source(*self, for_white, queen),
                empty,
                e_pieces,
                bishop_mover(for_white, queen),
                true,
                0,
            ),
            r@.no_duplicates(),
    {
        let (bishops, piece_name): (u64, Piece) = if queen {
            match for_white {
                true => (self.w_queen, Piece::w_queen),
                false => (self.b_queen, Piece::b_queen),
            }
        } else {
            match for_white {
                true => (self.w_bishop, Piece::w_bishop),
                false => (self.b_bishop, Piece::b_bishop),
            }
        };
        slider_moves(bishops, piece_name, true, empty, e_pieces)
    }

    /// All pseudo-legal orthogonal ray moves of one side's rooks — or of
    /// its queens, when `queen` is set: the returned list holds a move if
    /// and only if some such piece can make it, each exactly once, pieces
    /// in ascending square order, rays in the fixed direction order walked
    /// outward.
    pub fn rook_moves(&self, for_white: bool, queen: bool, empty: u64, e_pieces: u64) -> (r: Vec<
        Move,
    >)
        ensures
            forall|mv: Move| #[trigger]
                r@.contains(mv) <==> is_slider_move(
                    rook_source(*self, for_white, queen),
                    empty,
                    e_pieces,
                    rook_mover(for_white, queen),
                    false,
                    mv,
                ),
            r@ == slider_list(
                rook_source(*self, for_white, queen),
                empty,
                e_pieces,
                rook_mover(for_white, queen),
                false,
                0,
            ),
            r@.no_duplicates(),
    {
        let (rooks, piece_name): (u64, Piece) = if queen {
            match for_white {
                true => (self.w_queen, Piece::w_queen),
                false => (self.b_queen, Piece::b_queen),
            }
        } else {
            match for_white {
                true => (self.w_rook, Piece::w_rook),
                false => (self.b_rook, Piece::b_rook),
            }
        };
        slider_moves(rooks, piece_name, false, empty, e_pieces)
    }

    /// All pseudo-legal queen moves of one side: its diagonal ray moves
    /// followed by its orthogonal ray moves, each move exactly once.
    pub fn queen_moves(&self, for_white: bool, empty: u64, e_pieces: u64) -> (r: Vec<Move>)
        ensures
            forall|mv: Move| #[trigger]
                r@.contains(mv) <==> (is_slider_move(
                    queens_of(*self, for_white),
                    empty,
                    e_pieces,
                    queen_piece(for_white),
                    true,
                    mv,
                ) || is_slider_move(
                    queens_of(*self, for_white),
                    empty,
                    e_pieces,
                    queen_piece(for_white),
                    false,
                    mv,
                )),
            r@ == slider_list(
                queens_of(*self, for_white),
                empty,
                e_pieces,
                queen_piece(for_white),
                true,
                0,
            ) + slider_list(
                queens_of(*self, for_white),
                empty,
                e_pieces,
                queen_piece(for_white),
                false,
                0,
            ),
            r@.no_duplicates(),
    {
        proof {
            crate::seqs::lemma_concat_contains();
        }
        let mut moves = self.bishop_moves(for_white, true, empty, e_pieces);
        let mut orth = self.rook_moves(for_white, true, empty, e_pieces);
        proof {
            lemma_bit();
            crate::bits::lemma_shift_injective();
            lemma_slider_list_wf(
                queens_of(*self, for_white),
                empty,
                e_pieces,
                queen_piece(for_white),
                true,
                0,
            );
            lemma_slider_list_wf(
                queens_of(*self, for_white),
                empty,
                e_pieces,
                queen_piece(for_white),
                false,
                0,
            );
            // A diagonal ray and an orthogonal ray from one square never
            // land on the same square, so the two lists share no move.
            assert forall|x: Move| !(#[trigger] moves@.contains(x) && orth@.contains(x)) by {
                if moves@.contains(x) && orth@.contains(x) {
                    let (i1, k1, d1) = choose|i1: int, k1: int, d1: int|
                        0 <= i1 < 64 && 0 <= k1 < 4 && 1 <= d1 < 8 && on_board(
                            i1 % 8 + slider_dir(true, k1).0 * d1,
                            i1 / 8 + slider_dir(true, k1).1 * d1,
                        ) && x == #[trigger] ray_mv(queen_piece(for_white), true, i1, k1, d1);
                    let (i2, k2, d2) = choose|i2: int, k2: int, d2: int|
                        0 <= i2 < 64 && 0 <= k2 < 4 && 1 <= d2 < 8 && on_board(
                            i2 % 8 + slider_dir(false, k2).0 * d2,
                            i2 / 8 + slider_dir(false, k2).1 * d2,
                        ) && x == #[trigger] ray_mv(queen_piece(for_white), false, i2, k2, d2);
                    assert(x.start == (1u64 << (i1 as u64)) && x.start == (1u64 << (i2 as u64)));
                    assert(i1 == i2);
                    assert(slider_dir(true, k1) != slider_dir(false, k2));
                    lemma_ray_square_distinct(i1, true, k1, d1, false, k2, d2);
                    assert(0 <= ray_square(i1, slider_dir(true, k1).0, slider_dir(true, k1).1, d1)
                        < 64);
                    assert(0 <= ray_square(
                        i1,
                        slider_dir(false, k2).0,
                        slider_dir(false, k2).1,
                        d2,
                    ) < 64);
                    assert(false);
                }
            }
            crate::seqs::lemma_no_dup_concat(moves@, orth@);
        }
        moves.append(&mut orth);
        moves
    }

    /// All pseudo-legal knight moves of one side: the returned list holds a
    /// move if and only if some knight of that side can make it, each
    /// exactly once, knights in ascending square order, jumps in the fixed
    /// offset order.
    pub fn knight_moves(&self, for_white: bool, empty: u64, e_pieces: u64) -> (r: Vec<Move>)
        ensures
            forall|mv: Move| #[trigger]
                r@.contains(mv) <==> is_knight_move(
                    knights_of(*self, for_white),
                    empty,
                    e_pieces,
                    for_white,
                    mv,
                ),
            r@ == knight_list(knights_of(*self, for_white), empty, e_pieces, for_white, 0),
            r@.no_duplicates(),
    {
        let mut moves: Vec<Move> = Vec::new();
        let (knights_all, piece_name): (u64, Piece) = match for_white {
            true => (self.w_knight, Piece::w_knight),
            false => (self.b_knight, Piece::b_knight),
        };
        let mut knights = knights_all;
        let ghost mut bound: int = 0;

        while knights != 0
            invariant
                knights_all == knights_of(*self, for_white),
                piece_name == knight_piece(for_white),
                0 <= bound <= 64,
                forall|j: int| #[trigger] bit(knights, j) == (bit(knights_all, j) && j >= bound),
                moves@ + knight_list(knights_all, empty, e_pieces, for_white, bound) == knight_list(
                    knights_all,
                    empty,
                    e_pieces,
                    for_white,
                    0,
                ),
                forall|mv: Move| #[trigger]
                    moves@.contains(mv) <==> exists|i: int|
                        i < bound && #[trigger] is_knight_move_at(
                            knights_all,
                            empty,
                            e_pieces,
                            for_white,
                            i,
                            mv,
                        ),
            decreases knights,
        {
            proof {
                lemma_bit();
                lemma_push_contains();
                lemma_pop_lsb(knights);
            }
            let index = knights.trailing_zeros() as i32;
            let ghost t = index as int;
            let ghost outer_pre = moves@;
            let ghost old_bound = bound;
            proof {
                assert(bit(knights, t));
                assert forall|j: int| bound <= j < t implies !#[trigger] bit(knights_all, j) by {
                    assert(!bit(knights, j));
                }
            }

            let mut k: usize = 0;
            while k < 8
                invariant
                    k <= 8,
                    0 <= t < 64,
                    index == t,
                    piece_name == knight_piece(for_white),
                    bit(knights_all, t),
                    moves@ + knight_src(empty, e_pieces, for_white, t, k as int) == outer_pre
                        + knight_src(empty, e_pieces, for_white, t, 0),
                    forall|mv: Move| #[trigger]
                        moves@.contains(mv) <==> (exists|i: int|
                            i < old_bound && #[trigger] is_knight_move_at(
                                knights_all,
                                empty,
                                e_pieces,
                                for_white,
                                i,
                                mv,
                            )) || knight_partial(
                            knights_all,
                            empty,
                            e_pieces,
                            for_white,
                            t,
                            k as int,
                            mv,
                        ),
                decreases 8 - k,
            {
                proof {
                    lemma_bit();
                    lemma_push_contains();
                }
                let (x, y) = crate::attack::knight_step(k);
                let dest = index + y * 8 + x;
                let ghost pre = moves@;
                if 0 <= dest && dest < 64 {
                    if ChessBoard::in_bounds(x + index % 8, y + index / 8) && (1u64 << (dest
                        as u64)) & (empty | e_pieces) != 0 {
                        moves.push(
                            Move {
                                piece: piece_name,
                                start: 1u64 << (index as u64),
                                dest: 1u64 << (dest as u64),
                                promotion: false,
                            },
                        );
                    }
                }
                proof {
                    vstd::arithmetic::div_mod::lemma_fundamental_div_mod(t, 8);
                    assert(knight_src(empty, e_pieces, for_white, t, k as int) =~= (if knight_can(
                        empty,
                        e_pieces,
                        t,
                        k as int,
                    ) {
                        seq![knight_mv(for_white, t, k as int)]
                    } else {
                        Seq::empty()
                    }) + knight_src(empty, e_pieces, for_white, t, k + 1));
                    assert(moves@ + knight_src(empty, e_pieces, for_white, t, k + 1) =~= pre
                        + knight_src(empty, e_pieces, for_white, t, k as int));
                    assert forall|mv: Move| #[trigger]
                        moves@.contains(mv) <==> (exists|i: int|
                            i < old_bound && #[trigger] is_knight_move_at(
                                knights_all,
                                empty,
                                e_pieces,
                                for_white,
                                i,
                                mv,
                            )) || knight_partial(
                            knights_all,
                            empty,
                            e_pieces,
                            for_white,
                            t,
                            k + 1,
                            mv,
                        ) by {
                        if moves@.contains(mv) && !pre.contains(mv) {
                            assert(knight_move_ok(empty, e_pieces, t, k as int, mv));
                        }
                        if knight_partial(
                            knights_all,
                            empty,
                            e_pieces,
                            for_white,
                            t,
                            k + 1,
                            mv,
                        ) {
                            let k2 = choose|k2: int|
                                0 <= k2 < k + 1 && #[trigger] knight_move_ok(
                                    empty,
                                    e_pieces,
                                    t,
                                    k2,
                                    mv,
                                );
                            if k2 < k {
                                assert(knight_partial(
                                    knights_all,
                                    empty,
                                    e_pieces,
                                    for_white,
                                    t,
                                    k as int,
                                    mv,
                                ));
                                assert(pre.contains(mv));
                            } else {
                                assert(moves@.contains(mv));
                            }
                        }
                    }
                }
                k = k + 1;
            }

            proof {
                bound = t + 1;
                lemma_knight_list_skip(knights_all, empty, e_pieces, for_white, old_bound, t);
                assert(knight_src(empty, e_pieces, for_white, t, 8) =~= Seq::<Move>::empty());
                assert(moves@ =~= outer_pre + knight_src(empty, e_pieces, for_white, t, 0));
                assert(knight_list(knights_all, empty, e_pieces, for_white, t) =~= knight_src(
                    empty,
                    e_pieces,
                    for_white,
                    t,
                    0,
                ) + knight_list(knights_all, empty, e_pieces, for_white, t + 1));
                assert(moves@ + knight_list(knights_all, empty, e_pieces, for_white, t + 1)
                    =~= outer_pre + knight_list(knights_all, empty, e_pieces, for_white, old_bound));
                assert forall|mv: Move| #[trigger]
                    moves@.contains(mv) <==> exists|i: int|
                        i < bound && #[trigger] is_knight_move_at(
                            knights_all,
                            empty,
                            e_pieces,
                            for_white,
                            i,
                            mv,
                        ) by {
                    if moves@.contains(mv) {
                        if !(exists|i: int|
                            i < old_bound && #[trigger] is_knight_move_at(
                                knights_all,
                                empty,
                                e_pieces,
                                for_white,
                                i,
                                mv,
                            )) {
                            assert(is_knight_move_at(
                                knights_all,
                                empty,
                                e_pieces,
                                for_white,
                                t,
                                mv,
                            ));
                        }
                    }
                    if exists|i: int|
                        i < bound && #[trigger] is_knight_move_at(
                            knights_all,
                            empty,
                            e_pieces,
                            for_white,
                            i,
                            mv,
                        ) {
                        let i = choose|i: int|
                            i < bound && #[trigger] is_knight_move_at(
                                knights_all,
                                empty,
                                e_pieces,
                                for_white,
                                i,
                                mv,
                            );
                        if old_bound <= i < t {
                            assert(!bit(knights_all, i));
                            assert(false);
                        }
                        assert(moves@.contains(mv));
                    }
                }
            }
            knights = knights & (knights - 1);
        }
        proof {
            lemma_bit();
            assert forall|j: int| bound <= j < 64 implies !bit(knights_all, j) by {
                assert(!bit(knights, j));
            }
            lemma_knight_list_skip(knights_all, empty, e_pieces, for_white, bound, 64);
            assert(moves@ + knight_list(knights_all, empty, e_pieces, for_white, 64) =~= moves@);
            lemma_knight_list_wf(knights_all, empty, e_pieces, for_white, 0);
            assert forall|mv: Move| #[trigger]
                moves@.contains(mv) <==> is_knight_move(
                    knights_of(*self, for_white),
                    empty,
                    e_pieces,
                    for_white,
                    mv,
                ) by {
                if is_knight_move(knights_of(*self, for_white), empty, e_pieces, for_white, mv) {
                    let i = choose|i: int| #[trigger] is_knight_move_at(
                        knights_all,
                        empty,
                        e_pieces,
                        for_white,
                        i,
                        mv,
                    );
                    assert(!bit(knights, i));
                    assert(i < bound);
                }
            }
        }
        moves
    }

    /// All pseudo-legal pawn moves of one side: the returned list holds a
    /// move if and only if some pawn of that side can make it, each exactly
    /// once, pawns in ascending square order, each pawn's single push,
    /// double push and two captures in that order.
    #[verifier::rlimit(50)]
    pub fn pawn_moves(&self, for_white: bool, empty: u64, e_pieces: u64) -> (r: Vec<Move>)
        ensures
            forall|mv: Move| #[trigger]
                r@.contains(mv) <==> is_pawn_move(
                    pawns_of(*self, for_white),
                    empty,
                    e_pieces,
                    for_white,
                    mv,
                ),
            r@ == pawn_list(pawns_of(*self, for_white), empty, e_pieces, for_white, 0),
            r@.no_duplicates(),
    {
        let mut moves: Vec<Move> = Vec::new();
        let (pawns_all, dir, start_row, piece_name): (u64, i32, i32, Piece) = match for_white {
            true => (self.w_pawn, 8, 1, Piece::w_pawn),
            false => (self.b_pawn, -8, 6, Piece::b_pawn),
        };
        let mut pawns = pawns_all;
        let ghost mut bound: int = 0;

        while pawns != 0
            invariant
                pawns_all == pawns_of(*self, for_white),
                dir == pawn_dir(for_white),
                start_row == pawn_start_row(for_white),
                piece_name == pawn_piece(for_white),
                0 <= bound <= 64,
                forall|j: int| #[trigger] bit(pawns, j) == (bit(pawns_all, j) && j >= bound),
                moves@ + pawn_list(pawns_all, empty, e_pieces, for_white, bound) == pawn_list(
                    pawns_all,
                    empty,
                    e_pieces,
                    for_white,
                    0,
                ),
                forall|mv: Move| #[trigger]
                    moves@.contains(mv) <==> exists|i: int|
                        i < bound && #[trigger] is_pawn_move_at(
                            pawns_all,
                            empty,
                            e_pieces,
                            for_white,
                            i,
                            mv,
                        ),
            decreases pawns,
        {
            proof {
                lemma_bit();
                lemma_push_contains();
                lemma_pop_lsb(pawns);
            }
            let index = pawns.trailing_zeros() as i32;
            let ghost t = index as int;
            let ghost pre_moves = moves@;
            let ghost old_bound = bound;
            proof {
                assert(bit(pawns, t));
                assert forall|j: int| bound <= j < t implies !#[trigger] bit(pawns_all, j) by {
                    assert(!bit(pawns, j));
                }
            }
            let row = index / 8;
            let col = index % 8;

            let one_square = index + dir;
            let in_one = 0 <= one_square && one_square < 64;
            let push_ok = in_one && ((1u64 << (one_square as u64)) & empty != 0);
            let double_ok = push_ok && row == start_row && ((1u64 << ((index + dir * 2) as u64))
                & empty != 0);
            let promo = (row + (dir / 8)) == 7 || (row + (dir / 8)) == 0;

            let (left, right): (Option<i32>, Option<i32>) = match (for_white, col) {
                (true, 0) => (None, Some(index + dir + dir / 8)),
                (true, 7) => (Some(index + dir - dir / 8), None),
                (true, _) => (Some(index + dir - dir / 8), Some(index + dir + dir / 8)),
                (false, 0) => (None, Some(index + dir - dir / 8)),
                (false, 7) => (Some(index + dir + dir / 8), None),
                (false, _) => (Some(index + dir + dir / 8), Some(index + dir - dir / 8)),
            };
            let cap_left_ok = in_one && match left {
                Some(x) => 0 <= x && x < 64 && ((1u64 << (x as u64)) & e_pieces != 0),
                None => false,
            };
            let cap_right_ok = in_one && match right {
                Some(x) => 0 <= x && x < 64 && ((1u64 << (x as u64)) & e_pieces != 0),
                None => false,
            };

            if push_ok {
                moves.push(
                    Move {
                        piece: piece_name,
                        start: 1u64 << (index as u64),
                        dest: 1u64 << (one_square as u64),
                        promotion: promo,
                    },
                );
            }
            if double_ok {
                moves.push(
                    Move {
                        piece: piece_name,
                        start: 1u64 << (index as u64),
                        dest: 1u64 << ((index + dir * 2) as u64),
                        promotion: false,
                    },
                );
            }
            if cap_left_ok {
                if let Some(x) = left {
                    moves.push(
                        Move {
                            piece: piece_name,
                            start: 1u64 << (index as u64),
                            dest: 1u64 << (x as u64),
                            promotion: promo,
                        },
                    );
                }
            }
            if cap_right_ok {
                if let Some(x) = right {
                    moves.push(
                        Move {
                            piece: piece_name,
                            start: 1u64 << (index as u64),
                            dest: 1u64 << (x as u64),
                            promotion: promo,
                        },
                    );
                }
            }

            proof {
                bound = t + 1;
                lemma_pawn_list_skip(pawns_all, empty, e_pieces, for_white, old_bound, t);
                assert(pawn_list(pawns_all, empty, e_pieces, for_white, t) =~= pawn_src_seq(
                    empty,
                    e_pieces,
                    for_white,
                    t,
                ) + pawn_list(pawns_all, empty, e_pieces, for_white, t + 1));
                assert(moves@ =~= pre_moves + pawn_src_seq(empty, e_pieces, for_white, t));
                assert(moves@ + pawn_list(pawns_all, empty, e_pieces, for_white, t + 1)
                    =~= pre_moves + pawn_list(pawns_all, empty, e_pieces, for_white, old_bound));
                assert forall|mv: Move| #[trigger]
                    moves@.contains(mv) <==> exists|i: int|
                        i < bound && #[trigger] is_pawn_move_at(
                            pawns_all,
                            empty,
                            e_pieces,
                            for_white,
                            i,
                            mv,
                        ) by {
                    if moves@.contains(mv) && !pre_moves.contains(mv) {
                        assert(is_pawn_move_at(pawns_all, empty, e_pieces, for_white, t, mv));
                    }
                    if exists|i: int|
                        i < bound && #[trigger] is_pawn_move_at(
                            pawns_all,
                            empty,
                            e_pieces,
                            for_white,
                            i,
                            mv,
                        ) {
                        let i = choose|i: int|
                            i < bound && #[trigger] is_pawn_move_at(
                                pawns_all,
                                empty,
                                e_pieces,
                                for_white,
                                i,
                                mv,
                            );
                        if i < old_bound {
                            assert(pre_moves.contains(mv));
                            assert(moves@.contains(mv));
                        } else if i < t {
                            assert(!bit(pawns_all, i));
                            assert(false);
                        } else {
                            assert(i == t);
                            assert(moves@.contains(mv));
                        }
                    }
                }
            }
            pawns = pawns & (pawns - 1);
            proof {
                assert forall|j: int| #[trigger]
                    bit(pawns, j) == (bit(pawns_all, j) && j >= bound) by {}
            }
        }
        proof {
            lemma_bit();
            assert forall|j: int| bound <= j < 64 implies !bit(pawns_all, j) by {
                assert(!bit(pawns, j));
            }
            lemma_pawn_list_skip(pawns_all, empty, e_pieces, for_white, bound, 64);
            assert(moves@ + pawn_list(pawns_all, empty, e_pieces, for_white, 64) =~= moves@);
            lemma_pawn_list_wf(pawns_all, empty, e_pieces, for_white, 0);
            assert forall|mv: Move| #[trigger]
                moves@.contains(mv) <==> is_pawn_move(
                    pawns_of(*self, for_white),
                    empty,
                    e_pieces,
                    for_white,
                    mv,
                ) by {
                if is_pawn_move(pawns_of(*self, for_white), empty, e_pieces, for_white, mv) {
                    let i = choose|i: int| #[trigger] is_pawn_move_at(
                        pawns_all,
                        empty,
                        e_pieces,
                        for_white,
                        i,
                        mv,
                    );
                    assert(!bit(pawns, i));
                    assert(i < bound);
                }
            }
        }
        moves
    }
}

/// The aggregate pseudo-legal move list, in generation order: pawn moves,
/// knight moves, bishop moves, rook moves, queen moves (diagonal rays then
/// orthogonal rays), king moves (steps then castling).
pub open spec fn pseudo_list(b: ChessBoard, white: bool) -> Seq<Move> {
    let empty = b.empty_mask();
    let e_pieces = b.enemy_mask(white);
    pawn_list(pawns_of(b, white), empty, e_pieces, white, 0) + knight_list(
        knights_of(b, white),
        empty,
        e_pieces,
        white,
        0,
    ) + slider_list(bishops_of(b, white), empty, e_pieces, bishop_mover(white, false), true, 0)
        + slider_list(rooks_of(b, white), empty, e_pieces, rook_mover(white, false), false, 0) + (
    slider_list(queens_of(b, white), empty, e_pieces, queen_piece(white), true, 0) + slider_list(
        queens_of(b, white),
        empty,
        e_pieces,
        queen_piece(white),
        false,
        0,
    )) + (king_steps_list(kings_of(b, white), empty, e_pieces, white, 0) + castle_extra(
        b,
        white,
        empty,
    ))
}

/// The filter the legal list applies: the move must not leave the mover's
/// own king attacked.
pub open spec fn king_safe(b: ChessBoard, white: bool) -> spec_fn(Move) -> bool {
    |mv: Move| !leaves_king_attacked(b, white, mv)
}

/// The legal move list: the pseudo-legal list filtered, order preserved.
pub open spec fn legal_list(b: ChessBoard, white: bool) -> Seq<Move> {
    pseudo_list(b, white).filter(king_safe(b, white))
}

/// `mv` is a pseudo-legal move of the side given by `white` on `b`: a
/// move of one of the six piece families, against `b`'s own empty and
/// enemy-occupancy masks.
pub open spec fn is_pseudo_move(b: ChessBoard, white: bool, mv: Move) -> bool {
    let empty = b.empty_mask();
    let e_pieces = b.enemy_mask(white);
    ||| is_pawn_move(pawns_of(b, white), empty, e_pieces, white, mv)
    ||| is_knight_move(knights_of(b, white), empty, e_pieces, white, mv)
    ||| is_slider_move(bishops_of(b, white), empty, e_pieces, bishop_mover(white, false), true, mv)
    ||| is_slider_move(rooks_of(b, white), empty, e_pieces, rook_mover(white, false), false, mv)
    ||| is_slider_move(queens_of(b, white), empty, e_pieces, queen_piece(white), true, mv)
    ||| is_slider_move(queens_of(b, white), empty, e_pieces, queen_piece(white), false, mv)
    ||| is_king_move(b, empty, e_pieces, white, mv)
}

/// Applying `mv` to `b` leaves the king of the side given by `white` on a
/// square the other side attacks.
pub open spec fn leaves_king_attacked(b: ChessBoard, white: bool, mv: Move) -> bool {
    spec_king_attacked(crate::apply::spec_apply(b, mv), white)
}

/// `mv` is a legal move of the side given by `white` on `b`: pseudo-legal,
/// and it does not leave that side's own king attacked.
pub open spec fn is_legal_move(b: ChessBoard, white: bool, mv: Move) -> bool {
    is_pseudo_move(b, white, mv) && !leaves_king_attacked(b, white, mv)
}

impl ChessBoard {
    /// The moves of one side: all pseudo-legal moves when `pseudo_legal` is
    /// set, else only the legal ones. The returned list holds a move if and
    /// only if the side has it, each exactly once, the families concatenated
    /// in the order pawn, knight, bishop, rook, queen, king; the legal list
    /// is the pseudo-legal list filtered in place, order kept, and never
    /// holds a move that, once applied, leaves the mover's own king
    /// attacked.
    pub fn legal_moves(&self, for_white: bool, pseudo_legal: bool) -> (r: Vec<Move>)
        ensures
            pseudo_legal ==> (forall|mv: Move| #[trigger]
                r@.contains(mv) <==> is_pseudo_move(*self, for_white, mv)),
            !pseudo_legal ==> (forall|mv: Move| #[trigger]
                r@.contains(mv) <==> is_legal_move(*self, for_white, mv)),
            pseudo_legal ==> r@ == pseudo_list(*self, for_white),
            !pseudo_legal ==> r@ == legal_list(*self, for_white),
            r@.no_duplicates(),
    {
        proof {
            crate::seqs::lemma_concat_contains();
        }
        let empty = self.empty();
        let e_pieces = self.open_for_attack(for_white);

        let mut moves = self.pawn_moves(for_white, empty, e_pieces);
        let mut more = self.knight_moves(for_white, empty, e_pieces);
        proof {
            assert forall|x: Move|
                !(#[trigger] moves@.contains(x) && more@.contains(x)) by {}
            crate::seqs::lemma_no_dup_concat(moves@, more@);
        }
        moves.append(&mut more);
        let mut more = self.bishop_moves(for_white, false, empty, e_pieces);
        proof {
            assert forall|x: Move|
                !(#[trigger] moves@.contains(x) && more@.contains(x)) by {}
            crate::seqs::lemma_no_dup_concat(moves@, more@);
        }
        moves.append(&mut more);
        let mut more = self.rook_moves(for_white, false, empty, e_pieces);
        proof {
            assert forall|x: Move|
                !(#[trigger] moves@.contains(x) && more@.contains(x)) by {}
            crate::seqs::lemma_no_dup_concat(moves@, more@);
        }
        moves.append(&mut more);
        let mut more = self.queen_moves(for_white, empty, e_pieces);
        proof {
            assert forall|x: Move|
                !(#[trigger] moves@.contains(x) && more@.contains(x)) by {}
            crate::seqs::lemma_no_dup_concat(moves@, more@);
        }
        moves.append(&mut more);
        let mut more = self.king_moves(for_white, empty, e_pieces);
        proof {
            // The six family lists carry six distinct piece tags (the two
            // queen halves were already shown disjoint), so the aggregate
            // is duplicate-free.
            let prefix = moves@;
            assert forall|x: Move|
                !(#[trigger] prefix.contains(x) && more@.contains(x)) by {
                if prefix.contains(x) && more@.contains(x) {
                    assert(is_king_move(*self, empty, e_pieces, for_white, x));
                    assert(x.piece == king_piece(for_white));
                }
            }
            crate::seqs::lemma_no_dup_concat(prefix, more@);
        }
        moves.append(&mut more);
        proof {
            assert(moves@ == pseudo_list(*self, for_white));
        }

        if pseudo_legal {
            return moves;
        }

        // Keep only the moves that do not leave the mover's own king
        // attacked: fork the position, apply, and test.
        let mut legal: Vec<Move> = Vec::new();
        let mut i: usize = 0;
        while i < moves.len()
            invariant
                i <= moves.len(),
                moves@ == pseudo_list(*self, for_white),
                moves@.no_duplicates(),
                forall|mv: Move| #[trigger]
                    moves@.contains(mv) <==> is_pseudo_move(*self, for_white, mv),
                legal@ == moves@.subrange(0, i as int).filter(king_safe(*self, for_white)),
                forall|mv: Move| #[trigger]
                    legal@.contains(mv) <==> (moves@.subrange(0, i as int).contains(mv)
                        && !leaves_king_attacked(*self, for_white, mv)),
            decreases moves.len() - i,
        {
            proof {
                lemma_push_contains();
                assert(moves@.subrange(0, i + 1) =~= moves@.subrange(0, i as int).push(
                    moves@[i as int],
                ));
                assert(moves@.subrange(0, i + 1) =~= moves@.subrange(0, i as int) + seq![
                    moves@[i as int],
                ]);
            }
            let mv = moves[i];
            let mut test_board = self.clone();
            test_board.make_move(&mv);
            if !test_board.is_king_under_attack(for_white) {
                legal.push(mv);
            }
            proof {
                let pred = king_safe(*self, for_white);
                reveal_with_fuel(Seq::filter, 2);
                Seq::filter_distributes_over_add(
                    moves@.subrange(0, i as int),
                    seq![moves@[i as int]],
                    pred,
                );
                assert(seq![moves@[i as int]].drop_last() =~= Seq::<Move>::empty());
                assert(Seq::<Move>::empty().filter(pred) =~= Seq::<Move>::empty());
                assert(seq![moves@[i as int]].last() == moves@[i as int]);
                if pred(moves@[i as int]) {
                    assert(seq![moves@[i as int]].filter(pred) =~= Seq::<Move>::empty().push(
                        moves@[i as int],
                    ));
                    assert(seq![moves@[i as int]].filter(pred) =~= seq![moves@[i as int]]);
                } else {
                    assert(seq![moves@[i as int]].filter(pred) =~= Seq::<Move>::empty());
                }
                assert(legal@ =~= moves@.subrange(0, i as int).filter(pred) + seq![
                    moves@[i as int],
                ].filter(pred));
                assert(legal@ == moves@.subrange(0, i + 1).filter(pred));
                assert forall|m2: Move| #[trigger]
                    legal@.contains(m2) <==> (moves@.subrange(0, i + 1).contains(m2)
                        && !leaves_king_attacked(*self, for_white, m2)) by {}
            }
            i = i + 1;
        }
        proof {
            assert(moves@.subrange(0, moves@.len() as int) == moves@);
            crate::seqs::lemma_filter_no_dup(moves@, king_safe(*self, for_white));
        }
        legal
    }
}

} // verus!
