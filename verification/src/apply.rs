//! The move applier: mutates a position according to a chosen move.
use vstd::prelude::*;
use crate::bits::bit;
use crate::bits::lemma_bit;
use crate::board::ChessBoard;
use crate::board::Move;
use crate::board::Piece;

verus! {

/// The piece that ends up on the destination square: the mover, or the
/// mover's queen on a pawn promotion.
pub open spec fn promoted_piece(mv: Move) -> Piece {
    if mv.promotion {
        match mv.piece {
            Piece::w_pawn => Piece::w_queen,
            Piece::b_pawn => Piece::b_queen,
            _ => mv.piece,
        }
    } else {
        mv.piece
    }
}

/// The castling-rights mask after the move: a king move clears both of its
/// side's bits; a rook moving from a canonical corner clears that corner's
/// bit; any move landing on a canonical corner clears that corner's bit.
/// Bits are only ever cleared, never set.
pub open spec fn rights_after(b: ChessBoard, mv: Move) -> u8 {
    let r1 = if mv.piece == Piece::w_king {
        b.castle_rights & 0b1100
    } else if mv.piece == Piece::b_king {
        b.castle_rights & 0b0011
    } else {
        b.castle_rights
    };
    let r2 = if mv.piece == Piece::w_rook && mv.start == (1u64 << 0) {
        r1 & 0b1110
    } else {
        r1
    };
    let r3 = if mv.piece == Piece::w_rook && mv.start == (1u64 << 7) {
        r2 & 0b1101
    } else {
        r2
    };
    let r4 = if mv.piece == Piece::b_rook && mv.start == (1u64 << 56) {
        r3 & 0b1011
    } else {
        r3
    };
    let r5 = if mv.piece == Piece::b_rook && mv.start == (1u64 << 63) {
        r4 & 0b0111
    } else {
        r4
    };
    let r6 = if mv.dest & (1u64 << 0) != 0 {
        r5 & 0b1110
    } else {
        r5
    };
    let r7 = if mv.dest & (1u64 << 7) != 0 {
        r6 & 0b1101
    } else {
        r6
    };
    let r8 = if mv.dest & (1u64 << 56) != 0 {
        r7 & 0b1011
    } else {
        r7
    };
    if mv.dest & (1u64 << 63) != 0 {
        r8 & 0b0111
    } else {
        r8
    }
}

/// The board after the rook relocation of a castling move: when a king
/// moves along one of the four canonical (start, destination) pairs, its
/// side's rook leaves that corner and lands beside the king.
pub open spec fn rook_relocated(b: ChessBoard, mv: Move) -> ChessBoard {
    if mv.piece == Piece::w_king && mv.start == (1u64 << 4) && mv.dest == (1u64 << 6) {
        ChessBoard { w_rook: (b.w_rook & !(1u64 << 7)) | (1u64 << 5), ..b }
    } else if mv.piece == Piece::w_king && mv.start == (1u64 << 4) && mv.dest == (1u64 << 2) {
        ChessBoard { w_rook: (b.w_rook & !(1u64 << 0)) | (1u64 << 3), ..b }
    } else if mv.piece == Piece::b_king && mv.start == (1u64 << 60) && mv.dest == (1u64 << 62) {
        ChessBoard { b_rook: (b.b_rook & !(1u64 << 63)) | (1u64 << 61), ..b }
    } else if mv.piece == Piece::b_king && mv.start == (1u64 << 60) && mv.dest == (1u64 << 58) {
        ChessBoard { b_rook: (b.b_rook & !(1u64 << 56)) | (1u64 << 59), ..b }
    } else {
        b
    }
}

/// The board with the destination square cleared out of every mask: any
/// captured piece disappears.
pub open spec fn dest_cleared(b: ChessBoard, mv: Move) -> ChessBoard {
    ChessBoard {
        w_pawn: b.w_pawn & !mv.dest,
        w_knight: b.w_knight & !mv.dest,
        w_bishop: b.w_bishop & !mv.dest,
        w_rook: b.w_rook & !mv.dest,
        w_queen: b.w_queen & !mv.dest,
        w_king: b.w_king & !mv.dest,
        b_pawn: b.b_pawn & !mv.dest,
        b_knight: b.b_knight & !mv.dest,
        b_bishop: b.b_bishop & !mv.dest,
        b_rook: b.b_rook & !mv.dest,
        b_queen: b.b_queen & !mv.dest,
        b_king: b.b_king & !mv.dest,
        ..b
    }
}

/// The position after applying `mv`: relocate the rook on a castling move,
/// update castling rights, lift the mover off its source square, clear the
/// destination square everywhere, put the mover (or its promotion queen)
/// on the destination, and flip the side to move.
pub open spec fn spec_apply(b: ChessBoard, mv: Move) -> ChessBoard {
    let b1 = rook_relocated(b, mv);
    let b2 = b1.with_mask(mv.piece, b1.mask_of(mv.piece) & !mv.start);
    let b3 = dest_cleared(b2, mv);
    let b4 = b3.with_mask(promoted_piece(mv), b3.mask_of(promoted_piece(mv)) | mv.dest);
    ChessBoard { turn: !b.turn, castle_rights: rights_after(b, mv), ..b4 }
}

impl ChessBoard {
    /// Apply `mv` to the position. The move is trusted to come from the
    /// move generator; nothing is validated here.
    pub fn make_move(&mut self, mv: &Move)
        ensures
            *final(self) == spec_apply(*old(self), *mv),
    {
        // Castling: relocate the matching rook and drop both of the
        // mover's castling rights.
        if mv.piece == Piece::w_king || mv.piece == Piece::b_king {
            let is_white = mv.piece == Piece::w_king;
            if is_white && mv.start == (1u64 << 4) && mv.dest == (1u64 << 6) {
                self.w_rook = (self.w_rook & !(1u64 << 7)) | (1u64 << 5);
            } else if is_white && mv.start == (1u64 << 4) && mv.dest == (1u64 << 2) {
                self.w_rook = (self.w_rook & !(1u64 << 0)) | (1u64 << 3);
            } else if !is_white && mv.start == (1u64 << 60) && mv.dest == (1u64 << 62) {
                self.b_rook = (self.b_rook & !(1u64 << 63)) | (1u64 << 61);
            } else if !is_white && mv.start == (1u64 << 60) && mv.dest == (1u64 << 58) {
                self.b_rook = (self.b_rook & !(1u64 << 56)) | (1u64 << 59);
            }
            self.castle_rights = self.castle_rights & if is_white {
                0b1100
            } else {
                0b0011
            };
        }
        // A rook leaving a canonical corner loses that corner's right.
        if mv.piece == Piece::w_rook || mv.piece == Piece::b_rook {
            if mv.piece == Piece::w_rook && mv.start == (1u64 << 0) {
                self.castle_rights = self.castle_rights & 0b1110;
            }
            if mv.piece == Piece::w_rook && mv.start == (1u64 << 7) {
                self.castle_rights = self.castle_rights & 0b1101;
            }
            if mv.piece == Piece::b_rook && mv.start == (1u64 << 56) {
                self.castle_rights = self.castle_rights & 0b1011;
            }
            if mv.piece == Piece::b_rook && mv.start == (1u64 << 63) {
                self.castle_rights = self.castle_rights & 0b0111;
            }
        }
        // Any move onto a canonical corner loses that corner's right: this
        // covers a rook captured while its right was still held.
        if mv.dest & (1u64 << 0) != 0 {
            self.castle_rights = self.castle_rights & 0b1110;
        }
        if mv.dest & (1u64 << 7) != 0 {
            self.castle_rights = self.castle_rights & 0b1101;
        }
        if mv.dest & (1u64 << 56) != 0 {
            self.castle_rights = self.castle_rights & 0b1011;
        }
        if mv.dest & (1u64 << 63) != 0 {
            self.castle_rights = self.castle_rights & 0b0111;
        }
        // Lift the mover off its source square.
        if let Some(piece_bb) = self.get_piece(mv.piece) {
            self.set_piece(mv.piece, piece_bb & !mv.start);
        }
        // Clear the destination square everywhere: a captured piece is gone.
        self.w_pawn = self.w_pawn & !mv.dest;
        self.w_knight = self.w_knight & !mv.dest;
        self.w_bishop = self.w_bishop & !mv.dest;
        self.w_rook = self.w_rook & !mv.dest;
        self.w_queen = self.w_queen & !mv.dest;
        self.w_king = self.w_king & !mv.dest;
        self.b_pawn = self.b_pawn & !mv.dest;
        self.b_knight = self.b_knight & !mv.dest;
        self.b_bishop = self.b_bishop & !mv.dest;
        self.b_rook = self.b_rook & !mv.dest;
        self.b_queen = self.b_queen & !mv.dest;
        self.b_king = self.b_king & !mv.dest;
        // A promoting pawn lands as its side's queen.
        let new_piece = if mv.promotion {
            match mv.piece {
                Piece::w_pawn => Piece::w_queen,
                Piece::b_pawn => Piece::b_queen,
                _ => mv.piece,
            }
        } else {
            mv.piece
        };
        if let Some(updated_bb) = self.get_piece(new_piece) {
            self.set_piece(new_piece, updated_bb | mv.dest);
        }
        self.turn = !self.turn;
    }
}

/// Replacing one piece's mask changes no other piece's mask.
proof fn lemma_with_mask(b: ChessBoard, pc: Piece, m: u64)
    ensures
        forall|p: Piece| #[trigger] b.with_mask(pc, m).mask_of(p) == (if p == pc {
            m
        } else {
            b.mask_of(p)
        }),
{
}

/// Clearing the destination square clears it out of every mask alike.
proof fn lemma_dest_cleared(b: ChessBoard, mv: Move)
    ensures
        forall|p: Piece| #[trigger] dest_cleared(b, mv).mask_of(p) == b.mask_of(p) & !mv.dest,
{
}

/// The last applier steps keep the masks disjoint: the mover leaves its
/// source, the destination square is cleared everywhere, and exactly one
/// piece lands on it.
proof fn lemma_apply_steps_disjoint(b1: ChessBoard, mv: Move, i: int, j: int)
    requires
        b1.masks_disjoint(),
        0 <= i < 64,
        0 <= j < 64,
        mv.start == 1u64 << (i as u64),
        mv.dest == 1u64 << (j as u64),
    ensures
        ({
            let b2 = b1.with_mask(mv.piece, b1.mask_of(mv.piece) & !mv.start);
            let b3 = dest_cleared(b2, mv);
            let b4 = b3.with_mask(promoted_piece(mv), b3.mask_of(promoted_piece(mv)) | mv.dest);
            forall|p: Piece, q: Piece, s: int|
                p != q ==> !(#[trigger] bit(b4.mask_of(p), s) && #[trigger] bit(b4.mask_of(q), s))
        }),
{
    lemma_bit();
    let b2 = b1.with_mask(mv.piece, b1.mask_of(mv.piece) & !mv.start);
    let b3 = dest_cleared(b2, mv);
    let b4 = b3.with_mask(promoted_piece(mv), b3.mask_of(promoted_piece(mv)) | mv.dest);
    lemma_with_mask(b1, mv.piece, b1.mask_of(mv.piece) & !mv.start);
    lemma_dest_cleared(b2, mv);
    lemma_with_mask(b3, promoted_piece(mv), b3.mask_of(promoted_piece(mv)) | mv.dest);
    assert forall|p: Piece, q: Piece, s: int|
        p != q implies !(#[trigger] bit(b4.mask_of(p), s) && #[trigger] bit(
        b4.mask_of(q),
        s,
    )) by {
        assert(bit(b3.mask_of(p), s) == (bit(b2.mask_of(p), s) && s != j));
        assert(bit(b3.mask_of(q), s) == (bit(b2.mask_of(q), s) && s != j));
        if s != j {
            assert(!(bit(b1.mask_of(p), s) && bit(b1.mask_of(q), s)));
        }
    }
}

/// A square listed empty holds no piece at all.
proof fn lemma_empty_square(b: ChessBoard, s: int)
    requires
        bit(b.empty_mask(), s),
    ensures
        forall|q: Piece| !#[trigger] bit(b.mask_of(q), s),
{
    lemma_bit();
    assert(!bit(b.occupied_mask(), s));
    assert forall|q: Piece| !#[trigger] bit(b.mask_of(q), s) by {
        assert(!bit(b.w_pawn, s) && !bit(b.w_knight, s) && !bit(b.w_bishop, s) && !bit(
            b.w_rook,
            s,
        ) && !bit(b.w_queen, s) && !bit(b.w_king, s) && !bit(b.b_pawn, s) && !bit(b.b_knight, s)
            && !bit(b.b_bishop, s) && !bit(b.b_rook, s) && !bit(b.b_queen, s) && !bit(b.b_king, s));
    }
}

/// A king whose source and destination masks form one of the canonical
/// castling pairs made a castling move, so the rook's landing square was
/// listed empty.
proof fn lemma_castle_target_empty(b: ChessBoard, white: bool, mv: Move, kingside: bool)
    requires
        crate::movegen::is_pseudo_move(b, white, mv),
        mv.piece == crate::movegen::king_piece(white),
        mv.start == (1u64 << ((crate::movegen::king_home(white)) as u64)),
        mv.dest == (1u64 << ((crate::movegen::castle_king_dest(white, kingside)) as u64)),
    ensures
        bit(
            b.empty_mask(),
            if kingside {
                crate::movegen::king_home(white) + 1
            } else {
                crate::movegen::king_home(white) - 1
            },
        ),
{
    lemma_bit();
    let home = crate::movegen::king_home(white);
    let dest = crate::movegen::castle_king_dest(white, kingside);
    let empty = b.empty_mask();
    let e_pieces = b.enemy_mask(white);
    assert(crate::movegen::is_king_move(b, empty, e_pieces, white, mv));
    if exists|i: int| #[trigger] crate::movegen::is_king_step_at(
        crate::attack::kings_of(b, white),
        empty,
        e_pieces,
        white,
        i,
        mv,
    ) {
        let i = choose|i: int| #[trigger] crate::movegen::is_king_step_at(
            crate::attack::kings_of(b, white),
            empty,
            e_pieces,
            white,
            i,
            mv,
        );
        assert(bit(mv.start, i));
        assert(i == home);
        let k2 = choose|k2: int|
            0 <= k2 < 8 && #[trigger] crate::movegen::king_move_ok(empty, e_pieces, i, k2, mv);
        let x = crate::movegen::king_off(k2).0;
        let y = crate::movegen::king_off(k2).1;
        let d = (i / 8 + y) * 8 + (i % 8 + x);
        assert(bit(mv.dest, d));
        assert(d == dest);
        assert(false);
    } else if crate::movegen::castle_case(b, white, empty, true, mv) {
        if !kingside {
            assert(bit(mv.dest, crate::movegen::castle_king_dest(white, true)));
            assert(false);
        }
    } else {
        assert(crate::movegen::castle_case(b, white, empty, false, mv));
        if kingside {
            assert(bit(mv.dest, crate::movegen::castle_king_dest(white, false)));
            assert(false);
        }
    }
}

/// Applying a pseudo-legal move to a position whose masks are disjoint
/// leaves them disjoint: no square ever holds two pieces.
pub proof fn lemma_apply_preserves_disjoint(b: ChessBoard, white: bool, mv: Move)
    requires
        b.masks_disjoint(),
        crate::movegen::is_pseudo_move(b, white, mv),
    ensures
        spec_apply(b, mv).masks_disjoint(),
{
    lemma_bit();
    crate::eval::lemma_pseudo_enumerated(b, white, mv);
    let k = choose|k: int|
        0 <= k < crate::eval::move_index_count() && #[trigger] crate::eval::move_of_index(k) == mv;
    let i = k / 128 % 64;
    let j = k / 2 % 64;
    assert(mv.start == 1u64 << (i as u64) && mv.dest == 1u64 << (j as u64));

    let b1 = rook_relocated(b, mv);
    assert(b1.masks_disjoint()) by {
        if mv.piece == Piece::w_king && mv.start == (1u64 << 4) && mv.dest == (1u64 << 6) {
            assert(white) by {
                if !white {
                    assert(mv.piece != Piece::w_king);
                }
            }
            lemma_castle_target_empty(b, true, mv, true);
            lemma_empty_square(b, 5);
            assert forall|p: Piece, q: Piece, s: int|
                p != q implies !(#[trigger] bit(b1.mask_of(p), s) && #[trigger] bit(
                b1.mask_of(q),
                s,
            )) by {
                assert(bit(b1.w_rook, s) == ((bit(b.w_rook, s) && s != 7) || s == 5));
                assert(!bit(b.mask_of(p), 5));
                assert(!bit(b.mask_of(q), 5));
                assert(!(bit(b.mask_of(p), s) && bit(b.mask_of(q), s)));
            }
        } else if mv.piece == Piece::w_king && mv.start == (1u64 << 4) && mv.dest == (1u64 << 2) {
            assert(white) by {
                if !white {
                    assert(mv.piece != Piece::w_king);
                }
            }
            lemma_castle_target_empty(b, true, mv, false);
            lemma_empty_square(b, 3);
            assert forall|p: Piece, q: Piece, s: int|
                p != q implies !(#[trigger] bit(b1.mask_of(p), s) && #[trigger] bit(
                b1.mask_of(q),
                s,
            )) by {
                assert(bit(b1.w_rook, s) == ((bit(b.w_rook, s) && s != 0) || s == 3));
                assert(!bit(b.mask_of(p), 3));
                assert(!bit(b.mask_of(q), 3));
                assert(!(bit(b.mask_of(p), s) && bit(b.mask_of(q), s)));
            }
        } else if mv.piece == Piece::b_king && mv.start == (1u64 << 60) && mv.dest == (1u64 << 62) {
            assert(!white) by {
                if white {
                    assert(mv.piece != Piece::b_king);
                }
            }
            lemma_castle_target_empty(b, false, mv, true);
            lemma_empty_square(b, 61);
            assert forall|p: Piece, q: Piece, s: int|
                p != q implies !(#[trigger] bit(b1.mask_of(p), s) && #[trigger] bit(
                b1.mask_of(q),
                s,
            )) by {
                assert(bit(b1.b_rook, s) == ((bit(b.b_rook, s) && s != 63) || s == 61));
                assert(!bit(b.mask_of(p), 61));
                assert(!bit(b.mask_of(q), 61));
                assert(!(bit(b.mask_of(p), s) && bit(b.mask_of(q), s)));
            }
        } else if mv.piece == Piece::b_king && mv.start == (1u64 << 60) && mv.dest == (1u64 << 58) {
            assert(!white) by {
                if white {
                    assert(mv.piece != Piece::b_king);
                }
            }
            lemma_castle_target_empty(b, false, mv, false);
            lemma_empty_square(b, 59);
            assert forall|p: Piece, q: Piece, s: int|
                p != q implies !(#[trigger] bit(b1.mask_of(p), s) && #[trigger] bit(
                b1.mask_of(q),
                s,
            )) by {
                assert(bit(b1.b_rook, s) == ((bit(b.b_rook, s) && s != 56) || s == 59));
                assert(!bit(b.mask_of(p), 59));
                assert(!bit(b.mask_of(q), 59));
                assert(!(bit(b.mask_of(p), s) && bit(b.mask_of(q), s)));
            }
        } else {
            assert(b1 == b);
        }
    }
    lemma_apply_steps_disjoint(b1, mv, i, j);
    let b2 = b1.with_mask(mv.piece, b1.mask_of(mv.piece) & !mv.start);
    let b3 = dest_cleared(b2, mv);
    let b4 = b3.with_mask(promoted_piece(mv), b3.mask_of(promoted_piece(mv)) | mv.dest);
    assert forall|p: Piece| #[trigger] spec_apply(b, mv).mask_of(p) == b4.mask_of(p) by {}
}

} // verus!
