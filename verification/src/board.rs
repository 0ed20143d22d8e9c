//! The board itself: twelve occupancy masks, the side to move, and the
//! castling-rights mask, together with its square-level spec model.
use vstd::prelude::*;
use crate::bits::bit;
use vstd::std_specs::bits::u64_trailing_zeros;

verus! {

/// Identity of a piece: its color and kind.
#[allow(non_camel_case_types)]
#[derive(Debug, Clone, Copy, PartialEq, Eq, Structural)]
pub enum Piece {
    w_pawn,
    w_knight,
    w_bishop,
    w_rook,
    w_queen,
    w_king,
    b_pawn,
    b_knight,
    b_bishop,
    b_rook,
    b_queen,
    b_king,
}

/// A position: one 64-bit occupancy mask per (color, piece kind) pair, the
/// side to move (`true` = white), and the 4-bit castling-rights mask.
///
/// Bit `rank * 8 + file` of a mask is the square at that rank and file,
/// both zero-based, rank 0 at the notation's bottom row.
#[derive(Debug, Clone, Copy, PartialEq, Eq, Structural)]
pub struct ChessBoard {
    pub w_pawn: u64,
    pub w_knight: u64,
    pub w_bishop: u64,
    pub w_rook: u64,
    pub w_queen: u64,
    pub w_king: u64,
    pub b_pawn: u64,
    pub b_knight: u64,
    pub b_bishop: u64,
    pub b_rook: u64,
    pub b_queen: u64,
    pub b_king: u64,
    pub turn: bool,
    /// One bit per corner: bit 3 black kingside, bit 2 black queenside,
    /// bit 1 white kingside, bit 0 white queenside.
    pub castle_rights: u8,
}

/// One ply: the moving piece, its source square mask, its destination square
/// mask (each a single set bit), and whether the move promotes.
#[derive(Debug, Clone, Copy, PartialEq, Eq, Structural)]
pub struct Move {
    pub piece: Piece,
    pub start: u64,
    pub dest: u64,
    pub promotion: bool,
}

/// The blank position: no pieces, white to move, no castling rights.
pub open spec fn blank_board() -> ChessBoard {
    ChessBoard {
        w_pawn: 0,
        w_knight: 0,
        w_bishop: 0,
        w_rook: 0,
        w_queen: 0,
        w_king: 0,
        b_pawn: 0,
        b_knight: 0,
        b_bishop: 0,
        b_rook: 0,
        b_queen: 0,
        b_king: 0,
        turn: true,
        castle_rights: 0,
    }
}

impl ChessBoard {
    /// The occupancy mask that `piece` lives in.
    pub open spec fn mask_of(self, piece: Piece) -> u64 {
        match piece {
            Piece::w_pawn => self.w_pawn,
            Piece::w_knight => self.w_knight,
            Piece::w_bishop => self.w_bishop,
            Piece::w_rook => self.w_rook,
            Piece::w_queen => self.w_queen,
            Piece::w_king => self.w_king,
            Piece::b_pawn => self.b_pawn,
            Piece::b_knight => self.b_knight,
            Piece::b_bishop => self.b_bishop,
            Piece::b_rook => self.b_rook,
            Piece::b_queen => self.b_queen,
            Piece::b_king => self.b_king,
        }
    }

    /// `self` with the mask of `piece` replaced by `m`.
    pub open spec fn with_mask(self, piece: Piece, m: u64) -> ChessBoard {
        match piece {
            Piece::w_pawn => ChessBoard { w_pawn: m, ..self },
            Piece::w_knight => ChessBoard { w_knight: m, ..self },
            Piece::w_bishop => ChessBoard { w_bishop: m, ..self },
            Piece::w_rook => ChessBoard { w_rook: m, ..self },
            Piece::w_queen => ChessBoard { w_queen: m, ..self },
            Piece::w_king => ChessBoard { w_king: m, ..self },
            Piece::b_pawn => ChessBoard { b_pawn: m, ..self },
            Piece::b_knight => ChessBoard { b_knight: m, ..self },
            Piece::b_bishop => ChessBoard { b_bishop: m, ..self },
            Piece::b_rook => ChessBoard { b_rook: m, ..self },
            Piece::b_queen => ChessBoard { b_queen: m, ..self },
            Piece::b_king => ChessBoard { b_king: m, ..self },
        }
    }

    /// Union of the six white masks.
    pub open spec fn white_mask(self) -> u64 {
        self.w_pawn | self.w_knight | self.w_bishop | self.w_rook | self.w_queen | self.w_king
    }

    /// Union of the six black masks.
    pub open spec fn black_mask(self) -> u64 {
        self.b_pawn | self.b_knight | self.b_bishop | self.b_rook | self.b_queen | self.b_king
    }

    /// Union of all twelve masks.
    pub open spec fn occupied_mask(self) -> u64 {
        self.w_pawn | self.w_knight | self.w_bishop | self.w_rook | self.w_queen | self.w_king
            | self.b_pawn | self.b_knight | self.b_bishop | self.b_rook | self.b_queen
            | self.b_king
    }

    /// Complement of the occupied squares.
    pub open spec fn empty_mask(self) -> u64 {
        !self.occupied_mask()
    }

    /// The pieces the side given by `for_white` may capture: the other
    /// side's occupancy.
    pub open spec fn enemy_mask(self, for_white: bool) -> u64 {
        if for_white {
            self.black_mask()
        } else {
            self.white_mask()
        }
    }

    /// No two of the twelve masks share a set square.
    pub open spec fn masks_disjoint(self) -> bool {
        forall|p: Piece, q: Piece, i: int|
            p != q ==> !(#[trigger] bit(self.mask_of(p), i) && #[trigger] bit(self.mask_of(q), i))
    }

    /// The empty board: no pieces, white to move, no castling rights.
    pub fn new() -> (r: Self)
        ensures
            r == blank_board(),
    {
        ChessBoard {
            w_pawn: 0,
            w_knight: 0,
            w_bishop: 0,
            w_rook: 0,
            w_queen: 0,
            w_king: 0,
            b_pawn: 0,
            b_knight: 0,
            b_bishop: 0,
            b_rook: 0,
            b_queen: 0,
            b_king: 0,
            turn: true,
            castle_rights: 0,
        }
    }

    /// Read the occupancy mask of one piece identity.
    pub fn get_piece(&self, piece: Piece) -> (r: Option<u64>)
        ensures
            r == Some(self.mask_of(piece)),
    {
        match piece {
            Piece::w_pawn => Some(self.w_pawn),
            Piece::w_knight => Some(self.w_knight),
            Piece::w_bishop => Some(self.w_bishop),
            Piece::w_rook => Some(self.w_rook),
            Piece::w_queen => Some(self.w_queen),
            Piece::w_king => Some(self.w_king),
            Piece::b_pawn => Some(self.b_pawn),
            Piece::b_knight => Some(self.b_knight),
            Piece::b_bishop => Some(self.b_bishop),
            Piece::b_rook => Some(self.b_rook),
            Piece::b_queen => Some(self.b_queen),
            Piece::b_king => Some(self.b_king),
        }
    }

    /// Replace the occupancy mask of one piece identity.
    pub fn set_piece(&mut self, piece: Piece, bitboard: u64)
        ensures
            *final(self) == old(self).with_mask(piece, bitboard),
    {
        match piece {
            Piece::w_pawn => self.w_pawn = bitboard,
            Piece::w_knight => self.w_knight = bitboard,
            Piece::w_bishop => self.w_bishop = bitboard,
            Piece::w_rook => self.w_rook = bitboard,
            Piece::w_queen => self.w_queen = bitboard,
            Piece::w_king => self.w_king = bitboard,
            Piece::b_pawn => self.b_pawn = bitboard,
            Piece::b_knight => self.b_knight = bitboard,
            Piece::b_bishop => self.b_bishop = bitboard,
            Piece::b_rook => self.b_rook = bitboard,
            Piece::b_queen => self.b_queen = bitboard,
            Piece::b_king => self.b_king = bitboard,
        }
    }

    /// Whether file `x` and rank `y` lie on the board.
    pub fn in_bounds(x: i32, y: i32) -> (r: bool)
        ensures
            r == (0 <= x < 8 && 0 <= y < 8),
    {
        if x < 8 && x >= 0 && y < 8 && y >= 0 {
            true
        } else {
            false
        }
    }

    /// Mask of the squares no piece occupies.
    pub fn empty(&self) -> (r: u64)
        ensures
            r == self.empty_mask(),
    {
        !(self.w_pawn | self.w_knight | self.w_bishop | self.w_rook | self.w_queen | self.w_king
            | self.b_pawn | self.b_knight | self.b_bishop | self.b_rook | self.b_queen
            | self.b_king)
    }

    /// Mask of all occupied squares: the union of the twelve masks.
    pub fn occupied(&self) -> (r: u64)
        ensures
            r == self.occupied_mask(),
    {
        self.w_pawn | self.w_knight | self.w_bishop | self.w_rook | self.w_queen | self.w_king
            | self.b_pawn | self.b_knight | self.b_bishop | self.b_rook | self.b_queen
            | self.b_king
    }

    /// Mask of the squares holding white pieces.
    pub fn white_pieces(&self) -> (r: u64)
        ensures
            r == self.white_mask(),
    {
        self.w_pawn | self.w_knight | self.w_bishop | self.w_rook | self.w_queen | self.w_king
    }

    /// Mask of the squares holding black pieces.
    pub fn black_pieces(&self) -> (r: u64)
        ensures
            r == self.black_mask(),
    {
        self.b_pawn | self.b_knight | self.b_bishop | self.b_rook | self.b_queen | self.b_king
    }

    /// Mask of the squares holding the side to move's own pieces.
    pub fn current_pieces(&self) -> (r: u64)
        ensures
            r == (if self.turn {
                self.white_mask()
            } else {
                self.black_mask()
            }),
    {
        if self.turn {
            self.white_pieces()
        } else {
            self.black_pieces()
        }
    }

    /// Mask of the squares holding the other side's pieces.
    pub fn opponent_pieces(&self) -> (r: u64)
        ensures
            r == self.enemy_mask(self.turn),
    {
        if self.turn {
            self.black_pieces()
        } else {
            self.white_pieces()
        }
    }

    /// Mask of the squares holding pieces the side given by `for_white`
    /// may capture.
    pub fn open_for_attack(&self, for_white: bool) -> (r: u64)
        ensures
            r == self.enemy_mask(for_white),
    {
        if for_white {
            self.b_pawn | self.b_knight | self.b_bishop | self.b_rook | self.b_queen | self.b_king
        } else {
            self.w_pawn | self.w_knight | self.w_bishop | self.w_rook | self.w_queen | self.w_king
        }
    }
}

impl Move {
    /// The move as ((source rank, source file), (destination rank,
    /// destination file), promotion flag).
    pub fn convert(&self) -> (r: ((i8, i8), (i8, i8), bool))
        ensures
            r == (
                (
                    (u64_trailing_zeros(self.start) / 8) as i8,
                    (u64_trailing_zeros(self.start) % 8) as i8,
                ),
                (
                    (u64_trailing_zeros(self.dest) / 8) as i8,
                    (u64_trailing_zeros(self.dest) % 8) as i8,
                ),
                self.promotion,
            ),
    {
        proof {
            broadcast use vstd::std_specs::bits::axiom_u64_trailing_zeros;

        }
        (
            (
                (self.start.trailing_zeros() / 8) as i8,
                (self.start.trailing_zeros() % 8) as i8,
            ),
            ((self.dest.trailing_zeros() / 8) as i8, (self.dest.trailing_zeros() % 8) as i8),
            self.promotion,
        )
    }
}

} // verus!
