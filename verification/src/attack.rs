//! The attack oracle: whether a given square is attacked by one side's
//! pieces, used for check detection and castling safety.
use vstd::prelude::*;
use crate::bits::bit;
use crate::bits::lemma_bit;
use crate::board::ChessBoard;
use vstd::std_specs::bits::u64_trailing_zeros;

verus! {

/// File `x` and rank `y` lie on the board.
pub open spec fn on_board(x: int, y: int) -> bool {
    0 <= x < 8 && 0 <= y < 8
}

/// The pawn mask of one side.
pub open spec fn pawns_of(b: ChessBoard, white: bool) -> u64 {
    if white {
        b.w_pawn
    } else {
        b.b_pawn
    }
}

/// The knight mask of one side.
pub open spec fn knights_of(b: ChessBoard, white: bool) -> u64 {
    if white {
        b.w_knight
    } else {
        b.b_knight
    }
}

/// The bishop mask of one side.
pub open spec fn bishops_of(b: ChessBoard, white: bool) -> u64 {
    if white {
        b.w_bishop
    } else {
        b.b_bishop
    }
}

/// The rook mask of one side.
pub open spec fn rooks_of(b: ChessBoard, white: bool) -> u64 {
    if white {
        b.w_rook
    } else {
        b.b_rook
    }
}

/// The queen mask of one side.
pub open spec fn queens_of(b: ChessBoard, white: bool) -> u64 {
    if white {
        b.w_queen
    } else {
        b.b_queen
    }
}

/// The king mask of one side.
pub open spec fn kings_of(b: ChessBoard, white: bool) -> u64 {
    if white {
        b.w_king
    } else {
        b.b_king
    }
}

/// A pawn of the attacking side stands on one of the two squares from which
/// it could capture onto square `pos` (one rank behind it, one file aside).
pub open spec fn pawn_attack(b: ChessBoard, pos: int, by_white: bool) -> bool {
    let col = pos % 8;
    let a1 = if by_white {
        pos - 9
    } else {
        pos + 7
    };
    let a2 = if by_white {
        pos - 7
    } else {
        pos + 9
    };
    (col != 0 && 0 <= a1 < 64 && bit(pawns_of(b, by_white), a1)) || (col != 7 && 0 <= a2 < 64
        && bit(pawns_of(b, by_white), a2))
}

/// The eight knight offsets, as (rank step, file step).
pub open spec fn knight_off(k: int) -> (int, int) {
    if k == 0 {
        (2, 1)
    } else if k == 1 {
        (2, -1)
    } else if k == 2 {
        (-2, 1)
    } else if k == 3 {
        (-2, -1)
    } else if k == 4 {
        (1, 2)
    } else if k == 5 {
        (1, -2)
    } else if k == 6 {
        (-1, 2)
    } else {
        (-1, -2)
    }
}

/// A knight of the attacking side stands a knight's jump away from the
/// square at `row`, `col`.
pub open spec fn knight_cond(b: ChessBoard, by_white: bool, row: int, col: int, k: int) -> bool {
    let (dy, dx) = knight_off(k);
    on_board(col + dx, row + dy) && bit(knights_of(b, by_white), (row + dy) * 8 + (col + dx))
}

pub open spec fn knight_attack(b: ChessBoard, by_white: bool, row: int, col: int) -> bool {
    exists|k: int| 0 <= k < 8 && #[trigger] knight_cond(b, by_white, row, col, k)
}

/// The eight queen directions, as (rank step, file step): first the four
/// orthogonals, then the four diagonals.
pub open spec fn slide_off(k: int) -> (int, int) {
    if k == 0 {
        (0, 1)
    } else if k == 1 {
        (0, -1)
    } else if k == 2 {
        (1, 0)
    } else if k == 3 {
        (-1, 0)
    } else if k == 4 {
        (1, 1)
    } else if k == 5 {
        (1, -1)
    } else if k == 6 {
        (-1, 1)
    } else {
        (-1, -1)
    }
}

/// Walking outward from (`row`, `col`) in direction (`dy`, `dx`), starting
/// at distance `dist`: the first occupied square reached decides the walk.
/// It attacks when it holds the attacker's queen, a rook on an orthogonal,
/// a bishop on a diagonal, or the king at distance one; any other piece
/// blocks the direction.
pub open spec fn ray_attack(
    b: ChessBoard,
    by_white: bool,
    row: int,
    col: int,
    dy: int,
    dx: int,
    dist: int,
) -> bool
    decreases 10 - dist,
{
    if dist >= 10 || !on_board(col + dx * dist, row + dy * dist) {
        false
    } else {
        let sq = (row + dy * dist) * 8 + (col + dx * dist);
        let diagonal = dx != 0 && dy != 0;
        if bit(queens_of(b, by_white), sq) || bit(rooks_of(b, by_white), sq) || bit(
            bishops_of(b, by_white),
            sq,
        ) || bit(kings_of(b, by_white), sq) {
            bit(queens_of(b, by_white), sq) || (!diagonal && bit(rooks_of(b, by_white), sq)) || (
            diagonal && bit(bishops_of(b, by_white), sq)) || (dist == 1 && bit(
                kings_of(b, by_white),
                sq,
            ))
        } else if bit(b.occupied_mask(), sq) {
            false
        } else {
            ray_attack(b, by_white, row, col, dy, dx, dist + 1)
        }
    }
}

pub open spec fn ray_cond(b: ChessBoard, by_white: bool, row: int, col: int, k: int) -> bool {
    let (dy, dx) = slide_off(k);
    ray_attack(b, by_white, row, col, dy, dx, 1)
}

pub open spec fn slide_attack(b: ChessBoard, by_white: bool, row: int, col: int) -> bool {
    exists|k: int| 0 <= k < 8 && #[trigger] ray_cond(b, by_white, row, col, k)
}

/// The square numbered `pos` is attacked by the side given by `by_white`:
/// by a pawn capture, a knight jump, or along an unobstructed queen
/// direction by a suitable slider or the adjacent king.
pub open spec fn spec_attacked(b: ChessBoard, pos: int, by_white: bool) -> bool {
    pawn_attack(b, pos, by_white) || knight_attack(b, by_white, pos / 8, pos % 8) || slide_attack(
        b,
        by_white,
        pos / 8,
        pos % 8,
    )
}

/// The king of one side stands on a square attacked by the other side.
pub open spec fn spec_king_attacked(b: ChessBoard, for_white: bool) -> bool {
    spec_attacked(b, u64_trailing_zeros(kings_of(b, for_white)) as int, !for_white)
}

impl ChessBoard {
    /// Whether the square given by the single set bit of `square` is
    /// attacked by the side given by `by_white` on the current position.
    pub fn is_square_under_attack(&self, square: u64, by_white: bool) -> (r: bool)
        ensures
            r == spec_attacked(*self, u64_trailing_zeros(square) as int, by_white),
    {
        proof {
            broadcast use vstd::std_specs::bits::axiom_u64_trailing_zeros;

            lemma_bit();
        }
        let pos = square.trailing_zeros() as i32;
        let row = pos / 8;
        let col = pos % 8;

        let (pawns, knights, bishops, rooks, queen, king) = if by_white {
            (self.w_pawn, self.w_knight, self.w_bishop, self.w_rook, self.w_queen, self.w_king)
        } else {
            (self.b_pawn, self.b_knight, self.b_bishop, self.b_rook, self.b_queen, self.b_king)
        };

        // Pawn attacks: the two squares a pawn of that color would capture from.
        let dir: i32 = if by_white {
            8
        } else {
            -8
        };
        let (left, right): (Option<i32>, Option<i32>) = match (by_white, col) {
            (true, 0) => (None, Some(pos - dir + dir / 8)),
            (true, 7) => (Some(pos - dir - dir / 8), None),
            (true, _) => (Some(pos - dir - dir / 8), Some(pos - dir + dir / 8)),
            (false, 0) => (None, Some(pos - dir - dir / 8)),
            (false, 7) => (Some(pos - dir + dir / 8), None),
            (false, _) => (Some(pos - dir + dir / 8), Some(pos - dir - dir / 8)),
        };
        if let Some(x) = left {
            if 0 <= x && x < 64 {
                if (1u64 << x) & pawns != 0 {
                    return true;
                }
            }
        }
        if let Some(x) = right {
            if 0 <= x && x < 64 {
                if (1u64 << x) & pawns != 0 {
                    return true;
                }
            }
        }

        // Knight attacks: the eight jump squares around the target.
        let mut k: usize = 0;
        while k < 8
            invariant
                k <= 8,
                pos == u64_trailing_zeros(square) as int,
                row == pos / 8,
                col == pos % 8,
                0 <= pos <= 64,
                knights == knights_of(*self, by_white),
                forall|j: int|
                    0 <= j < k ==> !#[trigger] knight_cond(
                        *self,
                        by_white,
                        row as int,
                        col as int,
                        j,
                    ),
            decreases 8 - k,
        {
            proof {
                lemma_bit();
            }
            let (dy, dx) = knight_step(k);
            let new_row = row + dy;
            let new_col = col + dx;
            if ChessBoard::in_bounds(new_col, new_row) {
                let jump_square = 1u64 << ((new_row * 8 + new_col) as u64);
                if jump_square & knights != 0 {
                    proof {
                        assert(knight_cond(*self, by_white, row as int, col as int, k as int));
                    }
                    return true;
                }
                proof {
                    assert(!knight_cond(*self, by_white, row as int, col as int, k as int));
                }
            } else {
                proof {
                    assert(!knight_cond(*self, by_white, row as int, col as int, k as int));
                }
            }
            k = k + 1;
        }

        // Sliding and king attacks: walk each of the eight queen directions
        // outward until a piece or the edge stops it.
        let mut d: usize = 0;
        while d < 8
            invariant
                d <= 8,
                pos == u64_trailing_zeros(square) as int,
                row == pos / 8,
                col == pos % 8,
                0 <= pos <= 64,
                queen == queens_of(*self, by_white),
                rooks == rooks_of(*self, by_white),
                bishops == bishops_of(*self, by_white),
                king == kings_of(*self, by_white),
                forall|j: int| 0 <= j < d ==> !#[trigger] ray_cond(*self, by_white, row as int, col as int, j),
            decreases 8 - d,
        {
            let (dy, dx) = slide_step(d);
            let mut dist: i32 = 1;
            loop
                invariant_except_break
                    1 <= dist <= 9,
                    0 <= pos <= 64,
                    pos == u64_trailing_zeros(square) as int,
                    row == pos / 8,
                    col == pos % 8,
                    d < 8,
                    -1 <= dy <= 1,
                    -1 <= dx <= 1,
                    (dy as int, dx as int) == slide_off(d as int),
                    queen == queens_of(*self, by_white),
                    rooks == rooks_of(*self, by_white),
                    bishops == bishops_of(*self, by_white),
                    king == kings_of(*self, by_white),
                    ray_attack(*self, by_white, row as int, col as int, dy as int, dx as int, 1)
                        == ray_attack(
                        *self,
                        by_white,
                        row as int,
                        col as int,
                        dy as int,
                        dx as int,
                        dist as int,
                    ),
                ensures
                    !ray_attack(*self, by_white, row as int, col as int, dy as int, dx as int, 1),
                decreases 10 - dist,
            {
                proof {
                    lemma_bit();
                }
                proof {
                    assert(-9 <= dy * dist <= 9 && -9 <= dx * dist <= 9) by {
                        if dy == 0 {
                            assert(dy * dist == 0);
                        }
                        if dx == 0 {
                            assert(dx * dist == 0);
                        }
                    }
                }
                let new_row = row + dy * dist;
                let new_col = col + dx * dist;
                if !ChessBoard::in_bounds(new_col, new_row) {
                    proof {
                        assert(!ray_attack(
                            *self,
                            by_white,
                            row as int,
                            col as int,
                            dy as int,
                            dx as int,
                            dist as int,
                        ));
                    }
                    break ;
                }
                let check_square = 1u64 << ((new_row * 8 + new_col) as u64);
                let is_diagonal = dx != 0 && dy != 0;
                if check_square & (queen | rooks | bishops | king) != 0 {
                    if check_square & queen != 0 || (!is_diagonal && check_square & rooks != 0) || (
                    is_diagonal && check_square & bishops != 0) || (dist == 1 && check_square & king
                        != 0) {
                        proof {
                            assert(ray_attack(
                                *self,
                                by_white,
                                row as int,
                                col as int,
                                dy as int,
                                dx as int,
                                dist as int,
                            ));
                            assert(ray_cond(*self, by_white, row as int, col as int, d as int));
                        }
                        return true;
                    }
                    proof {
                        assert(!ray_attack(
                            *self,
                            by_white,
                            row as int,
                            col as int,
                            dy as int,
                            dx as int,
                            dist as int,
                        ));
                    }
                    break ;
                } else if check_square & (self.w_pawn | self.w_knight | self.w_bishop | self.w_rook
                    | self.w_queen | self.w_king | self.b_pawn | self.b_knight | self.b_bishop
                    | self.b_rook | self.b_queen | self.b_king) != 0 {
                    proof {
                        assert(!ray_attack(
                            *self,
                            by_white,
                            row as int,
                            col as int,
                            dy as int,
                            dx as int,
                            dist as int,
                        ));
                    }
                    break ;
                }
                proof {
                    assert(dist <= 8);
                    assert(ray_attack(
                        *self,
                        by_white,
                        row as int,
                        col as int,
                        dy as int,
                        dx as int,
                        dist as int,
                    ) == ray_attack(
                        *self,
                        by_white,
                        row as int,
                        col as int,
                        dy as int,
                        dx as int,
                        dist + 1,
                    ));
                }
                dist = dist + 1;
            }
            d = d + 1;
        }

        false
    }

    /// Whether the king of the side given by `for_white` is attacked by the
    /// other side.
    pub fn is_king_under_attack(&self, for_white: bool) -> (r: bool)
        ensures
            r == spec_king_attacked(*self, for_white),
    {
        let king = if for_white {
            self.w_king
        } else {
            self.b_king
        };
        self.is_square_under_attack(king, !for_white)
    }
}

/// The knight offset numbered `k`, as executable steps.
pub(crate) fn knight_step(k: usize) -> (r: (i32, i32))
    requires
        k < 8,
    ensures
        (r.0 as int, r.1 as int) == knight_off(k as int),
        -2 <= r.0 <= 2,
        -2 <= r.1 <= 2,
{
    if k == 0 {
        (2, 1)
    } else if k == 1 {
        (2, -1)
    } else if k == 2 {
        (-2, 1)
    } else if k == 3 {
        (-2, -1)
    } else if k == 4 {
        (1, 2)
    } else if k == 5 {
        (1, -2)
    } else if k == 6 {
        (-1, 2)
    } else {
        (-1, -2)
    }
}

/// The queen direction numbered `k`, as executable steps.
pub(crate) fn slide_step(k: usize) -> (r: (i32, i32))
    requires
        k < 8,
    ensures
        (r.0 as int, r.1 as int) == slide_off(k as int),
        -1 <= r.0 <= 1,
        -1 <= r.1 <= 1,
{
    if k == 0 {
        (0, 1)
    } else if k == 1 {
        (0, -1)
    } else if k == 2 {
        (1, 0)
    } else if k == 3 {
        (-1, 0)
    } else if k == 4 {
        (1, 1)
    } else if k == 5 {
        (1, -1)
    } else if k == 6 {
        (-1, 1)
    } else {
        (-1, -1)
    }
}

} // verus!
