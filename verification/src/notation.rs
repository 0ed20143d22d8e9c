//! Position notation: parsing a position from text and rendering it back.
//!
//! The text has whitespace-separated fields: piece placement (eight ranks,
//! top first, separated by `/`, each a mix of digits 1–8 for empty runs and
//! piece letters), the side to move (`w` or `b`), the castling rights
//! (letters of `KQkq`, or `-`), and at least one further field that is
//! accepted and ignored.
use vstd::prelude::*;
use crate::bits::bit;
use crate::bits::lemma_bit;
use crate::board::ChessBoard;
use crate::board::Piece;
use vstd::string::StringExecFns;

verus! {

/// The whitespace that separates fields.
pub open spec fn is_space(c: char) -> bool {
    c == ' ' || c == '\t' || c == '\n' || c == '\r'
}

/// A digit standing for a run of one to eight empty squares.
pub open spec fn is_fen_digit(c: char) -> bool {
    '1' <= c && c <= '8'
}

/// The run length a digit stands for.
pub open spec fn fen_digit_val(c: char) -> int {
    c as int - '0' as int
}

/// The digit standing for a run of `n` empty squares.
pub open spec fn digit_char(n: int) -> char {
    if n == 1 {
        '1'
    } else if n == 2 {
        '2'
    } else if n == 3 {
        '3'
    } else if n == 4 {
        '4'
    } else if n == 5 {
        '5'
    } else if n == 6 {
        '6'
    } else if n == 7 {
        '7'
    } else {
        '8'
    }
}

/// The piece a placement letter stands for: white pieces uppercase, black
/// lowercase.
pub open spec fn piece_of_char(c: char) -> Option<Piece> {
    if c == 'P' {
        Some(Piece::w_pawn)
    } else if c == 'N' {
        Some(Piece::w_knight)
    } else if c == 'B' {
        Some(Piece::w_bishop)
    } else if c == 'R' {
        Some(Piece::w_rook)
    } else if c == 'Q' {
        Some(Piece::w_queen)
    } else if c == 'K' {
        Some(Piece::w_king)
    } else if c == 'p' {
        Some(Piece::b_pawn)
    } else if c == 'n' {
        Some(Piece::b_knight)
    } else if c == 'b' {
        Some(Piece::b_bishop)
    } else if c == 'r' {
        Some(Piece::b_rook)
    } else if c == 'q' {
        Some(Piece::b_queen)
    } else if c == 'k' {
        Some(Piece::b_king)
    } else {
        None
    }
}

/// The placement letter of a piece.
pub open spec fn piece_char(p: Piece) -> char {
    match p {
        Piece::w_pawn => 'P',
        Piece::w_knight => 'N',
        Piece::w_bishop => 'B',
        Piece::w_rook => 'R',
        Piece::w_queen => 'Q',
        Piece::w_king => 'K',
        Piece::b_pawn => 'p',
        Piece::b_knight => 'n',
        Piece::b_bishop => 'b',
        Piece::b_rook => 'r',
        Piece::b_queen => 'q',
        Piece::b_king => 'k',
    }
}

/// The board with one more piece placed on square `sq`.
pub open spec fn place(b: ChessBoard, p: Piece, sq: int) -> ChessBoard {
    b.with_mask(p, b.mask_of(p) | (1u64 << (sq as u64)))
}

/// Fold of the placement field from position `i` with the given rank, file
/// and accumulated board: `/` closes a rank that must span exactly eight
/// files, a digit skips that many files, a letter places a piece; at the
/// end the last rank must be complete and all eight ranks seen.
pub open spec fn parse_pl(s: Seq<char>, i: int, rank: int, file: int, acc: ChessBoard) -> Option<
    ChessBoard,
>
    decreases s.len() - i,
{
    if !(0 <= i < s.len()) {
        if rank == 0 && file == 8 {
            Some(acc)
        } else {
            None
        }
    } else {
        let c = s[i];
        if c == '/' {
            if file == 8 && rank > 0 {
                parse_pl(s, i + 1, rank - 1, 0, acc)
            } else {
                None
            }
        } else if is_fen_digit(c) {
            parse_pl(s, i + 1, rank, file + fen_digit_val(c), acc)
        } else {
            match piece_of_char(c) {
                Some(p) => if 0 <= rank < 8 && 0 <= file < 8 {
                    parse_pl(s, i + 1, rank, file + 1, place(acc, p, rank * 8 + file))
                } else {
                    None
                },
                None => None,
            }
        }
    }
}

/// The side-to-move field: exactly `w` or `b`.
pub open spec fn parse_turn(f: Seq<char>) -> Option<bool> {
    if f.len() == 1 && f[0] == 'w' {
        Some(true)
    } else if f.len() == 1 && f[0] == 'b' {
        Some(false)
    } else {
        None
    }
}

/// Fold of the castling field from position `i`: each letter sets its
/// corner's bit, `-` sets nothing.
pub open spec fn parse_castle(f: Seq<char>, i: int, acc: u8) -> Option<u8>
    decreases f.len() - i,
{
    if !(0 <= i < f.len()) {
        Some(acc)
    } else {
        let c = f[i];
        if c == 'k' {
            parse_castle(f, i + 1, acc | 0b1000)
        } else if c == 'q' {
            parse_castle(f, i + 1, acc | 0b0100)
        } else if c == 'K' {
            parse_castle(f, i + 1, acc | 0b0010)
        } else if c == 'Q' {
            parse_castle(f, i + 1, acc | 0b0001)
        } else if c == '-' {
            parse_castle(f, i + 1, acc)
        } else {
            None
        }
    }
}

/// The first position at or after `i` that ends the word starting there:
/// the first space, or the end of the text.
pub open spec fn word_end(s: Seq<char>, i: int) -> int
    decreases s.len() - i,
{
    if !(0 <= i < s.len()) {
        i
    } else if is_space(s[i]) {
        i
    } else {
        word_end(s, i + 1)
    }
}

/// The whitespace-separated fields of the text from position `i` on.
pub open spec fn fields_from(s: Seq<char>, i: int) -> Seq<Seq<char>>
    decreases s.len() - i, 1int,
{
    if !(0 <= i < s.len()) {
        Seq::empty()
    } else if is_space(s[i]) {
        fields_from(s, i + 1)
    } else {
        seq![s.subrange(i, word_end(s, i))] + fields_from_at(s, word_end(s, i), i)
    }
}

/// Helper carrying the proof that the word end lies past the word start.
pub open spec fn fields_from_at(s: Seq<char>, e: int, i: int) -> Seq<Seq<char>>
    decreases s.len() - i, 0int,
{
    if i < e <= s.len() {
        fields_from(s, e)
    } else {
        Seq::empty()
    }
}

/// The whitespace-separated fields of the text.
pub open spec fn spec_fields(s: Seq<char>) -> Seq<Seq<char>> {
    fields_from(s, 0)
}

/// What a notation text denotes: `None` when it is malformed, else the
/// position it describes. The text must hold at least four fields; the
/// first three are the placement, the side to move and the castling
/// rights; everything further is accepted and ignored.
pub open spec fn spec_parse(s: Seq<char>) -> Option<ChessBoard> {
    let fs = spec_fields(s);
    if fs.len() < 4 {
        None
    } else {
        match parse_pl(fs[0], 0, 7, 0, crate::board::blank_board()) {
            None => None,
            Some(b0) => match parse_turn(fs[1]) {
                None => None,
                Some(t) => match parse_castle(fs[2], 0, 0) {
                    None => None,
                    Some(cr) => Some(ChessBoard { turn: t, castle_rights: cr, ..b0 }),
                },
            },
        }
    }
}

/// The letter of the piece on a square, or `None` when it is empty; masks
/// are consulted in a fixed priority order, immaterial when they are
/// disjoint.
pub open spec fn square_char(b: ChessBoard, sq: int) -> Option<char> {
    if bit(b.w_pawn, sq) {
        Some('P')
    } else if bit(b.w_king, sq) {
        Some('K')
    } else if bit(b.w_bishop, sq) {
        Some('B')
    } else if bit(b.w_rook, sq) {
        Some('R')
    } else if bit(b.w_queen, sq) {
        Some('Q')
    } else if bit(b.w_knight, sq) {
        Some('N')
    } else if bit(b.b_pawn, sq) {
        Some('p')
    } else if bit(b.b_king, sq) {
        Some('k')
    } else if bit(b.b_bishop, sq) {
        Some('b')
    } else if bit(b.b_rook, sq) {
        Some('r')
    } else if bit(b.b_queen, sq) {
        Some('q')
    } else if bit(b.b_knight, sq) {
        Some('n')
    } else {
        None
    }
}

/// One rank rendered from `file` on, with `run` empty squares pending: a
/// pending run is flushed as a digit before any piece letter and at the
/// rank's end.
pub open spec fn render_rank_from(b: ChessBoard, rank: int, file: int, run: int) -> Seq<char>
    decreases 8 - file,
{
    if file < 0 || file >= 8 {
        if run > 0 {
            seq![digit_char(run)]
        } else {
            Seq::empty()
        }
    } else {
        match square_char(b, rank * 8 + file) {
            Some(c) => (if run > 0 {
                seq![digit_char(run), c]
            } else {
                seq![c]
            }) + render_rank_from(b, rank, file + 1, 0),
            None => render_rank_from(b, rank, file + 1, run + 1),
        }
    }
}

/// The placement field for ranks `rank` down to 0, separated by `/`.
pub open spec fn render_ranks(b: ChessBoard, rank: int) -> Seq<char>
    decreases rank,
{
    if rank < 0 {
        Seq::empty()
    } else if rank == 0 {
        render_rank_from(b, 0, 0, 0)
    } else {
        render_rank_from(b, rank, 0, 0) + seq!['/'] + render_ranks(b, rank - 1)
    }
}

/// The side-to-move letter.
pub open spec fn turn_char(b: ChessBoard) -> char {
    if b.turn {
        'w'
    } else {
        'b'
    }
}

/// The castling field: the held corners' letters in the fixed order
/// `K Q k q`, or `-` when no corner is held.
pub open spec fn castle_field(b: ChessBoard) -> Seq<char> {
    if b.castle_rights == 0 {
        seq!['-']
    } else {
        (if b.castle_rights & 0b0010 != 0 {
            seq!['K']
        } else {
            Seq::empty()
        }) + (if b.castle_rights & 0b0001 != 0 {
            seq!['Q']
        } else {
            Seq::empty()
        }) + (if b.castle_rights & 0b1000 != 0 {
            seq!['k']
        } else {
            Seq::empty()
        }) + (if b.castle_rights & 0b0100 != 0 {
            seq!['q']
        } else {
            Seq::empty()
        })
    }
}

/// The full rendering: placement, side to move, castling rights, and a
/// literal placeholder for the remaining fields.
pub open spec fn spec_render(b: ChessBoard) -> Seq<char> {
    render_ranks(b, 7) + seq![' ', turn_char(b), ' '] + castle_field(b) + seq![' ', '-']
}

/// Append one piece letter to the text being built.
fn append_piece_char(fen: &mut String, p: Piece)
    ensures
        final(fen)@ == old(fen)@ + seq![piece_char(p)],
{
    match p {
        Piece::w_pawn => {
            proof {
                reveal_strlit("P");
            }
            fen.append("P");
        },
        Piece::w_knight => {
            proof {
                reveal_strlit("N");
            }
            fen.append("N");
        },
        Piece::w_bishop => {
            proof {
                reveal_strlit("B");
            }
            fen.append("B");
        },
        Piece::w_rook => {
            proof {
                reveal_strlit("R");
            }
            fen.append("R");
        },
        Piece::w_queen => {
            proof {
                reveal_strlit("Q");
            }
            fen.append("Q");
        },
        Piece::w_king => {
            proof {
                reveal_strlit("K");
            }
            fen.append("K");
        },
        Piece::b_pawn => {
            proof {
                reveal_strlit("p");
            }
            fen.append("p");
        },
        Piece::b_knight => {
            proof {
                reveal_strlit("n");
            }
            fen.append("n");
        },
        Piece::b_bishop => {
            proof {
                reveal_strlit("b");
            }
            fen.append("b");
        },
        Piece::b_rook => {
            proof {
                reveal_strlit("r");
            }
            fen.append("r");
        },
        Piece::b_queen => {
            proof {
                reveal_strlit("q");
            }
            fen.append("q");
        },
        Piece::b_king => {
            proof {
                reveal_strlit("k");
            }
            fen.append("k");
        },
    }
    proof {
        assert(fen@ =~= old(fen)@ + seq![piece_char(p)]);
    }
}

/// Append the digit of an empty run to the text being built.
fn append_digit(fen: &mut String, n: i32)
    requires
        1 <= n <= 8,
    ensures
        final(fen)@ == old(fen)@ + seq![digit_char(n as int)],
{
    if n == 1 {
        proof {
            reveal_strlit("1");
        }
        fen.append("1");
    } else if n == 2 {
        proof {
            reveal_strlit("2");
        }
        fen.append("2");
    } else if n == 3 {
        proof {
            reveal_strlit("3");
        }
        fen.append("3");
    } else if n == 4 {
        proof {
            reveal_strlit("4");
        }
        fen.append("4");
    } else if n == 5 {
        proof {
            reveal_strlit("5");
        }
        fen.append("5");
    } else if n == 6 {
        proof {
            reveal_strlit("6");
        }
        fen.append("6");
    } else if n == 7 {
        proof {
            reveal_strlit("7");
        }
        fen.append("7");
    } else {
        proof {
            reveal_strlit("8");
        }
        fen.append("8");
    }
    proof {
        assert(fen@ =~= old(fen)@ + seq![digit_char(n as int)]);
    }
}

impl ChessBoard {
    /// Render the position: ranks from top to bottom with empty runs as
    /// digits, the side-to-move letter, the castling letters in the order
    /// `K Q k q` (`-` when none), and a placeholder for the ignored
    /// trailing fields.
    pub fn to_fen(&self) -> (r: String)
        ensures
            r@ == spec_render(*self),
    {
        proof {
            lemma_bit();
        }
        let mut fen = String::new();
        let mut rank: i32 = 7;
        while rank >= 0
            invariant
                -1 <= rank <= 7,
                fen@ + render_ranks(*self, rank as int) == render_ranks(*self, 7),
            decreases rank + 1,
        {
            proof {
                lemma_bit();
            }
            let ghost rank_top = fen@;
            let mut empty_squares: i32 = 0;
            let mut file: i32 = 0;
            while file < 8
                invariant
                    0 <= rank <= 7,
                    0 <= file <= 8,
                    0 <= empty_squares <= file,
                    fen@ + render_rank_from(*self, rank as int, file as int, empty_squares as int)
                        == rank_top + render_rank_from(*self, rank as int, 0, 0),
                decreases 8 - file,
            {
                proof {
                    lemma_bit();
                }
                let sq = (rank * 8 + file) as u64;
                let piece_found: Option<Piece> = if self.w_pawn & (1u64 << sq) != 0 {
                    Some(Piece::w_pawn)
                } else if self.w_king & (1u64 << sq) != 0 {
                    Some(Piece::w_king)
                } else if self.w_bishop & (1u64 << sq) != 0 {
                    Some(Piece::w_bishop)
                } else if self.w_rook & (1u64 << sq) != 0 {
                    Some(Piece::w_rook)
                } else if self.w_queen & (1u64 << sq) != 0 {
                    Some(Piece::w_queen)
                } else if self.w_knight & (1u64 << sq) != 0 {
                    Some(Piece::w_knight)
                } else if self.b_pawn & (1u64 << sq) != 0 {
                    Some(Piece::b_pawn)
                } else if self.b_king & (1u64 << sq) != 0 {
                    Some(Piece::b_king)
                } else if self.b_bishop & (1u64 << sq) != 0 {
                    Some(Piece::b_bishop)
                } else if self.b_rook & (1u64 << sq) != 0 {
                    Some(Piece::b_rook)
                } else if self.b_queen & (1u64 << sq) != 0 {
                    Some(Piece::b_queen)
                } else if self.b_knight & (1u64 << sq) != 0 {
                    Some(Piece::b_knight)
                } else {
                    None
                };
                match piece_found {
                    Some(p) => {
                        proof {
                            assert(square_char(*self, rank as int * 8 + file as int) == Some(
                                piece_char(p),
                            ));
                        }
                        if empty_squares > 0 {
                            append_digit(&mut fen, empty_squares);
                            empty_squares = 0;
                        }
                        append_piece_char(&mut fen, p);
                    },
                    None => {
                        proof {
                            assert(square_char(*self, rank as int * 8 + file as int)
                                == None::<char>);
                        }
                        empty_squares = empty_squares + 1;
                    },
                }
                file = file + 1;
            }
            if empty_squares > 0 {
                append_digit(&mut fen, empty_squares);
            }
            if rank > 0 {
                proof {
                    reveal_strlit("/");
                }
                fen.append("/");
                proof {
                    assert(fen@ =~= rank_top + render_rank_from(*self, rank as int, 0, 0) + seq![
                        '/',
                    ]);
                }
            }
            rank = rank - 1;
            proof {
                assert(fen@ + render_ranks(*self, rank as int) =~= render_ranks(*self, 7));
            }
        }
        proof {
            reveal_strlit(" ");
            reveal_strlit("w");
            reveal_strlit("b");
            reveal_strlit("-");
            reveal_strlit("K");
            reveal_strlit("Q");
            reveal_strlit("k");
            reveal_strlit("q");
            reveal_strlit(" -");
        }
        fen.append(" ");
        if self.turn {
            fen.append("w");
        } else {
            fen.append("b");
        }
        fen.append(" ");
        let ghost before_castle = fen@;
        if self.castle_rights == 0 {
            fen.append("-");
        } else {
            if self.castle_rights & 0b0010 != 0 {
                fen.append("K");
            }
            if self.castle_rights & 0b0001 != 0 {
                fen.append("Q");
            }
            if self.castle_rights & 0b1000 != 0 {
                fen.append("k");
            }
            if self.castle_rights & 0b0100 != 0 {
                fen.append("q");
            }
        }
        proof {
            assert(fen@ =~= before_castle + castle_field(*self));
        }
        fen.append(" -");
        proof {
            assert(fen@ =~= spec_render(*self));
        }
        fen
    }
}

/// The word end lies between the word start and the end of the text.
proof fn lemma_word_end_bounds(s: Seq<char>, i: int)
    requires
        0 <= i <= s.len(),
    ensures
        i <= word_end(s, i) <= s.len(),
    decreases s.len() - i,
{
    if i < s.len() && !is_space(s[i]) {
        lemma_word_end_bounds(s, i + 1);
    }
}

/// A rank already wider than eight files can never close, so the placement
/// is malformed whatever follows.
proof fn lemma_parse_pl_overfile(s: Seq<char>, i: int, rank: int, file: int, acc: ChessBoard)
    requires
        file > 8,
    ensures
        parse_pl(s, i, rank, file, acc) == None::<ChessBoard>,
    decreases s.len() - i,
{
    if 0 <= i < s.len() {
        let c = s[i];
        if is_fen_digit(c) {
            lemma_parse_pl_overfile(s, i + 1, rank, file + fen_digit_val(c), acc);
        }
    }
}

/// The start and end positions of each whitespace-separated field.
fn split_fields(s: &str) -> (r: Vec<(usize, usize)>)
    ensures
        r@.len() == spec_fields(s@).len(),
        forall|k: int|
            #![trigger r@[k]]
            0 <= k < r@.len() ==> (r@[k].0 < r@[k].1 <= s@.len() && spec_fields(s@)[k]
                == s@.subrange(r@[k].0 as int, r@[k].1 as int)),
{
    let n = s.unicode_len();
    let mut fields: Vec<(usize, usize)> = Vec::new();
    let ghost target = spec_fields(s@);
    let mut i: usize = 0;
    while i < n
        invariant
            n == s@.len(),
            i <= n,
            target == spec_fields(s@),
            fields@.len() <= target.len(),
            forall|k: int|
                #![trigger fields@[k]]
                0 <= k < fields@.len() ==> (fields@[k].0 < fields@[k].1 <= s@.len() && target[k]
                    == s@.subrange(fields@[k].0 as int, fields@[k].1 as int)),
            target.subrange(fields@.len() as int, target.len() as int) == fields_from(
                s@,
                i as int,
            ),
        decreases n - i,
    {
        let c = s.get_char(i);
        if c == ' ' || c == '\t' || c == '\n' || c == '\r' {
            i = i + 1;
        } else {
            let start = i;
            let mut e = i;
            loop
                invariant_except_break
                    start <= e <= n,
                    n == s@.len(),
                    word_end(s@, start as int) == word_end(s@, e as int),
                ensures
                    start <= e <= n,
                    n == s@.len(),
                    word_end(s@, start as int) == e as int,
                decreases n - e,
            {
                if e >= n {
                    proof {
                        assert(word_end(s@, e as int) == e as int);
                    }
                    break ;
                }
                let ce = s.get_char(e);
                if ce == ' ' || ce == '\t' || ce == '\n' || ce == '\r' {
                    proof {
                        assert(word_end(s@, e as int) == e as int);
                    }
                    break ;
                }
                proof {
                    assert(word_end(s@, e as int) == word_end(s@, e as int + 1));
                }
                e = e + 1;
            }
            proof {
                lemma_word_end_bounds(s@, start as int + 1);
                assert(start < e);
            }
            let ghost pre_len = fields@.len() as int;
            fields.push((start, e));
            i = e;
            proof {
                let word = s@.subrange(start as int, e as int);
                let t_len = target.len() as int;
                assert(fields_from_at(s@, e as int, start as int) == fields_from(s@, e as int));
                assert(fields_from(s@, start as int) == seq![word] + fields_from(s@, e as int));
                assert(target.subrange(pre_len, t_len) == seq![word] + fields_from(s@, e as int));
                assert(target.subrange(pre_len, t_len).len() == t_len - pre_len);
                assert((seq![word] + fields_from(s@, e as int)).len() == 1 + fields_from(
                    s@,
                    e as int,
                ).len());
                assert(t_len - pre_len == 1 + fields_from(s@, e as int).len());
                assert(target[pre_len] == target.subrange(pre_len, t_len)[0]);
                assert(target[pre_len] == word);
                assert forall|m: int|
                    0 <= m < fields_from(s@, e as int).len() implies target.subrange(
                    pre_len + 1,
                    t_len,
                )[m] == fields_from(s@, e as int)[m] by {
                    assert(target.subrange(pre_len + 1, t_len)[m] == target.subrange(
                        pre_len,
                        t_len,
                    )[m + 1]);
                    assert(target.subrange(pre_len, t_len)[m + 1] == (seq![word] + fields_from(
                        s@,
                        e as int,
                    ))[m + 1]);
                }
                assert(target.subrange(pre_len + 1, t_len) =~= fields_from(s@, e as int));
            }
        }
    }
    proof {
        assert(target.subrange(fields@.len() as int, target.len() as int) =~= Seq::<
            Seq<char>,
        >::empty());
    }
    fields
}

impl ChessBoard {
    /// Parse a position from notation text into `self`. On any malformed
    /// text the position is reset to the blank board and a message says
    /// what was wrong; otherwise `self` is exactly the described position.
    pub fn fen_to_board(&mut self, fen: &str) -> (r: Result<(), String>)
        ensures
            r.is_ok() <==> spec_parse(fen@).is_some(),
            r.is_ok() ==> spec_parse(fen@) == Some(*final(self)),
            r.is_err() ==> *final(self) == crate::board::blank_board(),
    {
        *self = Self::new();
        let parts = split_fields(fen);
        if parts.len() < 4 {
            return Err(String::from_str("the notation does not hold all the required fields"));
        }
        let ghost fs = spec_fields(fen@);

        // Piece placement.
        let (p_start, p_end) = parts[0];
        let ghost f0 = fs[0];
        proof {
            assert(f0 == fen@.subrange(p_start as int, p_end as int));
        }
        let mut acc = ChessBoard::new();
        let mut rank: i32 = 7;
        let mut file: i32 = 0;
        let mut idx = p_start;
        while idx < p_end
            invariant
                p_start <= idx <= p_end <= fen@.len(),
                fs == spec_fields(fen@),
                fs.len() >= 4,
                f0 == fs[0],
                f0 == fen@.subrange(p_start as int, p_end as int),
                0 <= rank <= 7,
                0 <= file <= 8,
                parse_pl(f0, 0, 7, 0, crate::board::blank_board()) == parse_pl(
                    f0,
                    idx - p_start,
                    rank as int,
                    file as int,
                    acc,
                ),
            decreases p_end - idx,
        {
            let c = fen.get_char(idx);
            proof {
                assert(f0[idx - p_start] == c);
            }
            if c == '/' {
                if file != 8 || rank == 0 {
                    *self = Self::new();
                    return Err(
                        String::from_str("a rank of the placement does not span exactly eight files"),
                    );
                }
                rank = rank - 1;
                file = 0;
            } else {
                let v = c as u32;
                if v >= '1' as u32 && v <= '8' as u32 {
                    proof {
                        assert(is_fen_digit(c));
                        assert(fen_digit_val(c) == v - 48);
                    }
                    file = file + (v - 48) as i32;
                    if file > 8 {
                        proof {
                            lemma_parse_pl_overfile(
                                f0,
                                idx + 1 - p_start,
                                rank as int,
                                file as int,
                                acc,
                            );
                        }
                        *self = Self::new();
                        return Err(
                            String::from_str(
                                "a rank of the placement does not span exactly eight files",
                            ),
                        );
                    }
                } else {
                    proof {
                        assert(!is_fen_digit(c));
                    }
                    let p: Piece;
                    match c {
                        'P' => {
                            p = Piece::w_pawn;
                        },
                        'N' => {
                            p = Piece::w_knight;
                        },
                        'B' => {
                            p = Piece::w_bishop;
                        },
                        'R' => {
                            p = Piece::w_rook;
                        },
                        'Q' => {
                            p = Piece::w_queen;
                        },
                        'K' => {
                            p = Piece::w_king;
                        },
                        'p' => {
                            p = Piece::b_pawn;
                        },
                        'n' => {
                            p = Piece::b_knight;
                        },
                        'b' => {
                            p = Piece::b_bishop;
                        },
                        'r' => {
                            p = Piece::b_rook;
                        },
                        'q' => {
                            p = Piece::b_queen;
                        },
                        'k' => {
                            p = Piece::b_king;
                        },
                        _ => {
                            *self = Self::new();
                            return Err(
                                String::from_str("unrecognized character in the piece placement"),
                            );
                        },
                    }
                    proof {
                        assert(piece_of_char(c) == Some(p));
                    }
                    if file >= 8 {
                        *self = Self::new();
                        return Err(
                            String::from_str(
                                "a rank of the placement does not span exactly eight files",
                            ),
                        );
                    }
                    let square = 1u64 << ((rank * 8 + file) as u64);
                    if let Some(bb) = acc.get_piece(p) {
                        acc.set_piece(p, bb | square);
                    }
                    file = file + 1;
                }
            }
            idx = idx + 1;
        }
        if rank != 0 || file != 8 {
            *self = Self::new();
            return Err(String::from_str("the placement does not describe all eight ranks"));
        }

        // Side to move.
        let (t_start, t_end) = parts[1];
        let ghost f1 = fs[1];
        proof {
            assert(f1 == fen@.subrange(t_start as int, t_end as int));
        }
        let turn: bool;
        let tc = fen.get_char(t_start);
        if t_end - t_start == 1 && tc == 'w' {
            turn = true;
        } else if t_end - t_start == 1 && tc == 'b' {
            turn = false;
        } else {
            *self = Self::new();
            return Err(String::from_str("the side-to-move field must be w or b"));
        }
        proof {
            assert(parse_turn(f1) == Some(turn));
        }

        // Castling rights.
        let (c_start, c_end) = parts[2];
        let ghost f2 = fs[2];
        proof {
            assert(f2 == fen@.subrange(c_start as int, c_end as int));
        }
        let mut cr: u8 = 0;
        let mut cidx = c_start;
        while cidx < c_end
            invariant
                c_start <= cidx <= c_end <= fen@.len(),
                fs == spec_fields(fen@),
                fs.len() >= 4,
                f2 == fs[2],
                f2 == fen@.subrange(c_start as int, c_end as int),
                parse_castle(f2, 0, 0) == parse_castle(f2, cidx - c_start, cr),
            decreases c_end - cidx,
        {
            let cc = fen.get_char(cidx);
            proof {
                assert(f2[cidx - c_start] == cc);
            }
            if cc == 'k' {
                cr = cr | 0b1000;
            } else if cc == 'q' {
                cr = cr | 0b0100;
            } else if cc == 'K' {
                cr = cr | 0b0010;
            } else if cc == 'Q' {
                cr = cr | 0b0001;
            } else if cc == '-' {
            } else {
                *self = Self::new();
                return Err(String::from_str("unrecognized character in the castling field"));
            }
            cidx = cidx + 1;
        }

        acc.turn = turn;
        acc.castle_rights = cr;
        *self = acc;
        Ok(())
    }
}

/// The piece on a square, or `None` when it is empty; the same priority
/// order as [`square_char`].
pub open spec fn square_piece(b: ChessBoard, sq: int) -> Option<Piece> {
    if bit(b.w_pawn, sq) {
        Some(Piece::w_pawn)
    } else if bit(b.w_king, sq) {
        Some(Piece::w_king)
    } else if bit(b.w_bishop, sq) {
        Some(Piece::w_bishop)
    } else if bit(b.w_rook, sq) {
        Some(Piece::w_rook)
    } else if bit(b.w_queen, sq) {
        Some(Piece::w_queen)
    } else if bit(b.w_knight, sq) {
        Some(Piece::w_knight)
    } else if bit(b.b_pawn, sq) {
        Some(Piece::b_pawn)
    } else if bit(b.b_king, sq) {
        Some(Piece::b_king)
    } else if bit(b.b_bishop, sq) {
        Some(Piece::b_bishop)
    } else if bit(b.b_rook, sq) {
        Some(Piece::b_rook)
    } else if bit(b.b_queen, sq) {
        Some(Piece::b_queen)
    } else if bit(b.b_knight, sq) {
        Some(Piece::b_knight)
    } else {
        None
    }
}

/// `acc` with every occupied square of `b`'s rank `rank` from `file` on
/// placed onto it.
pub open spec fn rank_filled(b: ChessBoard, acc: ChessBoard, rank: int, file: int) -> ChessBoard
    decreases 8 - file,
{
    if file < 0 || file >= 8 {
        acc
    } else {
        match square_piece(b, rank * 8 + file) {
            Some(p) => rank_filled(b, place(acc, p, rank * 8 + file), rank, file + 1),
            None => rank_filled(b, acc, rank, file + 1),
        }
    }
}

/// `acc` with every occupied square of `b`'s ranks `rank` down to 0 placed
/// onto it.
pub open spec fn ranks_filled(b: ChessBoard, acc: ChessBoard, rank: int) -> ChessBoard
    decreases rank + 1,
{
    if rank < 0 {
        acc
    } else {
        ranks_filled(b, rank_filled(b, acc, rank, 0), rank - 1)
    }
}

/// The castling mask rebuilt from the held corners' letters, in the order
/// they are rendered.
pub open spec fn castle_acc(r: u8) -> u8 {
    (((0u8 | (if r & 0b0010 != 0 {
        0b0010u8
    } else {
        0u8
    })) | (if r & 0b0001 != 0 {
        0b0001u8
    } else {
        0u8
    })) | (if r & 0b1000 != 0 {
        0b1000u8
    } else {
        0u8
    })) | (if r & 0b0100 != 0 {
        0b0100u8
    } else {
        0u8
    })
}

/// Rebuilding a castling mask from its four low bits gives it back.
proof fn lemma_castle_acc()
    by (bit_vector)
    ensures
        forall|r: u8| r < 16 && r != 0 ==> #[trigger] castle_acc(r) == r,
{
}

/// The letters and digits of the notation: how they relate to the parsing
/// classifiers.
proof fn lemma_char_classes()
    ensures
        forall|p: Piece| #[trigger] piece_of_char(piece_char(p)) == Some(p),
        forall|p: Piece| !is_fen_digit(#[trigger] piece_char(p)),
        forall|p: Piece| #[trigger] piece_char(p) != '/',
        forall|p: Piece| !is_space(#[trigger] piece_char(p)),
        forall|n: int|
            1 <= n <= 8 ==> (is_fen_digit(#[trigger] digit_char(n)) && fen_digit_val(
                digit_char(n),
            ) == n && !is_space(digit_char(n)) && digit_char(n) != '/' && piece_of_char(
                digit_char(n),
            ) == None::<Piece>),
{
}

/// Every character of a rendered rank is a digit or a piece letter, never
/// whitespace and never the rank separator.
proof fn lemma_rank_chars(b: ChessBoard, rank: int, file: int, run: int)
    requires
        0 <= file <= 8,
        0 <= run <= file,
    ensures
        forall|j: int|
            0 <= j < render_rank_from(b, rank, file, run).len() ==> (!is_space(
                #[trigger] render_rank_from(b, rank, file, run)[j],
            ) && render_rank_from(b, rank, file, run)[j] != '/'),
    decreases 8 - file,
{
    lemma_char_classes();
    if file >= 8 {
        if run > 0 {
            assert(render_rank_from(b, rank, file, run) == seq![digit_char(run)]);
        }
    } else {
        match square_piece(b, rank * 8 + file) {
            Some(p) => {
                lemma_rank_chars(b, rank, file + 1, 0);
                let r0 = render_rank_from(b, rank, file, run);
                let rest = render_rank_from(b, rank, file + 1, 0);
                assert(square_char(b, rank * 8 + file) == Some(piece_char(p)));
                assert forall|j: int| 0 <= j < r0.len() implies (!is_space(r0[j]) && r0[j]
                    != '/') by {
                    if run > 0 {
                        assert(r0 == seq![digit_char(run), piece_char(p)] + rest);
                        if j >= 2 {
                            assert(r0[j] == rest[j - 2]);
                        }
                    } else {
                        assert(r0 == seq![piece_char(p)] + rest);
                        if j >= 1 {
                            assert(r0[j] == rest[j - 1]);
                        }
                    }
                }
            },
            None => {
                lemma_rank_chars(b, rank, file + 1, run + 1);
                assert(render_rank_from(b, rank, file, run) == render_rank_from(
                    b,
                    rank,
                    file + 1,
                    run + 1,
                ));
            },
        }
    }
}

/// A rendered rank holds at least one character.
proof fn lemma_rank_nonempty(b: ChessBoard, rank: int, file: int, run: int)
    requires
        0 <= file <= 8,
        0 <= run,
        run > 0 || file < 8,
    ensures
        render_rank_from(b, rank, file, run).len() >= 1,
    decreases 8 - file,
{
    if 0 <= file < 8 {
        match square_piece(b, rank * 8 + file) {
            Some(p) => {},
            None => {
                lemma_rank_nonempty(b, rank, file + 1, run + 1);
            },
        }
    }
}

/// Every character of the rendered placement is non-whitespace, and the
/// placement is nonempty.
proof fn lemma_ranks_chars(b: ChessBoard, rank: int)
    requires
        rank <= 7,
    ensures
        forall|j: int|
            0 <= j < render_ranks(b, rank).len() ==> !is_space(
                #[trigger] render_ranks(b, rank)[j],
            ),
        rank >= 0 ==> render_ranks(b, rank).len() >= 1,
    decreases rank + 1,
{
    if rank >= 0 {
        lemma_rank_chars(b, rank, 0, 0);
        lemma_rank_nonempty(b, rank, 0, 0);
        if rank > 0 {
            lemma_ranks_chars(b, rank - 1);
        }
    }
}

/// Every character of the castling field is a corner letter or `-`, never
/// whitespace; the field is nonempty when the mask fits in its four bits.
proof fn lemma_castle_chars(b: ChessBoard)
    requires
        b.castle_rights < 16,
    ensures
        forall|j: int|
            0 <= j < castle_field(b).len() ==> !is_space(#[trigger] castle_field(b)[j]),
        castle_field(b).len() >= 1,
{
    let r = b.castle_rights;
    if r != 0 {
        assert(r & 0b0010 != 0 || r & 0b0001 != 0 || r & 0b1000 != 0 || r & 0b0100 != 0)
            by (bit_vector)
            requires
                r < 16 && r != 0,
        ;
    }
}

/// Where a run of non-space characters ends at a space or at the end of the
/// text, that is the word end.
proof fn lemma_word_end_at(s: Seq<char>, i: int, e: int)
    requires
        0 <= i <= e <= s.len(),
        forall|j: int| i <= j < e ==> !is_space(#[trigger] s[j]),
        e == s.len() || is_space(s[e]),
    ensures
        word_end(s, i) == e,
    decreases e - i,
{
    if i < e {
        lemma_word_end_at(s, i + 1, e);
    }
}

/// One conditional letter of the castling field, consumed by the fold.
proof fn lemma_parse_castle_chunk(f: Seq<char>, i: int, acc: u8, cond: bool, ch: char, bitv: u8)
    requires
        0 <= i <= f.len(),
        cond ==> i < f.len() && f[i] == ch,
        (ch == 'K' && bitv == 0b0010) || (ch == 'Q' && bitv == 0b0001) || (ch == 'k' && bitv
            == 0b1000) || (ch == 'q' && bitv == 0b0100),
    ensures
        parse_castle(f, i, acc) == parse_castle(
            f,
            i + (if cond {
                1int
            } else {
                0int
            }),
            acc | (if cond {
                bitv
            } else {
                0u8
            }),
        ),
{
    if !cond {
        assert(acc | 0u8 == acc) by (bit_vector);
    }
}

/// Parsing what one rank renders to advances the fold across that rank:
/// the pending empty run is consumed as its digit, each piece letter places
/// its piece, and the file count reaches exactly eight.
proof fn lemma_parse_render_rank(
    b: ChessBoard,
    s: Seq<char>,
    i: int,
    rank: int,
    file: int,
    run: int,
    acc: ChessBoard,
)
    requires
        0 <= rank <= 7,
        0 <= file <= 8,
        0 <= run <= file,
        0 <= i,
        i + render_rank_from(b, rank, file, run).len() <= s.len(),
        s.subrange(i, i + render_rank_from(b, rank, file, run).len() as int) == render_rank_from(
            b,
            rank,
            file,
            run,
        ),
    ensures
        parse_pl(s, i, rank, file - run, acc) == parse_pl(
            s,
            i + render_rank_from(b, rank, file, run).len() as int,
            rank,
            8,
            rank_filled(b, acc, rank, file),
        ),
    decreases 8 - file,
{
    lemma_char_classes();
    let r0 = render_rank_from(b, rank, file, run);
    if file >= 8 {
        if run > 0 {
            assert(r0 == seq![digit_char(run)]);
            assert(s[i] == s.subrange(i, i + 1)[0]);
            assert(s[i] == digit_char(run));
            assert(parse_pl(s, i, rank, file - run, acc) == parse_pl(s, i + 1, rank, 8, acc));
        }
    } else {
        match square_piece(b, rank * 8 + file) {
            Some(p) => {
                assert(square_char(b, rank * 8 + file) == Some(piece_char(p)));
                let rest = render_rank_from(b, rank, file + 1, 0);
                let pre_len: int = if run > 0 {
                    2
                } else {
                    1
                };
                if run > 0 {
                    assert(r0 == seq![digit_char(run), piece_char(p)] + rest);
                    assert(s[i] == s.subrange(i, i + r0.len() as int)[0]);
                    assert(s[i] == digit_char(run));
                    assert(s[i + 1] == s.subrange(i, i + r0.len() as int)[1]);
                    assert(s[i + 1] == piece_char(p));
                } else {
                    assert(r0 == seq![piece_char(p)] + rest);
                    assert(s[i] == s.subrange(i, i + r0.len() as int)[0]);
                    assert(s[i] == piece_char(p));
                }
                assert forall|m: int|
                    0 <= m < rest.len() implies s.subrange(
                    i + pre_len,
                    i + pre_len + rest.len() as int,
                )[m] == rest[m] by {
                    assert(s.subrange(i, i + r0.len() as int)[pre_len + m] == r0[pre_len + m]);
                    assert(r0[pre_len + m] == rest[m]);
                }
                assert(s.subrange(i + pre_len, i + pre_len + rest.len() as int) =~= rest);
                assert(r0.len() == pre_len + rest.len());
                if run > 0 {
                    assert(parse_pl(s, i, rank, file - run, acc) == parse_pl(
                        s,
                        i + 1,
                        rank,
                        file as int,
                        acc,
                    ));
                    assert(parse_pl(s, i + 1, rank, file as int, acc) == parse_pl(
                        s,
                        i + 2,
                        rank,
                        file + 1,
                        place(acc, p, rank * 8 + file),
                    ));
                } else {
                    assert(parse_pl(s, i, rank, file as int, acc) == parse_pl(
                        s,
                        i + 1,
                        rank,
                        file + 1,
                        place(acc, p, rank * 8 + file),
                    ));
                }
                lemma_parse_render_rank(
                    b,
                    s,
                    i + pre_len,
                    rank,
                    file + 1,
                    0,
                    place(acc, p, rank * 8 + file),
                );
                assert(rank_filled(b, acc, rank, file) == rank_filled(
                    b,
                    place(acc, p, rank * 8 + file),
                    rank,
                    file + 1,
                ));
            },
            None => {
                assert(square_char(b, rank * 8 + file) == None::<char>);
                assert(r0 == render_rank_from(b, rank, file + 1, run + 1));
                lemma_parse_render_rank(b, s, i, rank, file + 1, run + 1, acc);
                assert(rank_filled(b, acc, rank, file) == rank_filled(b, acc, rank, file + 1));
            },
        }
    }
}

/// Parsing what the ranks from `rank` down render to yields exactly the
/// board they fold onto the accumulator.
proof fn lemma_parse_render_ranks(b: ChessBoard, s: Seq<char>, i: int, rank: int, acc: ChessBoard)
    requires
        0 <= rank <= 7,
        0 <= i,
        i + render_ranks(b, rank).len() == s.len(),
        s.subrange(i, s.len() as int) == render_ranks(b, rank),
    ensures
        parse_pl(s, i, rank, 0, acc) == Some(ranks_filled(b, acc, rank)),
    decreases rank,
{
    let r0 = render_rank_from(b, rank, 0, 0);
    let rr = render_ranks(b, rank);
    if rank == 0 {
        assert(rr == r0);
        lemma_parse_render_rank(b, s, i, 0, 0, 0, acc);
        assert(ranks_filled(b, rank_filled(b, acc, 0, 0), -1) == rank_filled(b, acc, 0, 0));
        assert(ranks_filled(b, acc, 0) == rank_filled(b, acc, 0, 0));
    } else {
        let rest = render_ranks(b, rank - 1);
        assert(rr == r0 + seq!['/'] + rest);
        let mid = i + r0.len() as int;
        assert forall|m: int|
            0 <= m < r0.len() implies s.subrange(i, mid)[m] == r0[m] by {
            assert(s.subrange(i, s.len() as int)[m] == rr[m]);
            assert(rr[m] == (r0 + seq!['/'])[m]);
        }
        assert(s.subrange(i, mid) =~= r0);
        lemma_parse_render_rank(b, s, i, rank, 0, 0, acc);
        assert(s[mid] == s.subrange(i, s.len() as int)[r0.len() as int]);
        assert(s[mid] == '/');
        assert(parse_pl(s, mid, rank, 8, rank_filled(b, acc, rank, 0)) == parse_pl(
            s,
            mid + 1,
            rank - 1,
            0,
            rank_filled(b, acc, rank, 0),
        ));
        assert forall|m: int|
            0 <= m < rest.len() implies s.subrange(mid + 1, s.len() as int)[m] == rest[m] by {
            assert(s.subrange(i, s.len() as int)[r0.len() + 1 + m] == rr[r0.len() + 1 + m]);
            assert(rr[r0.len() + 1 + m] == rest[m]);
        }
        assert(s.subrange(mid + 1, s.len() as int) =~= rest);
        lemma_parse_render_ranks(b, s, mid + 1, rank - 1, rank_filled(b, acc, rank, 0));
    }
}

/// What placing one piece does to every mask, square by square.
proof fn lemma_place_bit(acc: ChessBoard, p: Piece, sq: int)
    requires
        0 <= sq < 64,
    ensures
        forall|q: Piece, s2: int| #[trigger]
            bit(place(acc, p, sq).mask_of(q), s2) == (bit(acc.mask_of(q), s2) || (q == p && s2
                == sq)),
        place(acc, p, sq).turn == acc.turn,
        place(acc, p, sq).castle_rights == acc.castle_rights,
{
    lemma_bit();
    assert forall|q: Piece, s2: int| #[trigger]
        bit(place(acc, p, sq).mask_of(q), s2) == (bit(acc.mask_of(q), s2) || (q == p && s2
            == sq)) by {
        if q == p {
            assert(place(acc, p, sq).mask_of(q) == acc.mask_of(p) | (1u64 << (sq as u64)));
        } else {
            assert(place(acc, p, sq).mask_of(q) == acc.mask_of(q));
        }
    }
}

/// What folding one rank onto the accumulator does, square by square.
proof fn lemma_rank_filled_bit(b: ChessBoard, acc: ChessBoard, rank: int, file: int)
    requires
        0 <= rank <= 7,
        0 <= file <= 8,
    ensures
        forall|q: Piece, s2: int| #[trigger]
            bit(rank_filled(b, acc, rank, file).mask_of(q), s2) == (bit(acc.mask_of(q), s2) || (
            rank * 8 + file <= s2 < rank * 8 + 8 && square_piece(b, s2) == Some(q))),
        rank_filled(b, acc, rank, file).turn == acc.turn,
        rank_filled(b, acc, rank, file).castle_rights == acc.castle_rights,
    decreases 8 - file,
{
    if file < 8 {
        match square_piece(b, rank * 8 + file) {
            Some(p) => {
                lemma_place_bit(acc, p, rank * 8 + file);
                lemma_rank_filled_bit(b, place(acc, p, rank * 8 + file), rank, file + 1);
            },
            None => {
                lemma_rank_filled_bit(b, acc, rank, file + 1);
            },
        }
    }
}

/// What folding the ranks from `rank` down does, square by square.
proof fn lemma_ranks_filled_bit(b: ChessBoard, acc: ChessBoard, rank: int)
    requires
        rank <= 7,
    ensures
        forall|q: Piece, s2: int| #[trigger]
            bit(ranks_filled(b, acc, rank).mask_of(q), s2) == (bit(acc.mask_of(q), s2) || (0 <= s2
                < (rank + 1) * 8 && square_piece(b, s2) == Some(q))),
        ranks_filled(b, acc, rank).turn == acc.turn,
        ranks_filled(b, acc, rank).castle_rights == acc.castle_rights,
    decreases rank + 1,
{
    if rank >= 0 {
        lemma_rank_filled_bit(b, acc, rank, 0);
        lemma_ranks_filled_bit(b, rank_filled(b, acc, rank, 0), rank - 1);
    }
}

/// On a board with disjoint masks, a square's piece is the one whose mask
/// holds it.
proof fn lemma_square_piece_bit(b: ChessBoard, s2: int)
    requires
        b.masks_disjoint(),
    ensures
        forall|q: Piece| (square_piece(b, s2) == Some(q)) == #[trigger] bit(b.mask_of(q), s2),
{
    assert forall|q: Piece|
        (square_piece(b, s2) == Some(q)) == #[trigger] bit(b.mask_of(q), s2) by {
        if bit(b.mask_of(q), s2) {
            assert forall|q2: Piece| q2 != q implies !(#[trigger] bit(b.mask_of(q2), s2)) by {
                assert(!(bit(b.mask_of(q2), s2) && bit(b.mask_of(q), s2)));
            }
            assert(q != Piece::w_pawn ==> !bit(b.mask_of(Piece::w_pawn), s2));
            assert(q != Piece::w_knight ==> !bit(b.mask_of(Piece::w_knight), s2));
            assert(q != Piece::w_bishop ==> !bit(b.mask_of(Piece::w_bishop), s2));
            assert(q != Piece::w_rook ==> !bit(b.mask_of(Piece::w_rook), s2));
            assert(q != Piece::w_queen ==> !bit(b.mask_of(Piece::w_queen), s2));
            assert(q != Piece::w_king ==> !bit(b.mask_of(Piece::w_king), s2));
            assert(q != Piece::b_pawn ==> !bit(b.mask_of(Piece::b_pawn), s2));
            assert(q != Piece::b_knight ==> !bit(b.mask_of(Piece::b_knight), s2));
            assert(q != Piece::b_bishop ==> !bit(b.mask_of(Piece::b_bishop), s2));
            assert(q != Piece::b_rook ==> !bit(b.mask_of(Piece::b_rook), s2));
            assert(q != Piece::b_queen ==> !bit(b.mask_of(Piece::b_queen), s2));
            assert(q != Piece::b_king ==> !bit(b.mask_of(Piece::b_king), s2));
            assert(square_piece(b, s2) == Some(q));
        }
    }
}

/// Parsing the rendered castling field gives back the castling mask.
proof fn lemma_parse_castle_field(b: ChessBoard)
    requires
        b.castle_rights < 16,
    ensures
        parse_castle(castle_field(b), 0, 0) == Some(b.castle_rights),
{
    let r = b.castle_rights;
    let cf = castle_field(b);
    if r == 0 {
        assert(cf == seq!['-']);
        assert(parse_castle(cf, 0, 0) == parse_castle(cf, 1, 0));
    } else {
        let ck = r & 0b0010 != 0;
        let cq = r & 0b0001 != 0;
        let bk = r & 0b1000 != 0;
        let bq = r & 0b0100 != 0;
        let fa: Seq<char> = if ck {
            seq!['K']
        } else {
            Seq::empty()
        };
        let fb: Seq<char> = if cq {
            seq!['Q']
        } else {
            Seq::empty()
        };
        let fc: Seq<char> = if bk {
            seq!['k']
        } else {
            Seq::empty()
        };
        let fd: Seq<char> = if bq {
            seq!['q']
        } else {
            Seq::empty()
        };
        assert(cf == fa + fb + fc + fd);
        let i1: int = if ck {
            1
        } else {
            0
        };
        let i2: int = i1 + (if cq {
            1int
        } else {
            0
        });
        let i3: int = i2 + (if bk {
            1int
        } else {
            0
        });
        let i4: int = i3 + (if bq {
            1int
        } else {
            0
        });
        assert(cf.len() == i4);
        if ck {
            assert(cf[0] == 'K') by {
                assert(cf[0] == fa[0]);
            }
        }
        if cq {
            assert(cf[i1] == 'Q') by {
                assert(cf[i1] == (fa + fb)[i1]);
                assert((fa + fb)[i1] == fb[0]);
            }
        }
        if bk {
            assert(cf[i2] == 'k') by {
                assert(cf[i2] == (fa + fb + fc)[i2]);
                assert((fa + fb + fc)[i2] == fc[0]);
            }
        }
        if bq {
            assert(cf[i3] == 'q') by {
                assert(cf[i3] == fd[0]);
            }
        }
        let a0: u8 = 0;
        let a1: u8 = a0 | (if ck {
            0b0010u8
        } else {
            0u8
        });
        let a2: u8 = a1 | (if cq {
            0b0001u8
        } else {
            0u8
        });
        let a3: u8 = a2 | (if bk {
            0b1000u8
        } else {
            0u8
        });
        let a4: u8 = a3 | (if bq {
            0b0100u8
        } else {
            0u8
        });
        lemma_parse_castle_chunk(cf, 0, a0, ck, 'K', 0b0010);
        lemma_parse_castle_chunk(cf, i1, a1, cq, 'Q', 0b0001);
        lemma_parse_castle_chunk(cf, i2, a2, bk, 'k', 0b1000);
        lemma_parse_castle_chunk(cf, i3, a3, bq, 'q', 0b0100);
        assert(parse_castle(cf, 0, 0) == parse_castle(cf, i4, a4));
        assert(parse_castle(cf, i4, a4) == Some(a4));
        lemma_castle_acc();
        assert(a4 == castle_acc(r));
        assert(castle_acc(r) == r);
    }
}

/// The round-trip law: any position whose masks are disjoint and whose
/// castling mask fits its four bits is reproduced exactly — piece
/// placement, side to move and castling rights — by parsing what it
/// renders to.
pub proof fn lemma_notation_round_trip(b: ChessBoard)
    requires
        b.masks_disjoint(),
        b.castle_rights < 16,
    ensures
        spec_parse(spec_render(b)) == Some(b),
{
    lemma_char_classes();
    lemma_ranks_chars(b, 7);
    lemma_castle_chars(b);
    let s = spec_render(b);
    let a = render_ranks(b, 7);
    let la = a.len() as int;
    let cf = castle_field(b);
    let lc = cf.len() as int;
    let tc = turn_char(b);
    assert(s == a + seq![' ', tc, ' '] + cf + seq![' ', '-']);
    assert(s.len() == la + lc + 5);

    // Where each character of the rendering lies.
    assert forall|j: int| 0 <= j < la implies s[j] == a[j] by {
        assert(s[j] == (a + seq![' ', tc, ' '])[j]);
    }
    assert(s[la] == ' ') by {
        assert(s[la] == (a + seq![' ', tc, ' '])[la]);
    }
    assert(s[la + 1] == tc) by {
        assert(s[la + 1] == (a + seq![' ', tc, ' '])[la + 1]);
    }
    assert(s[la + 2] == ' ') by {
        assert(s[la + 2] == (a + seq![' ', tc, ' '])[la + 2]);
    }
    assert forall|j: int| 0 <= j < lc implies s[la + 3 + j] == cf[j] by {
        assert(s[la + 3 + j] == (a + seq![' ', tc, ' '] + cf)[la + 3 + j]);
    }
    assert(s[la + 3 + lc] == ' ');
    assert(s[la + 4 + lc] == '-');

    // The rendering splits into exactly the four fields.
    assert(!is_space(tc));
    lemma_word_end_at(s, 0, la);
    assert(fields_from(s, 0) == seq![s.subrange(0, la)] + fields_from_at(s, la, 0));
    assert(fields_from_at(s, la, 0) == fields_from(s, la));
    assert(s.subrange(0, la) =~= a);
    assert(fields_from(s, la) == fields_from(s, la + 1));
    lemma_word_end_at(s, la + 1, la + 2);
    assert(fields_from(s, la + 1) == seq![s.subrange(la + 1, la + 2)] + fields_from_at(
        s,
        la + 2,
        la + 1,
    ));
    assert(fields_from_at(s, la + 2, la + 1) == fields_from(s, la + 2));
    assert(s.subrange(la + 1, la + 2) =~= seq![tc]);
    assert(fields_from(s, la + 2) == fields_from(s, la + 3));
    lemma_word_end_at(s, la + 3, la + 3 + lc);
    assert(fields_from(s, la + 3) == seq![s.subrange(la + 3, la + 3 + lc)] + fields_from_at(
        s,
        la + 3 + lc,
        la + 3,
    ));
    assert(fields_from_at(s, la + 3 + lc, la + 3) == fields_from(s, la + 3 + lc));
    assert(s.subrange(la + 3, la + 3 + lc) =~= cf);
    assert(fields_from(s, la + 3 + lc) == fields_from(s, la + 4 + lc));
    lemma_word_end_at(s, la + 4 + lc, la + 5 + lc);
    assert(fields_from(s, la + 4 + lc) == seq![s.subrange(la + 4 + lc, la + 5 + lc)]
        + fields_from_at(s, la + 5 + lc, la + 4 + lc));
    assert(fields_from_at(s, la + 5 + lc, la + 4 + lc) == fields_from(s, la + 5 + lc));
    assert(s.subrange(la + 4 + lc, la + 5 + lc) =~= seq!['-']);
    assert(fields_from(s, la + 5 + lc) == Seq::<Seq<char>>::empty());
    let fs = spec_fields(s);
    assert(fs =~= seq![a, seq![tc], cf, seq!['-']]);

    // The placement field parses back to the same masks.
    assert(a.subrange(0, la) =~= a);
    lemma_parse_render_ranks(b, a, 0, 7, crate::board::blank_board());
    let f = ranks_filled(b, crate::board::blank_board(), 7);
    assert(parse_pl(a, 0, 7, 0, crate::board::blank_board()) == Some(f));
    lemma_ranks_filled_bit(b, crate::board::blank_board(), 7);
    assert forall|q: Piece| #[trigger] f.mask_of(q) == b.mask_of(q) by {
        assert forall|s2: int| #[trigger]
            bit(f.mask_of(q), s2) == bit(b.mask_of(q), s2) by {
            lemma_bit();
            lemma_square_piece_bit(b, s2);
            assert(!bit(crate::board::blank_board().mask_of(q), s2));
        }
        crate::bits::lemma_u64_ext(f.mask_of(q), b.mask_of(q));
    }

    // The remaining fields parse back to the same flags.
    assert(parse_turn(seq![tc]) == Some(b.turn));
    lemma_parse_castle_field(b);

    assert(f.mask_of(Piece::w_pawn) == b.mask_of(Piece::w_pawn));
    assert(f.mask_of(Piece::w_knight) == b.mask_of(Piece::w_knight));
    assert(f.mask_of(Piece::w_bishop) == b.mask_of(Piece::w_bishop));
    assert(f.mask_of(Piece::w_rook) == b.mask_of(Piece::w_rook));
    assert(f.mask_of(Piece::w_queen) == b.mask_of(Piece::w_queen));
    assert(f.mask_of(Piece::w_king) == b.mask_of(Piece::w_king));
    assert(f.mask_of(Piece::b_pawn) == b.mask_of(Piece::b_pawn));
    assert(f.mask_of(Piece::b_knight) == b.mask_of(Piece::b_knight));
    assert(f.mask_of(Piece::b_bishop) == b.mask_of(Piece::b_bishop));
    assert(f.mask_of(Piece::b_rook) == b.mask_of(Piece::b_rook));
    assert(f.mask_of(Piece::b_queen) == b.mask_of(Piece::b_queen));
    assert(f.mask_of(Piece::b_king) == b.mask_of(Piece::b_king));
    assert(spec_parse(s) == Some(
        ChessBoard { turn: b.turn, castle_rights: b.castle_rights, ..f },
    ));
    assert(ChessBoard { turn: b.turn, castle_rights: b.castle_rights, ..f } == b);
}

/// The castling fold only ever sets the four low bits.
proof fn lemma_parse_castle_bound(f: Seq<char>, i: int, acc: u8)
    requires
        acc < 16,
    ensures
        parse_castle(f, i, acc) matches Some(r) ==> r < 16,
    decreases f.len() - i,
{
    assert((acc | 0b1000) < 16 && (acc | 0b0100) < 16 && (acc | 0b0010) < 16 && (acc | 0b0001)
        < 16) by (bit_vector)
        requires
            acc < 16,
    ;
    if 0 <= i < f.len() {
        let c = f[i];
        if c == 'k' {
            lemma_parse_castle_bound(f, i + 1, acc | 0b1000);
        } else if c == 'q' {
            lemma_parse_castle_bound(f, i + 1, acc | 0b0100);
        } else if c == 'K' {
            lemma_parse_castle_bound(f, i + 1, acc | 0b0010);
        } else if c == 'Q' {
            lemma_parse_castle_bound(f, i + 1, acc | 0b0001);
        } else if c == '-' {
            lemma_parse_castle_bound(f, i + 1, acc);
        }
    }
}

/// The placement fold visits each square at most once — ranks go down, the
/// file goes up — so the masks it builds are disjoint.
proof fn lemma_parse_pl_disjoint(s: Seq<char>, i: int, rank: int, file: int, acc: ChessBoard)
    requires
        acc.masks_disjoint(),
        forall|q: Piece, s2: int| #[trigger]
            bit(acc.mask_of(q), s2) ==> (s2 / 8 > rank || (s2 / 8 == rank && s2 % 8 < file)),
    ensures
        parse_pl(s, i, rank, file, acc) matches Some(bb) ==> bb.masks_disjoint(),
    decreases s.len() - i,
{
    if 0 <= i < s.len() {
        let c = s[i];
        if c == '/' {
            if file == 8 && rank > 0 {
                lemma_parse_pl_disjoint(s, i + 1, rank - 1, 0, acc);
            }
        } else if is_fen_digit(c) {
            lemma_parse_pl_disjoint(s, i + 1, rank, file + fen_digit_val(c), acc);
        } else {
            match piece_of_char(c) {
                Some(p) => if 0 <= rank < 8 && 0 <= file < 8 {
                    let sq = rank * 8 + file;
                    vstd::arithmetic::div_mod::lemma_fundamental_div_mod_converse(
                        sq,
                        8,
                        rank,
                        file,
                    );
                    lemma_place_bit(acc, p, sq);
                    let acc2 = place(acc, p, sq);
                    assert forall|p1: Piece, q1: Piece, s2: int|
                        p1 != q1 implies !(#[trigger] bit(acc2.mask_of(p1), s2) && #[trigger] bit(
                        acc2.mask_of(q1),
                        s2,
                    )) by {
                        if bit(acc.mask_of(p1), s2) && bit(acc.mask_of(q1), s2) {
                        }
                    }
                    assert forall|q: Piece, s2: int| #[trigger]
                        bit(acc2.mask_of(q), s2) implies (s2 / 8 > rank || (s2 / 8 == rank && s2
                        % 8 < file + 1)) by {}
                    lemma_parse_pl_disjoint(s, i + 1, rank, file + 1, acc2);
                },
                None => {},
            }
        }
    }
}

/// Every successfully parsed position is well formed — its masks are
/// disjoint and its castling mask fits its four bits — and therefore obeys
/// the round-trip law: rendering it and parsing that back gives the same
/// position, piece placement, side to move and castling rights alike.
pub proof fn lemma_parsed_round_trip(s: Seq<char>, b: ChessBoard)
    requires
        spec_parse(s) == Some(b),
    ensures
        b.masks_disjoint(),
        b.castle_rights < 16,
        spec_parse(spec_render(b)) == Some(b),
{
    lemma_bit();
    let fs = spec_fields(s);
    let blank = crate::board::blank_board();
    assert forall|q: Piece, s2: int| #[trigger]
        bit(blank.mask_of(q), s2) implies (s2 / 8 > 7 || (s2 / 8 == 7 && s2 % 8 < 0)) by {
        assert(blank.mask_of(q) == 0u64);
        assert(!bit(0u64, s2));
    }
    assert(blank.masks_disjoint()) by {
        assert forall|p1: Piece, q1: Piece, s2: int|
            p1 != q1 implies !(#[trigger] bit(blank.mask_of(p1), s2) && #[trigger] bit(
            blank.mask_of(q1),
            s2,
        )) by {
            assert(blank.mask_of(p1) == 0u64);
            assert(!bit(0u64, s2));
        }
    }
    lemma_parse_pl_disjoint(fs[0], 0, 7, 0, blank);
    lemma_parse_castle_bound(fs[2], 0, 0);
    let b0 = choose|b0: ChessBoard| parse_pl(fs[0], 0, 7, 0, blank) == Some(b0);
    assert(b.masks_disjoint()) by {
        assert forall|p1: Piece, q1: Piece, s2: int|
            p1 != q1 implies !(#[trigger] bit(b.mask_of(p1), s2) && #[trigger] bit(
            b.mask_of(q1),
            s2,
        )) by {
            assert(b.mask_of(p1) == b0.mask_of(p1));
            assert(b.mask_of(q1) == b0.mask_of(q1));
            assert(!(bit(b0.mask_of(p1), s2) && bit(b0.mask_of(q1), s2)));
        }
    }
    lemma_notation_round_trip(b);
}

} // verus!
