//! Board fingerprint codec.
//!
//! A board is 64 squares, each in one of 13 states (six piece kinds in two
//! colors, plus empty).  Each state has a fixed 4-bit code; a board is packed
//! into four 64-bit words, sixteen consecutive squares per word, each code
//! shifted by four times its position in the word.  The code table is
//! bijective on the 13 states, so packing round-trips losslessly.

use vstd::prelude::*;

verus! {

/// The kind of piece standing on a square, or `Empty` for none.
#[derive(Clone, Copy, Debug, PartialEq, Eq, Structural)]
pub enum BitPiece {
    Rook,
    Knight,
    Bishop,
    Queen,
    King,
    Pawn,
    Empty,
}

/// The color owning a piece.
#[derive(Clone, Copy, Debug, PartialEq, Eq, Structural)]
pub enum Side {
    White,
    Black,
}

/// One square's state: a piece kind together with its color.
///
/// The canonical empty square is `(Empty, Black)`; that is the only
/// empty form the code table decodes to.
#[derive(Clone, Copy, Debug, PartialEq, Eq, Structural)]
pub struct PieceInPlay {
    pub piece: BitPiece,
    pub side: Side,
}

/// The 3-bit kind code: the low three bits of a square's 4-bit code.
pub open spec fn piece_code(p: BitPiece) -> u8 {
    match p {
        BitPiece::Rook => 0,
        BitPiece::Knight => 1,
        BitPiece::Bishop => 2,
        BitPiece::Queen => 3,
        BitPiece::King => 4,
        BitPiece::Pawn => 5,
        BitPiece::Empty => 6,
    }
}

/// The fixed 4-bit square code: kind in the low three bits, color in bit
/// three.  White pieces take 0 through 5, black pieces 8 through 13, and the
/// canonical empty square is 14.
pub open spec fn code_of(p: PieceInPlay) -> u8 {
    if p.side is Black {
        (piece_code(p.piece) + 8) as u8
    } else {
        piece_code(p.piece)
    }
}

/// The inverse of the code table: the 13 mapped codes decode to their square
/// state, every other nibble (6, 7 and 15) is unmapped.
pub open spec fn piece_of_code(c: u8) -> Option<PieceInPlay> {
    if c == 0 {
        Some(PieceInPlay { piece: BitPiece::Rook, side: Side::White })
    } else if c == 1 {
        Some(PieceInPlay { piece: BitPiece::Knight, side: Side::White })
    } else if c == 2 {
        Some(PieceInPlay { piece: BitPiece::Bishop, side: Side::White })
    } else if c == 3 {
        Some(PieceInPlay { piece: BitPiece::Queen, side: Side::White })
    } else if c == 4 {
        Some(PieceInPlay { piece: BitPiece::King, side: Side::White })
    } else if c == 5 {
        Some(PieceInPlay { piece: BitPiece::Pawn, side: Side::White })
    } else if c == 8 {
        Some(PieceInPlay { piece: BitPiece::Rook, side: Side::Black })
    } else if c == 9 {
        Some(PieceInPlay { piece: BitPiece::Knight, side: Side::Black })
    } else if c == 10 {
        Some(PieceInPlay { piece: BitPiece::Bishop, side: Side::Black })
    } else if c == 11 {
        Some(PieceInPlay { piece: BitPiece::Queen, side: Side::Black })
    } else if c == 12 {
        Some(PieceInPlay { piece: BitPiece::King, side: Side::Black })
    } else if c == 13 {
        Some(PieceInPlay { piece: BitPiece::Pawn, side: Side::Black })
    } else if c == 14 {
        Some(PieceInPlay { piece: BitPiece::Empty, side: Side::Black })
    } else {
        None
    }
}

/// A square state is canonical when an empty square carries the black color
/// mark; those are exactly the 13 states the code table maps both ways.
pub open spec fn square_canonical(p: PieceInPlay) -> bool {
    p.piece is Empty ==> p.side is Black
}

/// The code table is bijective on canonical square states.
pub proof fn lemma_code_table_bijective(p: PieceInPlay)
    requires
        square_canonical(p),
    ensures
        piece_of_code(code_of(p)) == Some(p),
{
}

impl PieceInPlay {
    /// Builds the square state from its two components.
    pub fn new(piece: BitPiece, side: Side) -> (r: PieceInPlay)
        ensures
            r == (PieceInPlay { piece, side }),
    {
        PieceInPlay { piece, side }
    }

    /// The square's 4-bit code from the fixed table.
    pub fn value(&self) -> (c: u8)
        ensures
            c == code_of(*self),
    {
        let base: u8 = match self.piece {
            BitPiece::Rook => 0,
            BitPiece::Knight => 1,
            BitPiece::Bishop => 2,
            BitPiece::Queen => 3,
            BitPiece::King => 4,
            BitPiece::Pawn => 5,
            BitPiece::Empty => 6,
        };
        match self.side {
            Side::White => base,
            Side::Black => base + 8,
        }
    }

    /// The square state for a 4-bit code, or `None` on an unmapped nibble.
    pub fn from_code(c: u8) -> (r: Option<PieceInPlay>)
        ensures
            r == piece_of_code(c),
    {
        match c {
            0 => Some(PieceInPlay { piece: BitPiece::Rook, side: Side::White }),
            1 => Some(PieceInPlay { piece: BitPiece::Knight, side: Side::White }),
            2 => Some(PieceInPlay { piece: BitPiece::Bishop, side: Side::White }),
            3 => Some(PieceInPlay { piece: BitPiece::Queen, side: Side::White }),
            4 => Some(PieceInPlay { piece: BitPiece::King, side: Side::White }),
            5 => Some(PieceInPlay { piece: BitPiece::Pawn, side: Side::White }),
            8 => Some(PieceInPlay { piece: BitPiece::Rook, side: Side::Black }),
            9 => Some(PieceInPlay { piece: BitPiece::Knight, side: Side::Black }),
            10 => Some(PieceInPlay { piece: BitPiece::Bishop, side: Side::Black }),
            11 => Some(PieceInPlay { piece: BitPiece::Queen, side: Side::Black }),
            12 => Some(PieceInPlay { piece: BitPiece::King, side: Side::Black }),
            13 => Some(PieceInPlay { piece: BitPiece::Pawn, side: Side::Black }),
            14 => Some(PieceInPlay { piece: BitPiece::Empty, side: Side::Black }),
            _ => None,
        }
    }

    /// The one-letter display form: white pieces upper case, black pieces
    /// lower case, an empty square an underscore.
    pub fn to_char(&self) -> (c: char)
        ensures
            c == char_of(*self),
    {
        match (self.piece, self.side) {
            (BitPiece::Rook, Side::White) => 'R',
            (BitPiece::Knight, Side::White) => 'N',
            (BitPiece::Bishop, Side::White) => 'B',
            (BitPiece::Queen, Side::White) => 'Q',
            (BitPiece::King, Side::White) => 'K',
            (BitPiece::Pawn, Side::White) => 'P',
            (BitPiece::Rook, Side::Black) => 'r',
            (BitPiece::Knight, Side::Black) => 'n',
            (BitPiece::Bishop, Side::Black) => 'b',
            (BitPiece::Queen, Side::Black) => 'q',
            (BitPiece::King, Side::Black) => 'k',
            (BitPiece::Pawn, Side::Black) => 'p',
            (BitPiece::Empty, _) => '_',
        }
    }
}

/// Decoding failed: a 4-bit code of the fingerprint is not in the table.
#[derive(Clone, Copy, Debug, PartialEq, Eq, Structural)]
pub enum DecodeError {
    UnknownCode,
}

/// Nibble `j` of a word: the 4-bit group holding square `j` of the word's
/// sixteen squares.
pub open spec fn nibble(w: u64, j: u64) -> u64 {
    (w >> ((4 * j) as u64)) & 0xf
}

/// A fresh word has every nibble clear.
proof fn lemma_nibble_zero(j: u64)
    by (bit_vector)
    requires
        j < 16,
    ensures
        nibble(0u64, j) == 0,
{
}

/// Writing code `c` into clear nibble `j` sets that nibble to `c` and leaves
/// every other nibble alone.
proof fn lemma_nibble_write(w: u64, c: u8, j: u64)
    by (bit_vector)
    requires
        j < 16,
        c < 16,
        nibble(w, j) == 0,
    ensures
        nibble(w | ((c as u64) << ((4 * j) as u64)), j) == c as u64,
        forall|j2: u64| j2 < 16 && j2 != j ==> nibble(
            w | ((c as u64) << ((4 * j) as u64)),
            j2,
        ) == nibble(w, j2),
{
}

/// A nibble is a 4-bit value.
proof fn lemma_nibble_bound(w: u64, j: u64)
    by (bit_vector)
    ensures
        nibble(w, j) < 16,
{
}

/// A word is determined by its sixteen nibbles.
proof fn lemma_nibbles_determine_word(w1: u64, w2: u64)
    requires
        forall|j: u64| j < 16 ==> nibble(w1, j) == nibble(w2, j),
    ensures
        w1 == w2,
{
    assert(nibble(w1, 0) == nibble(w2, 0) && nibble(w1, 1) == nibble(w2, 1) && nibble(w1, 2)
        == nibble(w2, 2) && nibble(w1, 3) == nibble(w2, 3) && nibble(w1, 4) == nibble(w2, 4)
        && nibble(w1, 5) == nibble(w2, 5) && nibble(w1, 6) == nibble(w2, 6) && nibble(w1, 7)
        == nibble(w2, 7) && nibble(w1, 8) == nibble(w2, 8) && nibble(w1, 9) == nibble(w2, 9)
        && nibble(w1, 10) == nibble(w2, 10) && nibble(w1, 11) == nibble(w2, 11) && nibble(w1, 12)
        == nibble(w2, 12) && nibble(w1, 13) == nibble(w2, 13) && nibble(w1, 14) == nibble(w2, 14)
        && nibble(w1, 15) == nibble(w2, 15));
    assert(w1 == w2) by (bit_vector)
        requires
            nibble(w1, 0) == nibble(w2, 0) && nibble(w1, 1) == nibble(w2, 1) && nibble(w1, 2)
                == nibble(w2, 2) && nibble(w1, 3) == nibble(w2, 3) && nibble(w1, 4) == nibble(
                w2,
                4,
            ) && nibble(w1, 5) == nibble(w2, 5) && nibble(w1, 6) == nibble(w2, 6) && nibble(w1, 7)
                == nibble(w2, 7) && nibble(w1, 8) == nibble(w2, 8) && nibble(w1, 9) == nibble(
                w2,
                9,
            ) && nibble(w1, 10) == nibble(w2, 10) && nibble(w1, 11) == nibble(w2, 11) && nibble(
                w1,
                12,
            ) == nibble(w2, 12) && nibble(w1, 13) == nibble(w2, 13) && nibble(w1, 14) == nibble(
                w2,
                14,
            ) && nibble(w1, 15) == nibble(w2, 15),
    ;
}

/// Word `w` encodes the sixteen squares of `b` starting at `start`: its
/// nibble `j` is the code of square `start + j`.
pub open spec fn word_encodes(w: u64, b: Seq<PieceInPlay>, start: int) -> bool {
    forall|j: u64| j < 16 ==> nibble(w, j) == code_of(b[start + j as int]) as u64
}

/// The four words encode the 64 squares of `b`, sixteen per word in board
/// order.
pub open spec fn is_encoding(b: BitPosition, r12: u64, r34: u64, r56: u64, r78: u64) -> bool {
    &&& word_encodes(r12, b.board@, 0)
    &&& word_encodes(r34, b.board@, 16)
    &&& word_encodes(r56, b.board@, 32)
    &&& word_encodes(r78, b.board@, 48)
}

/// Every nibble of the word is a mapped code.
pub open spec fn word_decodable(w: u64) -> bool {
    forall|j: u64| j < 16 ==> piece_of_code(nibble(w, j) as u8) is Some
}

/// Every nibble of the fingerprint is a mapped code.
pub open spec fn words_decodable(r12: u64, r34: u64, r56: u64, r78: u64) -> bool {
    word_decodable(r12) && word_decodable(r34) && word_decodable(r56) && word_decodable(r78)
}

/// The sixteen squares of `b` starting at `start` are the decodings of the
/// word's nibbles.
pub open spec fn word_decodes(w: u64, b: Seq<PieceInPlay>, start: int) -> bool {
    forall|j: u64| j < 16 ==> piece_of_code(nibble(w, j) as u8) == Some(b[start + j as int])
}

/// Board `b` is the square-by-square decoding of the four words.
pub open spec fn is_decoding(r12: u64, r34: u64, r56: u64, r78: u64, b: BitPosition) -> bool {
    &&& b.board@.len() == 64
    &&& word_decodes(r12, b.board@, 0)
    &&& word_decodes(r34, b.board@, 16)
    &&& word_decodes(r56, b.board@, 32)
    &&& word_decodes(r78, b.board@, 48)
}

/// Packs sixteen 4-bit codes, taken from `codes` starting at `start`, into
/// one word, code `j` into nibble `j`.
fn pack16(codes: &Vec<u8>, start: usize) -> (w: u64)
    requires
        start + 16 <= codes.len(),
        forall|i: int| 0 <= i < codes.len() ==> codes[i] < 16,
    ensures
        forall|j: u64| j < 16 ==> nibble(w, j) == codes[start + j as int] as u64,
{
    let mut w: u64 = 0;
    proof {
        assert forall|j: u64| j < 16 implies nibble(w, j) == 0 by {
            lemma_nibble_zero(j);
        }
    }
    let mut i: usize = 0;
    while i < 16
        invariant
            start + 16 <= codes.len(),
            forall|k: int| 0 <= k < codes.len() ==> codes[k] < 16,
            i <= 16,
            forall|j: u64| j < i ==> nibble(w, j) == codes[start + j as int] as u64,
            forall|j: u64| i <= j < 16 ==> nibble(w, j) == 0,
        decreases 16 - i,
    {
        let c = codes[start + i];
        let shift: u64 = 4 * (i as u64);
        proof {
            lemma_nibble_write(w, c, i as u64);
        }
        let w2 = w | ((c as u64) << shift);
        proof {
            assert(nibble(w2, i as u64) == c as u64);
            assert(forall|j2: u64| j2 < 16 && j2 != i ==> nibble(w2, j2) == nibble(w, j2));
        }
        w = w2;
        i += 1;
    }
    w
}

/// Appends the sixteen squares decoded from `w` to `out`, or reports `false`
/// on the first unmapped nibble.
fn unpack16(w: u64, out: &mut Vec<PieceInPlay>) -> (ok: bool)
    ensures
        ok == word_decodable(w),
        ok ==> final(out)@.len() == old(out)@.len() + 16,
        ok ==> final(out)@.subrange(0, old(out)@.len() as int) == old(out)@,
        ok ==> word_decodes(w, final(out)@, old(out)@.len() as int),
{
    let ghost base = out@.len() as int;
    let mut j: usize = 0;
    while j < 16
        invariant
            j <= 16,
            base == old(out)@.len(),
            out@.len() == base + j,
            out@.subrange(0, base) == old(out)@,
            forall|k: u64| k < j ==> piece_of_code(nibble(w, k) as u8) == Some(out@[base + k as int]),
        decreases 16 - j,
    {
        proof {
            lemma_nibble_bound(w, j as u64);
        }
        let n: u64 = (w >> ((4 * j) as u64)) & 0xf;
        assert(n == nibble(w, j as u64));
        match PieceInPlay::from_code(n as u8) {
            Some(p) => {
                out.push(p);
                proof {
                    assert(out@.subrange(0, base) == old(out)@) by {
                        assert(out@.subrange(0, base) =~= old(out)@);
                    }
                }
            },
            None => {
                assert(!word_decodable(w));
                return false;
            },
        }
        j += 1;
    }
    assert(word_decodable(w)) by {
        assert forall|k: u64| k < 16 implies piece_of_code(nibble(w, k) as u8) is Some by {
            assert(piece_of_code(nibble(w, k) as u8) == Some(out@[base + k as int]));
        }
    }
    true
}

/// Display letter of a square state.
pub open spec fn char_of(p: PieceInPlay) -> char {
    match (p.piece, p.side) {
        (BitPiece::Rook, Side::White) => 'R',
        (BitPiece::Knight, Side::White) => 'N',
        (BitPiece::Bishop, Side::White) => 'B',
        (BitPiece::Queen, Side::White) => 'Q',
        (BitPiece::King, Side::White) => 'K',
        (BitPiece::Pawn, Side::White) => 'P',
        (BitPiece::Rook, Side::Black) => 'r',
        (BitPiece::Knight, Side::Black) => 'n',
        (BitPiece::Bishop, Side::Black) => 'b',
        (BitPiece::Queen, Side::Black) => 'q',
        (BitPiece::King, Side::Black) => 'k',
        (BitPiece::Pawn, Side::Black) => 'p',
        (BitPiece::Empty, _) => '_',
    }
}

/// The canonical empty square.
pub open spec fn empty_square() -> PieceInPlay {
    PieceInPlay { piece: BitPiece::Empty, side: Side::Black }
}

/// Parsing a piece-placement record failed.
#[derive(Clone, Copy, Debug, PartialEq, Eq, Structural)]
pub enum ParseError {
    /// The record does not have exactly six space-separated fields.
    WrongFieldCount,
    /// The placement field does not have exactly eight ranks.
    WrongRankCount,
    /// A digit outside 1 through 8, or a rank that does not fill exactly
    /// eight squares.
    InvalidDigit,
    /// A character that is neither a piece letter nor a digit.
    InvalidPieceChar,
}

/// How often `c` occurs in `s`.
pub open spec fn count_char(s: Seq<char>, c: char) -> int
    decreases s.len(),
{
    if s.len() == 0 {
        0
    } else {
        (if s[0] == c {
            1int
        } else {
            0int
        }) + count_char(s.skip(1), c)
    }
}

/// The prefix of `s` before the first `c`, or all of `s` if `c` does not
/// occur.
pub open spec fn before_char(s: Seq<char>, c: char) -> Seq<char>
    decreases s.len(),
{
    if s.len() == 0 {
        s
    } else if s[0] == c {
        Seq::empty()
    } else {
        seq![s[0]] + before_char(s.skip(1), c)
    }
}

/// The suffix of `s` after the first `c`, or the empty sequence if `c` does
/// not occur.
pub open spec fn after_char(s: Seq<char>, c: char) -> Seq<char>
    decreases s.len(),
{
    if s.len() == 0 {
        s
    } else if s[0] == c {
        s.skip(1)
    } else {
        after_char(s.skip(1), c)
    }
}

/// The square a placement letter denotes: upper case white, lower case
/// black.
pub open spec fn piece_of_char(c: char) -> Option<PieceInPlay> {
    if c == 'P' {
        Some(PieceInPlay { piece: BitPiece::Pawn, side: Side::White })
    } else if c == 'N' {
        Some(PieceInPlay { piece: BitPiece::Knight, side: Side::White })
    } else if c == 'B' {
        Some(PieceInPlay { piece: BitPiece::Bishop, side: Side::White })
    } else if c == 'R' {
        Some(PieceInPlay { piece: BitPiece::Rook, side: Side::White })
    } else if c == 'Q' {
        Some(PieceInPlay { piece: BitPiece::Queen, side: Side::White })
    } else if c == 'K' {
        Some(PieceInPlay { piece: BitPiece::King, side: Side::White })
    } else if c == 'p' {
        Some(PieceInPlay { piece: BitPiece::Pawn, side: Side::Black })
    } else if c == 'n' {
        Some(PieceInPlay { piece: BitPiece::Knight, side: Side::Black })
    } else if c == 'b' {
        Some(PieceInPlay { piece: BitPiece::Bishop, side: Side::Black })
    } else if c == 'r' {
        Some(PieceInPlay { piece: BitPiece::Rook, side: Side::Black })
    } else if c == 'q' {
        Some(PieceInPlay { piece: BitPiece::Queen, side: Side::Black })
    } else if c == 'k' {
        Some(PieceInPlay { piece: BitPiece::King, side: Side::Black })
    } else {
        None
    }
}

/// The empty-run length a placement digit 1 through 8 denotes.
pub open spec fn digit_value(c: char) -> Option<int> {
    if c == '1' {
        Some(1int)
    } else if c == '2' {
        Some(2int)
    } else if c == '3' {
        Some(3int)
    } else if c == '4' {
        Some(4int)
    } else if c == '5' {
        Some(5int)
    } else if c == '6' {
        Some(6int)
    } else if c == '7' {
        Some(7int)
    } else if c == '8' {
        Some(8int)
    } else {
        None
    }
}

/// Any decimal digit, the rejected 0 and 9 included.
pub open spec fn is_decimal_char(c: char) -> bool {
    c == '0' || c == '1' || c == '2' || c == '3' || c == '4' || c == '5' || c == '6' || c == '7'
        || c == '8' || c == '9'
}

/// A run of `n` canonical empty squares.
pub open spec fn empties(n: int) -> Seq<PieceInPlay> {
    Seq::new(n as nat, |i: int| empty_square())
}

/// One rank of the placement field, left to right: a letter is one square,
/// a digit 1 through 8 a run of empty squares; 0 and 9 are digit errors and
/// any other character is a piece-letter error, the leftmost offender first.
pub open spec fn parse_rank(s: Seq<char>) -> Result<Seq<PieceInPlay>, ParseError>
    decreases s.len(),
{
    if s.len() == 0 {
        Ok(Seq::empty())
    } else {
        match piece_of_char(s[0]) {
            Some(p) => match parse_rank(s.skip(1)) {
                Ok(rest) => Ok(seq![p] + rest),
                Err(e) => Err(e),
            },
            None => match digit_value(s[0]) {
                Some(d) => match parse_rank(s.skip(1)) {
                    Ok(rest) => Ok(empties(d) + rest),
                    Err(e) => Err(e),
                },
                None => if is_decimal_char(s[0]) {
                    Err(ParseError::InvalidDigit)
                } else {
                    Err(ParseError::InvalidPieceChar)
                },
            },
        }
    }
}

/// A rank must fill exactly eight squares; a short or overfull rank counts
/// as a digit error.
pub open spec fn rank_squares(s: Seq<char>) -> Result<Seq<PieceInPlay>, ParseError> {
    match parse_rank(s) {
        Ok(sq) => if sq.len() == 8 {
            Ok(sq)
        } else {
            Err(ParseError::InvalidDigit)
        },
        Err(e) => Err(e),
    }
}

/// The placement field as `nranks` '/'-separated ranks, concatenated top
/// rank first; the topmost failing rank's error wins.
pub open spec fn parse_ranks_rec(s: Seq<char>, nranks: int) -> Result<Seq<PieceInPlay>, ParseError>
    decreases nranks,
{
    if nranks <= 1 {
        rank_squares(s)
    } else {
        match rank_squares(before_char(s, '/')) {
            Err(e) => Err(e),
            Ok(sq) => match parse_ranks_rec(after_char(s, '/'), nranks - 1) {
                Err(e) => Err(e),
                Ok(rest) => Ok(sq + rest),
            },
        }
    }
}

/// A full record: exactly six space-separated fields, the first of which is
/// eight '/'-separated ranks of eight squares each; the board is their
/// concatenation, top rank first.
pub open spec fn parse_fen(s: Seq<char>) -> Result<Seq<PieceInPlay>, ParseError> {
    if count_char(s, ' ') != 5 {
        Err(ParseError::WrongFieldCount)
    } else if count_char(before_char(s, ' '), '/') != 7 {
        Err(ParseError::WrongRankCount)
    } else {
        parse_ranks_rec(before_char(s, ' '), 8)
    }
}

/// A full board: 64 squares in a fixed order, square 0 first.  Sixteen
/// consecutive squares share one word of the packed fingerprint.
#[derive(Clone, Debug)]
pub struct BitPosition {
    pub board: Vec<PieceInPlay>,
}

impl BitPosition {
    /// A board value is well formed when it holds exactly 64 squares.
    pub open spec fn wf(self) -> bool {
        self.board@.len() == 64
    }

    /// Well formed and every square canonical: the boards the codec
    /// round-trips, and the only ones its producers build.
    pub open spec fn canonical(self) -> bool {
        self.wf() && forall|i: int| 0 <= i < 64 ==> square_canonical(self.board@[i])
    }

    /// An all-empty board.
    pub fn new() -> (r: BitPosition)
        ensures
            r.canonical(),
            forall|i: int| 0 <= i < 64 ==> r.board@[i] == empty_square(),
    {
        BitPosition { board: vec![PieceInPlay { piece: BitPiece::Empty, side: Side::Black }; 64] }
    }

    /// Packs the board into its 256-bit fingerprint: four words, sixteen
    /// squares each, the code of square `16k + j` in nibble `j` of word `k`.
    pub fn to_bits(&self) -> (r: (u64, u64, u64, u64))
        requires
            self.wf(),
        ensures
            is_encoding(*self, r.0, r.1, r.2, r.3),
    {
        let mut codes: Vec<u8> = Vec::new();
        let mut i: usize = 0;
        while i < 64
            invariant
                self.wf(),
                i <= 64,
                codes@.len() == i,
                forall|k: int| 0 <= k < i ==> codes@[k] == code_of(self.board@[k]) && codes@[k] < 16,
            decreases 64 - i,
        {
            codes.push(self.board[i].value());
            i += 1;
        }
        let r12 = pack16(&codes, 0);
        let r34 = pack16(&codes, 16);
        let r56 = pack16(&codes, 32);
        let r78 = pack16(&codes, 48);
        (r12, r34, r56, r78)
    }

    /// Unpacks a fingerprint back into a board, or fails with
    /// [`DecodeError::UnknownCode`] exactly when some nibble of some word is
    /// not in the code table.
    pub fn from_bits(r12: u64, r34: u64, r56: u64, r78: u64) -> (r: Result<
        BitPosition,
        DecodeError,
    >)
        ensures
            r is Ok <==> words_decodable(r12, r34, r56, r78),
            match r {
                Ok(b) => is_decoding(r12, r34, r56, r78, b),
                Err(e) => e == DecodeError::UnknownCode,
            },
    {
        let mut board: Vec<PieceInPlay> = Vec::new();
        if !unpack16(r12, &mut board) {
            return Err(DecodeError::UnknownCode);
        }
        if !unpack16(r34, &mut board) {
            return Err(DecodeError::UnknownCode);
        }
        if !unpack16(r56, &mut board) {
            return Err(DecodeError::UnknownCode);
        }
        if !unpack16(r78, &mut board) {
            return Err(DecodeError::UnknownCode);
        }
        Ok(BitPosition { board })
    }

    /// Parses the piece-placement field of a six-field record into a board.
    /// The record must have exactly six space-separated fields, and the
    /// first must be eight '/'-separated ranks of eight squares each; the
    /// error says which condition failed first.  Total: every input returns
    /// a value, none aborts.
    pub fn parse_from_str(fen: &str) -> (r: Result<BitPosition, ParseError>)
        ensures
            match r {
                Ok(b) => parse_fen(fen@) == Ok::<Seq<PieceInPlay>, ParseError>(b.board@)
                    && b.canonical(),
                Err(e) => parse_fen(fen@) == Err::<Seq<PieceInPlay>, ParseError>(e),
            },
    {
        let n = fen.unicode_len();
        let mut spaces: usize = 0;
        let mut i: usize = 0;
        while i < n
            invariant
                i <= n == fen@.len(),
                spaces <= i,
                spaces == count_char(fen@.take(i as int), ' '),
            decreases n - i,
        {
            let c = fen.get_char(i);
            proof {
                assert(fen@.take(i + 1) =~= fen@.take(i as int).push(fen@[i as int]));
                lemma_count_push(fen@.take(i as int), fen@[i as int], ' ');
            }
            if c == ' ' {
                spaces += 1;
            }
            i += 1;
        }
        proof {
            assert(fen@.take(n as int) =~= fen@);
        }
        if spaces != 5 {
            return Err(ParseError::WrongFieldCount);
        }
        let end = find_char_from(fen, 0, n, ' ');
        proof {
            lemma_split_at_first(fen@, ' ', end as int);
        }
        let ghost field = before_char(fen@, ' ');
        let mut slashes: usize = 0;
        let mut j: usize = 0;
        while j < end
            invariant
                j <= end <= n == fen@.len(),
                slashes <= j,
                field == before_char(fen@, ' '),
                field == fen@.take(end as int),
                slashes == count_char(fen@.take(j as int), '/'),
            decreases end - j,
        {
            let c = fen.get_char(j);
            proof {
                assert(fen@.take(j + 1) =~= fen@.take(j as int).push(fen@[j as int]));
                lemma_count_push(fen@.take(j as int), fen@[j as int], '/');
            }
            if c == '/' {
                slashes += 1;
            }
            j += 1;
        }
        if slashes != 7 {
            return Err(ParseError::WrongRankCount);
        }
        proof {
            assert(fen@.take(end as int) =~= fen@.subrange(0, end as int));
        }
        match parse_ranks_range(fen, 0, end, 8) {
            Ok(v) => {
                proof {
                    lemma_ranks_wf(field, 8);
                }
                Ok(BitPosition { board: v })
            },
            Err(e) => Err(e),
        }
    }
}

impl PartialEq for BitPosition {
    /// Boards are equal when all their squares match.
    fn eq(&self, other: &Self) -> (r: bool) {
        if self.board.len() != other.board.len() {
            proof {
                assert(self.board@ != other.board@);
            }
            return false;
        }
        let n = self.board.len();
        let mut i: usize = 0;
        while i < n
            invariant
                i <= n,
                n == self.board@.len(),
                self.board@.len() == other.board@.len(),
                forall|j: int| 0 <= j < i ==> self.board@[j] == other.board@[j],
            decreases n - i,
        {
            if self.board[i] != other.board[i] {
                proof {
                    assert(self.board@[i as int] != other.board@[i as int]);
                }
                return false;
            }
            i += 1;
        }
        proof {
            assert(self.board@ =~= other.board@);
        }
        true
    }
}

impl vstd::std_specs::cmp::PartialEqSpecImpl for BitPosition {
    open spec fn obeys_eq_spec() -> bool {
        true
    }

    open spec fn eq_spec(&self, other: &Self) -> bool {
        self.board@ == other.board@
    }
}

/// Law: decoding inverts encoding.  Any fingerprint that encodes a canonical
/// board is decodable, and the only board it decodes to is the original.
pub proof fn lemma_decode_inverts_encode(b: BitPosition, r12: u64, r34: u64, r56: u64, r78: u64)
    requires
        b.canonical(),
        is_encoding(b, r12, r34, r56, r78),
    ensures
        words_decodable(r12, r34, r56, r78),
        forall|b2: BitPosition|
            is_decoding(r12, r34, r56, r78, b2) ==> b2.board@ == b.board@,
{
    assert forall|j: u64| j < 16 implies piece_of_code(nibble(r12, j) as u8) == Some(
        b.board@[j as int],
    ) && piece_of_code(nibble(r34, j) as u8) == Some(b.board@[16 + j as int]) && piece_of_code(
        nibble(r56, j) as u8,
    ) == Some(b.board@[32 + j as int]) && piece_of_code(nibble(r78, j) as u8) == Some(
        b.board@[48 + j as int],
    ) by {
        lemma_code_table_bijective(b.board@[j as int]);
        lemma_code_table_bijective(b.board@[16 + j as int]);
        lemma_code_table_bijective(b.board@[32 + j as int]);
        lemma_code_table_bijective(b.board@[48 + j as int]);
    }
    assert forall|b2: BitPosition|
        is_decoding(r12, r34, r56, r78, b2) implies b2.board@ == b.board@ by {
        assert forall|i: int| 0 <= i < 64 implies b2.board@[i] == b.board@[i] by {
            if i < 16 {
                assert(piece_of_code(nibble(r12, i as u64) as u8) == Some(b2.board@[i]));
            } else if i < 32 {
                assert(piece_of_code(nibble(r34, (i - 16) as u64) as u8) == Some(b2.board@[i]));
            } else if i < 48 {
                assert(piece_of_code(nibble(r56, (i - 32) as u64) as u8) == Some(b2.board@[i]));
            } else {
                assert(piece_of_code(nibble(r78, (i - 48) as u64) as u8) == Some(b2.board@[i]));
            }
        }
        assert(b2.board@ =~= b.board@);
    }
}

/// Appending one character adds its occurrences to the count.
proof fn lemma_count_push(s: Seq<char>, x: char, c: char)
    ensures
        count_char(s.push(x), c) == count_char(s, c) + (if x == c {
            1int
        } else {
            0int
        }),
    decreases s.len(),
{
    if s.len() == 0 {
        assert(s.push(x)[0] == x);
        assert(s.push(x).skip(1) =~= s);
    } else {
        assert(s.push(x)[0] == s[0]);
        assert(s.push(x).skip(1) =~= s.skip(1).push(x));
        lemma_count_push(s.skip(1), x, c);
    }
}

/// A sequence without `c` counts zero occurrences of it.
proof fn lemma_count_zero(s: Seq<char>, c: char)
    requires
        forall|j: int| 0 <= j < s.len() ==> s[j] != c,
    ensures
        count_char(s, c) == 0,
    decreases s.len(),
{
    if s.len() > 0 {
        assert forall|j: int| 0 <= j < s.skip(1).len() implies s.skip(1)[j] != c by {
            assert(s.skip(1)[j] == s[j + 1]);
        }
        lemma_count_zero(s.skip(1), c);
    }
}

/// Counting distributes over concatenation.
proof fn lemma_count_concat(a: Seq<char>, b: Seq<char>, c: char)
    ensures
        count_char(a + b, c) == count_char(a, c) + count_char(b, c),
    decreases a.len(),
{
    if a.len() == 0 {
        assert(a + b =~= b);
    } else {
        assert((a + b)[0] == a[0]);
        assert((a + b).skip(1) =~= a.skip(1) + b);
        lemma_count_concat(a.skip(1), b, c);
    }
}

/// Where a scan finds the first `c` at `k` (or reaches the end without
/// one), the before/after splits are the take/skip at that point, and the
/// count splits around the separator.
proof fn lemma_split_at_first(s: Seq<char>, c: char, k: int)
    requires
        0 <= k <= s.len(),
        forall|j: int| 0 <= j < k ==> s[j] != c,
        k < s.len() ==> s[k] == c,
    ensures
        before_char(s, c) == s.take(k),
        k < s.len() ==> after_char(s, c) == s.skip(k + 1) && count_char(s, c) == 1 + count_char(
            s.skip(k + 1),
            c,
        ),
        k == s.len() ==> count_char(s, c) == 0,
    decreases s.len(),
{
    if k == s.len() {
        lemma_count_zero(s, c);
        if s.len() == 0 {
            assert(before_char(s, c) =~= s.take(k));
        } else {
            assert forall|j: int| 0 <= j < s.skip(1).len() implies s.skip(1)[j] != c by {
                assert(s.skip(1)[j] == s[j + 1]);
            }
            lemma_split_at_first(s.skip(1), c, k - 1);
            assert(before_char(s, c) == seq![s[0]] + before_char(s.skip(1), c));
            assert(seq![s[0]] + s.skip(1).take(k - 1) =~= s.take(k));
        }
    } else if k == 0 {
        assert(before_char(s, c) =~= s.take(0));
        assert(after_char(s, c) == s.skip(1));
        assert(s.skip(1) =~= s.skip(k + 1));
        let tail = s.skip(1);
        assert(s =~= s.take(0).push(s[0]) + tail);
        assert(s.take(0).push(s[0]) =~= seq![c]);
        lemma_count_concat(seq![c], tail, c);
        assert(seq![c].skip(1) =~= Seq::<char>::empty());
        assert(count_char(seq![c], c) == 1);
    } else {
        assert forall|j: int| 0 <= j < k - 1 implies s.skip(1)[j] != c by {
            assert(s.skip(1)[j] == s[j + 1]);
        }
        assert(s.skip(1)[k - 1] == s[k]);
        lemma_split_at_first(s.skip(1), c, k - 1);
        assert(before_char(s, c) == seq![s[0]] + before_char(s.skip(1), c));
        assert(seq![s[0]] + s.skip(1).take(k - 1) =~= s.take(k));
        assert(after_char(s, c) == after_char(s.skip(1), c));
        assert(s.skip(1).skip(k) =~= s.skip(k + 1));
        assert(count_char(s, c) == count_char(s.skip(1), c));
    }
}

/// A successful rank parse yields only canonical squares.
proof fn lemma_rank_canonical(s: Seq<char>)
    requires
        parse_rank(s) is Ok,
    ensures
        forall|i: int|
            0 <= i < parse_rank(s)->Ok_0.len() ==> square_canonical(
                #[trigger] parse_rank(s)->Ok_0[i],
            ),
    decreases s.len(),
{
    if s.len() > 0 {
        lemma_rank_canonical(s.skip(1));
        let rest = parse_rank(s.skip(1))->Ok_0;
        assert forall|i: int|
            0 <= i < parse_rank(s)->Ok_0.len() implies square_canonical(
            #[trigger] parse_rank(s)->Ok_0[i],
        ) by {
            match piece_of_char(s[0]) {
                Some(p) => {
                    assert(parse_rank(s)->Ok_0 == seq![p] + rest);
                    if i >= 1 {
                        assert(parse_rank(s)->Ok_0[i] == rest[i - 1]);
                    }
                },
                None => {
                    let d = digit_value(s[0])->0;
                    assert(parse_rank(s)->Ok_0 == empties(d) + rest);
                    if i >= d {
                        assert(parse_rank(s)->Ok_0[i] == rest[i - d]);
                    }
                },
            }
        }
    }
}

/// A successful placement parse yields eight canonical squares per rank.
proof fn lemma_ranks_wf(s: Seq<char>, nranks: int)
    requires
        1 <= nranks,
        parse_ranks_rec(s, nranks) is Ok,
    ensures
        parse_ranks_rec(s, nranks)->Ok_0.len() == 8 * nranks,
        forall|i: int|
            0 <= i < 8 * nranks ==> square_canonical(#[trigger] parse_ranks_rec(s, nranks)->Ok_0[i]),
    decreases nranks,
{
    if nranks == 1 {
        lemma_rank_canonical(s);
    } else {
        let sq = rank_squares(before_char(s, '/'))->Ok_0;
        lemma_rank_canonical(before_char(s, '/'));
        lemma_ranks_wf(after_char(s, '/'), nranks - 1);
        let rest = parse_ranks_rec(after_char(s, '/'), nranks - 1)->Ok_0;
        assert(parse_ranks_rec(s, nranks)->Ok_0 == sq + rest);
        assert forall|i: int|
            0 <= i < 8 * nranks implies square_canonical(
            #[trigger] parse_ranks_rec(s, nranks)->Ok_0[i],
        ) by {
            if i >= 8 {
                assert(parse_ranks_rec(s, nranks)->Ok_0[i] == rest[i - 8]);
            }
        }
    }
}

/// The square state a placement letter denotes, if any.
fn piece_from_char(c: char) -> (r: Option<PieceInPlay>)
    ensures
        r == piece_of_char(c),
{
    match c {
        'P' => Some(PieceInPlay { piece: BitPiece::Pawn, side: Side::White }),
        'N' => Some(PieceInPlay { piece: BitPiece::Knight, side: Side::White }),
        'B' => Some(PieceInPlay { piece: BitPiece::Bishop, side: Side::White }),
        'R' => Some(PieceInPlay { piece: BitPiece::Rook, side: Side::White }),
        'Q' => Some(PieceInPlay { piece: BitPiece::Queen, side: Side::White }),
        'K' => Some(PieceInPlay { piece: BitPiece::King, side: Side::White }),
        'p' => Some(PieceInPlay { piece: BitPiece::Pawn, side: Side::Black }),
        'n' => Some(PieceInPlay { piece: BitPiece::Knight, side: Side::Black }),
        'b' => Some(PieceInPlay { piece: BitPiece::Bishop, side: Side::Black }),
        'r' => Some(PieceInPlay { piece: BitPiece::Rook, side: Side::Black }),
        'q' => Some(PieceInPlay { piece: BitPiece::Queen, side: Side::Black }),
        'k' => Some(PieceInPlay { piece: BitPiece::King, side: Side::Black }),
        _ => None,
    }
}

/// The empty-run length a placement digit denotes, if any.
fn digit_from_char(c: char) -> (r: Option<u8>)
    ensures
        match r {
            Some(d) => digit_value(c) == Some(d as int),
            None => digit_value(c) is None,
        },
{
    match c {
        '1' => Some(1),
        '2' => Some(2),
        '3' => Some(3),
        '4' => Some(4),
        '5' => Some(5),
        '6' => Some(6),
        '7' => Some(7),
        '8' => Some(8),
        _ => None,
    }
}

/// Whether the character is any decimal digit.
fn is_decimal(c: char) -> (r: bool)
    ensures
        r == is_decimal_char(c),
{
    c == '0' || c == '1' || c == '2' || c == '3' || c == '4' || c == '5' || c == '6' || c == '7'
        || c == '8' || c == '9'
}

/// The first index of `c` in `[start, end)` of `s`, or `end` if it does not
/// occur there.
fn find_char_from(s: &str, start: usize, end: usize, c: char) -> (r: usize)
    requires
        start <= end <= s@.len(),
    ensures
        start <= r <= end,
        forall|j: int| start <= j < r ==> s@[j] != c,
        r < end ==> s@[r as int] == c,
{
    let mut i = start;
    while i < end
        invariant
            start <= i <= end <= s@.len(),
            forall|j: int| start <= j < i ==> s@[j] != c,
        decreases end - i,
    {
        if s.get_char(i) == c {
            return i;
        }
        i += 1;
    }
    i
}

/// Parses the rank standing in `[start, end)` of `s`.
fn parse_rank_range(s: &str, start: usize, end: usize) -> (r: Result<Vec<PieceInPlay>, ParseError>)
    requires
        start <= end <= s@.len(),
    ensures
        match r {
            Ok(v) => rank_squares(s@.subrange(start as int, end as int)) == Ok::<
                Seq<PieceInPlay>,
                ParseError,
            >(v@),
            Err(e) => rank_squares(s@.subrange(start as int, end as int)) == Err::<
                Seq<PieceInPlay>,
                ParseError,
            >(e),
        },
{
    let ghost whole = s@.subrange(start as int, end as int);
    let mut out: Vec<PieceInPlay> = Vec::new();
    let mut i = start;
    while i < end
        invariant
            start <= i <= end <= s@.len(),
            whole == s@.subrange(start as int, end as int),
            parse_rank(s@.subrange(i as int, end as int)) is Ok ==> parse_rank(whole) == Ok::<
                Seq<PieceInPlay>,
                ParseError,
            >(out@ + parse_rank(s@.subrange(i as int, end as int))->Ok_0),
            parse_rank(s@.subrange(i as int, end as int)) is Err ==> parse_rank(whole)
                == parse_rank(s@.subrange(i as int, end as int)),
        decreases end - i,
    {
        let ghost rem = s@.subrange(i as int, end as int);
        let ghost rem2 = s@.subrange(i as int + 1, end as int);
        proof {
            assert(rem[0] == s@[i as int]);
            assert(rem.skip(1) =~= rem2);
        }
        let c = s.get_char(i);
        match piece_from_char(c) {
            Some(p) => {
                let ghost prev = out@;
                out.push(p);
                proof {
                    if parse_rank(rem2) is Ok {
                        assert(parse_rank(rem) == Ok::<Seq<PieceInPlay>, ParseError>(
                            seq![p] + parse_rank(rem2)->Ok_0,
                        ));
                        assert(out@ + parse_rank(rem2)->Ok_0 =~= (prev + (seq![p] + parse_rank(
                            rem2,
                        )->Ok_0)));
                    }
                }
            },
            None => {
                match digit_from_char(c) {
                    Some(d) => {
                        let ghost base = out@;
                        let mut t: usize = 0;
                        while t < d as usize
                            invariant
                                t <= d,
                                out@ == base + empties(t as int),
                            decreases d - t,
                        {
                            out.push(PieceInPlay { piece: BitPiece::Empty, side: Side::Black });
                            proof {
                                assert(out@ =~= base + empties(t + 1));
                            }
                            t += 1;
                        }
                        proof {
                            if parse_rank(rem2) is Ok {
                                assert(parse_rank(rem) == Ok::<
                                    Seq<PieceInPlay>,
                                    ParseError,
                                >(empties(d as int) + parse_rank(rem2)->Ok_0));
                                assert(out@ + parse_rank(rem2)->Ok_0 =~= (base + (empties(d as int)
                                    + parse_rank(rem2)->Ok_0)));
                            }
                        }
                    },
                    None => {
                        if is_decimal(c) {
                            proof {
                                assert(parse_rank(rem) == Err::<Seq<PieceInPlay>, ParseError>(
                                    ParseError::InvalidDigit,
                                ));
                            }
                            return Err(ParseError::InvalidDigit);
                        } else {
                            proof {
                                assert(parse_rank(rem) == Err::<Seq<PieceInPlay>, ParseError>(
                                    ParseError::InvalidPieceChar,
                                ));
                            }
                            return Err(ParseError::InvalidPieceChar);
                        }
                    },
                }
            },
        }
        i += 1;
    }
    proof {
        let rem = s@.subrange(i as int, end as int);
        assert(rem.len() == 0);
        assert(parse_rank(rem) == Ok::<Seq<PieceInPlay>, ParseError>(Seq::empty()));
        assert(out@ + Seq::<PieceInPlay>::empty() =~= out@);
    }
    if out.len() == 8 {
        Ok(out)
    } else {
        Err(ParseError::InvalidDigit)
    }
}

/// Parses `nranks` '/'-separated ranks standing in `[start, end)` of `s`.
fn parse_ranks_range(s: &str, start: usize, end: usize, nranks: usize) -> (r: Result<
    Vec<PieceInPlay>,
    ParseError,
>)
    requires
        start <= end <= s@.len(),
        1 <= nranks <= 8,
        count_char(s@.subrange(start as int, end as int), '/') == nranks - 1,
    ensures
        match r {
            Ok(v) => parse_ranks_rec(s@.subrange(start as int, end as int), nranks as int)
                == Ok::<Seq<PieceInPlay>, ParseError>(v@),
            Err(e) => parse_ranks_rec(s@.subrange(start as int, end as int), nranks as int)
                == Err::<Seq<PieceInPlay>, ParseError>(e),
        },
    decreases nranks,
{
    let ghost whole = s@.subrange(start as int, end as int);
    if nranks == 1 {
        return parse_rank_range(s, start, end);
    }
    let cut = find_char_from(s, start, end, '/');
    proof {
        assert forall|j: int| 0 <= j < cut - start implies whole[j] != '/' by {
            assert(whole[j] == s@[start + j]);
        }
        if cut < end {
            assert(whole[cut - start] == s@[cut as int]);
        }
        lemma_split_at_first(whole, '/', cut - start);
        if cut == end {
            assert(count_char(whole, '/') == 0);
            assert(false);
        }
        assert(before_char(whole, '/') == whole.take(cut - start));
        assert(whole.take(cut - start) =~= s@.subrange(start as int, cut as int));
        assert(after_char(whole, '/') == whole.skip(cut - start + 1));
        assert(whole.skip(cut - start + 1) =~= s@.subrange(cut as int + 1, end as int));
    }
    match parse_rank_range(s, start, cut) {
        Err(e) => Err(e),
        Ok(mut sq) => {
            match parse_ranks_range(s, cut + 1, end, nranks - 1) {
                Err(e) => Err(e),
                Ok(mut rest) => {
                    sq.append(&mut rest);
                    Ok(sq)
                },
            }
        },
    }
}

/// Law: on canonical boards encoding is injective — boards differing in any
/// square receive different fingerprints.
pub proof fn lemma_encoding_injective(
    b1: BitPosition,
    b2: BitPosition,
    r12: u64,
    r34: u64,
    r56: u64,
    r78: u64,
)
    requires
        b1.canonical(),
        b2.canonical(),
        is_encoding(b1, r12, r34, r56, r78),
        is_encoding(b2, r12, r34, r56, r78),
    ensures
        b1.board@ == b2.board@,
{
    assert forall|i: int| 0 <= i < 64 implies b1.board@[i] == b2.board@[i] by {
        lemma_code_table_bijective(b1.board@[i]);
        lemma_code_table_bijective(b2.board@[i]);
        if i < 16 {
            assert(nibble(r12, i as u64) == code_of(b1.board@[i]) as u64);
            assert(nibble(r12, i as u64) == code_of(b2.board@[i]) as u64);
        } else if i < 32 {
            let j = (i - 16) as u64;
            assert(nibble(r34, j) == code_of(b1.board@[16 + j as int]) as u64);
            assert(nibble(r34, j) == code_of(b2.board@[16 + j as int]) as u64);
        } else if i < 48 {
            let j = (i - 32) as u64;
            assert(nibble(r56, j) == code_of(b1.board@[32 + j as int]) as u64);
            assert(nibble(r56, j) == code_of(b2.board@[32 + j as int]) as u64);
        } else {
            let j = (i - 48) as u64;
            assert(nibble(r78, j) == code_of(b1.board@[48 + j as int]) as u64);
            assert(nibble(r78, j) == code_of(b2.board@[48 + j as int]) as u64);
        }
        assert(piece_of_code(code_of(b1.board@[i])) == piece_of_code(code_of(b2.board@[i])));
    }
    assert(b1.board@ =~= b2.board@);
}

/// Law: encoding is a function of the board alone.  Two encodings of one
/// board are bit-for-bit equal, in this process or any other.
pub proof fn lemma_encoding_unique(
    b: BitPosition,
    a1: u64,
    a2: u64,
    a3: u64,
    a4: u64,
    c1: u64,
    c2: u64,
    c3: u64,
    c4: u64,
)
    requires
        is_encoding(b, a1, a2, a3, a4),
        is_encoding(b, c1, c2, c3, c4),
    ensures
        a1 == c1 && a2 == c2 && a3 == c3 && a4 == c4,
{
    lemma_nibbles_determine_word(a1, c1);
    lemma_nibbles_determine_word(a2, c2);
    lemma_nibbles_determine_word(a3, c3);
    lemma_nibbles_determine_word(a4, c4);
}

} // verus!
