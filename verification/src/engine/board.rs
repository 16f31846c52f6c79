//! Colours, pieces, moves and square arithmetic on the 8x8 board.
//!
//! Squares are numbered `rank * 8 + file`, with a1 = 0, h1 = 7 and h8 = 63.

use vstd::prelude::*;

use crate::text::push_char;
use vstd::string::StringSliceAdditionalSpecFns;

verus! {

#[derive(Debug, Copy, Clone, PartialEq, Eq, Hash, Structural)]
pub enum Color {
    White,
    Black,
}

impl Color {
    /// The other colour.
    pub open spec fn other(self) -> Color {
        match self {
            Color::White => Color::Black,
            Color::Black => Color::White,
        }
    }

    pub fn opposite(self) -> (r: Self)
        ensures
            r == self.other(),
    {
        match self {
            Color::White => Color::Black,
            Color::Black => Color::White,
        }
    }
}

#[derive(Debug, Copy, Clone, PartialEq, Eq, Hash, Structural)]
pub enum PieceType {
    Pawn,
    Knight,
    Bishop,
    Rook,
    Queen,
    King,
}

#[derive(Debug, Copy, Clone, PartialEq, Eq, Hash, Structural)]
pub struct Piece {
    pub color: Color,
    pub kind: PieceType,
}

#[derive(Debug, Copy, Clone, PartialEq, Eq, Hash, Structural)]
pub struct Move {
    pub from: usize,
    pub to: usize,
    pub promotion: Option<PieceType>,
    pub is_en_passant: bool,
    pub is_castling: bool,
}

/// A plain move from `from` to `to`: no promotion, not en passant, not castling.
pub open spec fn plain_move(from: int, to: int) -> Move {
    Move {
        from: from as usize,
        to: to as usize,
        promotion: None,
        is_en_passant: false,
        is_castling: false,
    }
}

/// The letter that follows the two squares of a promotion in UCI notation.
pub open spec fn promotion_letter(kind: PieceType) -> char {
    match kind {
        PieceType::Knight => 'n',
        PieceType::Bishop => 'b',
        PieceType::Rook => 'r',
        _ => 'q',
    }
}

/// The two characters that name a square: file letter then rank digit.
/// For squares past the eighth rank the rank byte wraps as a `u8` does.
pub open spec fn square_text(sq: int) -> Seq<char> {
    seq![(97 + sq % 8) as char, (49 + (sq / 8) % 256) as char]
}

/// Whether `square_text` can be computed without overflowing a byte.
pub open spec fn square_text_defined(sq: int) -> bool {
    (sq / 8) % 256 <= 206
}

/// UCI text of a move: from-square, to-square, and the promotion letter if any.
pub open spec fn uci_text(mv: Move) -> Seq<char> {
    let base = square_text(mv.from as int) + square_text(mv.to as int);
    match mv.promotion {
        Some(kind) => base.push(promotion_letter(kind)),
        None => base,
    }
}

/// The square that a two-byte text such as `e4` names, if it names one.
pub open spec fn square_of_bytes(b: Seq<u8>) -> Option<usize> {
    if b.len() == 2 && 97 <= b[0] <= 104 && 49 <= b[1] <= 56 {
        Some(((b[1] - 49) * 8 + (b[0] - 97)) as usize)
    } else {
        None
    }
}

/// The UTF-8 bytes of a board square's name are its two ASCII letters.
proof fn lemma_square_name_bytes(sq: int)
    requires
        0 <= sq < 64,
    ensures
        vstd::utf8::encode_utf8(square_text(sq)) == seq![(97 + sq % 8) as u8, (49 + sq / 8) as u8],
{
    let t = square_text(sq);
    assert(vstd::utf8::is_ascii_chars(t));
    vstd::utf8::is_ascii_chars_encode_utf8(t);
    let b = vstd::utf8::encode_utf8(t);
    assert(b[0] == t[0] as u8);
    assert(b[1] == t[1] as u8);
    assert(b =~= seq![(97 + sq % 8) as u8, (49 + sq / 8) as u8]);
}

/// Square names read back: the name written for a board square reads as that square,
/// and a text that reads as a square is that square's name.
pub proof fn law_square_name_round_trip(sq: int, text: Seq<char>)
    ensures
        0 <= sq < 64 ==> square_of_bytes(vstd::utf8::encode_utf8(square_text(sq))) == Some(
            sq as usize,
        ),
        square_of_bytes(vstd::utf8::encode_utf8(text)) matches Some(q) ==> q < 64 && text
            == square_text(q as int),
{
    if 0 <= sq < 64 {
        lemma_square_name_bytes(sq);
        assert((sq / 8) * 8 + sq % 8 == sq);
    }
    let b = vstd::utf8::encode_utf8(text);
    if let Some(q) = square_of_bytes(b) {
        let f = b[0] - 97;
        let r = b[1] - 49;
        assert(q == r * 8 + f);
        assert(q % 8 == f && q / 8 == r);
        lemma_square_name_bytes(q as int);
        assert(vstd::utf8::encode_utf8(square_text(q as int)) =~= b);
        vstd::utf8::encode_utf8_decode_utf8(text);
        vstd::utf8::encode_utf8_decode_utf8(square_text(q as int));
    }
}

impl Move {
    pub fn new(from: usize, to: usize) -> (r: Self)
        ensures
            r == plain_move(from as int, to as int),
    {
        Self { from, to, promotion: None, is_en_passant: false, is_castling: false }
    }

    pub fn to_uci(self) -> (r: String)
        requires
            square_text_defined(self.from as int),
            square_text_defined(self.to as int),
        ensures
            r@ == uci_text(self),
    {
        let mut text = square_to_str(self.from);
        let to_text = square_to_str(self.to);
        text.append(to_text.as_str());
        if let Some(p) = self.promotion {
            let letter = match p {
                PieceType::Knight => 'n',
                PieceType::Bishop => 'b',
                PieceType::Rook => 'r',
                PieceType::Queen => 'q',
                _ => 'q',
            };
            push_char(&mut text, letter);
        }
        text
    }
}

pub fn square(file: usize, rank: usize) -> (r: usize)
    requires
        rank * 8 + file <= usize::MAX,
    ensures
        r == rank * 8 + file,
{
    rank * 8 + file
}

pub fn file_of(sq: usize) -> (r: usize)
    ensures
        r == sq % 8,
{
    sq % 8
}

pub fn rank_of(sq: usize) -> (r: usize)
    ensures
        r == sq / 8,
{
    sq / 8
}

pub fn square_to_str(sq: usize) -> (r: String)
    requires
        square_text_defined(sq as int),
    ensures
        r@ == square_text(sq as int),
{
    let file_byte: u8 = file_of(sq) as u8;
    let rank_byte: u8 = (rank_of(sq) % 256) as u8;
    let file = (97u8 + file_byte) as char;
    let rank = (49u8 + rank_byte) as char;
    let mut text = String::new();
    push_char(&mut text, file);
    push_char(&mut text, rank);
    proof {
        assert(text@ =~= square_text(sq as int));
    }
    text
}

pub fn str_to_square(input: &str) -> (r: Option<usize>)
    ensures
        r == square_of_bytes(input.spec_bytes()),
{
    if input.len() != 2 {
        return None;
    }
    let bytes = input.as_bytes();
    if !(97 <= bytes[0] && bytes[0] <= 104) || !(49 <= bytes[1] && bytes[1] <= 56) {
        return None;
    }
    Some(square((bytes[0] - 97) as usize, (bytes[1] - 49) as usize))
}

} // verus!
