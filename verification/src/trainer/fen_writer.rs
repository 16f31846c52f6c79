//! Writing a position in Forsyth-Edwards Notation.

use vstd::prelude::*;

use crate::engine::board::{square_text, square_text_defined, Color, Piece, PieceType};
use crate::engine::game_state::{CastlingRights, GameState};
use crate::text::{nat_text, push_char, push_decimal};

verus! {

/// The FEN letter of a piece: upper case for White.
pub open spec fn fen_char(p: Piece) -> char {
    let lower = match p.kind {
        PieceType::Pawn => 'p',
        PieceType::Knight => 'n',
        PieceType::Bishop => 'b',
        PieceType::Rook => 'r',
        PieceType::Queen => 'q',
        PieceType::King => 'k',
    };
    if p.color == Color::White {
        (lower as u32 - 32) as char
    } else {
        lower
    }
}

/// The digit for a run of `n` empty squares, if there is a run.
pub open spec fn run_text(n: int) -> Seq<char> {
    if n > 0 {
        seq![(48 + n) as char]
    } else {
        Seq::empty()
    }
}

/// FEN text of the squares of `rank` from `file` on, after a run of `empty` empty squares.
pub open spec fn rank_text_from(b: Seq<Option<Piece>>, rank: int, file: int, empty: int) -> Seq<char>
    decreases 8 - file,
{
    if file >= 8 {
        run_text(empty)
    } else {
        match b[rank * 8 + file] {
            Some(p) => run_text(empty) + seq![fen_char(p)] + rank_text_from(b, rank, file + 1, 0),
            None => rank_text_from(b, rank, file + 1, empty + 1),
        }
    }
}

/// FEN text of ranks `rank` down to the first, separated by `/`.
pub open spec fn ranks_text(b: Seq<Option<Piece>>, rank: int) -> Seq<char>
    decreases rank,
{
    if rank <= 0 {
        rank_text_from(b, 0, 0, 0)
    } else {
        rank_text_from(b, rank, 0, 0) + seq!['/'] + ranks_text(b, rank - 1)
    }
}

pub open spec fn castling_text(c: CastlingRights) -> Seq<char> {
    let t = (if c.white_king_side { seq!['K'] } else { Seq::empty() }) + (if c.white_queen_side {
        seq!['Q']
    } else {
        Seq::empty()
    }) + (if c.black_king_side { seq!['k'] } else { Seq::empty() }) + (if c.black_queen_side {
        seq!['q']
    } else {
        Seq::empty()
    });
    if t.len() == 0 {
        seq!['-']
    } else {
        t
    }
}

/// The FEN text of a position.
pub open spec fn fen_text(s: GameState) -> Seq<char> {
    ranks_text(s.board@, 7) + seq![' '] + (if s.side_to_move == Color::White {
        seq!['w']
    } else {
        seq!['b']
    }) + seq![' '] + castling_text(s.castling) + seq![' '] + (match s.en_passant {
        Some(sq) => square_text(sq as int),
        None => seq!['-'],
    }) + seq![' '] + nat_text(s.halfmove_clock as nat) + seq![' '] + nat_text(s.fullmove_number as nat)
}

pub fn piece_to_fen_char(piece: Piece) -> (r: char)
    ensures
        r == fen_char(piece),
{
    let ch = match piece.kind {
        PieceType::Pawn => 'p',
        PieceType::Knight => 'n',
        PieceType::Bishop => 'b',
        PieceType::Rook => 'r',
        PieceType::Queen => 'q',
        PieceType::King => 'k',
    };
    if piece.color == Color::White {
        match ch {
            'p' => 'P',
            'n' => 'N',
            'b' => 'B',
            'r' => 'R',
            'q' => 'Q',
            _ => 'K',
        }
    } else {
        ch
    }
}

pub fn square_to_text(sq: usize) -> (r: String)
    requires
        square_text_defined(sq as int),
    ensures
        r@ == square_text(sq as int),
{
    let file = (97u8 + (sq % 8) as u8) as char;
    let rank = (49u8 + ((sq / 8) % 256) as u8) as char;
    let mut text = String::new();
    push_char(&mut text, file);
    push_char(&mut text, rank);
    assert(text@ =~= square_text(sq as int));
    text
}

fn push_run(text: &mut String, empty: u8)
    requires
        empty <= 8,
    ensures
        final(text)@ == old(text)@ + run_text(empty as int),
{
    if empty > 0 {
        push_char(text, (48u8 + empty) as char);
    }
    assert(final(text)@ =~= old(text)@ + run_text(empty as int));
}

fn push_board(text: &mut String, state: &GameState)
    ensures
        final(text)@ == old(text)@ + ranks_text(state.board@, 7),
{
    let ghost b = state.board@;
    let ghost start = text@;
    let mut rank: usize = 8;
    while rank > 0
        invariant
            rank <= 8,
            b == state.board@,
            b.len() == 64,
            text@ + (if rank > 0 { ranks_text(b, rank - 1) } else { Seq::empty() }) == start
                + ranks_text(b, 7),
        decreases rank,
    {
        rank -= 1;
        let ghost before = text@;
        let mut empty: u8 = 0;
        let mut file: usize = 0;
        while file < 8
            invariant
                rank < 8,
                file <= 8,
                empty as int <= file,
                b == state.board@,
                b.len() == 64,
                text@ + rank_text_from(b, rank as int, file as int, empty as int) == before
                    + rank_text_from(b, rank as int, 0, 0),
            decreases 8 - file,
        {
            let sq = rank * 8 + file;
            match state.board[sq] {
                Some(piece) => {
                    let ghost pre = text@;
                    push_run(text, empty);
                    push_char(text, piece_to_fen_char(piece));
                    assert(text@ + rank_text_from(b, rank as int, file + 1, 0) =~= pre
                        + rank_text_from(b, rank as int, file as int, empty as int));
                    empty = 0;
                },
                None => {
                    empty += 1;
                },
            }
            file += 1;
        }
        push_run(text, empty);
        if rank > 0 {
            push_char(text, '/');
            assert(text@ + ranks_text(b, rank - 1) =~= before + ranks_text(b, rank as int));
        } else {
            assert(text@ =~= before + ranks_text(b, 0));
        }
    }
}

fn push_castling(text: &mut String, c: CastlingRights)
    ensures
        final(text)@ == old(text)@ + castling_text(c),
{
    let ghost start = text@;
    let mut any = false;
    if c.white_king_side {
        push_char(text, 'K');
        any = true;
    }
    if c.white_queen_side {
        push_char(text, 'Q');
        any = true;
    }
    if c.black_king_side {
        push_char(text, 'k');
        any = true;
    }
    if c.black_queen_side {
        push_char(text, 'q');
        any = true;
    }
    if !any {
        push_char(text, '-');
    }
    assert(text@ =~= start + castling_text(c));
}

pub fn game_state_to_fen(state: &GameState) -> (r: String)
    requires
        state.en_passant matches Some(sq) ==> square_text_defined(sq as int),
    ensures
        r@ == fen_text(*state),
{
    let mut text = String::new();
    push_board(&mut text, state);
    push_char(&mut text, ' ');
    push_char(&mut text, if state.side_to_move == Color::White { 'w' } else { 'b' });
    push_char(&mut text, ' ');
    push_castling(&mut text, state.castling);
    push_char(&mut text, ' ');
    match state.en_passant {
        Some(sq) => {
            let square = square_to_text(sq);
            text.append(square.as_str());
        },
        None => push_char(&mut text, '-'),
    }
    push_char(&mut text, ' ');
    push_decimal(&mut text, state.halfmove_clock as u64);
    push_char(&mut text, ' ');
    push_decimal(&mut text, state.fullmove_number as u64);
    assert(text@ =~= fen_text(*state));
    text
}

} // verus!
