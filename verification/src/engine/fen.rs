//! Reading positions in Forsyth-Edwards Notation.

use vstd::prelude::*;

use crate::engine::board::{square, Color, Piece, PieceType};
use crate::engine::game_state::{CastlingRights, GameState};
use crate::text::{
    ascii_digit, chars_of, decimal_value, digit_value, has_char, is_text, parse_u32, push_char,
    split_at_char, split_on, split_on_from, split_whitespace, split_ws, split_ws_from, u32_of_text,
    utf8_len, utf8_len_capped, views,
};

verus! {

pub const STARTPOS_FEN: &'static str = "rnbqkbnr/pppppppp/8/8/8/8/PPPPPPPP/RNBQKBNR w KQkq - 0 1";

/// The piece a FEN board letter stands for: upper case White, lower case Black.
pub open spec fn piece_of_char(c: char) -> Option<Piece> {
    let color = if 'A' <= c <= 'Z' { Color::White } else { Color::Black };
    let kind = if c == 'p' || c == 'P' {
        Some(PieceType::Pawn)
    } else if c == 'n' || c == 'N' {
        Some(PieceType::Knight)
    } else if c == 'b' || c == 'B' {
        Some(PieceType::Bishop)
    } else if c == 'r' || c == 'R' {
        Some(PieceType::Rook)
    } else if c == 'q' || c == 'Q' {
        Some(PieceType::Queen)
    } else if c == 'k' || c == 'K' {
        Some(PieceType::King)
    } else {
        None
    };
    match kind {
        Some(k) => Some(Piece { color, kind: k }),
        None => None,
    }
}

pub open spec fn empty_board() -> Seq<Option<Piece>> {
    Seq::new(64, |i: int| None)
}

/// Reading the rest of one rank of the board field from position `j`, at file `file`
/// of board rank `board_rank`, into `b`: digits skip that many files, letters place
/// pieces; the rank must come to exactly eight files.
pub open spec fn rank_scan(
    b: Seq<Option<Piece>>,
    row: Seq<char>,
    board_rank: int,
    j: int,
    file: int,
) -> Result<Seq<Option<Piece>>, Seq<char>>
    decreases row.len() - j,
{
    if j >= row.len() {
        if file == 8 {
            Ok(b)
        } else {
            Err("Rank does not have exactly 8 squares"@)
        }
    } else if ascii_digit(row[j]) {
        rank_scan(b, row, board_rank, j + 1, file + digit_value(row[j]))
    } else {
        match piece_of_char(row[j]) {
            None => Err("Invalid piece character: "@.push(row[j])),
            Some(p) => if file >= 8 {
                Err("Too many files in rank"@)
            } else {
                rank_scan(b.update(board_rank * 8 + file, Some(p)), row, board_rank, j + 1, file + 1)
            },
        }
    }
}

/// Reading ranks `i..8` (the first is the eighth rank) into `b`.
pub open spec fn ranks_scan(b: Seq<Option<Piece>>, ranks: Seq<Seq<char>>, i: int) -> Result<
    Seq<Option<Piece>>,
    Seq<char>,
>
    decreases 8 - i,
{
    if i >= 8 {
        Ok(b)
    } else {
        match rank_scan(b, ranks[i], 7 - i, 0, 0) {
            Ok(b2) => ranks_scan(b2, ranks, i + 1),
            Err(e) => Err(e),
        }
    }
}

/// The board `b` with the pieces of a FEN board field written into it, or the
/// complaint about the field.
pub open spec fn board_field_into(b: Seq<Option<Piece>>, data: Seq<char>) -> Result<Seq<Option<Piece>>, Seq<char>> {
    let ranks = split_on(data, '/');
    if ranks.len() != 8 {
        Err("Board field must have 8 ranks"@)
    } else {
        ranks_scan(b, ranks, 0)
    }
}

/// The board that a FEN board field describes, or the complaint about it.
pub open spec fn board_of_field(data: Seq<char>) -> Result<Seq<Option<Piece>>, Seq<char>> {
    board_field_into(empty_board(), data)
}

pub open spec fn castling_of_text(t: Seq<char>) -> CastlingRights {
    CastlingRights {
        white_king_side: t.contains('K'),
        white_queen_side: t.contains('Q'),
        black_king_side: t.contains('k'),
        black_queen_side: t.contains('q'),
    }
}

/// The square a two-character text such as `e3` names, or the complaint about it.
/// The length is counted in UTF-8 bytes.
pub open spec fn square_of_text(t: Seq<char>) -> Result<usize, Seq<char>> {
    if utf8_len(t) != 2 {
        Err("Invalid square format"@)
    } else if t.len() == 2 && 'a' <= t[0] <= 'h' && '1' <= t[1] <= '8' {
        Ok(((t[1] as int - '1' as int) * 8 + (t[0] as int - 'a' as int)) as usize)
    } else {
        Err("Square out of range"@)
    }
}

/// The contents of a position as FEN gives them.
pub struct FenPosition {
    pub board: Seq<Option<Piece>>,
    pub side_to_move: Color,
    pub castling: CastlingRights,
    pub en_passant: Option<usize>,
    pub halfmove_clock: u32,
    pub fullmove_number: u32,
}

/// What a FEN text describes, or the first complaint about it. The six fields are
/// board, side to move, castling rights, en passant square, halfmove clock and
/// fullmove number, separated by white space.
pub open spec fn fen_parse(fen: Seq<char>) -> Result<FenPosition, Seq<char>> {
    fen_fields_parse(split_ws(fen))
}

/// What the white-space separated fields of a FEN text describe, or the first
/// complaint about them.
pub open spec fn fen_fields_parse(parts: Seq<Seq<char>>) -> Result<FenPosition, Seq<char>> {
    if parts.len() != 6 {
        Err("FEN must have 6 fields"@)
    } else {
        match board_of_field(parts[0]) {
            Err(e) => Err(e),
            Ok(board) => {
                let side = if parts[1] == "w"@ {
                    Some(Color::White)
                } else if parts[1] == "b"@ {
                    Some(Color::Black)
                } else {
                    None
                };
                let ep: Result<Option<usize>, Seq<char>> = if parts[3] == "-"@ {
                    Ok(None)
                } else {
                    match square_of_text(parts[3]) {
                        Ok(sq) => Ok(Some(sq)),
                        Err(e) => Err(e),
                    }
                };
                match side {
                    None => Err("Invalid side to move"@),
                    Some(side) => match ep {
                        Err(e) => Err(e),
                        Ok(ep) => match u32_of_text(parts[4]) {
                            None => Err("Invalid halfmove clock"@),
                            Some(h) => match u32_of_text(parts[5]) {
                                None => Err("Invalid fullmove number"@),
                                Some(f) => Ok(
                                    FenPosition {
                                        board,
                                        side_to_move: side,
                                        castling: castling_of_text(parts[2]),
                                        en_passant: ep,
                                        halfmove_clock: h,
                                        fullmove_number: f,
                                    },
                                ),
                            },
                        },
                    },
                }
            },
        }
    }
}

/// `s` is the position `p`.
pub open spec fn holds_position(s: GameState, p: FenPosition) -> bool {
    &&& s.board@ == p.board
    &&& s.side_to_move == p.side_to_move
    &&& s.castling == p.castling
    &&& s.en_passant == p.en_passant
    &&& s.halfmove_clock == p.halfmove_clock
    &&& s.fullmove_number == p.fullmove_number
}

fn error(text: &str) -> (r: String)
    ensures
        r@ == text@,
{
    text.to_owned()
}

pub fn parse_fen(fen: &str) -> (r: Result<GameState, String>)
    ensures
        match (r, fen_parse(fen@)) {
            (Ok(s), Ok(p)) => holds_position(s, p),
            (Err(e), Err(m)) => e@ == m,
            _ => false,
        },
{
    let chars = chars_of(fen);
    let parts = split_whitespace(&chars);
    parse_fen_fields(&parts)
}

/// A game state that is the position `p`.
pub open spec fn state_of(p: FenPosition) -> GameState {
    choose|g: GameState| holds_position(g, p)
}

/// A position determines the game state that holds it.
pub proof fn lemma_state_of(g: GameState, p: FenPosition)
    requires
        holds_position(g, p),
    ensures
        state_of(p) == g,
{
    broadcast use vstd::array::group_array_axioms;
    let h = state_of(p);
    assert(holds_position(h, p));
    assert(h.board =~= g.board);
}

pub fn parse_fen_fields(parts: &Vec<Vec<char>>) -> (r: Result<GameState, String>)
    ensures
        match (r, fen_fields_parse(views(parts@))) {
            (Ok(s), Ok(p)) => holds_position(s, p),
            (Err(e), Err(m)) => e@ == m,
            _ => false,
        },
{
    let ghost pv = views(parts@);
    if parts.len() != 6 {
        return Err(error("FEN must have 6 fields"));
    }
    assert(pv[0] == parts@[0]@ && pv[1] == parts@[1]@ && pv[2] == parts@[2]@);
    assert(pv[3] == parts@[3]@ && pv[4] == parts@[4]@ && pv[5] == parts@[5]@);

    let mut state = GameState::default();
    proof {
        assert(state.board@ =~= empty_board());
    }
    match parse_board(&parts[0], &mut state) {
        Ok(()) => {},
        Err(e) => {
            return Err(e);
        },
    }
    state.side_to_move = if is_text(&parts[1], "w") {
        Color::White
    } else if is_text(&parts[1], "b") {
        Color::Black
    } else {
        return Err(error("Invalid side to move"));
    };
    state.castling = parse_castling(&parts[2]);
    state.en_passant = if is_text(&parts[3], "-") {
        None
    } else {
        match parse_square(&parts[3]) {
            Ok(sq) => Some(sq),
            Err(e) => {
                return Err(e);
            },
        }
    };
    state.halfmove_clock = match parse_u32(&parts[4]) {
        Some(v) => v,
        None => {
            return Err(error("Invalid halfmove clock"));
        },
    };
    state.fullmove_number = match parse_u32(&parts[5]) {
        Some(v) => v,
        None => {
            return Err(error("Invalid fullmove number"));
        },
    };
    Ok(state)
}

/// Reading from `file` onward never gives a different outcome at file 9 than at any
/// later file: every such rank is too long.
proof fn lemma_rank_scan_past_end(b: Seq<Option<Piece>>, row: Seq<char>, board_rank: int, j: int, file: int)
    requires
        file >= 9,
    ensures
        rank_scan(b, row, board_rank, j, file) == rank_scan(b, row, board_rank, j, 9),
    decreases row.len() - j,
{
    if j < row.len() && ascii_digit(row[j]) {
        lemma_rank_scan_past_end(b, row, board_rank, j + 1, file + digit_value(row[j]));
        lemma_rank_scan_past_end(b, row, board_rank, j + 1, 9 + digit_value(row[j]));
    }
}

pub fn piece_from_char(ch: char) -> (r: Option<Piece>)
    ensures
        r == piece_of_char(ch),
{
    let color = if 'A' <= ch && ch <= 'Z' { Color::White } else { Color::Black };
    let kind = match ch {
        'p' | 'P' => PieceType::Pawn,
        'n' | 'N' => PieceType::Knight,
        'b' | 'B' => PieceType::Bishop,
        'r' | 'R' => PieceType::Rook,
        'q' | 'Q' => PieceType::Queen,
        'k' | 'K' => PieceType::King,
        _ => return None,
    };
    Some(Piece { color, kind })
}

fn parse_rank(row: &Vec<char>, board_rank: usize, state: &mut GameState) -> (r: Result<(), String>)
    requires
        board_rank < 8,
    ensures
        final(state).side_to_move == old(state).side_to_move,
        final(state).castling == old(state).castling,
        final(state).en_passant == old(state).en_passant,
        final(state).halfmove_clock == old(state).halfmove_clock,
        final(state).fullmove_number == old(state).fullmove_number,
        match (r, rank_scan(old(state).board@, row@, board_rank as int, 0, 0)) {
            (Ok(()), Ok(b)) => final(state).board@ == b,
            (Err(e), Err(m)) => e@ == m,
            _ => false,
        },
{
    let ghost start = *state;
    let mut file: usize = 0;
    let mut j: usize = 0;
    while j < row.len()
        invariant
            j <= row@.len(),
            start == *old(state),
            file <= 9,
            board_rank < 8,
            state.side_to_move == start.side_to_move,
            state.castling == start.castling,
            state.en_passant == start.en_passant,
            state.halfmove_clock == start.halfmove_clock,
            state.fullmove_number == start.fullmove_number,
            rank_scan(start.board@, row@, board_rank as int, 0, 0) == rank_scan(
                state.board@,
                row@,
                board_rank as int,
                j as int,
                file as int,
            ),
        decreases row@.len() - j,
    {
        let ch = row[j];
        if '0' <= ch && ch <= '9' {
            let d = (ch as u32 - '0' as u32) as usize;
            proof {
                if file + d > 9 {
                    lemma_rank_scan_past_end(state.board@, row@, board_rank as int, j + 1, file + d);
                }
            }
            file = if file + d > 9 { 9 } else { file + d };
        } else {
            let piece = match piece_from_char(ch) {
                Some(p) => p,
                None => {
                    let mut text = error("Invalid piece character: ");
                    push_char(&mut text, ch);
                    return Err(text);
                },
            };
            if file >= 8 {
                return Err(error("Too many files in rank"));
            }
            state.board[square(file, board_rank)] = Some(piece);
            file += 1;
        }
        j += 1;
    }
    if file != 8 {
        return Err(error("Rank does not have exactly 8 squares"));
    }
    Ok(())
}

fn parse_board(data: &Vec<char>, state: &mut GameState) -> (r: Result<(), String>)
    ensures
        final(state).side_to_move == old(state).side_to_move,
        final(state).castling == old(state).castling,
        final(state).en_passant == old(state).en_passant,
        final(state).halfmove_clock == old(state).halfmove_clock,
        final(state).fullmove_number == old(state).fullmove_number,
        match (r, board_field_into(old(state).board@, data@)) {
            (Ok(()), Ok(b)) => final(state).board@ == b,
            (Err(e), Err(m)) => e@ == m,
            _ => false,
        },
{
    let ghost start = *state;
    let ranks = split_at_char(data, '/');
    let ghost rv = views(ranks@);
    if ranks.len() != 8 {
        return Err(error("Board field must have 8 ranks"));
    }
    let mut i: usize = 0;
    while i < 8
        invariant
            i <= 8,
            start == *old(state),
            ranks@.len() == 8,
            rv == views(ranks@),
            rv == split_on(data@, '/'),
            state.side_to_move == start.side_to_move,
            state.castling == start.castling,
            state.en_passant == start.en_passant,
            state.halfmove_clock == start.halfmove_clock,
            state.fullmove_number == start.fullmove_number,
            board_field_into(start.board@, data@) == ranks_scan(state.board@, rv, i as int),
        decreases 8 - i,
    {
        assert(rv[i as int] == ranks@[i as int]@);
        match parse_rank(&ranks[i], 7 - i, state) {
            Ok(()) => {},
            Err(e) => {
                return Err(e);
            },
        }
        i += 1;
    }
    Ok(())
}

fn parse_castling(input: &Vec<char>) -> (r: CastlingRights)
    ensures
        r == castling_of_text(input@),
{
    let mut rights = CastlingRights {
        white_king_side: false,
        white_queen_side: false,
        black_king_side: false,
        black_queen_side: false,
    };
    if has_char(input, 'K') {
        rights.white_king_side = true;
    }
    if has_char(input, 'Q') {
        rights.white_queen_side = true;
    }
    if has_char(input, 'k') {
        rights.black_king_side = true;
    }
    if has_char(input, 'q') {
        rights.black_queen_side = true;
    }
    rights
}

fn parse_square(input: &Vec<char>) -> (r: Result<usize, String>)
    ensures
        match (r, square_of_text(input@)) {
            (Ok(sq), Ok(t)) => sq == t,
            (Err(e), Err(m)) => e@ == m,
            _ => false,
        },
{
    if utf8_len_capped(input) != 2 {
        return Err(error("Invalid square format"));
    }
    if !(input.len() == 2 && 'a' <= input[0] && input[0] <= 'h' && '1' <= input[1] && input[1] <= '8') {
        return Err(error("Square out of range"));
    }
    let f = (input[0] as u32 - 'a' as u32) as usize;
    let r = (input[1] as u32 - '1' as u32) as usize;
    Ok(square(f, r))
}

pub open spec fn startpos_board_field() -> Seq<char> {
    seq![
        'r', 'n', 'b', 'q', 'k', 'b', 'n', 'r', '/', 'p', 'p', 'p', 'p', 'p', 'p', 'p', 'p', '/',
        '8', '/', '8', '/', '8', '/', '8', '/', 'P', 'P', 'P', 'P', 'P', 'P', 'P', 'P', '/', 'R',
        'N', 'B', 'Q', 'K', 'B', 'N', 'R',
    ]
}

proof fn lemma_startpos_fields()
    ensures
        split_ws(STARTPOS_FEN@) == seq![
            startpos_board_field(),
            seq!['w'],
            seq!['K', 'Q', 'k', 'q'],
            seq!['-'],
            seq!['0'],
            seq!['1'],
        ],
{
    reveal_strlit("rnbqkbnr/pppppppp/8/8/8/8/PPPPPPPP/RNBQKBNR w KQkq - 0 1");
    reveal_with_fuel(split_ws_from, 60);
    assert(split_ws(STARTPOS_FEN@) =~~= seq![
        startpos_board_field(),
        seq!['w'],
        seq!['K', 'Q', 'k', 'q'],
        seq!['-'],
        seq!['0'],
        seq!['1'],
    ]);
}

proof fn lemma_startpos_ranks()
    ensures
        split_on(startpos_board_field(), '/') == seq![
            seq!['r', 'n', 'b', 'q', 'k', 'b', 'n', 'r'],
            seq!['p', 'p', 'p', 'p', 'p', 'p', 'p', 'p'],
            seq!['8'],
            seq!['8'],
            seq!['8'],
            seq!['8'],
            seq!['P', 'P', 'P', 'P', 'P', 'P', 'P', 'P'],
            seq!['R', 'N', 'B', 'Q', 'K', 'B', 'N', 'R'],
        ],
{
    reveal_with_fuel(split_on_from, 50);
    assert(split_on(startpos_board_field(), '/') =~~= seq![
        seq!['r', 'n', 'b', 'q', 'k', 'b', 'n', 'r'],
        seq!['p', 'p', 'p', 'p', 'p', 'p', 'p', 'p'],
        seq!['8'],
        seq!['8'],
        seq!['8'],
        seq!['8'],
        seq!['P', 'P', 'P', 'P', 'P', 'P', 'P', 'P'],
        seq!['R', 'N', 'B', 'Q', 'K', 'B', 'N', 'R'],
    ]);
}

/// A rank of eight piece letters, or the single digit 8, reads without complaint.
proof fn lemma_full_rank(b: Seq<Option<Piece>>, row: Seq<char>, board_rank: int)
    requires
        0 <= board_rank < 8,
        b.len() == 64,
        row == seq!['8'] || (row.len() == 8 && forall|i: int| 0 <= i < 8 ==> piece_of_char(#[trigger] row[i]) is Some),
    ensures
        rank_scan(b, row, board_rank, 0, 0) is Ok,
        rank_scan(b, row, board_rank, 0, 0)->Ok_0.len() == 64,
{
    reveal_with_fuel(rank_scan, 10);
    if row != seq!['8'] {
        assert(piece_of_char(row[0]) is Some);
        assert(piece_of_char(row[1]) is Some);
        assert(piece_of_char(row[2]) is Some);
        assert(piece_of_char(row[3]) is Some);
        assert(piece_of_char(row[4]) is Some);
        assert(piece_of_char(row[5]) is Some);
        assert(piece_of_char(row[6]) is Some);
        assert(piece_of_char(row[7]) is Some);
    }
}

/// The standard starting position reads without complaint.
pub proof fn lemma_startpos_parses()
    ensures
        fen_parse(STARTPOS_FEN@) is Ok,
{
    lemma_startpos_fields();
    lemma_startpos_ranks();
    let ranks = split_on(startpos_board_field(), '/');
    let b0 = empty_board();
    lemma_full_rank(b0, ranks[0], 7);
    let b1 = rank_scan(b0, ranks[0], 7, 0, 0)->Ok_0;
    lemma_full_rank(b1, ranks[1], 6);
    let b2 = rank_scan(b1, ranks[1], 6, 0, 0)->Ok_0;
    lemma_full_rank(b2, ranks[2], 5);
    let b3 = rank_scan(b2, ranks[2], 5, 0, 0)->Ok_0;
    lemma_full_rank(b3, ranks[3], 4);
    let b4 = rank_scan(b3, ranks[3], 4, 0, 0)->Ok_0;
    lemma_full_rank(b4, ranks[4], 3);
    let b5 = rank_scan(b4, ranks[4], 3, 0, 0)->Ok_0;
    lemma_full_rank(b5, ranks[5], 2);
    let b6 = rank_scan(b5, ranks[5], 2, 0, 0)->Ok_0;
    lemma_full_rank(b6, ranks[6], 1);
    let b7 = rank_scan(b6, ranks[6], 1, 0, 0)->Ok_0;
    lemma_full_rank(b7, ranks[7], 0);
    reveal_with_fuel(ranks_scan, 9);
    assert(board_of_field(startpos_board_field()) is Ok);
    reveal_strlit("w");
    reveal_strlit("-");
    reveal_with_fuel(decimal_value, 2);
    assert(u32_of_text(seq!['0']) is Some);
    assert(u32_of_text(seq!['1']) is Some);
    let parts = split_ws(STARTPOS_FEN@);
    assert(parts[1] =~= "w"@);
    assert(parts[3] =~= "-"@);
    assert(parts[0] == startpos_board_field());
    assert(parts[4] == seq!['0']);
    assert(parts[5] == seq!['1']);
}

/// The piece kinds of a back rank, from the a-file to the h-file.
pub open spec fn back_rank_kind(file: int) -> PieceType {
    if file == 0 || file == 7 {
        PieceType::Rook
    } else if file == 1 || file == 6 {
        PieceType::Knight
    } else if file == 2 || file == 5 {
        PieceType::Bishop
    } else if file == 3 {
        PieceType::Queen
    } else {
        PieceType::King
    }
}

/// What stands on square `i` in the starting position.
pub open spec fn start_piece(i: int) -> Option<Piece> {
    if i < 8 {
        Some(Piece { color: Color::White, kind: back_rank_kind(i) })
    } else if i < 16 {
        Some(Piece { color: Color::White, kind: PieceType::Pawn })
    } else if i < 48 {
        None
    } else if i < 56 {
        Some(Piece { color: Color::Black, kind: PieceType::Pawn })
    } else {
        Some(Piece { color: Color::Black, kind: back_rank_kind(i - 56) })
    }
}

/// The board of the starting position.
pub open spec fn start_board() -> Seq<Option<Piece>> {
    Seq::new(64, |i: int| start_piece(i))
}

/// The board `b` with rank `r` filled from the eight letters of `row`.
pub open spec fn with_rank(b: Seq<Option<Piece>>, row: Seq<char>, r: int) -> Seq<Option<Piece>> {
    Seq::new(
        64,
        |i: int|
            if r * 8 <= i < r * 8 + 8 {
                piece_of_char(row[i - r * 8])
            } else {
                b[i]
            },
    )
}

/// A rank of eight piece letters places them on its eight squares, a1-side first.
proof fn lemma_rank_row(b: Seq<Option<Piece>>, row: Seq<char>, r: int)
    requires
        0 <= r < 8,
        b.len() == 64,
        row.len() == 8,
        forall|i: int| 0 <= i < 8 ==> piece_of_char(#[trigger] row[i]) is Some,
    ensures
        rank_scan(b, row, r, 0, 0) == Ok::<Seq<Option<Piece>>, Seq<char>>(with_rank(b, row, r)),
{
    reveal_with_fuel(rank_scan, 10);
    assert(piece_of_char(row[0]) is Some);
    assert(piece_of_char(row[1]) is Some);
    assert(piece_of_char(row[2]) is Some);
    assert(piece_of_char(row[3]) is Some);
    assert(piece_of_char(row[4]) is Some);
    assert(piece_of_char(row[5]) is Some);
    assert(piece_of_char(row[6]) is Some);
    assert(piece_of_char(row[7]) is Some);
    let u = b.update(r * 8, piece_of_char(row[0])).update(r * 8 + 1, piece_of_char(row[1])).update(
        r * 8 + 2,
        piece_of_char(row[2]),
    ).update(r * 8 + 3, piece_of_char(row[3])).update(r * 8 + 4, piece_of_char(row[4])).update(
        r * 8 + 5,
        piece_of_char(row[5]),
    ).update(r * 8 + 6, piece_of_char(row[6])).update(r * 8 + 7, piece_of_char(row[7]));
    assert(rank_scan(b, row, r, 0, 0) == Ok::<Seq<Option<Piece>>, Seq<char>>(u));
    assert(u =~= with_rank(b, row, r));
}

/// The board field of the standard starting position describes the start board.
proof fn lemma_startpos_board_field()
    ensures
        board_of_field(startpos_board_field()) == Ok::<Seq<Option<Piece>>, Seq<char>>(start_board()),
{
    lemma_startpos_ranks();
    let ranks = split_on(startpos_board_field(), '/');
    let b0 = empty_board();
    lemma_rank_row(b0, ranks[0], 7);
    let b1 = with_rank(b0, ranks[0], 7);
    lemma_rank_row(b1, ranks[1], 6);
    let b2 = with_rank(b1, ranks[1], 6);
    reveal_with_fuel(rank_scan, 3);
    assert(rank_scan(b2, ranks[2], 5, 0, 0) == Ok::<Seq<Option<Piece>>, Seq<char>>(b2));
    assert(rank_scan(b2, ranks[3], 4, 0, 0) == Ok::<Seq<Option<Piece>>, Seq<char>>(b2));
    assert(rank_scan(b2, ranks[4], 3, 0, 0) == Ok::<Seq<Option<Piece>>, Seq<char>>(b2));
    assert(rank_scan(b2, ranks[5], 2, 0, 0) == Ok::<Seq<Option<Piece>>, Seq<char>>(b2));
    lemma_rank_row(b2, ranks[6], 1);
    let b7 = with_rank(b2, ranks[6], 1);
    lemma_rank_row(b7, ranks[7], 0);
    let b8 = with_rank(b7, ranks[7], 0);
    reveal_with_fuel(ranks_scan, 9);
    assert(ranks_scan(b0, ranks, 0) == Ok::<Seq<Option<Piece>>, Seq<char>>(b8));
    assert(b8 =~= start_board());
}

/// The standard starting position.
pub open spec fn startpos_state() -> GameState {
    state_of(fen_parse(STARTPOS_FEN@)->Ok_0)
}

/// An array holding the first `n` entries of `b`, the rest empty.
spec fn board_array(b: Seq<Option<Piece>>, n: int) -> [Option<Piece>; 64]
    decreases n,
{
    if n <= 0 {
        vstd::array::spec_array_fill_for_copy_type::<Option<Piece>, 64>(None)
    } else {
        vstd::array::spec_array_update(board_array(b, n - 1), n - 1, b[n - 1])
    }
}

proof fn lemma_board_array(b: Seq<Option<Piece>>, n: int)
    requires
        0 <= n <= 64,
    ensures
        board_array(b, n)@.len() == 64,
        forall|i: int| 0 <= i < n ==> #[trigger] board_array(b, n)@[i] == b[i],
    decreases n,
{
    broadcast use vstd::array::group_array_axioms;
    if n <= 0 {
        let a = vstd::array::spec_array_fill_for_copy_type::<Option<Piece>, 64>(None);
        assert(a@.len() == 64);
    } else {
        lemma_board_array(b, n - 1);
        vstd::array::axiom_spec_array_update(board_array(b, n - 1), n - 1, b[n - 1]);
    }
}

/// The standard starting position has the start board, and White moves first.
pub proof fn lemma_startpos_state()
    ensures
        startpos_state().board@ == start_board(),
        startpos_state().side_to_move == Color::White,
{
    lemma_startpos_parses();
    lemma_startpos_fields();
    lemma_startpos_board_field();
    reveal_strlit("w");
    let parts = split_ws(STARTPOS_FEN@);
    assert(parts[1] =~= "w"@);
    assert(parts[0] == startpos_board_field());
    let p = fen_parse(STARTPOS_FEN@)->Ok_0;
    assert(p.board == start_board());
    assert(p.side_to_move == Color::White);
    lemma_board_array(p.board, 64);
    let g = GameState {
        board: board_array(p.board, 64),
        side_to_move: p.side_to_move,
        castling: p.castling,
        en_passant: p.en_passant,
        halfmove_clock: p.halfmove_clock,
        fullmove_number: p.fullmove_number,
    };
    assert(g.board@ =~= p.board);
    lemma_state_of(g, p);
}

pub fn start_position() -> (s: GameState)
    ensures
        s == startpos_state(),
        holds_position(s, fen_parse(STARTPOS_FEN@)->Ok_0),
{
    proof {
        lemma_startpos_parses();
    }
    match parse_fen(STARTPOS_FEN) {
        Ok(s) => {
            proof {
                lemma_state_of(s, fen_parse(STARTPOS_FEN@)->Ok_0);
            }
            s
        },
        Err(_) => vstd::pervasive::unreached(),
    }
}

} // verus!
