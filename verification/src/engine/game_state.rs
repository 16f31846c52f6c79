//! The position: board contents, side to move, castling rights, en passant
//! square and move counters, and how a move changes them.

use vstd::prelude::*;

use crate::engine::board::{file_of, rank_of, square, Color, Move, Piece, PieceType};
use vstd::array::spec_array_update;

verus! {

#[derive(Debug, Copy, Clone, PartialEq, Eq, Structural)]
pub struct CastlingRights {
    pub white_king_side: bool,
    pub white_queen_side: bool,
    pub black_king_side: bool,
    pub black_queen_side: bool,
}

impl Default for CastlingRights {
    fn default() -> (r: Self)
        ensures
            r.white_king_side && r.white_queen_side && r.black_king_side && r.black_queen_side,
    {
        Self {
            white_king_side: true,
            white_queen_side: true,
            black_king_side: true,
            black_queen_side: true,
        }
    }
}

#[derive(Debug, Copy, Clone)]
pub struct GameState {
    pub board: [Option<Piece>; 64],
    pub side_to_move: Color,
    pub castling: CastlingRights,
    pub en_passant: Option<usize>,
    pub halfmove_clock: u32,
    pub fullmove_number: u32,
}

impl Default for GameState {
    fn default() -> (r: Self)
        ensures
            forall|i: int| 0 <= i < 64 ==> r.board@[i] is None,
            r.side_to_move == Color::White,
            r.castling == (CastlingRights {
                white_king_side: true,
                white_queen_side: true,
                black_king_side: true,
                black_queen_side: true,
            }),
            r.en_passant is None,
            r.halfmove_clock == 0,
            r.fullmove_number == 1,
    {
        Self {
            board: [None; 64],
            side_to_move: Color::White,
            castling: CastlingRights::default(),
            en_passant: None,
            halfmove_clock: 0,
            fullmove_number: 1,
        }
    }
}

/// Whether `p` is a king of colour `color`.
pub open spec fn is_king_of(p: Option<Piece>, color: Color) -> bool {
    p matches Some(piece) && piece.color == color && piece.kind == PieceType::King
}

/// The square whose pawn an en passant capture by `color` landing on `to` removes:
/// one rank behind `to` (clamped at the first rank for White).
pub open spec fn en_passant_victim(color: Color, to: int) -> int {
    let rank = to / 8;
    let victim_rank = if color == Color::White {
        if rank > 0 { rank - 1 } else { 0 }
    } else {
        rank + 1
    };
    victim_rank * 8 + to % 8
}

/// The piece that stands on the target square after `mv`: the mover, promoted if asked.
pub open spec fn landed_piece(piece: Piece, mv: Move) -> Piece {
    match mv.promotion {
        Some(kind) => Piece { color: piece.color, kind },
        None => piece,
    }
}

/// The rook relocation that goes with a castling king landing on `to`.
pub open spec fn castle_rook(b: Seq<Option<Piece>>, color: Color, to: int) -> Seq<Option<Piece>> {
    if color == Color::White && to == 6 {
        b.update(7, None).update(5, Some(Piece { color: Color::White, kind: PieceType::Rook }))
    } else if color == Color::White && to == 2 {
        b.update(0, None).update(3, Some(Piece { color: Color::White, kind: PieceType::Rook }))
    } else if color == Color::Black && to == 62 {
        b.update(63, None).update(61, Some(Piece { color: Color::Black, kind: PieceType::Rook }))
    } else if color == Color::Black && to == 58 {
        b.update(56, None).update(59, Some(Piece { color: Color::Black, kind: PieceType::Rook }))
    } else {
        b
    }
}

/// The board after `mv`, where `piece` stands on `mv.from` of `b`.
pub open spec fn board_after(b: Seq<Option<Piece>>, piece: Piece, mv: Move) -> Seq<Option<Piece>> {
    let b1 = if mv.is_en_passant {
        b.update(en_passant_victim(piece.color, mv.to as int), None)
    } else {
        b
    };
    let landed = landed_piece(piece, mv);
    let b2 = b1.update(mv.from as int, None).update(mv.to as int, Some(landed));
    if mv.is_castling {
        castle_rook(b2, landed.color, mv.to as int)
    } else {
        b2
    }
}

/// Castling rights left after `piece` (as it lands) makes `mv`: a king move drops both
/// of its side's rights, and a move from or to a corner drops that corner's right.
pub open spec fn castling_after(c: CastlingRights, piece: Piece, mv: Move) -> CastlingRights {
    let king_white = piece.kind == PieceType::King && piece.color == Color::White;
    let king_black = piece.kind == PieceType::King && piece.color == Color::Black;
    let rook_from = |sq: int| piece.kind == PieceType::Rook && mv.from == sq;
    CastlingRights {
        white_king_side: c.white_king_side && !king_white && !rook_from(7) && mv.to != 7,
        white_queen_side: c.white_queen_side && !king_white && !rook_from(0) && mv.to != 0,
        black_king_side: c.black_king_side && !king_black && !rook_from(63) && mv.to != 63,
        black_queen_side: c.black_queen_side && !king_black && !rook_from(56) && mv.to != 56,
    }
}

/// The en passant square after `piece` (as it lands) makes `mv`: the square passed over
/// by a pawn that moved two ranks, else none.
pub open spec fn en_passant_after(piece: Piece, mv: Move) -> Option<usize> {
    let from_rank = mv.from / 8;
    let to_rank = mv.to / 8;
    if piece.kind == PieceType::Pawn && (from_rank - to_rank == 2 || to_rank - from_rank == 2) {
        Some((((from_rank + to_rank) / 2) * 8 + mv.from % 8) as usize)
    } else {
        None
    }
}

/// What `make_move` needs so that it neither indexes off the board nor overflows.
pub open spec fn move_applicable(s: GameState, mv: Move) -> bool {
    &&& mv.from < 64
    &&& s.board@[mv.from as int] matches Some(piece) ==> {
        &&& mv.to < 64
        &&& mv.is_en_passant ==> en_passant_victim(piece.color, mv.to as int) < 64
        &&& s.side_to_move == Color::Black ==> s.fullmove_number < u32::MAX
    }
}

/// The number of occupied squares among the first `n`.
pub open spec fn pieces_upto(b: Seq<Option<Piece>>, n: int) -> int
    decreases n,
{
    if n <= 0 {
        0
    } else {
        pieces_upto(b, n - 1) + if b[n - 1] is Some { 1int } else { 0int }
    }
}

/// The number of pieces on the board.
pub open spec fn piece_count(b: Seq<Option<Piece>>) -> int {
    pieces_upto(b, 64)
}

pub proof fn lemma_pieces_bound(b: Seq<Option<Piece>>, n: int)
    requires
        0 <= n,
    ensures
        0 <= pieces_upto(b, n) <= n,
    decreases n,
{
    if n > 0 {
        lemma_pieces_bound(b, n - 1);
    }
}

/// Changing one square changes the count by whether it was and is occupied.
pub proof fn lemma_pieces_update(b: Seq<Option<Piece>>, n: int, i: int, x: Option<Piece>)
    requires
        0 <= i < b.len(),
        n <= b.len(),
    ensures
        pieces_upto(b.update(i, x), n) == pieces_upto(b, n) + if i < n {
            (if x is Some { 1int } else { 0int }) - (if b[i] is Some { 1int } else { 0int })
        } else {
            0
        },
    decreases n,
{
    if n > 0 {
        lemma_pieces_update(b, n - 1, i, x);
    }
}

/// `board_after` on the board array itself.
pub open spec fn array_after(a: [Option<Piece>; 64], piece: Piece, mv: Move) -> [Option<Piece>; 64] {
    let a1 = if mv.is_en_passant {
        spec_array_update(a, en_passant_victim(piece.color, mv.to as int), None)
    } else {
        a
    };
    let landed = landed_piece(piece, mv);
    let a2 = spec_array_update(spec_array_update(a1, mv.from as int, None), mv.to as int, Some(landed));
    if mv.is_castling {
        let c = landed.color;
        let to = mv.to as int;
        if c == Color::White && to == 6 {
            spec_array_update(spec_array_update(a2, 7, None), 5, Some(Piece { color: Color::White, kind: PieceType::Rook }))
        } else if c == Color::White && to == 2 {
            spec_array_update(spec_array_update(a2, 0, None), 3, Some(Piece { color: Color::White, kind: PieceType::Rook }))
        } else if c == Color::Black && to == 62 {
            spec_array_update(spec_array_update(a2, 63, None), 61, Some(Piece { color: Color::Black, kind: PieceType::Rook }))
        } else if c == Color::Black && to == 58 {
            spec_array_update(spec_array_update(a2, 56, None), 59, Some(Piece { color: Color::Black, kind: PieceType::Rook }))
        } else {
            a2
        }
    } else {
        a2
    }
}

/// The position after `mv` is made in `s`: unchanged when `mv.from` is empty.
pub open spec fn state_after(s: GameState, mv: Move) -> GameState {
    match s.board@[mv.from as int] {
        None => s,
        Some(piece) => {
            let landed = landed_piece(piece, mv);
            GameState {
                board: array_after(s.board, piece, mv),
                side_to_move: s.side_to_move.other(),
                castling: castling_after(s.castling, landed, mv),
                en_passant: en_passant_after(landed, mv),
                halfmove_clock: s.halfmove_clock,
                fullmove_number: if s.side_to_move == Color::Black {
                    (s.fullmove_number + 1) as u32
                } else {
                    s.fullmove_number
                },
            }
        },
    }
}

pub proof fn lemma_array_after(a: [Option<Piece>; 64], piece: Piece, mv: Move)
    requires
        mv.from < 64,
        mv.to < 64,
        mv.is_en_passant ==> 0 <= en_passant_victim(piece.color, mv.to as int) < 64,
    ensures
        array_after(a, piece, mv)@ == board_after(a@, piece, mv),
{
    broadcast use vstd::array::group_array_axioms;
}

impl GameState {
    pub fn piece_at(&self, sq: usize) -> (r: Option<Piece>)
        requires
            sq < 64,
        ensures
            r == self.board@[sq as int],
    {
        self.board[sq]
    }

    pub fn king_square(&self, color: Color) -> (r: Option<usize>)
        ensures
            match r {
                Some(k) => k < 64 && is_king_of(self.board@[k as int], color) && forall|j: int|
                    0 <= j < k ==> !is_king_of(#[trigger] self.board@[j], color),
                None => forall|j: int| 0 <= j < 64 ==> !is_king_of(#[trigger] self.board@[j], color),
            },
    {
        let mut sq: usize = 0;
        while sq < 64
            invariant
                sq <= 64,
                forall|j: int| 0 <= j < sq ==> !is_king_of(#[trigger] self.board@[j], color),
            decreases 64 - sq,
        {
            if let Some(piece) = self.board[sq] {
                if piece.color == color && piece.kind == PieceType::King {
                    return Some(sq);
                }
            }
            sq += 1;
        }
        None
    }

    pub fn make_move(&mut self, mv: Move)
        requires
            move_applicable(*old(self), mv),
        ensures
            *final(self) == state_after(*old(self), mv),
            match old(self).board@[mv.from as int] {
                None => *final(self) == *old(self),
                Some(piece) => {
                    let landed = landed_piece(piece, mv);
                    &&& final(self).board@ == board_after(old(self).board@, piece, mv)
                    &&& final(self).castling == castling_after(old(self).castling, landed, mv)
                    &&& final(self).en_passant == en_passant_after(landed, mv)
                    &&& final(self).side_to_move == old(self).side_to_move.other()
                    &&& final(self).fullmove_number == if old(self).side_to_move == Color::Black {
                        old(self).fullmove_number + 1
                    } else {
                        old(self).fullmove_number as int
                    }
                    &&& final(self).halfmove_clock == old(self).halfmove_clock
                },
            },
    {
        let moving_piece = self.board[mv.from];
        if moving_piece.is_none() {
            return;
        }
        let ghost b0 = self.board@;
        let mut piece = moving_piece.unwrap();

        if mv.is_en_passant {
            let capture_rank = if piece.color == Color::White {
                let r = rank_of(mv.to);
                if r > 0 { r - 1 } else { 0 }
            } else {
                rank_of(mv.to) + 1
            };
            let capture_sq = square(file_of(mv.to), capture_rank);
            self.board[capture_sq] = None;
        }

        self.board[mv.from] = None;
        if let Some(promoted) = mv.promotion {
            piece.kind = promoted;
        }
        self.board[mv.to] = Some(piece);

        if mv.is_castling {
            match (piece.color, mv.to) {
                (Color::White, 6) => {
                    self.board[7] = None;
                    self.board[5] = Some(Piece { color: Color::White, kind: PieceType::Rook });
                },
                (Color::White, 2) => {
                    self.board[0] = None;
                    self.board[3] = Some(Piece { color: Color::White, kind: PieceType::Rook });
                },
                (Color::Black, 62) => {
                    self.board[63] = None;
                    self.board[61] = Some(Piece { color: Color::Black, kind: PieceType::Rook });
                },
                (Color::Black, 58) => {
                    self.board[56] = None;
                    self.board[59] = Some(Piece { color: Color::Black, kind: PieceType::Rook });
                },
                _ => {},
            }
        }
        assert(self.board@ =~= board_after(b0, moving_piece.unwrap(), mv));

        self.update_castling_rights(piece, mv);
        self.update_en_passant(piece, mv);

        self.side_to_move = self.side_to_move.opposite();
        if self.side_to_move == Color::White {
            self.fullmove_number += 1;
        }
        proof {
            lemma_array_after(old(self).board, moving_piece.unwrap(), mv);
            broadcast use vstd::array::group_array_axioms;
            assert(self.board =~= array_after(old(self).board, moving_piece.unwrap(), mv));
        }
    }

    fn update_castling_rights(&mut self, piece: Piece, mv: Move)
        ensures
            final(self).castling == castling_after(old(self).castling, piece, mv),
            final(self).board == old(self).board,
            final(self).side_to_move == old(self).side_to_move,
            final(self).en_passant == old(self).en_passant,
            final(self).halfmove_clock == old(self).halfmove_clock,
            final(self).fullmove_number == old(self).fullmove_number,
    {
        match piece.kind {
            PieceType::King => match piece.color {
                Color::White => {
                    self.castling.white_king_side = false;
                    self.castling.white_queen_side = false;
                },
                Color::Black => {
                    self.castling.black_king_side = false;
                    self.castling.black_queen_side = false;
                },
            },
            PieceType::Rook => match mv.from {
                0 => self.castling.white_queen_side = false,
                7 => self.castling.white_king_side = false,
                56 => self.castling.black_queen_side = false,
                63 => self.castling.black_king_side = false,
                _ => {},
            },
            _ => {},
        }

        match mv.to {
            0 => self.castling.white_queen_side = false,
            7 => self.castling.white_king_side = false,
            56 => self.castling.black_queen_side = false,
            63 => self.castling.black_king_side = false,
            _ => {},
        }
    }

    fn update_en_passant(&mut self, piece: Piece, mv: Move)
        requires
            mv.from < 64,
            mv.to < 64,
        ensures
            final(self).en_passant == en_passant_after(piece, mv),
            final(self).board == old(self).board,
            final(self).castling == old(self).castling,
            final(self).side_to_move == old(self).side_to_move,
            final(self).halfmove_clock == old(self).halfmove_clock,
            final(self).fullmove_number == old(self).fullmove_number,
    {
        self.en_passant = None;
        if piece.kind == PieceType::Pawn {
            let from_rank = rank_of(mv.from);
            let to_rank = rank_of(mv.to);
            let diff = if from_rank >= to_rank { from_rank - to_rank } else { to_rank - from_rank };
            if diff == 2 {
                let ep_rank = (from_rank + to_rank) / 2;
                self.en_passant = Some(square(file_of(mv.from), ep_rank));
            }
        }
    }
}

} // verus!
