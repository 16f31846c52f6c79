//! Attack detection, check detection and legal move generation.

use vstd::prelude::*;

use crate::engine::board::{file_of, plain_move, rank_of, square, Color, Move, Piece, PieceType};
use crate::engine::game_state::{
    board_after, en_passant_after, en_passant_victim, is_king_of, landed_piece, lemma_pieces_update,
    move_applicable, piece_count, GameState, state_after, lemma_array_after,
};
use crate::engine::movegen::{
    diagonal_dirs, generate_pseudo_legal_moves, king_step, knight_jump, leap, pawn_dir,
    pseudo_legal, queen_dirs, ray_clear, ray_on, ray_reaches, ray_sq, scale, slides_along,
    straight_dirs, unit_dir, lemma_ray_monotone, castles_last, lemma_pseudo_legal_in_range, lemma_capture_facts,
    pseudo_list, pseudo_list_upto, square_list, jump_list, knight_offsets, knight_move, file, rank,
};
use crate::engine::fen::{lemma_startpos_state, startpos_state};

verus! {

broadcast use vstd::seq_lib::group_seq_properties;

/// The piece on `from` attacks `sq` for side `by`: a pawn diagonally forward, a knight
/// by a jump, a king by a step, a sliding piece along its lines over empty squares.
pub open spec fn attacks_from(b: Seq<Option<Piece>>, from: int, sq: int, by: Color) -> bool {
    &&& b[from] matches Some(p)
    &&& p.color == by
    &&& match p.kind {
        PieceType::Pawn => leap(from, -1, pawn_dir(by), sq) || leap(from, 1, pawn_dir(by), sq),
        PieceType::Knight => exists|df: int, dr: int| knight_jump(df, dr) && leap(from, df, dr, sq),
        PieceType::King => exists|df: int, dr: int| king_step(df, dr) && leap(from, df, dr, sq),
        _ => exists|df: int, dr: int|
            slides_along(p.kind, df, dr) && ray_reaches(b, from, df, dr, sq),
    }
}

/// Some piece of side `by` attacks `sq`.
pub open spec fn square_attacked(b: Seq<Option<Piece>>, sq: int, by: Color) -> bool {
    exists|from: int| 0 <= from < 64 && #[trigger] attacks_from(b, from, sq, by)
}

/// `k` is the first square (from a1 upward) that holds a king of `color`.
pub open spec fn first_king(b: Seq<Option<Piece>>, color: Color, k: int) -> bool {
    &&& 0 <= k < 64
    &&& is_king_of(b[k], color)
    &&& forall|j: int| 0 <= j < k ==> !is_king_of(#[trigger] b[j], color)
}

/// The (first) king of `color` stands attacked by the other side; no king, no check.
pub open spec fn king_attacked(b: Seq<Option<Piece>>, color: Color) -> bool {
    exists|k: int| #[trigger] first_king(b, color, k) && square_attacked(b, k, color.other())
}

/// The squares the king passes when castling to `to`: start, crossed, and landing square.
pub open spec fn castle_path(color: Color, to: int) -> (int, int, int) {
    if color == Color::White {
        if to == 6 { (4, 5, 6) } else { (4, 3, 2) }
    } else {
        if to == 62 { (60, 61, 62) } else { (60, 59, 58) }
    }
}

/// A legal move: pseudo-legal, not castling out of, through or into an attacked square,
/// and not leaving the mover's king attacked.
pub open spec fn legal_move(s: GameState, m: Move) -> bool {
    let b = s.board@;
    let piece = b[m.from as int]->0;
    let after = board_after(b, piece, m);
    let (k_from, k_mid, k_to) = castle_path(s.side_to_move, m.to as int);
    &&& pseudo_legal(s, m)
    &&& m.is_castling ==> {
        &&& !square_attacked(b, k_from, s.side_to_move.other())
        &&& !square_attacked(b, k_mid, s.side_to_move.other())
        &&& !square_attacked(after, k_to, s.side_to_move.other())
    }
    &&& !king_attacked(after, s.side_to_move)
}

/// Every pseudo-legal move can be made without the move counter overflowing.
pub open spec fn moves_playable(s: GameState) -> bool {
    s.side_to_move == Color::White || s.fullmove_number < u32::MAX || forall|m: Move|
        !#[trigger] pseudo_legal(s, m)
}

fn pawn_attacks(from: usize, sq: usize, by: Color) -> (r: bool)
    requires
        from < 64,
    ensures
        r == (leap(from as int, -1, pawn_dir(by), sq as int) || leap(from as int, 1, pawn_dir(by), sq as int)),
{
    let f = file_of(from) as isize;
    let r = rank_of(from) as isize;
    let dir: isize = if by == Color::White { 1 } else { -1 };
    let tr = r + dir;
    let tf = f - 1;
    if 0 <= tf && tf < 8 && 0 <= tr && tr < 8 && square(tf as usize, tr as usize) == sq {
        return true;
    }
    let tf = f + 1;
    if 0 <= tf && tf < 8 && 0 <= tr && tr < 8 && square(tf as usize, tr as usize) == sq {
        return true;
    }
    false
}

fn knight_attacks(from: usize, sq: usize) -> (r: bool)
    requires
        from < 64,
    ensures
        r == exists|df: int, dr: int| knight_jump(df, dr) && leap(from as int, df, dr, sq as int),
{
    let f = file_of(from) as isize;
    let r = rank_of(from) as isize;
    let offsets: [(isize, isize); 8] = [
        (1, 2),
        (2, 1),
        (2, -1),
        (1, -2),
        (-1, -2),
        (-2, -1),
        (-2, 1),
        (-1, 2),
    ];
    let mut i: usize = 0;
    while i < 8
        invariant
            i <= 8,
            from < 64,
            f == from % 8,
            r == from / 8,
            offsets@ == seq![
                (1isize, 2isize),
                (2isize, 1isize),
                (2isize, -1isize),
                (1isize, -2isize),
                (-1isize, -2isize),
                (-2isize, -1isize),
                (-2isize, 1isize),
                (-1isize, 2isize),
            ],
            forall|j: int| 0 <= j < i ==> !leap(from as int, #[trigger] offsets@[j].0 as int, offsets@[j].1 as int, sq as int),
        decreases 8 - i,
    {
        let (df, dr) = offsets[i];
        let tf = f + df;
        let tr = r + dr;
        if 0 <= tf && tf < 8 && 0 <= tr && tr < 8 && square(tf as usize, tr as usize) == sq {
            assert(knight_jump(df as int, dr as int) && leap(from as int, df as int, dr as int, sq as int));
            return true;
        }
        i += 1;
    }
    proof {
        if exists|df: int, dr: int| knight_jump(df, dr) && leap(from as int, df, dr, sq as int) {
            let (df, dr) = choose|df: int, dr: int| knight_jump(df, dr) && leap(from as int, df, dr, sq as int);
            let j: int = if df == 1 && dr == 2 { 0 } else if df == 2 && dr == 1 { 1 } else if df
                == 2 && dr == -1 { 2 } else if df == 1 && dr == -2 { 3 } else if df == -1 && dr
                == -2 { 4 } else if df == -2 && dr == -1 { 5 } else if df == -2 && dr == 1 {
                6
            } else {
                7
            };
            assert(offsets@[j].0 == df && offsets@[j].1 == dr);
        }
    }
    false
}

fn king_attacks(from: usize, sq: usize) -> (r: bool)
    requires
        from < 64,
    ensures
        r == exists|df: int, dr: int| king_step(df, dr) && leap(from as int, df, dr, sq as int),
{
    let f = file_of(from) as isize;
    let r = rank_of(from) as isize;
    let mut df: isize = -1;
    while df <= 1
        invariant
            -1 <= df <= 2,
            from < 64,
            f == from % 8,
            r == from / 8,
            forall|a: int, c: int| -1 <= a < df && king_step(a, c) ==> !#[trigger] leap(from as int, a, c, sq as int),
        decreases 2 - df,
    {
        let mut dr: isize = -1;
        while dr <= 1
            invariant
                -1 <= df <= 1,
                -1 <= dr <= 2,
                from < 64,
                f == from % 8,
                r == from / 8,
                forall|a: int, c: int| -1 <= a < df && king_step(a, c) ==> !#[trigger] leap(from as int, a, c, sq as int),
                forall|c: int| -1 <= c < dr && king_step(df as int, c) ==> !#[trigger] leap(from as int, df as int, c, sq as int),
            decreases 2 - dr,
        {
            if !(df == 0 && dr == 0) {
                let tf = f + df;
                let tr = r + dr;
                if 0 <= tf && tf < 8 && 0 <= tr && tr < 8 && square(tf as usize, tr as usize) == sq {
                    assert(king_step(df as int, dr as int) && leap(from as int, df as int, dr as int, sq as int));
                    return true;
                }
            }
            dr += 1;
        }
        proof {
            assert forall|a: int, c: int| -1 <= a < df + 1 && king_step(a, c) implies !#[trigger] leap(from as int, a, c, sq as int) by {
                if a == df {
                    assert(-1 <= c < dr);
                }
            }
        }
        df += 1;
    }
    false
}

fn ray_hits(state: &GameState, from: usize, df: isize, dr: isize, target: usize) -> (r: bool)
    requires
        from < 64,
        unit_dir(df as int, dr as int),
    ensures
        r == ray_reaches(state.board@, from as int, df as int, dr as int, target as int),
{
    let ghost b = state.board@;
    let mut tf = file_of(from) as isize + df;
    let mut tr = rank_of(from) as isize + dr;
    let mut k: usize = 1;
    while 0 <= tf && tf < 8 && 0 <= tr && tr < 8
        invariant
            from < 64,
            b == state.board@,
            unit_dir(df as int, dr as int),
            1 <= k <= 9,
            tf == from % 8 + scale(k as int, df as int),
            tr == from / 8 + scale(k as int, dr as int),
            ray_clear(b, from as int, df as int, dr as int, k as int),
            forall|j: int| 1 <= j < k ==> #[trigger] ray_sq(from as int, df as int, dr as int, j) != target,
        decreases 9 - k,
    {
        let sq = square(tf as usize, tr as usize);
        if sq == target {
            assert(ray_on(from as int, df as int, dr as int, k as int));
            assert(ray_sq(from as int, df as int, dr as int, k as int) == target);
            return true;
        }
        if state.board[sq].is_some() {
            proof {
                if ray_reaches(b, from as int, df as int, dr as int, target as int) {
                    let j = choose|j: int|
                        #![trigger ray_sq(from as int, df as int, dr as int, j)]
                        1 <= j && ray_on(from as int, df as int, dr as int, j) && ray_sq(from as int, df as int, dr as int, j) == target
                            && ray_clear(b, from as int, df as int, dr as int, j);
                    if j > k {
                        assert(b[ray_sq(from as int, df as int, dr as int, k as int)] is None);
                    }
                }
            }
            return false;
        }
        tf += df;
        tr += dr;
        k += 1;
        proof {
            assert forall|j: int| 1 <= j < k implies (#[trigger] b[ray_sq(from as int, df as int, dr as int, j)]) is None by {
                if j < k - 1 {
                    assert(ray_clear(b, from as int, df as int, dr as int, (k - 1) as int));
                }
            }
        }
    }
    proof {
        if ray_reaches(b, from as int, df as int, dr as int, target as int) {
            let j = choose|j: int|
                #![trigger ray_sq(from as int, df as int, dr as int, j)]
                1 <= j && ray_on(from as int, df as int, dr as int, j) && ray_sq(from as int, df as int, dr as int, j) == target
                    && ray_clear(b, from as int, df as int, dr as int, j);
            if j >= k {
                lemma_ray_monotone(from as int, df as int, dr as int, k as int, j);
            }
        }
    }
    false
}

fn ray_attacks(state: &GameState, from: usize, target: usize, dirs: &[(isize, isize)]) -> (r: bool)
    requires
        from < 64,
        forall|i: int| 0 <= i < dirs@.len() ==> unit_dir(#[trigger] dirs@[i].0 as int, dirs@[i].1 as int),
    ensures
        r == exists|i: int|
            #![trigger dirs@[i]]
            0 <= i < dirs@.len() && ray_reaches(state.board@, from as int, dirs@[i].0 as int, dirs@[i].1 as int, target as int),
{
    let mut i: usize = 0;
    while i < dirs.len()
        invariant
            from < 64,
            i <= dirs@.len(),
            forall|i: int| 0 <= i < dirs@.len() ==> unit_dir(#[trigger] dirs@[i].0 as int, dirs@[i].1 as int),
            forall|j: int| 0 <= j < i ==> !ray_reaches(state.board@, from as int, (#[trigger] dirs@[j]).0 as int, dirs@[j].1 as int, target as int),
        decreases dirs@.len() - i,
    {
        let (df, dr) = dirs[i];
        if ray_hits(state, from, df, dr, target) {
            return true;
        }
        i += 1;
    }
    false
}

proof fn lemma_ray_dirs(b: Seq<Option<Piece>>, from: int, sq: int, kind: PieceType, dirs: Seq<(isize, isize)>)
    requires
        kind == PieceType::Bishop ==> dirs == diagonal_dirs(),
        kind == PieceType::Rook ==> dirs == straight_dirs(),
        kind == PieceType::Queen ==> dirs == queen_dirs(),
        kind == PieceType::Bishop || kind == PieceType::Rook || kind == PieceType::Queen,
    ensures
        forall|i: int| 0 <= i < dirs.len() ==> unit_dir(#[trigger] dirs[i].0 as int, dirs[i].1 as int),
        (exists|i: int| #![trigger dirs[i]] 0 <= i < dirs.len() && ray_reaches(b, from, dirs[i].0 as int, dirs[i].1 as int, sq))
            == (exists|df: int, dr: int| slides_along(kind, df, dr) && ray_reaches(b, from, df, dr, sq)),
{
    if exists|df: int, dr: int| slides_along(kind, df, dr) && ray_reaches(b, from, df, dr, sq) {
        let (df, dr) = choose|df: int, dr: int| slides_along(kind, df, dr) && ray_reaches(b, from, df, dr, sq);
        let i: int = if kind == PieceType::Rook {
            if df == 1 { 0 } else if df == -1 { 1 } else if dr == 1 { 2 } else { 3 }
        } else {
            if df == 1 && dr == 1 { 0 } else if df == 1 && dr == -1 { 1 } else if df == -1 && dr == 1 { 2 } else if df == -1 && dr == -1 { 3 }
                else if df == 1 { 4 } else if df == -1 { 5 } else if dr == 1 { 6 } else { 7 }
        };
        assert(dirs[i].0 == df && dirs[i].1 == dr);
    }
    if exists|i: int| #![trigger dirs[i]] 0 <= i < dirs.len() && ray_reaches(b, from, dirs[i].0 as int, dirs[i].1 as int, sq) {
        let i = choose|i: int| #![trigger dirs[i]] 0 <= i < dirs.len() && ray_reaches(b, from, dirs[i].0 as int, dirs[i].1 as int, sq);
        assert(slides_along(kind, dirs[i].0 as int, dirs[i].1 as int));
    }
}

pub fn is_square_attacked(state: &GameState, sq: usize, by_color: Color) -> (r: bool)
    ensures
        r == square_attacked(state.board@, sq as int, by_color),
{
    let ghost b = state.board@;
    let mut from: usize = 0;
    while from < 64
        invariant
            from <= 64,
            b == state.board@,
            forall|j: int| 0 <= j < from ==> !#[trigger] attacks_from(b, j, sq as int, by_color),
        decreases 64 - from,
    {
        if let Some(piece) = state.board[from] {
            if piece.color == by_color {
                let hit = match piece.kind {
                    PieceType::Pawn => pawn_attacks(from, sq, by_color),
                    PieceType::Knight => knight_attacks(from, sq),
                    PieceType::Bishop => {
                        let dirs: [(isize, isize); 4] = [(1, 1), (1, -1), (-1, 1), (-1, -1)];
                        proof {
                            assert(dirs@ == diagonal_dirs());
                            lemma_ray_dirs(b, from as int, sq as int, piece.kind, dirs@);
                        }
                        ray_attacks(state, from, sq, &dirs)
                    },
                    PieceType::Rook => {
                        let dirs: [(isize, isize); 4] = [(1, 0), (-1, 0), (0, 1), (0, -1)];
                        proof {
                            assert(dirs@ == straight_dirs());
                            lemma_ray_dirs(b, from as int, sq as int, piece.kind, dirs@);
                        }
                        ray_attacks(state, from, sq, &dirs)
                    },
                    PieceType::Queen => {
                        let dirs: [(isize, isize); 8] = [
                            (1, 1),
                            (1, -1),
                            (-1, 1),
                            (-1, -1),
                            (1, 0),
                            (-1, 0),
                            (0, 1),
                            (0, -1),
                        ];
                        proof {
                            assert(dirs@ =~= queen_dirs());
                            lemma_ray_dirs(b, from as int, sq as int, piece.kind, dirs@);
                        }
                        ray_attacks(state, from, sq, &dirs)
                    },
                    PieceType::King => king_attacks(from, sq),
                };
                if hit {
                    assert(attacks_from(b, from as int, sq as int, by_color));
                    return true;
                }
            }
        }
        from += 1;
    }
    false
}

pub fn in_check(state: &GameState, color: Color) -> (r: bool)
    ensures
        r == king_attacked(state.board@, color),
{
    let king_sq = state.king_square(color);
    match king_sq {
        None => {
            proof {
                if king_attacked(state.board@, color) {
                    let k = choose|k: int| #[trigger] first_king(state.board@, color, k) && square_attacked(state.board@, k, color.other());
                }
            }
            false
        },
        Some(k) => {
            let r = is_square_attacked(state, k, color.opposite());
            proof {
                assert(first_king(state.board@, color, k as int));
                if king_attacked(state.board@, color) {
                    let k2 = choose|k2: int| #[trigger] first_king(state.board@, color, k2) && square_attacked(state.board@, k2, color.other());
                    if k2 < k {
                        assert(!is_king_of(state.board@[k2], color));
                    } else if k < k2 {
                        assert(!is_king_of(state.board@[k as int], color));
                    }
                }
            }
            r
        },
    }
}

/// The legal moves among the first `n` of `moves`, in their order.
pub open spec fn legal_filter(s: GameState, moves: Seq<Move>, n: int) -> Seq<Move>
    decreases n,
{
    if n <= 0 {
        Seq::empty()
    } else {
        legal_filter(s, moves, n - 1) + if legal_move(s, moves[n - 1]) {
            seq![moves[n - 1]]
        } else {
            Seq::empty()
        }
    }
}

/// The legal moves of `s` in the order they are listed: the pseudo-legal moves in their
/// order, keeping the legal ones.
pub open spec fn legal_list(s: GameState) -> Seq<Move> {
    legal_filter(s, pseudo_list(s), pseudo_list(s).len() as int)
}

pub fn generate_legal_moves(state: &GameState) -> (legal: Vec<Move>)
    requires
        moves_playable(*state),
    ensures
        legal@.no_duplicates(),
        forall|m: Move| #[trigger] legal@.contains(m) <==> legal_move(*state, m),
        castles_last(legal@),
        legal@ == legal_list(*state),
{
    let pseudo = generate_pseudo_legal_moves(state);
    let mut legal: Vec<Move> = Vec::new();
    let mut i: usize = 0;
    while i < pseudo.len()
        invariant
            i <= pseudo@.len(),
            moves_playable(*state),
            pseudo@.no_duplicates(),
            forall|m: Move| #[trigger] pseudo@.contains(m) <==> pseudo_legal(*state, m),
            legal@.no_duplicates(),
            castles_last(pseudo@),
            castles_last(legal@),
            pseudo@ == pseudo_list(*state),
            legal@ == legal_filter(*state, pseudo@, i as int),
            forall|m: Move|
                #[trigger] legal@.contains(m) <==> (pseudo@.take(i as int).contains(m) && legal_move(*state, m)),
        decreases pseudo@.len() - i,
    {
        let mv = pseudo[i];
        proof {
            assert(pseudo@.contains(mv));
            lemma_pseudo_legal_in_range(*state, mv);
        }
        let mut next = state.clone();
        next.make_move(mv);
        let ghost after = next.board@;
        let mut keep = true;
        if mv.is_castling {
            let (k_from, k_mid, k_to): (usize, usize, usize) = if state.side_to_move == Color::White {
                if mv.to == 6 {
                    (4, 5, 6)
                } else {
                    (4, 3, 2)
                }
            } else if mv.to == 62 {
                (60, 61, 62)
            } else {
                (60, 59, 58)
            };
            if is_square_attacked(state, k_from, state.side_to_move.opposite())
                || is_square_attacked(state, k_mid, state.side_to_move.opposite())
                || is_square_attacked(&next, k_to, state.side_to_move.opposite()) {
                keep = false;
            }
        }
        if keep && !in_check(&next, state.side_to_move) {
            proof {
                assert(!legal@.contains(mv)) by {
                    if legal@.contains(mv) {
                        let j = choose|j: int| 0 <= j < i && #[trigger] pseudo@.take(i as int)[j] == mv;
                        assert(pseudo@[j] == pseudo@[i as int]);
                    }
                }
            }
            let ghost old_legal = legal@;
            legal.push(mv);
            proof {
                assert forall|a: int, c: int|
                    0 <= a < c < legal@.len() && (#[trigger] legal@[a]).from == (#[trigger] legal@[c]).from
                        && legal@[a].is_castling implies legal@[c].is_castling by {
                    if c == legal@.len() - 1 {
                        assert(old_legal.contains(legal@[a]));
                        let j = choose|j: int| 0 <= j < i && #[trigger] pseudo@.take(i as int)[j] == legal@[a];
                        assert(pseudo@[j] == legal@[a]);
                    } else {
                        assert(old_legal[a] == legal@[a] && old_legal[c] == legal@[c]);
                    }
                }
            }
        }
        proof {
            assert forall|m: Move| #[trigger] legal@.contains(m) <==> (pseudo@.take(i + 1).contains(m) && legal_move(*state, m)) by {
                if pseudo@.take(i + 1).contains(m) {
                    let j = choose|j: int| 0 <= j < i + 1 && #[trigger] pseudo@.take(i + 1)[j] == m;
                    if j < i {
                        assert(pseudo@.take(i as int)[j] == m);
                    }
                }
                if pseudo@.take(i as int).contains(m) {
                    let j = choose|j: int| 0 <= j < i && #[trigger] pseudo@.take(i as int)[j] == m;
                    assert(pseudo@.take(i + 1)[j] == m);
                }
                if m == mv {
                    assert(pseudo@.take(i + 1)[i as int] == m);
                }
            }
        }
        i += 1;
    }
    proof {
        assert(pseudo@.take(pseudo@.len() as int) =~= pseudo@);
    }
    legal
}

/// How much capturing a position has left in it: its pieces, plus one while an
/// en passant capture is on offer.
pub open spec fn capture_potential(b: Seq<Option<Piece>>, ep: Option<usize>) -> int {
    piece_count(b) + if ep is Some { 1int } else { 0int }
}

/// Law: a capture, or an en passant capture, leaves strictly less capture potential.
/// (So any sequence of captures ends.)
pub proof fn law_capture_shrinks(s: GameState, m: Move)
    requires
        pseudo_legal(s, m),
        s.board@[m.to as int] is Some || m.is_en_passant,
    ensures
        capture_potential(
            board_after(s.board@, s.board@[m.from as int]->0, m),
            en_passant_after(landed_piece(s.board@[m.from as int]->0, m), m),
        ) < capture_potential(s.board@, s.en_passant),
{
    lemma_capture_facts(s, m);
    lemma_pseudo_legal_in_range(s, m);
    let b = s.board@;
    let piece = b[m.from as int]->0;
    let landed = landed_piece(piece, m);
    let b1 = if m.is_en_passant { b.update(en_passant_victim(piece.color, m.to as int), None) } else { b };
    if m.is_en_passant {
        lemma_pieces_update(b, 64, en_passant_victim(piece.color, m.to as int), None);
    }
    assert(b1[m.from as int] is Some);
    let b2 = b1.update(m.from as int, None);
    lemma_pieces_update(b1, 64, m.from as int, None);
    let b3 = b2.update(m.to as int, Some(landed));
    lemma_pieces_update(b2, 64, m.to as int, Some(landed));
    assert(board_after(b, piece, m) == b3);
}

/// Law: a legal move never leaves the mover's own king attacked, and it passes the turn
/// to the other side.
pub proof fn law_legal_move_keeps_king_safe(s: GameState, m: Move)
    requires
        legal_move(s, m),
    ensures
        !king_attacked(state_after(s, m).board@, s.side_to_move),
        state_after(s, m).side_to_move == s.side_to_move.other(),
{
    lemma_pseudo_legal_in_range(s, m);
    lemma_array_after(s.board, s.board@[m.from as int]->0, m);
}

/// Every move kept by `legal_filter` is legal.
pub proof fn lemma_legal_filter_legal(s: GameState, moves: Seq<Move>, n: int, i: int)
    requires
        0 <= i < legal_filter(s, moves, n).len(),
    ensures
        legal_move(s, legal_filter(s, moves, n)[i]),
    decreases n,
{
    if n > 0 {
        let prev = legal_filter(s, moves, n - 1);
        if i < prev.len() {
            lemma_legal_filter_legal(s, moves, n - 1, i);
        }
    }
}

/// Every move of `legal_list(s)` is legal in `s`.
pub proof fn lemma_legal_list_legal(s: GameState, i: int)
    requires
        0 <= i < legal_list(s).len(),
    ensures
        legal_move(s, legal_list(s)[i]),
{
    lemma_legal_filter_legal(s, pseudo_list(s), pseudo_list(s).len() as int, i);
}


/// Legal moves that the first `n` of `moves` hold survive the filter.
proof fn lemma_legal_filter_keeps(s: GameState, moves: Seq<Move>, n: int, i: int)
    requires
        0 <= i < n <= moves.len(),
        legal_move(s, moves[i]),
    ensures
        legal_filter(s, moves, n).len() > 0,
    decreases n,
{
    if i < n - 1 {
        lemma_legal_filter_keeps(s, moves, n - 1, i);
    }
}

/// A move listed from the first `n` squares is still listed from the first `k >= n`.
proof fn lemma_upto_keeps(s: GameState, n: int, k: int, m: Move)
    requires
        0 <= n <= k,
        pseudo_list_upto(s, n).contains(m),
    ensures
        pseudo_list_upto(s, k).contains(m),
    decreases k - n,
{
    if n < k {
        let a = pseudo_list_upto(s, n);
        let i = choose|i: int| 0 <= i < a.len() && a[i] == m;
        assert(pseudo_list_upto(s, n + 1) == a + square_list(s, n));
        assert(pseudo_list_upto(s, n + 1)[i] == m);
        lemma_upto_keeps(s, n + 1, k, m);
    }
}

/// A jump listed among the first `n` offsets is still listed among the first `k >= n`.
proof fn lemma_jumps_keep(
    b: Seq<Option<Piece>>,
    from: int,
    color: Color,
    offs: Seq<(isize, isize)>,
    n: int,
    k: int,
    m: Move,
)
    requires
        0 <= n <= k,
        jump_list(b, from, color, offs, n).contains(m),
    ensures
        jump_list(b, from, color, offs, k).contains(m),
    decreases k - n,
{
    if n < k {
        let a = jump_list(b, from, color, offs, n);
        let i = choose|i: int| 0 <= i < a.len() && a[i] == m;
        assert(jump_list(b, from, color, offs, n + 1)[i] == m);
        lemma_jumps_keep(b, from, color, offs, n + 1, k, m);
    }
}

/// In the starting position the knight's move b1-c3 is legal and listed, so White has
/// a legal move.
pub proof fn lemma_startpos_has_moves()
    ensures
        legal_move(startpos_state(), plain_move(1, 18)),
        legal_list(startpos_state()).len() > 0,
{
    lemma_startpos_state();
    let s = startpos_state();
    let b = s.board@;
    let m = plain_move(1, 18);
    let wn = Piece { color: Color::White, kind: PieceType::Knight };
    assert(b[1] == Some(wn));
    assert(b[18] is None);
    assert(knight_jump(1, 2) && leap(1, 1, 2, 18));
    assert(knight_move(b, 1, Color::White, m));
    assert(pseudo_legal(s, m));
    let after = board_after(b, wn, m);
    assert(after =~= b.update(1, None).update(18, Some(wn)));
    assert forall|k: int| first_king(after, Color::White, k) implies k == 4 by {
        if k < 4 {
            assert(!is_king_of(after[k], Color::White));
        } else if k > 4 {
            assert(is_king_of(after[4], Color::White));
        }
    }
    assert(!square_attacked(after, 4, Color::Black)) by {
        if square_attacked(after, 4, Color::Black) {
            let from = choose|from: int| 0 <= from < 64 && #[trigger] attacks_from(after, from, 4, Color::Black);
            assert(from >= 48);
            assert(rank(from) >= 6);
            let p = after[from]->0;
            if p.kind == PieceType::Knight {
                let (df, dr) = choose|df: int, dr: int| knight_jump(df, dr) && leap(from, df, dr, 4);
                assert(false);
            } else if p.kind == PieceType::King {
                let (df, dr) = choose|df: int, dr: int| king_step(df, dr) && leap(from, df, dr, 4);
                assert(false);
            } else if p.kind != PieceType::Pawn {
                let (df, dr) = choose|df: int, dr: int|
                    slides_along(p.kind, df, dr) && ray_reaches(after, from, df, dr, 4);
                let k = choose|k: int|
                    #![trigger ray_sq(from, df, dr, k)]
                    1 <= k && ray_on(from, df, dr, k) && ray_sq(from, df, dr, k) == 4 && ray_clear(
                        after,
                        from,
                        df,
                        dr,
                        k,
                    );
                assert(dr == -1 && k == rank(from));
                let j = k - 1;
                assert(8 <= ray_sq(from, df, dr, j) < 16);
                assert(after[ray_sq(from, df, dr, j)] is None);
                assert(false);
            }
        }
    }
    assert(!king_attacked(after, Color::White));
    assert(legal_move(s, m));
    let offs = knight_offsets();
    assert(offs[0] == (1isize, 2isize));
    assert(file(1) + 1 == 2 && rank(1) + 2 == 2);
    assert(crate::engine::movegen::jump_at(b, 1, Color::White, 1, 2) == seq![m]);
    assert(jump_list(b, 1, Color::White, offs, 1) =~= seq![m]) by {
        reveal_with_fuel(jump_list, 2);
    }
    assert(jump_list(b, 1, Color::White, offs, 1)[0] == m);
    lemma_jumps_keep(b, 1, Color::White, offs, 1, 8, m);
    assert(square_list(s, 1) == jump_list(b, 1, Color::White, offs, 8));
    let j = choose|j: int| 0 <= j < square_list(s, 1).len() && square_list(s, 1)[j] == m;
    let a = pseudo_list_upto(s, 1);
    assert(pseudo_list_upto(s, 2) == a + square_list(s, 1));
    assert(pseudo_list_upto(s, 2)[a.len() + j] == m);
    lemma_upto_keeps(s, 2, 64, m);
    let i = choose|i: int| 0 <= i < pseudo_list(s).len() && pseudo_list(s)[i] == m;
    lemma_legal_filter_keeps(s, pseudo_list(s), pseudo_list(s).len() as int, i);
}

/// The square a king of `color` castles from: e1 for White, e8 for Black.
pub open spec fn castling_home(color: Color) -> int {
    if color == Color::White {
        4
    } else {
        60
    }
}

/// Two first kings of one colour stand on the same square.
proof fn lemma_first_king_unique(b: Seq<Option<Piece>>, color: Color, k1: int, k2: int)
    requires
        first_king(b, color, k1),
        first_king(b, color, k2),
    ensures
        k1 == k2,
{
    if k1 < k2 {
        assert(is_king_of(b[k1], color));
    } else if k2 < k1 {
        assert(is_king_of(b[k2], color));
    }
}

/// Law: no castling out of or through check. A legal castling move starts from a home
/// square that the opponent does not attack and crosses a square it does not attack
/// either; so when the mover's king stands on its home square and
/// is attacked, no castling move is legal.
pub proof fn law_no_castling_out_of_check(s: GameState, m: Move)
    ensures
        legal_move(s, m) && m.is_castling ==> !square_attacked(
            s.board@,
            castling_home(s.side_to_move),
            s.side_to_move.other(),
        ),
        legal_move(s, m) && m.is_castling ==> !square_attacked(
            s.board@,
            (castling_home(s.side_to_move) + m.to) / 2,
            s.side_to_move.other(),
        ),
        first_king(s.board@, s.side_to_move, castling_home(s.side_to_move)) && king_attacked(
            s.board@,
            s.side_to_move,
        ) ==> !(legal_move(s, m) && m.is_castling),
{
    let b = s.board@;
    let home = castling_home(s.side_to_move);
    if first_king(b, s.side_to_move, home) && king_attacked(b, s.side_to_move) {
        let k = choose|k: int| #[trigger] first_king(b, s.side_to_move, k) && square_attacked(b, k, s.side_to_move.other());
        lemma_first_king_unique(b, s.side_to_move, k, home);
    }
}

/// Law: a pawn attacks exactly the squares it could capture onto. For a pawn of the side
/// to move and a square holding an opposing piece, the pawn attacks that square if and
/// only if some pseudo-legal move takes the pawn there.
pub proof fn law_pawn_attacks_are_captures(s: GameState, from: int, sq: int)
    requires
        0 <= from < 64,
        0 <= sq < 64,
        s.board@[from] == Some(Piece { color: s.side_to_move, kind: PieceType::Pawn }),
        crate::engine::movegen::enemy_on(s.board@, sq, s.side_to_move),
    ensures
        attacks_from(s.board@, from, sq, s.side_to_move) <==> exists|m: Move|
            m.from == from && m.to == sq && #[trigger] pseudo_legal(s, m),
{
    let b = s.board@;
    let c = s.side_to_move;
    let r1 = rank(from) + pawn_dir(c);
    if attacks_from(b, from, sq, c) {
        let m = if r1 == crate::engine::movegen::promotion_rank(c) {
            Move {
                from: from as usize,
                to: sq as usize,
                promotion: Some(PieceType::Queen),
                is_en_passant: false,
                is_castling: false,
            }
        } else {
            plain_move(from, sq)
        };
        if leap(from, -1, pawn_dir(c), sq) {
            assert(crate::engine::movegen::pawn_diagonal(s, from, c, -1, m));
        } else {
            assert(crate::engine::movegen::pawn_diagonal(s, from, c, 1, m));
        }
        assert(pseudo_legal(s, m));
    }
    if exists|m: Move| m.from == from && m.to == sq && #[trigger] pseudo_legal(s, m) {
        let m = choose|m: Move| m.from == from && m.to == sq && #[trigger] pseudo_legal(s, m);
        assert(!crate::engine::movegen::pawn_forward(s, from, c, m));
        if crate::engine::movegen::pawn_diagonal(s, from, c, -1, m) {
            assert(leap(from, -1, pawn_dir(c), sq));
        } else {
            assert(leap(from, 1, pawn_dir(c), sq));
        }
    }
}

/// Each castling right still held has its rook on that right's corner.
pub open spec fn rights_on_corners(s: GameState) -> bool {
    let b = s.board@;
    let wr = Some(Piece { color: Color::White, kind: PieceType::Rook });
    let br = Some(Piece { color: Color::Black, kind: PieceType::Rook });
    &&& s.castling.white_king_side ==> b[7] == wr
    &&& s.castling.white_queen_side ==> b[0] == wr
    &&& s.castling.black_king_side ==> b[63] == br
    &&& s.castling.black_queen_side ==> b[56] == br
}

/// The en passant square, if any, lies on the third or the sixth rank.
pub open spec fn en_passant_placed(s: GameState) -> bool {
    s.en_passant matches Some(e) ==> e / 8 == 2 || e / 8 == 5
}

/// Law: castling rights follow the rooks. A pseudo-legal move keeps every castling
/// right that is still held backed by a rook on its corner (and the en passant square on
/// the third or sixth rank); in particular a rook leaving its corner gives up that
/// corner's right.
pub proof fn law_castling_rights_follow_rooks(s: GameState, m: Move)
    requires
        pseudo_legal(s, m),
    ensures
        rights_on_corners(s) && en_passant_placed(s) ==> rights_on_corners(state_after(s, m))
            && en_passant_placed(state_after(s, m)),
        rights_on_corners(s) && m.from == 7 ==> !state_after(s, m).castling.white_king_side,
        rights_on_corners(s) && m.from == 0 ==> !state_after(s, m).castling.white_queen_side,
        rights_on_corners(s) && m.from == 63 ==> !state_after(s, m).castling.black_king_side,
        rights_on_corners(s) && m.from == 56 ==> !state_after(s, m).castling.black_queen_side,
{
    lemma_pseudo_legal_in_range(s, m);
    let b = s.board@;
    let piece = b[m.from as int]->0;
    lemma_array_after(s.board, piece, m);
    let t = state_after(s, m);
    assert(t.board@ == board_after(b, piece, m));
    if rights_on_corners(s) && en_passant_placed(s) {
        if m.is_en_passant {
            assert(s.en_passant == Some(m.to));
        }
        assert(rights_on_corners(t));
    }
}

} // verus!
