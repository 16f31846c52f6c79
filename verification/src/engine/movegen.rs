//! Pseudo-legal move generation: every move that the rules of piece movement allow
//! for the side to move, before asking whether it leaves the own king in check.

use vstd::prelude::*;

use crate::engine::board::{file_of, plain_move, rank_of, square, Color, Move, Piece, PieceType};
use crate::engine::game_state::GameState;

verus! {

broadcast use vstd::seq_lib::group_seq_properties;

// ----- board geometry -----

pub open spec fn on_board(f: int, r: int) -> bool {
    0 <= f < 8 && 0 <= r < 8
}

pub open spec fn sq_of(f: int, r: int) -> int {
    r * 8 + f
}

pub open spec fn file(sq: int) -> int {
    sq % 8
}

pub open spec fn rank(sq: int) -> int {
    sq / 8
}

/// `to` lies `df` files and `dr` ranks away from `from`, on the board.
pub open spec fn leap(from: int, df: int, dr: int, to: int) -> bool {
    on_board(file(from) + df, rank(from) + dr) && to == sq_of(file(from) + df, rank(from) + dr)
}

pub open spec fn knight_jump(df: int, dr: int) -> bool {
    ||| (df == 1 || df == -1) && (dr == 2 || dr == -2)
    ||| (df == 2 || df == -2) && (dr == 1 || dr == -1)
}

pub open spec fn king_step(df: int, dr: int) -> bool {
    -1 <= df <= 1 && -1 <= dr <= 1 && !(df == 0 && dr == 0)
}

/// `k` times a unit step `d` (one of -1, 0, 1).
pub open spec fn scale(k: int, d: int) -> int {
    if d == 1 {
        k
    } else if d == -1 {
        -k
    } else {
        0
    }
}

pub open spec fn unit_dir(df: int, dr: int) -> bool {
    -1 <= df <= 1 && -1 <= dr <= 1 && !(df == 0 && dr == 0)
}

pub open spec fn diagonal_dir(df: int, dr: int) -> bool {
    (df == 1 || df == -1) && (dr == 1 || dr == -1)
}

pub open spec fn straight_dir(df: int, dr: int) -> bool {
    (df == 0 && (dr == 1 || dr == -1)) || (dr == 0 && (df == 1 || df == -1))
}

/// The directions along which a piece of `kind` slides.
pub open spec fn slides_along(kind: PieceType, df: int, dr: int) -> bool {
    match kind {
        PieceType::Bishop => diagonal_dir(df, dr),
        PieceType::Rook => straight_dir(df, dr),
        PieceType::Queen => diagonal_dir(df, dr) || straight_dir(df, dr),
        _ => false,
    }
}

/// The `k`-th square from `from` in direction (`df`, `dr`) is on the board.
pub open spec fn ray_on(from: int, df: int, dr: int, k: int) -> bool {
    on_board(file(from) + scale(k, df), rank(from) + scale(k, dr))
}

pub open spec fn ray_sq(from: int, df: int, dr: int, k: int) -> int {
    sq_of(file(from) + scale(k, df), rank(from) + scale(k, dr))
}

/// The squares strictly between `from` and its `k`-th ray square are empty.
pub open spec fn ray_clear(b: Seq<Option<Piece>>, from: int, df: int, dr: int, k: int) -> bool {
    forall|j: int| 1 <= j < k ==> (#[trigger] b[ray_sq(from, df, dr, j)]) is None
}

/// `to` is reached from `from` along (`df`, `dr`) over empty squares.
pub open spec fn ray_reaches(b: Seq<Option<Piece>>, from: int, df: int, dr: int, to: int) -> bool {
    exists|k: int|
        #![trigger ray_sq(from, df, dr, k)]
        1 <= k && ray_on(from, df, dr, k) && ray_sq(from, df, dr, k) == to && ray_clear(
            b,
            from,
            df,
            dr,
            k,
        )
}

// ----- the movement rules -----

/// A piece of `color` may finish on `to`: it is empty or holds an opposing piece.
pub open spec fn open_to(b: Seq<Option<Piece>>, to: int, color: Color) -> bool {
    match b[to] {
        None => true,
        Some(p) => p.color != color,
    }
}

pub open spec fn enemy_on(b: Seq<Option<Piece>>, to: int, color: Color) -> bool {
    b[to] matches Some(p) && p.color != color
}

pub open spec fn knight_move(b: Seq<Option<Piece>>, from: int, color: Color, m: Move) -> bool {
    &&& m == plain_move(from, m.to as int)
    &&& open_to(b, m.to as int, color)
    &&& exists|df: int, dr: int| knight_jump(df, dr) && leap(from, df, dr, m.to as int)
}

pub open spec fn king_move(b: Seq<Option<Piece>>, from: int, color: Color, m: Move) -> bool {
    &&& m == plain_move(from, m.to as int)
    &&& open_to(b, m.to as int, color)
    &&& exists|df: int, dr: int| king_step(df, dr) && leap(from, df, dr, m.to as int)
}

pub open spec fn slide_move(
    b: Seq<Option<Piece>>,
    from: int,
    color: Color,
    kind: PieceType,
    m: Move,
) -> bool {
    &&& m == plain_move(from, m.to as int)
    &&& open_to(b, m.to as int, color)
    &&& exists|df: int, dr: int|
        slides_along(kind, df, dr) && ray_reaches(b, from, df, dr, m.to as int)
}

/// A castling move: the king of `color` on `from` lands on g1/c1 (g8/c8) when the
/// right is held and the squares between king and rook corner are empty.
pub open spec fn castle_move(s: GameState, from: int, color: Color, m: Move) -> bool {
    let b = s.board@;
    &&& m.from == from
    &&& m.promotion is None
    &&& !m.is_en_passant
    &&& m.is_castling
    &&& match color {
        Color::White => {
            ||| m.to == 6 && s.castling.white_king_side && b[5] is None && b[6] is None
            ||| m.to == 2 && s.castling.white_queen_side && b[1] is None && b[2] is None
                && b[3] is None
        },
        Color::Black => {
            ||| m.to == 62 && s.castling.black_king_side && b[61] is None && b[62] is None
            ||| m.to == 58 && s.castling.black_queen_side && b[57] is None && b[58] is None
                && b[59] is None
        },
    }
}

pub open spec fn pawn_dir(color: Color) -> int {
    if color == Color::White {
        1
    } else {
        -1
    }
}

pub open spec fn pawn_start_rank(color: Color) -> int {
    if color == Color::White {
        1
    } else {
        6
    }
}

pub open spec fn promotion_rank(color: Color) -> int {
    if color == Color::White {
        7
    } else {
        0
    }
}

pub open spec fn promotion_choice(kind: PieceType) -> bool {
    kind == PieceType::Queen || kind == PieceType::Rook || kind == PieceType::Bishop || kind
        == PieceType::Knight
}

/// A pawn arriving on `to_rank` by a push or capture: promotes to one of the four pieces
/// on the last rank, and does not promote elsewhere.
pub open spec fn pawn_arrival(m: Move, from: int, color: Color, to_rank: int) -> bool {
    &&& m.from == from
    &&& !m.is_en_passant
    &&& !m.is_castling
    &&& if to_rank == promotion_rank(color) {
        m.promotion matches Some(k) && promotion_choice(k)
    } else {
        m.promotion is None
    }
}

/// A pawn push: one rank forward onto an empty square, or two from the start rank
/// over two empty squares.
pub open spec fn pawn_forward(s: GameState, from: int, color: Color, m: Move) -> bool {
    let b = s.board@;
    let f = file(from);
    let r = rank(from);
    let r1 = r + pawn_dir(color);
    ||| on_board(f, r1) && b[sq_of(f, r1)] is None && m.to == sq_of(f, r1) && pawn_arrival(
        m,
        from,
        color,
        r1,
    )
    ||| r == pawn_start_rank(color) && b[sq_of(f, r1)] is None && b[sq_of(
        f,
        r1 + pawn_dir(color),
    )] is None && m == plain_move(from, sq_of(f, r1 + pawn_dir(color)))
}

pub open spec fn pawn_move(s: GameState, from: int, color: Color, m: Move) -> bool {
    ||| pawn_forward(s, from, color, m)
    ||| pawn_diagonal(s, from, color, -1, m)
    ||| pawn_diagonal(s, from, color, 1, m)
}

/// A pawn move one file to the side (`df`) and one rank forward: a capture of an
/// opposing piece, or an en passant capture onto the en passant square.
pub open spec fn pawn_diagonal(s: GameState, from: int, color: Color, df: int, m: Move) -> bool {
    let b = s.board@;
    let f = file(from);
    let r1 = rank(from) + pawn_dir(color);
    &&& on_board(f + df, r1)
    &&& m.to == sq_of(f + df, r1)
    &&& {
        ||| enemy_on(b, m.to as int, color) && pawn_arrival(m, from, color, r1)
        ||| b[m.to as int] is None && s.en_passant == Some(m.to) && m == (Move {
            from: from as usize,
            to: m.to,
            promotion: None,
            is_en_passant: true,
            is_castling: false,
        })
    }
}

/// The moves that the movement rules give `piece` standing on `from`.
pub open spec fn piece_move(s: GameState, from: int, piece: Piece, m: Move) -> bool {
    let b = s.board@;
    match piece.kind {
        PieceType::Pawn => pawn_move(s, from, piece.color, m),
        PieceType::Knight => knight_move(b, from, piece.color, m),
        PieceType::King => king_move(b, from, piece.color, m) || castle_move(
            s,
            from,
            piece.color,
            m,
        ),
        _ => slide_move(b, from, piece.color, piece.kind, m),
    }
}

/// A pseudo-legal move: a move of a piece of the side to move that its movement rule allows.
pub open spec fn pseudo_legal(s: GameState, m: Move) -> bool {
    &&& m.from < 64
    &&& s.board@[m.from as int] matches Some(piece)
    &&& piece.color == s.side_to_move
    &&& piece_move(s, m.from as int, piece, m)
}

/// `after` is `before` followed by moves, none repeated, that are exactly those
/// satisfying `added`.
pub open spec fn extends_with(before: Seq<Move>, after: Seq<Move>, added: spec_fn(Move) -> bool) -> bool {
    &&& before.len() <= after.len()
    &&& after.subrange(0, before.len() as int) == before
    &&& after.subrange(before.len() as int, after.len() as int).no_duplicates()
    &&& forall|m: Move|
        after.subrange(before.len() as int, after.len() as int).contains(m) <==> added(m)
}

proof fn lemma_push_fresh(s: Seq<Move>, m: Move)
    requires
        s.no_duplicates(),
        !s.contains(m),
    ensures
        s.push(m).no_duplicates(),
        forall|x: Move| s.push(m).contains(x) <==> (s.contains(x) || x == m),
{
    assert forall|x: Move| s.push(m).contains(x) implies (s.contains(x) || x == m) by {
        let i = choose|i: int| 0 <= i < s.push(m).len() && s.push(m)[i] == x;
        if i < s.len() {
            assert(s[i] == x);
        }
    }
    assert forall|x: Move| (s.contains(x) || x == m) implies s.push(m).contains(x) by {
        if x == m {
            assert(s.push(m)[s.len() as int] == m);
        } else {
            let i = choose|i: int| 0 <= i < s.len() && s[i] == x;
            assert(s.push(m)[i] == x);
        }
    }
}

// ----- the order in which moves are listed -----

/// The move to the square `(df, dr)` away from `from`, if it is on the board and open to
/// `color`.
pub open spec fn jump_at(b: Seq<Option<Piece>>, from: int, color: Color, df: int, dr: int) -> Seq<Move> {
    let f = file(from) + df;
    let r = rank(from) + dr;
    if on_board(f, r) && open_to(b, sq_of(f, r), color) {
        seq![plain_move(from, sq_of(f, r))]
    } else {
        Seq::empty()
    }
}

/// The moves to the first `n` of the squares `offs` away from `from`, in that order.
pub open spec fn jump_list(b: Seq<Option<Piece>>, from: int, color: Color, offs: Seq<(isize, isize)>, n: int) -> Seq<Move>
    decreases n,
{
    if n <= 0 {
        Seq::empty()
    } else {
        jump_list(b, from, color, offs, n - 1) + jump_at(b, from, color, offs[n - 1].0 as int, offs[n - 1].1 as int)
    }
}

/// The knight's jumps, in the order they are tried.
pub open spec fn knight_offsets() -> Seq<(isize, isize)> {
    seq![(1isize, 2isize), (2isize, 1isize), (2isize, -1isize), (1isize, -2isize), (-1isize, -2isize), (-2isize, -1isize), (-2isize, 1isize), (-1isize, 2isize)]
}

/// How many king steps come before (`df`, `dr`) in the order of `king_offsets`.
pub open spec fn king_index(df: int, dr: int) -> int {
    let raw = (df + 1) * 3 + (dr + 1);
    if raw > 4 {
        raw - 1
    } else {
        raw
    }
}

/// The king's steps, in the order they are tried: by file offset, then rank offset.
pub open spec fn king_offsets() -> Seq<(isize, isize)> {
    seq![(-1isize, -1isize), (-1isize, 0isize), (-1isize, 1isize), (0isize, -1isize), (0isize, 1isize), (1isize, -1isize), (1isize, 0isize), (1isize, 1isize)]
}

fn gen_knight_moves(state: &GameState, from: usize, out: &mut Vec<Move>)
    requires
        from < 64,
        state.board@[from as int] is Some,
    ensures
        extends_with(
            old(out)@,
            final(out)@,
            |m: Move| knight_move(state.board@, from as int, state.board@[from as int]->0.color, m),
        ),
        final(out)@ == old(out)@ + jump_list(
            state.board@,
            from as int,
            state.board@[from as int]->0.color,
            knight_offsets(),
            8,
        ),
{
    let ghost b = state.board@;
    let piece = state.board[from].unwrap();
    let file = file_of(from) as isize;
    let rank = rank_of(from) as isize;
    let offsets: [(isize, isize); 8] = [
        (1, 2),
        (2, 1),
        (2, -1),
        (1, -2),
        (-1, -2),
        (-2, -1),
        (-2, 1),
        (-1, 2),
    ];
    let ghost start = out@;
    let ghost mut added: Seq<Move> = Seq::empty();
    let mut i: usize = 0;
    while i < 8
        invariant
            0 <= i <= 8,
            b == state.board@,
            piece == state.board@[from as int]->0,
            from < 64,
            file == from % 8,
            rank == from / 8,
            offsets@ == seq![
                (1isize, 2isize),
                (2isize, 1isize),
                (2isize, -1isize),
                (1isize, -2isize),
                (-1isize, -2isize),
                (-2isize, -1isize),
                (-2isize, 1isize),
                (-1isize, 2isize),
            ],
            out@ == start + added,
            added == jump_list(b, from as int, piece.color, knight_offsets(), i as int),
            added.no_duplicates(),
            forall|m: Move|
                added.contains(m) <==> exists|j: int|
                    0 <= j < i && m == plain_move(from as int, m.to as int) && open_to(
                        b,
                        m.to as int,
                        piece.color,
                    ) && leap(from as int, offsets@[j].0 as int, offsets@[j].1 as int, m.to as int),
        decreases 8 - i,
    {
        let (df, dr) = offsets[i];
        let tf = file + df;
        let tr = rank + dr;
        if 0 <= tf && tf < 8 && 0 <= tr && tr < 8 {
            let to = square(tf as usize, tr as usize);
            let open = match state.board[to] {
                None => true,
                Some(p) => p.color != piece.color,
            };
            if open {
                let mv = Move::new(from, to);
                proof {
                    assert(!added.contains(mv)) by {
                        if added.contains(mv) {
                            let j = choose|j: int|
                                0 <= j < i && mv == plain_move(from as int, mv.to as int)
                                    && open_to(b, mv.to as int, piece.color) && leap(
                                    from as int,
                                    offsets@[j].0 as int,
                                    offsets@[j].1 as int,
                                    mv.to as int,
                                );
                            assert(false);
                        }
                    }
                    lemma_push_fresh(added, mv);
                    added = added.push(mv);
                }
                out.push(mv);
            }
        }
        i += 1;
    }
    proof {
        assert(out@.subrange(0, start.len() as int) =~= start);
        assert(out@.subrange(start.len() as int, out@.len() as int) =~= added);
        assert forall|m: Move|
            added.contains(m) <==> knight_move(b, from as int, piece.color, m) by {
            if knight_move(b, from as int, piece.color, m) {
                let (df, dr) = choose|df: int, dr: int|
                    knight_jump(df, dr) && leap(from as int, df, dr, m.to as int);
                let j: int = if df == 1 && dr == 2 { 0 } else if df == 2 && dr == 1 { 1 } else if df
                    == 2 && dr == -1 { 2 } else if df == 1 && dr == -2 { 3 } else if df == -1 && dr
                    == -2 { 4 } else if df == -2 && dr == -1 { 5 } else if df == -2 && dr == 1 {
                    6
                } else {
                    7
                };
                assert(offsets@[j].0 == df && offsets@[j].1 == dr);
            }
            if added.contains(m) {
                let j = choose|j: int|
                    0 <= j < 8 && m == plain_move(from as int, m.to as int) && open_to(
                        b,
                        m.to as int,
                        piece.color,
                    ) && leap(from as int, offsets@[j].0 as int, offsets@[j].1 as int, m.to as int);
                assert(knight_jump(offsets@[j].0 as int, offsets@[j].1 as int));
            }
        }
    }
}


/// The king steps from `from` already visited when the loops stand at (`df`, `dr`).
pub open spec fn king_step_before(df0: int, dr0: int, df: int, dr: int) -> bool {
    king_step(df0, dr0) && (df0 < df || (df0 == df && dr0 < dr))
}

/// `m` is a king move along a step visited before (`df`, `dr`).
pub open spec fn king_seen(b: Seq<Option<Piece>>, from: int, color: Color, df: int, dr: int, m: Move) -> bool {
    &&& m == plain_move(from, m.to as int)
    &&& open_to(b, m.to as int, color)
    &&& exists|df0: int, dr0: int| king_step_before(df0, dr0, df, dr) && leap(from, df0, dr0, m.to as int)
}

/// Trying king step (`df`, `dr`) extends the list of king moves by that step's move.
proof fn lemma_king_step_list(b: Seq<Option<Piece>>, from: int, color: Color, df: int, dr: int)
    requires
        -1 <= df <= 1,
        -1 <= dr <= 1,
    ensures
        df == 0 && dr == 0 ==> king_index(df, dr + 1) == king_index(df, dr),
        !(df == 0 && dr == 0) ==> {
            &&& king_index(df, dr + 1) == king_index(df, dr) + 1
            &&& jump_list(b, from, color, king_offsets(), king_index(df, dr) + 1) == jump_list(
                b,
                from,
                color,
                king_offsets(),
                king_index(df, dr),
            ) + jump_at(b, from, color, df, dr)
        },
{
    if !(df == 0 && dr == 0) {
        let n = king_index(df, dr);
        assert(king_offsets()[n].0 == df && king_offsets()[n].1 == dr);
    }
}

#[verifier::rlimit(50)]
fn gen_king_moves(state: &GameState, from: usize, out: &mut Vec<Move>)
    requires
        from < 64,
        state.board@[from as int] is Some,
    ensures
        extends_with(
            old(out)@,
            final(out)@,
            |m: Move| king_move(state.board@, from as int, state.board@[from as int]->0.color, m),
        ),
        final(out)@ == old(out)@ + jump_list(
            state.board@,
            from as int,
            state.board@[from as int]->0.color,
            king_offsets(),
            8,
        ),
{
    let ghost b = state.board@;
    let piece = state.board[from].unwrap();
    let ghost start = out@;
    let ghost mut added: Seq<Move> = Seq::empty();
    let mut df: isize = -1;
    while df <= 1
        invariant
            -1 <= df <= 2,
            b == state.board@,
            piece == state.board@[from as int]->0,
            from < 64,
            out@ == start + added,
            added == jump_list(b, from as int, piece.color, king_offsets(), king_index(df as int, -1)),
            added.no_duplicates(),
            forall|m: Move| added.contains(m) <==> king_seen(b, from as int, piece.color, df as int, -1, m),
        decreases 2 - df,
    {
        let mut dr: isize = -1;
        while dr <= 1
            invariant
                -1 <= df <= 1,
                -1 <= dr <= 2,
                b == state.board@,
                piece == state.board@[from as int]->0,
                from < 64,
                out@ == start + added,
                added == jump_list(b, from as int, piece.color, king_offsets(), king_index(df as int, dr as int)),
                added.no_duplicates(),
                forall|m: Move| added.contains(m) <==> king_seen(b, from as int, piece.color, df as int, dr as int, m),
            decreases 2 - dr,
        {
            let ghost before_step = added;
            if !(df == 0 && dr == 0) {
                let tf = file_of(from) as isize + df;
                let tr = rank_of(from) as isize + dr;
                if 0 <= tf && tf < 8 && 0 <= tr && tr < 8 {
                    let to = square(tf as usize, tr as usize);
                    let open = match state.board[to] {
                        None => true,
                        Some(p) => p.color != piece.color,
                    };
                    if open {
                        let mv = Move::new(from, to);
                        proof {
                            assert(!added.contains(mv)) by {
                                if added.contains(mv) {
                                    assert(king_seen(b, from as int, piece.color, df as int, dr as int, mv));
                                    let (a, c) = choose|df0: int, dr0: int| king_step_before(df0, dr0, df as int, dr as int) && leap(from as int, df0, dr0, mv.to as int);
                                    assert(false);
                                }
                            }
                            lemma_push_fresh(added, mv);
                            added = added.push(mv);
                        }
                        out.push(mv);
                    }
                }
            }
            proof {
                lemma_king_step_list(b, from as int, piece.color, df as int, dr as int);
                if !(df == 0 && dr == 0) {
                    assert(added =~= before_step + jump_at(b, from as int, piece.color, df as int, dr as int));
                }
                assert forall|m: Move| #[trigger] king_seen(b, from as int, piece.color, df as int, dr as int + 1, m) implies added.contains(m) by {
                    let (a, c) = choose|df0: int, dr0: int| king_step_before(df0, dr0, df as int, dr as int + 1) && leap(from as int, df0, dr0, m.to as int);
                    if a == df && c == dr {
                        assert(m == plain_move(from as int, m.to as int));
                    } else {
                        assert(king_step_before(a, c, df as int, dr as int));
                        assert(king_seen(b, from as int, piece.color, df as int, dr as int, m));
                    }
                }
                assert forall|m: Move| added.contains(m) implies #[trigger] king_seen(b, from as int, piece.color, df as int, dr as int + 1, m) by {
                    if king_seen(b, from as int, piece.color, df as int, dr as int, m) {
                        let (a, c) = choose|df0: int, dr0: int| king_step_before(df0, dr0, df as int, dr as int) && leap(from as int, df0, dr0, m.to as int);
                        assert(king_step_before(a, c, df as int, dr as int + 1));
                    } else {
                        assert(king_step_before(df as int, dr as int, df as int, dr as int + 1));
                        assert(leap(from as int, df as int, dr as int, m.to as int));
                    }
                }
            }
            dr += 1;
        }
        proof {
            assert forall|m: Move| #[trigger] king_seen(b, from as int, piece.color, df as int + 1, -1, m) implies king_seen(b, from as int, piece.color, df as int, 2, m) by {
                let (a, c) = choose|df0: int, dr0: int| king_step_before(df0, dr0, df as int + 1, -1) && leap(from as int, df0, dr0, m.to as int);
                assert(king_step_before(a, c, df as int, 2));
            }
            assert forall|m: Move| #[trigger] king_seen(b, from as int, piece.color, df as int, 2, m) implies king_seen(b, from as int, piece.color, df as int + 1, -1, m) by {
                let (a, c) = choose|df0: int, dr0: int| king_step_before(df0, dr0, df as int, 2) && leap(from as int, df0, dr0, m.to as int);
                assert(king_step_before(a, c, df as int + 1, -1));
            }
        }
        df += 1;
    }
    proof {
        assert(out@.subrange(0, start.len() as int) =~= start);
        assert(out@.subrange(start.len() as int, out@.len() as int) =~= added);
        assert forall|m: Move| added.contains(m) <==> king_move(b, from as int, piece.color, m) by {
            if king_move(b, from as int, piece.color, m) {
                let (a, c) = choose|df0: int, dr0: int| king_step(df0, dr0) && leap(from as int, df0, dr0, m.to as int);
                assert(king_step_before(a, c, 2, -1));
            }
            if added.contains(m) {
                let (a, c) = choose|df0: int, dr0: int| king_step_before(df0, dr0, 2, -1) && leap(from as int, df0, dr0, m.to as int);
                assert(king_step(a, c));
            }
        }
    }
}

proof fn lemma_extends_chain(
    a: Seq<Move>,
    b: Seq<Move>,
    c: Seq<Move>,
    p: spec_fn(Move) -> bool,
    q: spec_fn(Move) -> bool,
)
    requires
        extends_with(a, b, p),
        extends_with(b, c, q),
        forall|m: Move| #[trigger] p(m) ==> !q(m),
    ensures
        extends_with(a, c, |m: Move| p(m) || q(m)),
{
    let x = b.subrange(a.len() as int, b.len() as int);
    let y = c.subrange(b.len() as int, c.len() as int);
    assert(c.subrange(a.len() as int, c.len() as int) =~= x + y);
    assert(c.subrange(0, a.len() as int) =~= a) by {
        assert(c.subrange(0, a.len() as int) =~= b.subrange(0, a.len() as int));
    }
    assert forall|i: int, j: int| 0 <= i < x.len() && 0 <= j < y.len() implies x[i] != y[j] by {
        assert(x.contains(x[i]));
        assert(y.contains(y[j]));
    }
    vstd::seq_lib::lemma_no_dup_in_concat(x, y);
    assert forall|m: Move| (x + y).contains(m) <==> (p(m) || q(m)) by {
        if (x + y).contains(m) {
            let i = choose|i: int| 0 <= i < (x + y).len() && (x + y)[i] == m;
            if i < x.len() {
                assert(x.contains(m));
            } else {
                assert(y[i - x.len()] == m);
                assert(y.contains(m));
            }
        }
        if x.contains(m) {
            let i = choose|i: int| 0 <= i < x.len() && x[i] == m;
            assert((x + y)[i] == m);
        }
        if y.contains(m) {
            let i = choose|i: int| 0 <= i < y.len() && y[i] == m;
            assert((x + y)[x.len() + i] == m);
        }
    }
}

proof fn lemma_extends_nothing(a: Seq<Move>, p: spec_fn(Move) -> bool)
    requires
        forall|m: Move| !#[trigger] p(m),
    ensures
        extends_with(a, a, p),
{
    assert(a.subrange(0, a.len() as int) =~= a);
    assert(a.subrange(a.len() as int, a.len() as int) =~= Seq::<Move>::empty());
}

pub open spec fn promoted_move(from: int, to: int, kind: PieceType) -> Move {
    Move {
        from: from as usize,
        to: to as usize,
        promotion: Some(kind),
        is_en_passant: false,
        is_castling: false,
    }
}

/// The moves of a pawn arriving on `to`: the four promotions, or the plain move.
pub open spec fn arrival_moves(from: int, to: int, promote: bool) -> Seq<Move> {
    if promote {
        seq![
            promoted_move(from, to, PieceType::Queen),
            promoted_move(from, to, PieceType::Rook),
            promoted_move(from, to, PieceType::Bishop),
            promoted_move(from, to, PieceType::Knight),
        ]
    } else {
        seq![plain_move(from, to)]
    }
}

fn push_arrivals(out: &mut Vec<Move>, from: usize, to: usize, promote: bool)
    ensures
        final(out)@ == old(out)@ + arrival_moves(from as int, to as int, promote),
{
    if promote {
        out.push(Move { promotion: Some(PieceType::Queen), ..Move::new(from, to) });
        out.push(Move { promotion: Some(PieceType::Rook), ..Move::new(from, to) });
        out.push(Move { promotion: Some(PieceType::Bishop), ..Move::new(from, to) });
        out.push(Move { promotion: Some(PieceType::Knight), ..Move::new(from, to) });
    } else {
        out.push(Move::new(from, to));
    }
    assert(final(out)@ =~= old(out)@ + arrival_moves(from as int, to as int, promote));
}

proof fn lemma_arrival_moves(from: int, to: int, promote: bool, color: Color, to_rank: int)
    requires
        0 <= from < 64,
        0 <= to < 64,
        promote == (to_rank == promotion_rank(color)),
    ensures
        arrival_moves(from, to, promote).no_duplicates(),
        forall|m: Move|
            arrival_moves(from, to, promote).contains(m) <==> (m.to == to && pawn_arrival(
                m,
                from,
                color,
                to_rank,
            )),
{
    let s = arrival_moves(from, to, promote);
    assert forall|m: Move| s.contains(m) <==> (m.to == to && pawn_arrival(m, from, color, to_rank)) by {
        if m.to == to && pawn_arrival(m, from, color, to_rank) {
            if promote {
                let k = m.promotion->0;
                if k == PieceType::Queen {
                    assert(s[0] == m);
                } else if k == PieceType::Rook {
                    assert(s[1] == m);
                } else if k == PieceType::Bishop {
                    assert(s[2] == m);
                } else {
                    assert(s[3] == m);
                }
            } else {
                assert(s[0] == m);
            }
        }
    }
}

/// A pawn's pushes in the order they are listed: one step (as its promotions on the
/// last rank), then the double step from the start rank.
pub open spec fn pawn_forward_list(s: GameState, from: int, color: Color) -> Seq<Move> {
    let b = s.board@;
    let f = file(from);
    let r = rank(from);
    let r1 = r + pawn_dir(color);
    let r2 = r1 + pawn_dir(color);
    if on_board(f, r1) && b[sq_of(f, r1)] is None {
        arrival_moves(from, sq_of(f, r1), r1 == promotion_rank(color)) + if r == pawn_start_rank(color)
            && b[sq_of(f, r2)] is None {
            seq![plain_move(from, sq_of(f, r2))]
        } else {
            Seq::empty()
        }
    } else {
        Seq::empty()
    }
}

/// A pawn's capture one file to the side (`df`), as listed: a capture (its promotions on
/// the last rank) or an en passant capture.
pub open spec fn pawn_diagonal_list(s: GameState, from: int, color: Color, df: int) -> Seq<Move> {
    let b = s.board@;
    let f = file(from) + df;
    let r1 = rank(from) + pawn_dir(color);
    let to = sq_of(f, r1);
    if on_board(f, r1) {
        match b[to] {
            Some(c) => if c.color != color {
                arrival_moves(from, to, r1 == promotion_rank(color))
            } else {
                Seq::empty()
            },
            None => if s.en_passant == Some(to as usize) {
                seq![Move { from: from as usize, to: to as usize, promotion: None, is_en_passant: true, is_castling: false }]
            } else {
                Seq::empty()
            },
        }
    } else {
        Seq::empty()
    }
}

/// A pawn's moves as listed: pushes, then the capture to the left, then to the right.
pub open spec fn pawn_list(s: GameState, from: int, color: Color) -> Seq<Move> {
    pawn_forward_list(s, from, color) + pawn_diagonal_list(s, from, color, -1) + pawn_diagonal_list(s, from, color, 1)
}

fn gen_pawn_forward(state: &GameState, from: usize, out: &mut Vec<Move>)
    requires
        from < 64,
        state.board@[from as int] is Some,
    ensures
        extends_with(
            old(out)@,
            final(out)@,
            |m: Move| pawn_forward(*state, from as int, state.board@[from as int]->0.color, m),
        ),
        final(out)@ == old(out)@ + pawn_forward_list(*state, from as int, state.board@[from as int]->0.color),
{
    let ghost b = state.board@;
    let ghost start = out@;
    let piece = state.board[from].unwrap();
    let ghost color = piece.color;
    let dir: isize = if piece.color == Color::White { 1 } else { -1 };
    let start_rank: usize = if piece.color == Color::White { 1 } else { 6 };
    let promotion_rank: usize = if piece.color == Color::White { 7 } else { 0 };
    let file = file_of(from) as isize;
    let rank = rank_of(from) as isize;
    let one_step_rank = rank + dir;
    if 0 <= one_step_rank && one_step_rank < 8 {
        let to = square(file as usize, one_step_rank as usize);
        if state.board[to].is_none() {
            let promote = one_step_rank as usize == promotion_rank;
            push_arrivals(out, from, to, promote);
            proof {
                lemma_arrival_moves(from as int, to as int, promote, color, one_step_rank as int);
            }
            let ghost mid = out@;
            if rank as usize == start_rank {
                let two_step_rank = rank + 2 * dir;
                let two_step = square(file as usize, two_step_rank as usize);
                if state.board[two_step].is_none() {
                    let mv = Move::new(from, two_step);
                    out.push(mv);
                    proof {
                        let added = arrival_moves(from as int, to as int, promote);
                        assert(!added.contains(mv));
                        lemma_push_fresh(added, mv);
                        assert(out@ == start + added.push(mv));
                        assert(out@.subrange(0, start.len() as int) =~= start);
                        assert(out@.subrange(start.len() as int, out@.len() as int) =~= added.push(mv));
                    }
                    return;
                }
            }
            proof {
                assert(out@.subrange(0, start.len() as int) =~= start);
                assert(out@.subrange(start.len() as int, out@.len() as int) =~= arrival_moves(from as int, to as int, promote));
            }
            return;
        }
    }
    proof {
        lemma_extends_nothing(start, |m: Move| pawn_forward(*state, from as int, color, m));
    }
}

fn gen_pawn_diagonal(state: &GameState, from: usize, df: isize, out: &mut Vec<Move>)
    requires
        from < 64,
        state.board@[from as int] is Some,
        df == 1 || df == -1,
    ensures
        extends_with(
            old(out)@,
            final(out)@,
            |m: Move| pawn_diagonal(*state, from as int, state.board@[from as int]->0.color, df as int, m),
        ),
        final(out)@ == old(out)@ + pawn_diagonal_list(*state, from as int, state.board@[from as int]->0.color, df as int),
{
    let ghost b = state.board@;
    let ghost start = out@;
    let piece = state.board[from].unwrap();
    let ghost color = piece.color;
    let dir: isize = if piece.color == Color::White { 1 } else { -1 };
    let promotion_rank: usize = if piece.color == Color::White { 7 } else { 0 };
    let file = file_of(from) as isize;
    let rank = rank_of(from) as isize;
    let target_file = file + df;
    let target_rank = rank + dir;
    if 0 <= target_file && target_file < 8 && 0 <= target_rank && target_rank < 8 {
        let to = square(target_file as usize, target_rank as usize);
        if let Some(capture) = state.board[to] {
            if capture.color != piece.color {
                let promote = target_rank as usize == promotion_rank;
                push_arrivals(out, from, to, promote);
                proof {
                    lemma_arrival_moves(from as int, to as int, promote, color, target_rank as int);
                    assert(out@.subrange(0, start.len() as int) =~= start);
                    assert(out@.subrange(start.len() as int, out@.len() as int) =~= arrival_moves(from as int, to as int, promote));
                }
                return;
            }
        } else if state.en_passant == Some(to) {
            let mv = Move { is_en_passant: true, ..Move::new(from, to) };
            out.push(mv);
            proof {
                assert(out@.subrange(0, start.len() as int) =~= start);
                assert(out@.subrange(start.len() as int, out@.len() as int) =~= seq![mv]);
            }
            return;
        }
    }
    proof {
        lemma_extends_nothing(start, |m: Move| pawn_diagonal(*state, from as int, color, df as int, m));
    }
}

fn gen_pawn_moves(state: &GameState, from: usize, out: &mut Vec<Move>)
    requires
        from < 64,
        state.board@[from as int] is Some,
    ensures
        extends_with(
            old(out)@,
            final(out)@,
            |m: Move| pawn_move(*state, from as int, state.board@[from as int]->0.color, m),
        ),
        final(out)@ == old(out)@ + pawn_list(*state, from as int, state.board@[from as int]->0.color),
{
    let ghost color = state.board@[from as int]->0.color;
    let ghost s0 = out@;
    gen_pawn_forward(state, from, out);
    let ghost s1 = out@;
    gen_pawn_diagonal(state, from, -1, out);
    let ghost s2 = out@;
    proof {
        let p = |m: Move| pawn_forward(*state, from as int, color, m);
        let q = |m: Move| pawn_diagonal(*state, from as int, color, -1, m);
        lemma_extends_chain(s0, s1, s2, p, q);
    }
    gen_pawn_diagonal(state, from, 1, out);
    proof {
        let p = |m: Move| pawn_forward(*state, from as int, color, m) || pawn_diagonal(*state, from as int, color, -1, m);
        let q = |m: Move| pawn_diagonal(*state, from as int, color, 1, m);
        lemma_extends_chain(s0, s2, out@, p, q);
        assert(extends_with(s0, out@, |m: Move| p(m) || q(m)));
        assert forall|m: Move| (p(m) || q(m)) == pawn_move(*state, from as int, color, m) by {}
        assert((|m: Move| p(m) || q(m)) =~= (|m: Move| pawn_move(*state, from as int, color, m)));
        assert(out@ =~= s0 + pawn_list(*state, from as int, color));
    }
}

/// The castling move of the king on `from` to `to`.
pub open spec fn castling_to(from: int, to: int) -> Move {
    Move { from: from as usize, to: to as usize, promotion: None, is_en_passant: false, is_castling: true }
}

/// The castling moves of `piece` on `from` as listed: king side, then queen side, each
/// when the right is held and the squares between are empty.
pub open spec fn castle_list(s: GameState, from: int, piece: Piece) -> Seq<Move> {
    let b = s.board@;
    if piece.kind != PieceType::King {
        Seq::empty()
    } else {
        let (king_side, queen_side, ks_to, qs_to) = match piece.color {
            Color::White => (
                s.castling.white_king_side && b[5] is None && b[6] is None,
                s.castling.white_queen_side && b[1] is None && b[2] is None && b[3] is None,
                6int,
                2int,
            ),
            Color::Black => (
                s.castling.black_king_side && b[61] is None && b[62] is None,
                s.castling.black_queen_side && b[57] is None && b[58] is None && b[59] is None,
                62int,
                58int,
            ),
        };
        (if king_side { seq![castling_to(from, ks_to)] } else { Seq::empty() }) + (if queen_side {
            seq![castling_to(from, qs_to)]
        } else {
            Seq::empty()
        })
    }
}

fn gen_castling_moves(state: &GameState, from: usize, out: &mut Vec<Move>)
    requires
        from < 64,
        state.board@[from as int] is Some,
    ensures
        extends_with(
            old(out)@,
            final(out)@,
            |m: Move|
                state.board@[from as int]->0.kind == PieceType::King && castle_move(
                    *state,
                    from as int,
                    state.board@[from as int]->0.color,
                    m,
                ),
        ),
        final(out)@ == old(out)@ + castle_list(*state, from as int, state.board@[from as int]->0),
{
    let ghost start = out@;
    let piece = state.board[from].unwrap();
    let ghost p = |m: Move| piece.kind == PieceType::King && castle_move(*state, from as int, piece.color, m);
    if piece.kind != PieceType::King {
        proof {
            lemma_extends_nothing(start, p);
            assert(out@ =~= start + castle_list(*state, from as int, piece));
        }
        return;
    }
    let ghost mut added: Seq<Move> = Seq::empty();
    let (king_side, queen_side, ks_to, qs_to) = match piece.color {
        Color::White => (
            state.castling.white_king_side && state.board[5].is_none() && state.board[6].is_none(),
            state.castling.white_queen_side && state.board[1].is_none() && state.board[2].is_none()
                && state.board[3].is_none(),
            6usize,
            2usize,
        ),
        Color::Black => (
            state.castling.black_king_side && state.board[61].is_none()
                && state.board[62].is_none(),
            state.castling.black_queen_side && state.board[57].is_none()
                && state.board[58].is_none() && state.board[59].is_none(),
            62usize,
            58usize,
        ),
    };
    if king_side {
        let mv = Move { is_castling: true, ..Move::new(from, ks_to) };
        out.push(mv);
        proof {
            added = added.push(mv);
        }
    }
    if queen_side {
        let mv = Move { is_castling: true, ..Move::new(from, qs_to) };
        out.push(mv);
        proof {
            lemma_push_fresh(added, mv);
            added = added.push(mv);
        }
    }
    proof {
        assert(added =~= castle_list(*state, from as int, piece));
        assert(out@.subrange(0, start.len() as int) =~= start);
        assert(out@.subrange(start.len() as int, out@.len() as int) =~= added);
        assert forall|m: Move| added.contains(m) <==> p(m) by {
            if p(m) {
                if m.to == ks_to {
                    assert(added[0] == m);
                } else {
                    assert(added[added.len() - 1] == m);
                }
            }
        }
    }
}

/// `m` moves from `from` along (`df`, `dr`) to a square before step `limit` that is
/// reached over empty squares and open to `color`.
pub open spec fn slide_upto(
    b: Seq<Option<Piece>>,
    from: int,
    color: Color,
    df: int,
    dr: int,
    limit: int,
    m: Move,
) -> bool {
    &&& m == plain_move(from, m.to as int)
    &&& open_to(b, m.to as int, color)
    &&& exists|j: int|
        #![trigger ray_sq(from, df, dr, j)]
        1 <= j < limit && ray_on(from, df, dr, j) && ray_sq(from, df, dr, j) == m.to
            && ray_clear(b, from, df, dr, j)
}

/// `m` moves from `from` along (`df`, `dr`) as a sliding piece of `color` may.
pub open spec fn slide_via(b: Seq<Option<Piece>>, from: int, color: Color, df: int, dr: int, m: Move) -> bool {
    &&& m == plain_move(from, m.to as int)
    &&& open_to(b, m.to as int, color)
    &&& ray_reaches(b, from, df, dr, m.to as int)
}

pub proof fn lemma_ray_monotone(from: int, df: int, dr: int, k: int, j: int)
    requires
        0 <= from < 64,
        unit_dir(df, dr),
        1 <= k <= j,
        ray_on(from, df, dr, j),
    ensures
        ray_on(from, df, dr, k),
{
}

proof fn lemma_ray_injective(from: int, df: int, dr: int, k: int, j: int)
    requires
        0 <= from < 64,
        unit_dir(df, dr),
        1 <= k,
        1 <= j,
        ray_on(from, df, dr, j),
        ray_on(from, df, dr, k),
        ray_sq(from, df, dr, k) == ray_sq(from, df, dr, j),
    ensures
        k == j,
{
}

proof fn lemma_rays_disjoint(from: int, df: int, dr: int, df2: int, dr2: int, k: int, j: int)
    requires
        0 <= from < 64,
        unit_dir(df, dr),
        unit_dir(df2, dr2),
        1 <= k,
        1 <= j,
        ray_on(from, df, dr, k),
        ray_on(from, df2, dr2, j),
        ray_sq(from, df, dr, k) == ray_sq(from, df2, dr2, j),
    ensures
        df == df2 && dr == dr2,
{
}

/// The moves along (`df`, `dr`) from step `k` on, as listed: each empty square, then the
/// first occupied one if it holds an opposing piece.
pub open spec fn ray_from(b: Seq<Option<Piece>>, from: int, color: Color, df: int, dr: int, k: int) -> Seq<Move>
    decreases 9 - k,
{
    if k >= 9 || k < 1 || !ray_on(from, df, dr, k) {
        Seq::empty()
    } else {
        let to = ray_sq(from, df, dr, k);
        match b[to] {
            None => seq![plain_move(from, to)] + ray_from(b, from, color, df, dr, k + 1),
            Some(t) => if t.color != color {
                seq![plain_move(from, to)]
            } else {
                Seq::empty()
            },
        }
    }
}

/// The moves of a sliding piece along the first `n` directions of `dirs`, as listed.
pub open spec fn slide_list(b: Seq<Option<Piece>>, from: int, color: Color, dirs: Seq<(isize, isize)>, n: int) -> Seq<Move>
    decreases n,
{
    if n <= 0 {
        Seq::empty()
    } else {
        slide_list(b, from, color, dirs, n - 1) + ray_from(b, from, color, dirs[n - 1].0 as int, dirs[n - 1].1 as int, 1)
    }
}

fn gen_ray(state: &GameState, from: usize, df: isize, dr: isize, out: &mut Vec<Move>)
    requires
        from < 64,
        state.board@[from as int] is Some,
        unit_dir(df as int, dr as int),
    ensures
        extends_with(
            old(out)@,
            final(out)@,
            |m: Move| slide_via(state.board@, from as int, state.board@[from as int]->0.color, df as int, dr as int, m),
        ),
        final(out)@ == old(out)@ + ray_from(state.board@, from as int, state.board@[from as int]->0.color, df as int, dr as int, 1),
{
    let ghost b = state.board@;
    let ghost start = out@;
    let piece = state.board[from].unwrap();
    let ghost color = piece.color;
    let file = file_of(from) as isize;
    let rank = rank_of(from) as isize;
    let mut tf = file + df;
    let mut tr = rank + dr;
    let mut k: usize = 1;
    let mut blocked = false;
    let ghost mut added: Seq<Move> = Seq::empty();
    while !blocked && 0 <= tf && tf < 8 && 0 <= tr && tr < 8
        invariant
            from < 64,
            b == state.board@,
            color == piece.color,
            piece == state.board@[from as int]->0,
            unit_dir(df as int, dr as int),
            file == from % 8,
            rank == from / 8,
            1 <= k <= 9,
            tf == file + scale(k as int, df as int),
            tr == rank + scale(k as int, dr as int),
            ray_clear(b, from as int, df as int, dr as int, k as int),
            blocked ==> ray_on(from as int, df as int, dr as int, k as int) && b[ray_sq(from as int, df as int, dr as int, k as int)] is Some,
            out@ == start + added,
            blocked ==> added == ray_from(b, from as int, color, df as int, dr as int, 1),
            !blocked ==> added + ray_from(b, from as int, color, df as int, dr as int, k as int) == ray_from(
                b,
                from as int,
                color,
                df as int,
                dr as int,
                1,
            ),
            added.no_duplicates(),
            forall|m: Move|
                added.contains(m) <==> slide_upto(b, from as int, color, df as int, dr as int, if blocked { k + 1 } else { k as int }, m),
        decreases 9 - k, if blocked { 0int } else { 1int },
    {
        let to = square(tf as usize, tr as usize);
        let ghost old_added = added;
        if let Some(target) = state.board[to] {
            if target.color != piece.color {
                let mv = Move::new(from, to);
                proof {
                    assert(!added.contains(mv)) by {
                        if added.contains(mv) {
                            let j = choose|j: int| #![trigger ray_sq(from as int, df as int, dr as int, j)]
                                1 <= j < k && ray_on(from as int, df as int, dr as int, j) && ray_sq(from as int, df as int, dr as int, j) == mv.to
                                    && ray_clear(b, from as int, df as int, dr as int, j);
                            lemma_ray_injective(from as int, df as int, dr as int, k as int, j);
                        }
                    }
                    lemma_push_fresh(added, mv);
                    added = added.push(mv);
                }
                out.push(mv);
            }
            blocked = true;
            proof {
                assert(ray_sq(from as int, df as int, dr as int, k as int) == to);
                assert(added =~= old_added + ray_from(b, from as int, color, df as int, dr as int, k as int));
                assert forall|m: Move| added.contains(m) <==> slide_upto(b, from as int, color, df as int, dr as int, k + 1, m) by {
                    if slide_upto(b, from as int, color, df as int, dr as int, k + 1, m) {
                        let j = choose|j: int| #![trigger ray_sq(from as int, df as int, dr as int, j)]
                            1 <= j < k + 1 && ray_on(from as int, df as int, dr as int, j) && ray_sq(from as int, df as int, dr as int, j) == m.to
                                && ray_clear(b, from as int, df as int, dr as int, j);
                        if j < k {
                            assert(slide_upto(b, from as int, color, df as int, dr as int, k as int, m));
                            assert(old_added.contains(m));
                        }
                    }
                    if old_added.contains(m) {
                        assert(slide_upto(b, from as int, color, df as int, dr as int, k as int, m));
                        let j = choose|j: int| #![trigger ray_sq(from as int, df as int, dr as int, j)]
                            1 <= j < k && ray_on(from as int, df as int, dr as int, j) && ray_sq(from as int, df as int, dr as int, j) == m.to
                                && ray_clear(b, from as int, df as int, dr as int, j);
                        assert(slide_upto(b, from as int, color, df as int, dr as int, k + 1, m));
                    }
                }
            }
        } else {
            let mv = Move::new(from, to);
            proof {
                assert(!added.contains(mv)) by {
                    if added.contains(mv) {
                        let j = choose|j: int| #![trigger ray_sq(from as int, df as int, dr as int, j)]
                            1 <= j < k && ray_on(from as int, df as int, dr as int, j) && ray_sq(from as int, df as int, dr as int, j) == mv.to
                                && ray_clear(b, from as int, df as int, dr as int, j);
                        lemma_ray_injective(from as int, df as int, dr as int, k as int, j);
                    }
                }
                lemma_push_fresh(added, mv);
                added = added.push(mv);
            }
            out.push(mv);
            tf += df;
            tr += dr;
            k += 1;
            proof {
                assert(ray_sq(from as int, df as int, dr as int, k - 1) == to);
                assert(ray_from(b, from as int, color, df as int, dr as int, k - 1) == seq![mv] + ray_from(
                    b,
                    from as int,
                    color,
                    df as int,
                    dr as int,
                    k as int,
                ));
                assert(added + ray_from(b, from as int, color, df as int, dr as int, k as int) =~= old_added
                    + ray_from(b, from as int, color, df as int, dr as int, k - 1));
                assert forall|j: int| 1 <= j < k implies (#[trigger] b[ray_sq(from as int, df as int, dr as int, j)]) is None by {
                    if j < k - 1 {
                        assert(ray_clear(b, from as int, df as int, dr as int, (k - 1) as int));
                    }
                }
                assert forall|m: Move| added.contains(m) <==> slide_upto(b, from as int, color, df as int, dr as int, k as int, m) by {
                    if slide_upto(b, from as int, color, df as int, dr as int, k as int, m) {
                        let j = choose|j: int| #![trigger ray_sq(from as int, df as int, dr as int, j)]
                            1 <= j < k && ray_on(from as int, df as int, dr as int, j) && ray_sq(from as int, df as int, dr as int, j) == m.to
                                && ray_clear(b, from as int, df as int, dr as int, j);
                        if j < k - 1 {
                            assert(slide_upto(b, from as int, color, df as int, dr as int, k - 1, m));
                            assert(old_added.contains(m));
                        }
                    }
                    if old_added.contains(m) {
                        assert(slide_upto(b, from as int, color, df as int, dr as int, k - 1, m));
                        let j = choose|j: int| #![trigger ray_sq(from as int, df as int, dr as int, j)]
                            1 <= j < k - 1 && ray_on(from as int, df as int, dr as int, j) && ray_sq(from as int, df as int, dr as int, j) == m.to
                                && ray_clear(b, from as int, df as int, dr as int, j);
                        assert(slide_upto(b, from as int, color, df as int, dr as int, k as int, m));
                    }
                    if m == mv {
                        assert(ray_sq(from as int, df as int, dr as int, k - 1) == m.to);
                        assert(slide_upto(b, from as int, color, df as int, dr as int, k as int, m));
                    }
                }
            }
        }
    }
    proof {
        if !blocked {
            assert(!ray_on(from as int, df as int, dr as int, k as int));
            assert(added + ray_from(b, from as int, color, df as int, dr as int, k as int) =~= added);
        }
        let limit = if blocked { k + 1 } else { k as int };
        assert(out@.subrange(0, start.len() as int) =~= start);
        assert(out@.subrange(start.len() as int, out@.len() as int) =~= added);
        assert forall|m: Move| added.contains(m) <==> slide_via(b, from as int, color, df as int, dr as int, m) by {
            if slide_via(b, from as int, color, df as int, dr as int, m) {
                let j = choose|j: int| #![trigger ray_sq(from as int, df as int, dr as int, j)]
                    1 <= j && ray_on(from as int, df as int, dr as int, j) && ray_sq(from as int, df as int, dr as int, j) == m.to
                        && ray_clear(b, from as int, df as int, dr as int, j);
                if !blocked && j >= k {
                    lemma_ray_monotone(from as int, df as int, dr as int, k as int, j);
                }
                if blocked && j > k {
                    assert(b[ray_sq(from as int, df as int, dr as int, k as int)] is None);
                }
                assert(slide_upto(b, from as int, color, df as int, dr as int, limit, m));
            }
            if added.contains(m) {
                let j = choose|j: int| #![trigger ray_sq(from as int, df as int, dr as int, j)]
                    1 <= j < limit && ray_on(from as int, df as int, dr as int, j) && ray_sq(from as int, df as int, dr as int, j) == m.to
                        && ray_clear(b, from as int, df as int, dr as int, j);
                assert(ray_reaches(b, from as int, df as int, dr as int, m.to as int));
            }
        }
    }
}

/// `m` slides from `from` along one of the first `n` directions of `dirs`.
pub open spec fn slide_any(
    b: Seq<Option<Piece>>,
    from: int,
    color: Color,
    dirs: Seq<(isize, isize)>,
    n: int,
    m: Move,
) -> bool {
    exists|i: int|
        #![trigger dirs[i]]
        0 <= i < n && slide_via(b, from, color, dirs[i].0 as int, dirs[i].1 as int, m)
}

fn gen_sliding_moves(
    state: &GameState,
    from: usize,
    out: &mut Vec<Move>,
    directions: &[(isize, isize)],
)
    requires
        from < 64,
        state.board@[from as int] is Some,
        forall|i: int| 0 <= i < directions@.len() ==> unit_dir(#[trigger] directions@[i].0 as int, directions@[i].1 as int),
        directions@.no_duplicates(),
    ensures
        extends_with(
            old(out)@,
            final(out)@,
            |m: Move|
                slide_any(
                    state.board@,
                    from as int,
                    state.board@[from as int]->0.color,
                    directions@,
                    directions@.len() as int,
                    m,
                ),
        ),
        final(out)@ == old(out)@ + slide_list(
            state.board@,
            from as int,
            state.board@[from as int]->0.color,
            directions@,
            directions@.len() as int,
        ),
{
    let ghost b = state.board@;
    let ghost color = state.board@[from as int]->0.color;
    let ghost dirs = directions@;
    let ghost start = out@;
    proof {
        lemma_extends_nothing(start, |m: Move| slide_any(b, from as int, color, dirs, 0, m));
    }
    let mut i: usize = 0;
    while i < directions.len()
        invariant
            from < 64,
            b == state.board@,
            state.board@[from as int] is Some,
            color == state.board@[from as int]->0.color,
            dirs == directions@,
            forall|i: int| 0 <= i < dirs.len() ==> unit_dir(#[trigger] dirs[i].0 as int, dirs[i].1 as int),
            dirs.no_duplicates(),
            i <= dirs.len(),
            extends_with(start, out@, |m: Move| slide_any(b, from as int, color, dirs, i as int, m)),
            out@ == start + slide_list(b, from as int, color, dirs, i as int),
        decreases dirs.len() - i,
    {
        let (df, dr) = directions[i];
        let ghost mid = out@;
        gen_ray(state, from, df, dr, out);
        proof {
            assert(out@ =~= start + slide_list(b, from as int, color, dirs, i + 1));
            let p = |m: Move| slide_any(b, from as int, color, dirs, i as int, m);
            let q = |m: Move| slide_via(b, from as int, color, df as int, dr as int, m);
            assert forall|m: Move| #[trigger] p(m) implies !q(m) by {
                let j = choose|j: int| #![trigger dirs[j]] 0 <= j < i && slide_via(b, from as int, color, dirs[j].0 as int, dirs[j].1 as int, m);
                if q(m) {
                    let k1 = choose|k: int| #![trigger ray_sq(from as int, df as int, dr as int, k)]
                        1 <= k && ray_on(from as int, df as int, dr as int, k) && ray_sq(from as int, df as int, dr as int, k) == m.to
                            && ray_clear(b, from as int, df as int, dr as int, k);
                    let (a, c) = (dirs[j].0 as int, dirs[j].1 as int);
                    let k2 = choose|k: int| #![trigger ray_sq(from as int, a, c, k)]
                        1 <= k && ray_on(from as int, a, c, k) && ray_sq(from as int, a, c, k) == m.to
                            && ray_clear(b, from as int, a, c, k);
                    lemma_rays_disjoint(from as int, df as int, dr as int, a, c, k1, k2);
                    assert(dirs[j] == dirs[i as int]);
                }
            }
            lemma_extends_chain(start, mid, out@, p, q);
            assert forall|m: Move| (p(m) || q(m)) == #[trigger] slide_any(b, from as int, color, dirs, i + 1, m) by {
                if q(m) {
                    assert(slide_via(b, from as int, color, dirs[i as int].0 as int, dirs[i as int].1 as int, m));
                }
                if slide_any(b, from as int, color, dirs, i + 1, m) {
                    let j = choose|j: int| #![trigger dirs[j]] 0 <= j < i + 1 && slide_via(b, from as int, color, dirs[j].0 as int, dirs[j].1 as int, m);
                    if j < i {
                        assert(p(m));
                    }
                }
            }
            assert((|m: Move| p(m) || q(m)) =~= (|m: Move| slide_any(b, from as int, color, dirs, i + 1, m)));
        }
        i += 1;
    }
}

pub open spec fn diagonal_dirs() -> Seq<(isize, isize)> {
    seq![(1isize, 1isize), (1isize, -1isize), (-1isize, 1isize), (-1isize, -1isize)]
}

pub open spec fn straight_dirs() -> Seq<(isize, isize)> {
    seq![(1isize, 0isize), (-1isize, 0isize), (0isize, 1isize), (0isize, -1isize)]
}

pub open spec fn queen_dirs() -> Seq<(isize, isize)> {
    diagonal_dirs() + straight_dirs()
}

proof fn lemma_slide_dirs(b: Seq<Option<Piece>>, from: int, color: Color, kind: PieceType, dirs: Seq<(isize, isize)>, m: Move)
    requires
        kind == PieceType::Bishop ==> dirs == diagonal_dirs(),
        kind == PieceType::Rook ==> dirs == straight_dirs(),
        kind == PieceType::Queen ==> dirs == queen_dirs(),
        kind == PieceType::Bishop || kind == PieceType::Rook || kind == PieceType::Queen,
    ensures
        forall|i: int| 0 <= i < dirs.len() ==> unit_dir(#[trigger] dirs[i].0 as int, dirs[i].1 as int),
        dirs.no_duplicates(),
        slide_any(b, from, color, dirs, dirs.len() as int, m) == slide_move(b, from, color, kind, m),
{
    if slide_move(b, from, color, kind, m) {
        let (df, dr) = choose|df: int, dr: int| slides_along(kind, df, dr) && ray_reaches(b, from, df, dr, m.to as int);
        let d = (df as isize, dr as isize);
        let i: int = if kind == PieceType::Rook {
            if df == 1 { 0 } else if df == -1 { 1 } else if dr == 1 { 2 } else { 3 }
        } else {
            let base: int = if df == 1 && dr == 1 { 0 } else if df == 1 && dr == -1 { 1 } else if df == -1 && dr == 1 { 2 } else if df == -1 && dr == -1 { 3 }
                else if df == 1 { 4 } else if df == -1 { 5 } else if dr == 1 { 6 } else { 7 };
            base
        };
        assert(dirs[i].0 == df && dirs[i].1 == dr);
        assert(slide_any(b, from, color, dirs, dirs.len() as int, m));
    }
    if slide_any(b, from, color, dirs, dirs.len() as int, m) {
        let i = choose|i: int| #![trigger dirs[i]] 0 <= i < dirs.len() && slide_via(b, from, color, dirs[i].0 as int, dirs[i].1 as int, m);
        assert(slides_along(kind, dirs[i].0 as int, dirs[i].1 as int));
    }
}

/// Among the moves from one square, the castling moves come last.
pub open spec fn castles_last(moves: Seq<Move>) -> bool {
    forall|i: int, j: int|
        0 <= i < j < moves.len() && (#[trigger] moves[i]).from == (#[trigger] moves[j]).from
            && moves[i].is_castling ==> moves[j].is_castling
}

/// The moves of `s` made by the piece on `from`, found in the part `lo..hi` of `after`,
/// and from no other square; with castling moves exactly from `split` on.
proof fn lemma_square_block(
    s: GameState,
    after: Seq<Move>,
    lo: int,
    split: int,
    hi: int,
    from: int,
)
    requires
        0 <= lo <= split <= hi <= after.len(),
        forall|k: int| lo <= k < hi ==> pseudo_legal(s, #[trigger] after[k]) && after[k].from == from,
        forall|k: int| lo <= k < split ==> !(#[trigger] after[k]).is_castling,
        forall|k: int| split <= k < hi ==> (#[trigger] after[k]).is_castling,
        castles_last(after.subrange(0, lo)),
        forall|k: int| 0 <= k < lo ==> (#[trigger] after[k]).from < from,
        hi == after.len(),
    ensures
        castles_last(after),
{
    assert forall|i: int, j: int|
        0 <= i < j < after.len() && (#[trigger] after[i]).from == (#[trigger] after[j]).from
            && after[i].is_castling implies after[j].is_castling by {
        if j < lo {
            assert(after.subrange(0, lo)[i] == after[i]);
            assert(after.subrange(0, lo)[j] == after[j]);
        }
    }
}

/// The moves of the piece on `sq`, as listed, when it belongs to the side to move.
pub open spec fn square_list(s: GameState, sq: int) -> Seq<Move> {
    let b = s.board@;
    match b[sq] {
        Some(piece) => if piece.color == s.side_to_move {
            match piece.kind {
                PieceType::Pawn => pawn_list(s, sq, piece.color),
                PieceType::Knight => jump_list(b, sq, piece.color, knight_offsets(), 8),
                PieceType::Bishop => slide_list(b, sq, piece.color, diagonal_dirs(), 4),
                PieceType::Rook => slide_list(b, sq, piece.color, straight_dirs(), 4),
                PieceType::Queen => slide_list(b, sq, piece.color, queen_dirs(), 8),
                PieceType::King => jump_list(b, sq, piece.color, king_offsets(), 8) + castle_list(s, sq, piece),
            }
        } else {
            Seq::empty()
        },
        None => Seq::empty(),
    }
}

/// The moves from the first `n` squares, square by square.
pub open spec fn pseudo_list_upto(s: GameState, n: int) -> Seq<Move>
    decreases n,
{
    if n <= 0 {
        Seq::empty()
    } else {
        pseudo_list_upto(s, n - 1) + square_list(s, n - 1)
    }
}

/// The pseudo-legal moves of `s` in the order they are listed: by origin square, and for
/// each piece in the order its movement rule tries its targets.
pub open spec fn pseudo_list(s: GameState) -> Seq<Move> {
    pseudo_list_upto(s, 64)
}

#[verifier::rlimit(40)]
pub fn generate_pseudo_legal_moves(state: &GameState) -> (moves: Vec<Move>)
    ensures
        moves@.no_duplicates(),
        forall|m: Move| #[trigger] moves@.contains(m) <==> pseudo_legal(*state, m),
        castles_last(moves@),
        moves@ == pseudo_list(*state),
{
    let mut moves: Vec<Move> = Vec::with_capacity(64);
    let ghost empty = moves@;
    proof {
        lemma_extends_nothing(empty, |m: Move| pseudo_legal(*state, m) && m.from < 0);
    }
    let mut sq: usize = 0;
    while sq < 64
        invariant
            sq <= 64,
            empty == Seq::<Move>::empty(),
            extends_with(empty, moves@, |m: Move| pseudo_legal(*state, m) && m.from < sq),
            castles_last(moves@),
            forall|k: int| 0 <= k < moves@.len() ==> (#[trigger] moves@[k]).from < sq,
            moves@ == pseudo_list_upto(*state, sq as int),
        decreases 64 - sq,
    {
        let ghost before = moves@;
        let ghost mut split: int = 0;
        let ghost this_sq = |m: Move| pseudo_legal(*state, m) && m.from == sq;
        if let Some(piece) = state.board[sq] {
            if piece.color == state.side_to_move {
                match piece.kind {
                    PieceType::Pawn => gen_pawn_moves(state, sq, &mut moves),
                    PieceType::Knight => gen_knight_moves(state, sq, &mut moves),
                    PieceType::Bishop => {
                        let dirs: [(isize, isize); 4] = [(1, 1), (1, -1), (-1, 1), (-1, -1)];
                        proof {
                            assert(dirs@ == diagonal_dirs());
                            lemma_slide_dirs(state.board@, sq as int, piece.color, piece.kind, dirs@, plain_move(0, 0));
                        }
                        gen_sliding_moves(state, sq, &mut moves, &dirs);
                        proof {
                            assert forall|m: Move| slide_any(state.board@, sq as int, piece.color, dirs@, 4, m) == #[trigger] this_sq(m) by {
                                lemma_slide_dirs(state.board@, sq as int, piece.color, piece.kind, dirs@, m);
                            }
                            assert((|m: Move| slide_any(state.board@, sq as int, piece.color, dirs@, dirs@.len() as int, m)) =~= this_sq);
                        }
                    },
                    PieceType::Rook => {
                        let dirs: [(isize, isize); 4] = [(1, 0), (-1, 0), (0, 1), (0, -1)];
                        proof {
                            assert(dirs@ == straight_dirs());
                            lemma_slide_dirs(state.board@, sq as int, piece.color, piece.kind, dirs@, plain_move(0, 0));
                        }
                        gen_sliding_moves(state, sq, &mut moves, &dirs);
                        proof {
                            assert forall|m: Move| slide_any(state.board@, sq as int, piece.color, dirs@, 4, m) == #[trigger] this_sq(m) by {
                                lemma_slide_dirs(state.board@, sq as int, piece.color, piece.kind, dirs@, m);
                            }
                            assert((|m: Move| slide_any(state.board@, sq as int, piece.color, dirs@, dirs@.len() as int, m)) =~= this_sq);
                        }
                    },
                    PieceType::Queen => {
                        let dirs: [(isize, isize); 8] = [
                            (1, 1),
                            (1, -1),
                            (-1, 1),
                            (-1, -1),
                            (1, 0),
                            (-1, 0),
                            (0, 1),
                            (0, -1),
                        ];
                        proof {
                            assert(dirs@ =~= queen_dirs());
                            lemma_slide_dirs(state.board@, sq as int, piece.color, piece.kind, dirs@, plain_move(0, 0));
                        }
                        gen_sliding_moves(state, sq, &mut moves, &dirs);
                        proof {
                            assert forall|m: Move| slide_any(state.board@, sq as int, piece.color, dirs@, 8, m) == #[trigger] this_sq(m) by {
                                lemma_slide_dirs(state.board@, sq as int, piece.color, piece.kind, dirs@, m);
                            }
                            assert((|m: Move| slide_any(state.board@, sq as int, piece.color, dirs@, dirs@.len() as int, m)) =~= this_sq);
                        }
                    },
                    PieceType::King => {
                        gen_king_moves(state, sq, &mut moves);
                        let ghost mid = moves@;
                        gen_castling_moves(state, sq, &mut moves);
                        proof {
                            split = mid.len() as int;
                            assert forall|k: int| before.len() <= k < mid.len() implies !(#[trigger] moves@[k]).is_castling by {
                                assert(mid.subrange(before.len() as int, mid.len() as int)[k - before.len()] == moves@[k]);
                                assert(mid.subrange(before.len() as int, mid.len() as int).contains(moves@[k]));
                            }
                            assert forall|k: int| mid.len() <= k < moves@.len() implies (#[trigger] moves@[k]).is_castling by {
                                assert(moves@.subrange(mid.len() as int, moves@.len() as int)[k - mid.len()] == moves@[k]);
                                assert(moves@.subrange(mid.len() as int, moves@.len() as int).contains(moves@[k]));
                            }
                            let p = |m: Move| king_move(state.board@, sq as int, piece.color, m);
                            let q = |m: Move| piece.kind == PieceType::King && castle_move(*state, sq as int, piece.color, m);
                            lemma_extends_chain(before, mid, moves@, p, q);
                            assert((|m: Move| p(m) || q(m)) =~= this_sq);
                        }
                    },
                }
                proof {
                    if piece.kind != PieceType::King {
                        split = moves@.len() as int;
                    }
                    if piece.kind == PieceType::Pawn {
                        assert((|m: Move| pawn_move(*state, sq as int, piece.color, m)) =~= this_sq);
                    }
                    if piece.kind == PieceType::Knight {
                        assert((|m: Move| knight_move(state.board@, sq as int, piece.color, m)) =~= this_sq);
                    }
                }
            } else {
                proof {
                    lemma_extends_nothing(before, this_sq);
                }
            }
        } else {
            proof {
                lemma_extends_nothing(before, this_sq);
            }
        }
        proof {
            assert(moves@ =~= before + square_list(*state, sq as int));
            let p = |m: Move| pseudo_legal(*state, m) && m.from < sq;
            assert forall|m: Move| #[trigger] p(m) implies !this_sq(m) by {}
            lemma_extends_chain(empty, before, moves@, p, this_sq);
            assert((|m: Move| p(m) || this_sq(m)) =~= (|m: Move| pseudo_legal(*state, m) && m.from < sq + 1));
            let lo = before.len() as int;
            let hi = moves@.len() as int;
            if split < lo || split > hi {
                split = hi;
            }
            assert forall|k: int| lo <= k < hi implies pseudo_legal(*state, #[trigger] moves@[k]) && moves@[k].from == sq by {
                assert(moves@.subrange(lo, hi)[k - lo] == moves@[k]);
                assert(moves@.subrange(lo, hi).contains(moves@[k]));
            }
            assert forall|k: int| lo <= k < split implies !(#[trigger] moves@[k]).is_castling by {
                if state.board@[sq as int] is Some && state.board@[sq as int]->0.kind != PieceType::King {
                    assert(pseudo_legal(*state, moves@[k]));
                }
            }
            assert(moves@.subrange(0, lo) =~= before);
            assert forall|k: int| 0 <= k < lo implies (#[trigger] moves@[k]).from < sq by {
                assert(moves@.subrange(0, lo)[k] == moves@[k]);
                assert(before[k].from < sq);
            }
            lemma_square_block(*state, moves@, lo, split, hi, sq as int);
            assert forall|k: int| 0 <= k < moves@.len() implies (#[trigger] moves@[k]).from < sq + 1 by {
                if k >= lo {
                    assert(moves@[k].from == sq);
                }
            }
        }
        sq += 1;
    }
    proof {
        assert(moves@.subrange(0, 0) =~= empty);
        assert(moves@.subrange(0, moves@.len() as int) =~= moves@);
        assert((|m: Move| pseudo_legal(*state, m) && m.from < 64) =~= (|m: Move| pseudo_legal(*state, m)));
    }
    moves
}

/// A pseudo-legal move stays on the board and can be made by `make_move`
/// (given room in the move counter).
pub proof fn lemma_pseudo_legal_in_range(s: GameState, m: Move)
    requires
        pseudo_legal(s, m),
    ensures
        m.to < 64,
        m.is_en_passant ==> crate::engine::game_state::en_passant_victim(s.board@[m.from as int]->0.color, m.to as int) < 64,
        m.is_castling ==> m.to == 2 || m.to == 6 || m.to == 58 || m.to == 62,
{
    let piece = s.board@[m.from as int]->0;
    let from = m.from as int;
    match piece.kind {
        PieceType::Knight => {
            let (df, dr) = choose|df: int, dr: int| knight_jump(df, dr) && leap(from, df, dr, m.to as int);
        },
        PieceType::King => {
            if king_move(s.board@, from, piece.color, m) {
                let (df, dr) = choose|df: int, dr: int| king_step(df, dr) && leap(from, df, dr, m.to as int);
            }
        },
        PieceType::Pawn => {},
        _ => {
            let (df, dr) = choose|df: int, dr: int| slides_along(piece.kind, df, dr) && ray_reaches(s.board@, from, df, dr, m.to as int);
            let k = choose|k: int| #![trigger ray_sq(from, df, dr, k)] 1 <= k && ray_on(from, df, dr, k) && ray_sq(from, df, dr, k) == m.to
                && ray_clear(s.board@, from, df, dr, k);
        },
    }
}

/// Facts about pseudo-legal captures used to bound how long a capture sequence can run.
pub proof fn lemma_capture_facts(s: GameState, m: Move)
    requires
        pseudo_legal(s, m),
    ensures
        m.from != m.to,
        s.board@[m.to as int] is Some ==> !m.is_en_passant && !m.is_castling,
        m.is_en_passant ==> {
            let victim = crate::engine::game_state::en_passant_victim(s.board@[m.from as int]->0.color, m.to as int);
            &&& !m.is_castling
            &&& s.board@[m.to as int] is None
            &&& s.en_passant == Some(m.to)
            &&& victim != m.from
            &&& victim != m.to
            &&& 0 <= victim < 64
        },
        (s.board@[m.to as int] is Some || m.is_en_passant) ==> crate::engine::game_state::en_passant_after(
            crate::engine::game_state::landed_piece(s.board@[m.from as int]->0, m),
            m,
        ) is None,
{
    lemma_pseudo_legal_in_range(s, m);
    let piece = s.board@[m.from as int]->0;
    let from = m.from as int;
    match piece.kind {
        PieceType::Knight => {
            let (df, dr) = choose|df: int, dr: int| knight_jump(df, dr) && leap(from, df, dr, m.to as int);
        },
        PieceType::King => {
            if king_move(s.board@, from, piece.color, m) {
                let (df, dr) = choose|df: int, dr: int| king_step(df, dr) && leap(from, df, dr, m.to as int);
            }
        },
        PieceType::Pawn => {},
        _ => {
            let (df, dr) = choose|df: int, dr: int| slides_along(piece.kind, df, dr) && ray_reaches(s.board@, from, df, dr, m.to as int);
            let k = choose|k: int| #![trigger ray_sq(from, df, dr, k)] 1 <= k && ray_on(from, df, dr, k) && ray_sq(from, df, dr, k) == m.to
                && ray_clear(s.board@, from, df, dr, k);
        },
    }
}

/// Two pseudo-legal moves that agree on from, to, promotion and castling are the same
/// move: an en passant capture shares its squares with no other pawn move.
pub proof fn lemma_move_determined(s: GameState, m1: Move, m2: Move)
    requires
        pseudo_legal(s, m1),
        pseudo_legal(s, m2),
        m1.from == m2.from,
        m1.to == m2.to,
        m1.promotion == m2.promotion,
        m1.is_castling == m2.is_castling,
    ensures
        m1 == m2,
{
    let piece = s.board@[m1.from as int]->0;
    if m1.is_en_passant != m2.is_en_passant {
        let (e, o) = if m1.is_en_passant { (m1, m2) } else { (m2, m1) };
        assert(piece.kind == PieceType::Pawn);
        assert(pawn_move(s, e.from as int, piece.color, e));
        assert(pawn_move(s, o.from as int, piece.color, o));
        assert(s.board@[e.to as int] is None);
    }
}

/// A pseudo-legal move promotes, if at all, to a queen, rook, bishop or knight.
pub proof fn lemma_promotion_choice(s: GameState, m: Move)
    requires
        pseudo_legal(s, m),
    ensures
        m.promotion matches Some(k) ==> promotion_choice(k),
{
}

/// A king on its home square castles two files over, which no plain king step does:
/// every pseudo-legal move with the same squares as such a castling move castles too.
pub proof fn lemma_castling_is_no_king_step(s: GameState, m: Move, w: Move)
    requires
        pseudo_legal(s, m),
        pseudo_legal(s, w),
        m.is_castling,
        m.from == w.from,
        m.to == w.to,
        m.from == 4 || m.from == 60,
    ensures
        w.is_castling,
{
    let piece = s.board@[m.from as int]->0;
    assert(piece.kind == PieceType::King);
    if !w.is_castling {
        assert(king_move(s.board@, m.from as int, piece.color, w));
        let (df, dr) = choose|df: int, dr: int| king_step(df, dr) && leap(m.from as int, df, dr, w.to as int);
    }
}

} // verus!
