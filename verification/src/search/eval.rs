//! Static evaluation: material balance from the side to move's point of view.

use vstd::prelude::*;

use crate::engine::board::{Color, Piece, PieceType};
use crate::engine::game_state::GameState;

verus! {

/// Material value of a piece kind in centipawns.
pub open spec fn material_value(kind: PieceType) -> int {
    match kind {
        PieceType::Pawn => 100,
        PieceType::Knight => 320,
        PieceType::Bishop => 330,
        PieceType::Rook => 500,
        PieceType::Queen => 900,
        PieceType::King => 20000,
    }
}

/// What a square adds to White's material balance.
pub open spec fn square_balance(sq: Option<Piece>) -> int {
    match sq {
        None => 0,
        Some(p) => if p.color == Color::White {
            material_value(p.kind)
        } else {
            -material_value(p.kind)
        },
    }
}

/// White's material minus Black's over the first `n` squares.
pub open spec fn balance_upto(b: Seq<Option<Piece>>, n: int) -> int
    decreases n,
{
    if n <= 0 {
        0
    } else {
        balance_upto(b, n - 1) + square_balance(b[n - 1])
    }
}

/// The evaluation of a board for `side`: the material balance, negated for Black.
pub open spec fn evaluation(b: Seq<Option<Piece>>, side: Color) -> int {
    if side == Color::White {
        balance_upto(b, 64)
    } else {
        -balance_upto(b, 64)
    }
}

/// No evaluation exceeds this in size: 64 squares of kings.
pub open spec fn evaluation_bound() -> int {
    1_280_000
}

pub proof fn lemma_balance_bound(b: Seq<Option<Piece>>, n: int)
    requires
        0 <= n,
    ensures
        -20000 * n <= balance_upto(b, n) <= 20000 * n,
    decreases n,
{
    if n > 0 {
        lemma_balance_bound(b, n - 1);
    }
}

/// Changing one square changes the balance by the difference of what it holds.
pub proof fn lemma_balance_update(b: Seq<Option<Piece>>, n: int, i: int, x: Option<Piece>)
    requires
        0 <= i < b.len(),
        n <= b.len(),
    ensures
        balance_upto(b.update(i, x), n) == balance_upto(b, n) + if i < n {
            square_balance(x) - square_balance(b[i])
        } else {
            0
        },
    decreases n,
{
    if n > 0 {
        lemma_balance_update(b, n - 1, i, x);
    }
}

pub fn evaluate(state: &GameState) -> (r: i32)
    ensures
        r == evaluation(state.board@, state.side_to_move),
        -evaluation_bound() <= r <= evaluation_bound(),
{
    let ghost b = state.board@;
    let mut score: i32 = 0;
    let mut sq: usize = 0;
    while sq < 64
        invariant
            sq <= 64,
            b == state.board@,
            score == balance_upto(b, sq as int),
        decreases 64 - sq,
    {
        proof {
            lemma_balance_bound(b, sq as int);
        }
        if let Some(piece) = state.board[sq] {
            let value = match piece.kind {
                PieceType::Pawn => 100,
                PieceType::Knight => 320,
                PieceType::Bishop => 330,
                PieceType::Rook => 500,
                PieceType::Queen => 900,
                PieceType::King => 20_000,
            };
            if piece.color == Color::White {
                score += value;
            } else {
                score -= value;
            }
        }
        sq += 1;
    }
    proof {
        lemma_balance_bound(b, 64);
    }
    if state.side_to_move == Color::White {
        score
    } else {
        -score
    }
}

/// Law: the evaluation is zero-sum, so the same board scores opposite for the two sides.
pub proof fn law_evaluation_is_zero_sum(b: Seq<Option<Piece>>, side: Color)
    ensures
        evaluation(b, side.other()) == -evaluation(b, side),
{
}

/// Law: putting a piece of the side to move on an empty square raises that side's
/// evaluation by the piece's material value.
pub proof fn law_extra_material_raises_evaluation(
    b: Seq<Option<Piece>>,
    side: Color,
    sq: int,
    kind: PieceType,
)
    requires
        b.len() == 64,
        0 <= sq < 64,
        b[sq] is None,
    ensures
        evaluation(b.update(sq, Some(Piece { color: side, kind })), side) == evaluation(b, side)
            + material_value(kind),
        evaluation(b.update(sq, Some(Piece { color: side, kind })), side) > evaluation(b, side),
{
    lemma_balance_update(b, 64, sq, Some(Piece { color: side, kind }));
}

} // verus!
