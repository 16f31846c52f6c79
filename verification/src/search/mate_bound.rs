//! Why a search without a time limit returns a move: on boards where neither side's
//! material can reach the mate score, every value the search computes lies strictly
//! between the two mate scores, so the first root move always beats the starting bound.

use vstd::prelude::*;

use crate::engine::board::{Color, Move, Piece, PieceType};
use crate::engine::game_state::{
    board_after, castle_rook, castling_after, en_passant_victim, landed_piece, lemma_array_after,
    state_after, CastlingRights, GameState,
};
use crate::engine::game_state::lemma_pieces_bound;
use crate::engine::fen::{lemma_startpos_state, start_board, startpos_state};
use crate::engine::legal::{
    capture_potential, king_attacked, law_capture_shrinks, legal_list, legal_move, lemma_legal_list_legal,
};
use crate::engine::movegen::{lemma_capture_facts, lemma_promotion_choice, lemma_pseudo_legal_in_range, pseudo_legal};
use crate::search::eval::{balance_upto, evaluation};
use crate::search::move_ordering::{lemma_move_order_contains, lemma_move_order_len, move_order};
use crate::search::searcher::{
    deepen, is_capture, quiesce, quiesce_from, root_moves, root_search, search_moves, search_node,
    search_value,
};
use crate::search::tt::{position_key, table_lookup, TTEntry};

verus! {

/// The weight of a square for `color`: 20000 for a king of that colour, 900 for any
/// other of its pieces, nothing else.
pub open spec fn heft(x: Option<Piece>, color: Color) -> int {
    match x {
        Some(p) => if p.color != color {
            0
        } else if p.kind == PieceType::King {
            20000
        } else {
            900
        },
        None => 0,
    }
}

/// The weight of the first `n` squares for `color`.
pub open spec fn heft_upto(b: Seq<Option<Piece>>, color: Color, n: int) -> int
    decreases n,
{
    if n <= 0 {
        0
    } else {
        heft_upto(b, color, n - 1) + heft(b[n - 1], color)
    }
}

/// Whether `color` still holds a castling right (castling can add a rook).
pub open spec fn holds_right(c: CastlingRights, color: Color) -> bool {
    if color == Color::White {
        c.white_king_side || c.white_queen_side
    } else {
        c.black_king_side || c.black_queen_side
    }
}

/// A bound on the material `color` can ever have on the board of `s`: its weight, plus
/// a rook's worth while it may still castle. No move of the game raises it.
pub open spec fn potential(s: GameState, color: Color) -> int {
    heft_upto(s.board@, color, 64) + if holds_right(s.castling, color) { 900int } else { 0int }
}

/// Neither side can ever reach the mate score in material.
pub open spec fn material_bounded(s: GameState) -> bool {
    potential(s, Color::White) < 100_000 && potential(s, Color::Black) < 100_000
}

proof fn lemma_heft_nonneg(b: Seq<Option<Piece>>, color: Color, n: int)
    ensures
        heft_upto(b, color, n) >= 0,
    decreases n,
{
    if n > 0 {
        lemma_heft_nonneg(b, color, n - 1);
    }
}

proof fn lemma_heft_update(b: Seq<Option<Piece>>, color: Color, n: int, i: int, x: Option<Piece>)
    requires
        0 <= i < b.len(),
        n <= b.len(),
    ensures
        heft_upto(b.update(i, x), color, n) == heft_upto(b, color, n) + if 0 <= i < n {
            heft(x, color) - heft(b[i], color)
        } else {
            0
        },
    decreases n,
{
    if n > 0 {
        lemma_heft_update(b, color, n - 1, i, x);
    }
}

/// The material balance lies between minus Black's weight and White's weight.
proof fn lemma_balance_within_heft(b: Seq<Option<Piece>>, n: int)
    ensures
        -heft_upto(b, Color::Black, n) <= balance_upto(b, n) <= heft_upto(b, Color::White, n),
    decreases n,
{
    if n > 0 {
        lemma_balance_within_heft(b, n - 1);
    }
}

/// On a bounded board the evaluation lies strictly between the two mate scores.
pub proof fn lemma_evaluation_bounded(s: GameState)
    requires
        material_bounded(s),
    ensures
        -100_000 < evaluation(s.board@, s.side_to_move) < 100_000,
{
    lemma_balance_within_heft(s.board@, 64);
}

/// Rights are only ever dropped.
proof fn lemma_rights_after(c: CastlingRights, piece: Piece, m: Move, color: Color)
    ensures
        holds_right(castling_after(c, piece, m), color) ==> holds_right(c, color),
        piece.kind == PieceType::King && piece.color == color ==> !holds_right(castling_after(c, piece, m), color),
{
}

/// No pseudo-legal move raises either side's potential.
pub proof fn lemma_potential_after(s: GameState, m: Move, color: Color)
    requires
        pseudo_legal(s, m),
    ensures
        potential(state_after(s, m), color) <= potential(s, color),
{
    let b = s.board@;
    let piece = b[m.from as int]->0;
    lemma_pseudo_legal_in_range(s, m);
    lemma_capture_facts(s, m);
    lemma_promotion_choice(s, m);
    lemma_array_after(s.board, piece, m);
    let landed = landed_piece(piece, m);
    let b1 = if m.is_en_passant { b.update(en_passant_victim(piece.color, m.to as int), None) } else { b };
    if m.is_en_passant {
        lemma_heft_update(b, color, 64, en_passant_victim(piece.color, m.to as int), None);
    }
    assert(heft_upto(b1, color, 64) <= heft_upto(b, color, 64));
    assert(b1[m.from as int] == b[m.from as int]);
    let b2a = b1.update(m.from as int, None);
    lemma_heft_update(b1, color, 64, m.from as int, None);
    let b2 = b2a.update(m.to as int, Some(landed));
    lemma_heft_update(b2a, color, 64, m.to as int, Some(landed));
    if m.promotion is Some {
        assert(piece.kind != PieceType::King);
    }
    assert(heft(Some(landed), color) == heft(Some(piece), color));
    assert(heft_upto(b2, color, 64) <= heft_upto(b, color, 64));
    let after = board_after(b, piece, m);
    lemma_rights_after(s.castling, landed, m, color);
    if m.is_castling {
        assert(piece.kind == PieceType::King);
        assert(holds_right(s.castling, piece.color));
        let to = m.to as int;
        let rook = Some(Piece { color: landed.color, kind: PieceType::Rook });
        if landed.color == Color::White && to == 6 {
            lemma_heft_update(b2, color, 64, 7, None);
            lemma_heft_update(b2.update(7, None), color, 64, 5, rook);
        } else if landed.color == Color::White && to == 2 {
            lemma_heft_update(b2, color, 64, 0, None);
            lemma_heft_update(b2.update(0, None), color, 64, 3, rook);
        } else if landed.color == Color::Black && to == 62 {
            lemma_heft_update(b2, color, 64, 63, None);
            lemma_heft_update(b2.update(63, None), color, 64, 61, rook);
        } else if landed.color == Color::Black && to == 58 {
            lemma_heft_update(b2, color, 64, 56, None);
            lemma_heft_update(b2.update(56, None), color, 64, 59, rook);
        }
        assert(after == castle_rook(b2, landed.color, to));
        assert(heft_upto(after, color, 64) <= heft_upto(b, color, 64) + if color == piece.color { 900int } else { 0int });
    } else {
        assert(after == b2);
    }
}

/// A pseudo-legal move keeps a bounded position bounded.
pub proof fn lemma_bounded_after(s: GameState, m: Move)
    requires
        pseudo_legal(s, m),
        material_bounded(s),
    ensures
        material_bounded(state_after(s, m)),
{
    lemma_potential_after(s, m, Color::White);
    lemma_potential_after(s, m, Color::Black);
}

/// Every score in the table lies strictly between the two mate scores.
pub open spec fn table_bounded(tt: Map<u64, TTEntry>) -> bool {
    forall|k: u64| tt.contains_key(k) ==> -100_000 < #[trigger] tt[k].score < 100_000
}

proof fn lemma_capture_child(s: GameState, i: int)
    requires
        0 <= i < legal_list(s).len(),
        is_capture(s, legal_list(s)[i]),
        material_bounded(s),
    ensures
        material_bounded(state_after(s, legal_list(s)[i])),
        0 <= capture_potential(state_after(s, legal_list(s)[i]).board@, state_after(s, legal_list(s)[i]).en_passant)
            < capture_potential(s.board@, s.en_passant),
{
    let m = legal_list(s)[i];
    lemma_legal_list_legal(s, i);
    lemma_pseudo_legal_in_range(s, m);
    lemma_array_after(s.board, s.board@[m.from as int]->0, m);
    law_capture_shrinks(s, m);
    lemma_pieces_bound(board_after(s.board@, s.board@[m.from as int]->0, m), 64);
    lemma_bounded_after(s, m);
}

proof fn lemma_quiesce_bounded(s: GameState, alpha: int, beta: int)
    requires
        material_bounded(s),
        -100_000 <= alpha < beta <= 100_000,
    ensures
        -100_000 < quiesce(s, alpha, beta).0 < 100_000,
    decreases capture_potential(s.board@, s.en_passant), 1int, 0int,
{
    lemma_evaluation_bounded(s);
    lemma_pieces_bound(s.board@, 64);
    let sp = evaluation(s.board@, s.side_to_move);
    if sp < beta {
        lemma_quiesce_from_bounded(s, 0, if sp > alpha { sp } else { alpha }, beta);
    }
}

proof fn lemma_quiesce_from_bounded(s: GameState, i: int, alpha: int, beta: int)
    requires
        material_bounded(s),
        -100_000 < alpha < beta <= 100_000,
    ensures
        alpha <= quiesce_from(s, i, alpha, beta).0 < 100_000,
    decreases capture_potential(s.board@, s.en_passant), 0int, legal_list(s).len() - i,
{
    lemma_pieces_bound(s.board@, 64);
    if 0 <= i < legal_list(s).len() {
        let m = legal_list(s)[i];
        if !is_capture(s, m) {
            lemma_quiesce_from_bounded(s, i + 1, alpha, beta);
        } else {
            lemma_capture_child(s, i);
            lemma_quiesce_bounded(state_after(s, m), -beta, -alpha);
            let score = -quiesce(state_after(s, m), -beta, -alpha).0;
            if score < beta {
                lemma_quiesce_from_bounded(s, i + 1, if score > alpha { score } else { alpha }, beta);
            }
        }
    }
}

proof fn lemma_node_bounded(keys: Seq<u64>, tt: Map<u64, TTEntry>, s: GameState, depth: int, alpha: int, beta: int)
    requires
        material_bounded(s),
        table_bounded(tt),
        -100_000 <= alpha < beta <= 100_000,
    ensures
        -100_000 < search_node(keys, tt, s, depth, alpha, beta).0 < 100_000,
        table_bounded(search_node(keys, tt, s, depth, alpha, beta).1),
    decreases depth, 1int, 0int,
{
    let key = position_key(keys, s);
    let probe = table_lookup(tt, key);
    if probe is Some {
        assert(tt.contains_key(key));
    }
    let deep = probe is Some && probe->0.depth >= depth;
    if !(deep && probe->0.node_type is Exact) {
        let a = if deep && probe->0.node_type is LowerBound && probe->0.score > alpha {
            probe->0.score as int
        } else {
            alpha
        };
        if !(deep && a >= beta) {
            if depth <= 0 {
                lemma_quiesce_bounded(s, a, beta);
            } else if legal_list(s).len() > 0 {
                let tt_move = match probe {
                    Some(e) => e.best_move,
                    None => None,
                };
                let moves = move_order(s.board@, tt_move, legal_list(s));
                assert forall|j: int| 0 <= j < moves.len() implies legal_move(s, #[trigger] moves[j]) by {
                    lemma_move_order_contains(s.board@, tt_move, legal_list(s), j);
                    let k = choose|k: int| 0 <= k < legal_list(s).len() && legal_list(s)[k] == moves[j];
                    lemma_legal_list_legal(s, k);
                }
                lemma_move_order_len(s.board@, tt_move, legal_list(s));
                lemma_moves_bounded(keys, tt, s, depth, moves, 0, a, beta, -100_000, None);
                let r = search_moves(keys, tt, s, depth, moves, 0, a, beta, -100_000, None);
                assert(search_node(keys, tt, s, depth, alpha, beta).1.contains_key(key));
                assert(search_node(keys, tt, s, depth, alpha, beta).1[key].score == r.0 as i32);
            }
        }
    }
}

proof fn lemma_moves_bounded(
    keys: Seq<u64>,
    tt: Map<u64, TTEntry>,
    s: GameState,
    depth: int,
    moves: Seq<Move>,
    i: int,
    alpha: int,
    beta: int,
    best: int,
    best_move: Option<Move>,
)
    requires
        material_bounded(s),
        table_bounded(tt),
        -100_000 <= alpha < beta <= 100_000,
        -100_000 <= best < 100_000,
        forall|j: int| 0 <= j < moves.len() ==> legal_move(s, #[trigger] moves[j]),
    ensures
        best <= search_moves(keys, tt, s, depth, moves, i, alpha, beta, best, best_move).0 < 100_000,
        table_bounded(search_moves(keys, tt, s, depth, moves, i, alpha, beta, best, best_move).2),
        depth >= 1 && 0 <= i < moves.len() ==> search_moves(keys, tt, s, depth, moves, i, alpha, beta, best, best_move).0
            > -100_000,
    decreases depth, 0int, moves.len() - i,
{
    if depth >= 1 && 0 <= i < moves.len() {
        let m = moves[i];
        assert(legal_move(s, m));
        lemma_bounded_after(s, m);
        lemma_node_bounded(keys, tt, state_after(s, m), depth - 1, -beta, -alpha);
        let c = search_node(keys, tt, state_after(s, m), depth - 1, -beta, -alpha);
        let score = -c.0;
        let best2 = if score > best { score } else { best };
        let alpha2 = if score > alpha { score } else { alpha };
        let move2 = if score > alpha { Some(m) } else { best_move };
        if alpha2 < beta {
            lemma_moves_bounded(keys, c.1, s, depth, moves, i + 1, alpha2, beta, best2, move2);
        }
    }
}

proof fn lemma_root_moves_some(
    keys: Seq<u64>,
    tt: Map<u64, TTEntry>,
    s: GameState,
    depth: int,
    moves: Seq<Move>,
    i: int,
    alpha: int,
    beta: int,
    best: int,
    best_move: Option<Move>,
)
    requires
        material_bounded(s),
        table_bounded(tt),
        -100_000 <= alpha < beta <= 100_000,
        -100_000 <= best < 100_000,
        forall|j: int| 0 <= j < moves.len() ==> legal_move(s, #[trigger] moves[j]),
    ensures
        table_bounded(root_moves(keys, tt, s, depth, moves, i, alpha, beta, best, best_move).2),
        best_move is Some || (0 <= i < moves.len() && best == -100_000) ==> root_moves(
            keys,
            tt,
            s,
            depth,
            moves,
            i,
            alpha,
            beta,
            best,
            best_move,
        ).1 is Some,
    decreases moves.len() - i,
{
    if 0 <= i < moves.len() {
        let m = moves[i];
        assert(legal_move(s, m));
        lemma_bounded_after(s, m);
        lemma_node_bounded(keys, tt, state_after(s, m), depth - 1, -beta, -alpha);
        let c = search_node(keys, tt, state_after(s, m), depth - 1, -beta, -alpha);
        let score = -c.0;
        let best2 = if score > best { score } else { best };
        let move2 = if score > best { Some(m) } else { best_move };
        let alpha2 = if score > alpha { score } else { alpha };
        if alpha2 < beta {
            lemma_root_moves_some(keys, c.1, s, depth, moves, i + 1, alpha2, beta, best2, move2);
        }
    }
}

proof fn lemma_root_search_some(keys: Seq<u64>, tt: Map<u64, TTEntry>, s: GameState, depth: int)
    requires
        material_bounded(s),
        table_bounded(tt),
    ensures
        table_bounded(root_search(keys, tt, s, depth, -100_000, 100_000).2),
        legal_list(s).len() > 0 ==> root_search(keys, tt, s, depth, -100_000, 100_000).1 is Some,
{
    if legal_list(s).len() > 0 {
        let tt_move = match table_lookup(tt, position_key(keys, s)) {
            Some(e) => e.best_move,
            None => None,
        };
        let moves = move_order(s.board@, tt_move, legal_list(s));
        assert forall|j: int| 0 <= j < moves.len() implies legal_move(s, #[trigger] moves[j]) by {
            lemma_move_order_contains(s.board@, tt_move, legal_list(s), j);
            let k = choose|k: int| 0 <= k < legal_list(s).len() && legal_list(s)[k] == moves[j];
            lemma_legal_list_legal(s, k);
        }
        lemma_move_order_len(s.board@, tt_move, legal_list(s));
        lemma_root_moves_some(keys, tt, s, depth, moves, 0, -100_000, 100_000, -100_000, None);
    }
}

proof fn lemma_deepen_some(
    keys: Seq<u64>,
    tt: Map<u64, TTEntry>,
    s: GameState,
    max: int,
    d: int,
    score: int,
    best_move: Option<Move>,
    nodes: nat,
)
    requires
        material_bounded(s),
        table_bounded(tt),
        legal_list(s).len() > 0,
    ensures
        best_move is Some || d <= max ==> deepen(keys, tt, s, max, d, score, best_move, nodes).1 is Some,
    decreases max + 1 - d,
{
    if d <= max {
        lemma_root_search_some(keys, tt, s, d);
        let r = root_search(keys, tt, s, d, -100_000, 100_000);
        lemma_deepen_some(keys, r.2, s, max, d + 1, r.0, r.1, nodes + r.3);
    }
}

/// Law: without a time limit, a search at least one ply deep of a position whose legal
/// move list is not empty returns a move, provided neither side's material can reach the
/// mate score and the table's scores lie strictly between the two mate scores (an empty
/// table, as a new searcher has, qualifies).
pub proof fn law_search_returns_a_move(keys: Seq<u64>, tt: Map<u64, TTEntry>, s: GameState, max: int)
    requires
        max >= 1,
        legal_list(s).len() > 0,
        material_bounded(s),
        table_bounded(tt),
    ensures
        search_value(keys, tt, s, max).1 is Some,
{
    lemma_deepen_some(keys, tt, s, max, 1, 0, None, 0);
}

/// Only the king squares of the starting position weigh more than a queen.
proof fn lemma_start_heft(color: Color, n: int)
    requires
        0 <= n <= 64,
    ensures
        heft_upto(start_board(), color, n) <= 900 * n + (if n > 4 { 19100int } else { 0int }) + (
        if n > 60 {
            19100int
        } else {
            0int
        }),
    decreases n,
{
    if n > 0 {
        lemma_start_heft(color, n - 1);
    }
}

/// Neither side's material in the starting position can reach the mate score.
pub proof fn lemma_startpos_material_bounded()
    ensures
        material_bounded(startpos_state()),
{
    lemma_startpos_state();
    lemma_start_heft(Color::White, 64);
    lemma_start_heft(Color::Black, 64);
}

/// Without a legal move the listed moves are none.
proof fn lemma_no_legal_move_no_list(s: GameState)
    requires
        forall|m: Move| !legal_move(s, m),
    ensures
        legal_list(s).len() == 0,
{
    if legal_list(s).len() > 0 {
        lemma_legal_list_legal(s, 0);
    }
}

/// Deepening a position without legal moves keeps the ended-game score and no move.
proof fn lemma_deepen_terminal(
    keys: Seq<u64>,
    tt: Map<u64, TTEntry>,
    s: GameState,
    max: int,
    d: int,
    score: int,
    best_move: Option<Move>,
    nodes: nat,
    value: int,
)
    requires
        legal_list(s).len() == 0,
        1 <= d,
        d <= max ==> root_search(keys, tt, s, d, -100_000, 100_000).0 == value,
        forall|t: Map<u64, TTEntry>, e: int| #[trigger] root_search(keys, t, s, e, -100_000, 100_000).0 == value,
        d > max ==> score == value && best_move is None,
    ensures
        deepen(keys, tt, s, max, d, score, best_move, nodes).0 == value,
        deepen(keys, tt, s, max, d, score, best_move, nodes).1 is None,
    decreases max + 1 - d,
{
    if d <= max {
        let r = root_search(keys, tt, s, d, -100_000, 100_000);
        lemma_deepen_terminal(keys, r.2, s, max, d + 1, r.0, r.1, nodes + r.3, value);
    }
}

/// Law: a game that is over is scored as the rules say. When the side to move has no
/// legal move, a search of one ply or more gives no move and the score 0 if its king is
/// not attacked (stalemate, a draw) or the mated score `-99_999` if it is (checkmate);
/// so does every node of the search for such a position that the table has no entry for.
pub proof fn law_game_over_scores(
    keys: Seq<u64>,
    tt: Map<u64, TTEntry>,
    s: GameState,
    depth: int,
    alpha: int,
    beta: int,
)
    requires
        forall|m: Move| !legal_move(s, m),
        depth >= 1,
    ensures
        !king_attacked(s.board@, s.side_to_move) ==> search_value(keys, tt, s, depth).0 == 0,
        king_attacked(s.board@, s.side_to_move) ==> search_value(keys, tt, s, depth).0 == -99_999,
        search_value(keys, tt, s, depth).1 is None,
        table_lookup(tt, position_key(keys, s)) is None && !king_attacked(s.board@, s.side_to_move)
            ==> search_node(keys, tt, s, depth, alpha, beta).0 == 0,
        table_lookup(tt, position_key(keys, s)) is None && king_attacked(s.board@, s.side_to_move)
            ==> search_node(keys, tt, s, depth, alpha, beta).0 == -99_999,
{
    lemma_no_legal_move_no_list(s);
    let value: int = if king_attacked(s.board@, s.side_to_move) { -99_999 } else { 0 };
    assert forall|t: Map<u64, TTEntry>, e: int| #[trigger] root_search(keys, t, s, e, -100_000, 100_000).0 == value by {}
    lemma_deepen_terminal(keys, tt, s, depth, 1, 0, None, 0, value);
}

} // verus!
