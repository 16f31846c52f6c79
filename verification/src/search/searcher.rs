//! Iterative-deepening alpha-beta (negamax) search with a transposition table,
//! capture-only quiescence search, and an optional time budget.

use std::time::{Duration, Instant};

use vstd::prelude::*;

use crate::engine::board::{Color, Move};
use crate::engine::game_state::{board_after, lemma_array_after, lemma_pieces_bound, state_after, GameState};
use crate::engine::legal::{
    capture_potential, generate_legal_moves, in_check, king_attacked, law_capture_shrinks,
    legal_list, legal_move, lemma_legal_list_legal, moves_playable,
};
use crate::engine::movegen::{lemma_pseudo_legal_in_range, pseudo_legal};
use crate::search::eval::{evaluate, evaluation, evaluation_bound};
use crate::search::mate_bound::{law_search_returns_a_move, material_bounded, table_bounded};
use crate::search::move_ordering::{lemma_move_order_unique, move_order, on_board_moves, order_moves};
use crate::search::tt::{position_key, seeded_keys, table_lookup, NodeType, TTEntry, TranspositionTable, Zobrist};

verus! {

#[verifier::external_type_specification]
#[verifier::external_body]
pub struct ExInstant(Instant);

/// `Instant::now`: the current instant. Nothing is claimed of it.
#[verifier::external_body]
fn clock_now() -> Instant {
    Instant::now()
}

/// `Instant::elapsed`: the time since `start`. Nothing is claimed of it: it depends on
/// the clock.
#[verifier::external_body]
fn elapsed_since(start: &Instant) -> Duration {
    start.elapsed()
}

/// `Duration::as_millis`: the whole milliseconds of `d`. The duration is opaque here, so
/// nothing is claimed of the number.
#[verifier::external_body]
fn whole_millis(d: &Duration) -> u128 {
    d.as_millis()
}

pub const MATE_SCORE: i32 = 100_000;

#[derive(Clone, Copy, Debug)]
pub struct SearchConfig {
    pub max_depth: u8,
    pub time_limit_ms: Option<u64>,
}

impl Default for SearchConfig {
    fn default() -> (r: Self)
        ensures
            r.max_depth == 4,
            r.time_limit_ms is None,
    {
        Self { max_depth: 4, time_limit_ms: None }
    }
}

#[derive(Debug, Clone, Copy)]
pub struct SearchResult {
    pub best_move: Option<Move>,
    pub score: i32,
    pub depth: u8,
    pub nodes: u64,
}

/// Every score the table holds can be negated without overflow.
pub open spec fn table_scores_ok(t: Map<u64, TTEntry>) -> bool {
    forall|k: u64| t.contains_key(k) ==> #[trigger] t[k].score > i32::MIN
}

/// The full-move counter has room for `plies` more plies of search plus a capture
/// sequence (which is at most 65 plies long).
pub open spec fn search_room(s: GameState, plies: int) -> bool {
    s.fullmove_number + plies + 66 <= u32::MAX
}

/// Whether the time budget `limit` is spent after `elapsed_ms` milliseconds.
pub open spec fn budget_spent(limit: Option<u64>, elapsed_ms: u128) -> bool {
    match limit {
        Some(ms) => elapsed_ms >= ms,
        None => false,
    }
}

/// The score of a position without legal moves: mated, or stalemate.
pub open spec fn terminal_score(s: GameState) -> int {
    if king_attacked(s.board@, s.side_to_move) {
        -MATE_SCORE + 1
    } else {
        0
    }
}

/// What a search of `s` with settings `cfg` is known to give: the depth reached (all
/// of it without a time limit), a legal best move if any, and the mate or stalemate
/// score when there is no legal move.
pub open spec fn search_outcome(s: GameState, cfg: SearchConfig, r: SearchResult) -> bool {
    &&& r.depth <= cfg.max_depth
    &&& cfg.time_limit_ms is None ==> r.depth == cfg.max_depth
    &&& r.best_move matches Some(m) ==> legal_move(s, m)
    &&& r.depth == 0 ==> r.best_move is None && r.score == 0
    &&& r.depth >= 1 && (forall|m: Move| !legal_move(s, m)) ==> r.best_move is None && r.score
        == terminal_score(s)
}

pub fn time_budget_spent(limit: Option<u64>, elapsed_ms: u128) -> (r: bool)
    ensures
        r == budget_spent(limit, elapsed_ms),
{
    match limit {
        Some(ms) => elapsed_ms >= ms as u128,
        None => false,
    }
}

proof fn lemma_room_for_captures(s: GameState)
    requires
        search_room(s, 0),
    ensures
        s.fullmove_number + capture_potential(s.board@, s.en_passant) + 1 <= u32::MAX,
        moves_playable(s),
{
    lemma_pieces_bound(s.board@, 64);
}

proof fn lemma_legal_on_board(s: GameState, moves: Seq<Move>)
    requires
        forall|m: Move| #[trigger] moves.contains(m) ==> legal_move(s, m),
    ensures
        on_board_moves(moves),
{
    assert forall|i: int| 0 <= i < moves.len() implies (#[trigger] moves[i]).from < 64 && moves[i].to < 64 by {
        assert(moves.contains(moves[i]));
        lemma_pseudo_legal_in_range(s, moves[i]);
    }
}

/// A counter that saturates at `u64::MAX` after counting `n`.
pub open spec fn saturated(n: int) -> u64 {
    if n > u64::MAX {
        u64::MAX
    } else {
        n as u64
    }
}

/// A move that takes a piece: it lands on an occupied square or takes en passant.
pub open spec fn is_capture(s: GameState, m: Move) -> bool {
    s.board@[m.to as int] is Some || m.is_en_passant
}

/// The quiescence value of `s` in the window (`alpha`, `beta`) and the number of nodes
/// it visits: the static evaluation stands unless a capture does better; a value at or
/// above `beta` is cut off to `beta`.
pub open spec fn quiesce(s: GameState, alpha: int, beta: int) -> (int, nat)
    decreases capture_potential(s.board@, s.en_passant), 1int, 0int,
{
    let stand_pat = evaluation(s.board@, s.side_to_move);
    if stand_pat >= beta {
        (beta, 1)
    } else {
        let r = quiesce_from(s, 0, if stand_pat > alpha { stand_pat } else { alpha }, beta);
        (r.0, r.1 + 1)
    }
}

/// The quiescence value of `s` from the `i`-th legal move on, with `alpha` raised so far,
/// and the number of nodes visited: each capture is searched in turn with the window
/// negated.
pub open spec fn quiesce_from(s: GameState, i: int, alpha: int, beta: int) -> (int, nat)
    decreases capture_potential(s.board@, s.en_passant), 0int, legal_list(s).len() - i,
{
    if i < 0 || i >= legal_list(s).len() {
        (alpha, 0)
    } else {
        let m = legal_list(s)[i];
        if !is_capture(s, m) {
            quiesce_from(s, i + 1, alpha, beta)
        } else {
            proof {
                lemma_legal_list_legal(s, i);
                lemma_pseudo_legal_in_range(s, m);
                lemma_array_after(s.board, s.board@[m.from as int]->0, m);
                law_capture_shrinks(s, m);
                lemma_pieces_bound(board_after(s.board@, s.board@[m.from as int]->0, m), 64);
            }
            let child = quiesce(state_after(s, m), -beta, -alpha);
            let score = -child.0;
            if score >= beta {
                (beta, child.1)
            } else {
                let rest = quiesce_from(s, i + 1, if score > alpha { score } else { alpha }, beta);
                (rest.0, child.1 + rest.1)
            }
        }
    }
}

/// The value of `s` searched `depth` plies deep in the window (`alpha`, `beta`) with the
/// table `tt` and the position keys `keys`; the table afterwards; and the number of
/// nodes visited. A table entry at least `depth` deep ends the search at once when it
/// is exact, or when its lower bound closes the window. Otherwise: at depth 0 the
/// quiescence value; with no legal move the mate or stalemate score; else the best
/// score over the legal moves in move order (the table's move first), each searched a
/// ply less deep with the window negated, stopping at a cutoff; the table then records
/// that score for `s`, as an upper bound when it did not pass `alpha`, a lower bound
/// when it reached `beta`, and exact in between.
pub open spec fn search_node(
    keys: Seq<u64>,
    tt: Map<u64, TTEntry>,
    s: GameState,
    depth: int,
    alpha: int,
    beta: int,
) -> (int, Map<u64, TTEntry>, nat)
    decreases depth, 1int, 0int,
{
    let key = position_key(keys, s);
    let probe = table_lookup(tt, key);
    let deep = probe is Some && probe->0.depth >= depth;
    if deep && probe->0.node_type is Exact {
        (probe->0.score as int, tt, 1)
    } else {
        let a = if deep && probe->0.node_type is LowerBound && probe->0.score > alpha {
            probe->0.score as int
        } else {
            alpha
        };
        if deep && a >= beta {
            (probe->0.score as int, tt, 1)
        } else if depth <= 0 {
            let q = quiesce(s, a, beta);
            (q.0, tt, q.1 + 1)
        } else if legal_list(s).len() == 0 {
            (terminal_score(s), tt, 1)
        } else {
            let tt_move = match probe {
                Some(e) => e.best_move,
                None => None,
            };
            let moves = move_order(s.board@, tt_move, legal_list(s));
            let r = search_moves(keys, tt, s, depth, moves, 0, a, beta, -MATE_SCORE as int, None);
            let node_type = if r.0 <= alpha {
                NodeType::UpperBound
            } else if r.0 >= beta {
                NodeType::LowerBound
            } else {
                NodeType::Exact
            };
            (
                r.0,
                r.2.insert(key, TTEntry { depth: depth as i32, score: r.0 as i32, node_type, best_move: r.1 }),
                r.3 + 1,
            )
        }
    }
}

/// The search of the moves of `s` from the `i`-th on: the best score so far, the move
/// that last raised `alpha`, the table, and the nodes visited; each move is searched
/// `depth - 1` plies deep with the window negated, until `alpha` reaches `beta`.
pub open spec fn search_moves(
    keys: Seq<u64>,
    tt: Map<u64, TTEntry>,
    s: GameState,
    depth: int,
    moves: Seq<Move>,
    i: int,
    alpha: int,
    beta: int,
    best: int,
    best_move: Option<Move>,
) -> (int, Option<Move>, Map<u64, TTEntry>, nat)
    decreases depth, 0int, moves.len() - i,
{
    if depth < 1 || i < 0 || i >= moves.len() {
        (best, best_move, tt, 0)
    } else {
        let m = moves[i];
        let c = search_node(keys, tt, state_after(s, m), depth - 1, -beta, -alpha);
        let score = -c.0;
        let best2 = if score > best { score } else { best };
        let alpha2 = if score > alpha { score } else { alpha };
        let move2 = if score > alpha { Some(m) } else { best_move };
        if alpha2 >= beta {
            (best2, move2, c.1, c.2)
        } else {
            let r = search_moves(keys, c.1, s, depth, moves, i + 1, alpha2, beta, best2, move2);
            (r.0, r.1, r.2, c.2 + r.3)
        }
    }
}

/// The root search of the moves from the `i`-th on: as `search_moves`, except that the
/// move kept is the one that last raised the best score.
pub open spec fn root_moves(
    keys: Seq<u64>,
    tt: Map<u64, TTEntry>,
    s: GameState,
    depth: int,
    moves: Seq<Move>,
    i: int,
    alpha: int,
    beta: int,
    best: int,
    best_move: Option<Move>,
) -> (int, Option<Move>, Map<u64, TTEntry>, nat)
    decreases moves.len() - i,
{
    if i < 0 || i >= moves.len() {
        (best, best_move, tt, 0)
    } else {
        let m = moves[i];
        let c = search_node(keys, tt, state_after(s, m), depth - 1, -beta, -alpha);
        let score = -c.0;
        let best2 = if score > best { score } else { best };
        let move2 = if score > best { Some(m) } else { best_move };
        let alpha2 = if score > alpha { score } else { alpha };
        if alpha2 >= beta {
            (best2, move2, c.1, c.2)
        } else {
            let r = root_moves(keys, c.1, s, depth, moves, i + 1, alpha2, beta, best2, move2);
            (r.0, r.1, r.2, c.2 + r.3)
        }
    }
}

/// The search of the root `s` at `depth` in the window (`alpha`, `beta`): its score and
/// best move, the table afterwards, and the nodes visited. Without a legal move it is
/// the mate or stalemate score and no move, and no node is visited; else the legal
/// moves are searched in move order (the table's move for `s` first).
pub open spec fn root_search(
    keys: Seq<u64>,
    tt: Map<u64, TTEntry>,
    s: GameState,
    depth: int,
    alpha: int,
    beta: int,
) -> (int, Option<Move>, Map<u64, TTEntry>, nat) {
    if legal_list(s).len() == 0 {
        (terminal_score(s), None, tt, 0)
    } else {
        let tt_move = match table_lookup(tt, position_key(keys, s)) {
            Some(e) => e.best_move,
            None => None,
        };
        let moves = move_order(s.board@, tt_move, legal_list(s));
        root_moves(keys, tt, s, depth, moves, 0, alpha, beta, -MATE_SCORE as int, None)
    }
}

/// Iterative deepening from depth `d` to `max`: each depth's root search, in the full
/// window, replaces the score and move found so far; the table is carried from one depth
/// to the next and the nodes are added up.
pub open spec fn deepen(
    keys: Seq<u64>,
    tt: Map<u64, TTEntry>,
    s: GameState,
    max: int,
    d: int,
    score: int,
    best_move: Option<Move>,
    nodes: nat,
) -> (int, Option<Move>, Map<u64, TTEntry>, nat)
    decreases max + 1 - d,
{
    if d > max {
        (score, best_move, tt, nodes)
    } else {
        let r = root_search(keys, tt, s, d, -MATE_SCORE as int, MATE_SCORE as int);
        deepen(keys, r.2, s, max, d + 1, r.0, r.1, nodes + r.3)
    }
}

/// What searching `s` to depth `max` with the table `tt` gives when no time limit stops
/// it: the score and best move of the deepest root search (score 0 and no move when
/// `max` is 0), the table afterwards, and the nodes visited.
pub open spec fn search_value(keys: Seq<u64>, tt: Map<u64, TTEntry>, s: GameState, max: int) -> (
    int,
    Option<Move>,
    Map<u64, TTEntry>,
    nat,
) {
    deepen(keys, tt, s, max, 1, 0, None, 0)
}

/// Deepening one depth further adds one root search at that depth.
proof fn lemma_deepen_extend(
    keys: Seq<u64>,
    tt: Map<u64, TTEntry>,
    s: GameState,
    max: int,
    d: int,
    score: int,
    best_move: Option<Move>,
    nodes: nat,
)
    requires
        d <= max + 1,
    ensures
        deepen(keys, tt, s, max + 1, d, score, best_move, nodes) == {
            let p = deepen(keys, tt, s, max, d, score, best_move, nodes);
            let r = root_search(keys, p.2, s, max + 1, -MATE_SCORE as int, MATE_SCORE as int);
            (r.0, r.1, r.2, p.3 + r.3)
        },
    decreases max + 1 - d,
{
    if d <= max {
        let r = root_search(keys, tt, s, d, -MATE_SCORE as int, MATE_SCORE as int);
        lemma_deepen_extend(keys, r.2, s, max, d + 1, r.0, r.1, nodes + r.3);
    } else {
        let r = root_search(keys, tt, s, d, -MATE_SCORE as int, MATE_SCORE as int);
        assert(deepen(keys, r.2, s, max + 1, d + 1, r.0, r.1, nodes + r.3) == (
            r.0,
            r.1,
            r.2,
            nodes + r.3,
        ));
        assert(deepen(keys, tt, s, max, d, score, best_move, nodes) == (
            score,
            best_move,
            tt,
            nodes,
        ));
    }
}

/// The search to depth `d` is the search to depth `d - 1` followed by one root search
/// at depth `d` with the table it left.
proof fn lemma_search_value_step(keys: Seq<u64>, tt: Map<u64, TTEntry>, s: GameState, d: int)
    requires
        d >= 1,
    ensures
        search_value(keys, tt, s, d) == {
            let p = search_value(keys, tt, s, d - 1);
            let r = root_search(keys, p.2, s, d, -MATE_SCORE as int, MATE_SCORE as int);
            (r.0, r.1, r.2, p.3 + r.3)
        },
{
    lemma_deepen_extend(keys, tt, s, d - 1, 1, 0, None, 0);
}

/// Counting on from a saturated count saturates the same way.
proof fn lemma_saturated_add(x: int, y: int)
    requires
        0 <= x,
        0 <= y,
    ensures
        saturated(saturated(x) + y) == saturated(x + y),
{
}

pub struct Searcher {
    pub config: SearchConfig,
    pub tt: TranspositionTable,
    pub(crate) zobrist: Zobrist,
    pub(crate) start_time: Instant,
    pub(crate) nodes: u64,
    pub(crate) out_of_time: bool,
}

/// Within the crate: the settings and table views are the fields themselves.
pub(crate) proof fn lemma_searcher_fields(s: &Searcher)
    ensures
        s.settings() == s.config,
        s.table() == s.tt@,
        s.keys() == s.zobrist.keys(),
{
}

impl Searcher {
    /// The search settings.
    pub closed spec fn settings(&self) -> SearchConfig {
        self.config
    }

    /// The transposition table's contents.
    pub closed spec fn table(&self) -> Map<u64, TTEntry> {
        self.tt@
    }

    /// The number of nodes visited by the current search.
    pub closed spec fn node_count(&self) -> u64 {
        self.nodes
    }

    /// The Zobrist keys the searcher hashes positions with.
    pub closed spec fn keys(&self) -> Seq<u64> {
        self.zobrist.keys()
    }

    pub fn new(config: SearchConfig) -> (r: Self)
        ensures
            r.settings() == config,
            r.table() == Map::<u64, TTEntry>::empty(),
            r.keys() == seeded_keys(0xC0FFEE),
            r.node_count() == 0,
    {
        let zobrist = Zobrist::new(0xC0FFEE);
        assert(zobrist.keys() =~= seeded_keys(0xC0FFEE));
        Self { config, tt: TranspositionTable::new(), zobrist, start_time: clock_now(), nodes: 0, out_of_time: false }
    }

    /// Whether the time budget is spent. Once it has been found spent the clock is not
    /// read again: the clock never runs backwards, so it would say the same.
    fn time_exceeded(&mut self) -> (r: bool)
        ensures
            r == final(self).out_of_time,
            old(self).out_of_time ==> r,
            old(self).config.time_limit_ms is None && !old(self).out_of_time ==> !r,
            !old(self).out_of_time ==> exists|elapsed_ms: u128| r == budget_spent(old(self).config.time_limit_ms, elapsed_ms),
            final(self).config == old(self).config,
            final(self).tt == old(self).tt,
            final(self).zobrist == old(self).zobrist,
            final(self).start_time == old(self).start_time,
            final(self).nodes == old(self).nodes,
    {
        if self.out_of_time {
            return true;
        }
        match self.config.time_limit_ms {
            Some(_) => {
                let elapsed = whole_millis(&elapsed_since(&self.start_time));
                let spent = time_budget_spent(self.config.time_limit_ms, elapsed);
                assert(spent == budget_spent(self.config.time_limit_ms, elapsed));
                self.out_of_time = spent;
                spent
            },
            None => {
                assert(false == budget_spent(self.config.time_limit_ms, 0));
                false
            },
        }
    }

    fn negamax(&mut self, state: &GameState, depth: i32, alpha: i32, beta: i32) -> (r: i32)
        requires
            depth >= 0,
            alpha > i32::MIN,
            beta > i32::MIN,
            search_room(*state, depth as int),
            table_scores_ok(old(self).tt@),
        ensures
            r > i32::MIN,
            final(self).config == old(self).config,
            final(self).zobrist == old(self).zobrist,
            table_scores_ok(final(self).tt@),
            old(self).out_of_time ==> final(self).out_of_time,
            old(self).config.time_limit_ms is None && !old(self).out_of_time ==> !final(self).out_of_time,
            !final(self).out_of_time ==> {
                let n = search_node(
                    old(self).zobrist.keys(),
                    old(self).tt@,
                    *state,
                    depth as int,
                    alpha as int,
                    beta as int,
                );
                &&& r == n.0
                &&& final(self).tt@ == n.1
                &&& final(self).nodes == saturated(old(self).nodes + n.2)
            },
        decreases depth,
    {
        let ghost keys = self.zobrist.keys();
        let ghost node = search_node(keys, old(self).tt@, *state, depth as int, alpha as int, beta as int);
        let mut lo = alpha;
        if self.time_exceeded() {
            return evaluate(state);
        }

        self.nodes = self.nodes.saturating_add(1);
        let alpha_orig = alpha;
        let key = self.zobrist.hash(state);
        let probe = self.tt.get(key);

        if let Some(entry) = probe {
            assert(self.tt@.contains_key(key));
            if entry.depth >= depth {
                match entry.node_type {
                    NodeType::Exact => return entry.score,
                    NodeType::LowerBound => if entry.score > lo {
                        lo = entry.score;
                    },
                    NodeType::UpperBound => {},
                }
                if lo >= beta {
                    return entry.score;
                }
            }
        }

        if depth <= 0 {
            proof {
                lemma_room_for_captures(*state);
            }
            let ghost q = quiesce(*state, lo as int, beta as int);
            let v = self.quiescence(state, lo, beta);
            proof {
                lemma_saturated_add(old(self).nodes + 1, q.1 as int);
            }
            return v;
        }

        proof {
            lemma_room_for_captures(*state);
        }
        let mut moves = generate_legal_moves(state);
        if moves.len() == 0 {
            return if in_check(state, state.side_to_move) {
                -MATE_SCORE + 1
            } else {
                0
            };
        }

        let tt_move = match probe {
            Some(e) => e.best_move,
            None => None,
        };
        proof {
            lemma_legal_on_board(*state, moves@);
        }
        let ghost listed = moves@;
        order_moves(state, &mut moves, tt_move);
        proof {
            lemma_move_order_unique(state.board@, tt_move, listed, moves@);
        }

        let mut best_score = -MATE_SCORE;
        let mut best_move: Option<Move> = None;
        let ghost lo_start = lo as int;
        let ghost tt_start = self.tt@;
        let ghost base: int = old(self).nodes as int + 1;
        let ghost mut done: nat = 0;
        let ghost target = search_moves(
            keys,
            tt_start,
            *state,
            depth as int,
            moves@,
            0,
            lo_start,
            beta as int,
            -MATE_SCORE as int,
            None,
        );

        let mut i: usize = 0;
        while i < moves.len()
            invariant_except_break
                !self.out_of_time ==> {
                    let rest = search_moves(
                        keys,
                        self.tt@,
                        *state,
                        depth as int,
                        moves@,
                        i as int,
                        lo as int,
                        beta as int,
                        best_score as int,
                        best_move,
                    );
                    &&& target == (rest.0, rest.1, rest.2, done + rest.3)
                    &&& self.nodes == saturated(base + done)
                },
            invariant
                depth >= 1,
                lo > i32::MIN,
                beta > i32::MIN,
                best_score > i32::MIN,
                search_room(*state, depth as int),
                forall|m: Move| #[trigger] moves@.contains(m) <==> legal_move(*state, m),
                self.config == old(self).config,
                self.zobrist == old(self).zobrist,
                keys == self.zobrist.keys(),
                old(self).out_of_time ==> self.out_of_time,
                old(self).config.time_limit_ms is None && !old(self).out_of_time ==> !self.out_of_time,
                table_scores_ok(self.tt@),
                i <= moves@.len(),
                target == search_moves(keys, tt_start, *state, depth as int, moves@, 0, lo_start, beta as int, -MATE_SCORE as int, None),
                base == old(self).nodes as int + 1,
            ensures
                self.config == old(self).config,
                self.zobrist == old(self).zobrist,
                best_score > i32::MIN,
                table_scores_ok(self.tt@),
                !self.out_of_time ==> target == (best_score as int, best_move, self.tt@, done) && self.nodes == saturated(
                    base + done,
                ),
            decreases moves@.len() - i,
        {
            let mv = moves[i];
            proof {
                assert(moves@.contains(mv));
                lemma_pseudo_legal_in_range(*state, mv);
            }
            let mut child = *state;
            child.make_move(mv);
            let ghost c = search_node(keys, self.tt@, child, depth - 1, -beta as int, -lo as int);
            let ghost lo_before = lo as int;
            let ghost best_before = best_score as int;
            let ghost move_before = best_move;
            let ghost tt_before = self.tt@;
            let score = -self.negamax(&child, depth - 1, -beta, -lo);
            proof {
                if !self.out_of_time {
                    lemma_saturated_add(base + done, c.2 as int);
                    assert(child == state_after(*state, mv));
                    assert(search_moves(keys, tt_before, *state, depth as int, moves@, i as int, lo_before, beta as int, best_before, move_before) == {
                        let best2 = if score > best_before { score as int } else { best_before };
                        let alpha2 = if score > lo_before { score as int } else { lo_before };
                        let move2 = if score > lo_before { Some(mv) } else { move_before };
                        if alpha2 >= beta {
                            (best2, move2, c.1, c.2)
                        } else {
                            let r = search_moves(keys, c.1, *state, depth as int, moves@, i + 1, alpha2, beta as int, best2, move2);
                            (r.0, r.1, r.2, c.2 + r.3)
                        }
                    });
                }
                done = done + c.2;
            }
            if score > best_score {
                best_score = score;
            }
            if score > lo {
                lo = score;
                best_move = Some(mv);
            }
            if lo >= beta {
                break;
            }
            i += 1;
        }

        let node_type = if best_score <= alpha_orig {
            NodeType::UpperBound
        } else if best_score >= beta {
            NodeType::LowerBound
        } else {
            NodeType::Exact
        };
        self.tt.insert(key, TTEntry { depth, score: best_score, node_type, best_move });

        best_score
    }

    fn root_negamax(&mut self, state: &GameState, depth: i32, alpha: i32, beta: i32) -> (r: (i32, Option<Move>))
        requires
            depth >= 1,
            alpha > i32::MIN,
            beta > i32::MIN,
            search_room(*state, depth as int),
            table_scores_ok(old(self).tt@),
        ensures
            r.0 > i32::MIN,
            r.1 matches Some(m) ==> legal_move(*state, m),
            (forall|m: Move| !legal_move(*state, m)) ==> r.0 == terminal_score(*state) && r.1 is None,
            final(self).config == old(self).config,
            final(self).zobrist == old(self).zobrist,
            table_scores_ok(final(self).tt@),
            old(self).out_of_time ==> final(self).out_of_time,
            old(self).config.time_limit_ms is None && !old(self).out_of_time ==> !final(self).out_of_time,
            !final(self).out_of_time ==> {
                let v = root_search(
                    old(self).zobrist.keys(),
                    old(self).tt@,
                    *state,
                    depth as int,
                    alpha as int,
                    beta as int,
                );
                &&& r.0 == v.0
                &&& r.1 == v.1
                &&& final(self).tt@ == v.2
                &&& final(self).nodes == saturated(old(self).nodes + v.3)
            },
    {
        let ghost keys = self.zobrist.keys();
        let mut lo = alpha;
        proof {
            lemma_room_for_captures(*state);
        }
        let mut moves = generate_legal_moves(state);
        if moves.len() == 0 {
            proof {
                assert forall|m: Move| !legal_move(*state, m) by {
                    if legal_move(*state, m) {
                        assert(moves@.contains(m));
                    }
                }
            }
            if in_check(state, state.side_to_move) {
                return (-MATE_SCORE + 1, None);
            }
            return (0, None);
        }
        proof {
            assert(moves@.contains(moves@[0]));
        }

        let key = self.zobrist.hash(state);
        let tt_move = match self.tt.get(key) {
            Some(e) => e.best_move,
            None => None,
        };
        proof {
            lemma_legal_on_board(*state, moves@);
        }
        let ghost listed = moves@;
        order_moves(state, &mut moves, tt_move);
        proof {
            lemma_move_order_unique(state.board@, tt_move, listed, moves@);
        }

        let mut best_move: Option<Move> = None;
        let mut best_score = -MATE_SCORE;
        let ghost tt_start = self.tt@;
        let ghost base: int = old(self).nodes as int;
        let ghost mut done: nat = 0;
        let ghost target = root_moves(
            keys,
            tt_start,
            *state,
            depth as int,
            moves@,
            0,
            alpha as int,
            beta as int,
            -MATE_SCORE as int,
            None,
        );

        let mut i: usize = 0;
        while i < moves.len()
            invariant_except_break
                !self.out_of_time ==> {
                    let rest = root_moves(
                        keys,
                        self.tt@,
                        *state,
                        depth as int,
                        moves@,
                        i as int,
                        lo as int,
                        beta as int,
                        best_score as int,
                        best_move,
                    );
                    &&& target == (rest.0, rest.1, rest.2, done + rest.3)
                    &&& self.nodes == saturated(base + done)
                },
            invariant
                depth >= 1,
                lo > i32::MIN,
                beta > i32::MIN,
                best_score > i32::MIN,
                search_room(*state, depth as int),
                forall|m: Move| #[trigger] moves@.contains(m) <==> legal_move(*state, m),
                best_move matches Some(m) ==> legal_move(*state, m),
                self.config == old(self).config,
                self.zobrist == old(self).zobrist,
                keys == self.zobrist.keys(),
                old(self).out_of_time ==> self.out_of_time,
                old(self).config.time_limit_ms is None && !old(self).out_of_time ==> !self.out_of_time,
                table_scores_ok(self.tt@),
                i <= moves@.len(),
                target == root_moves(keys, tt_start, *state, depth as int, moves@, 0, alpha as int, beta as int, -MATE_SCORE as int, None),
                base == old(self).nodes as int,
            ensures
                self.config == old(self).config,
                self.zobrist == old(self).zobrist,
                best_score > i32::MIN,
                best_move matches Some(m) ==> legal_move(*state, m),
                table_scores_ok(self.tt@),
                !self.out_of_time ==> target == (best_score as int, best_move, self.tt@, done) && self.nodes == saturated(
                    base + done,
                ),
            decreases moves@.len() - i,
        {
            if self.time_exceeded() {
                break;
            }
            let mv = moves[i];
            proof {
                assert(moves@.contains(mv));
                lemma_pseudo_legal_in_range(*state, mv);
            }
            let mut child = *state;
            child.make_move(mv);
            let ghost c = search_node(keys, self.tt@, child, depth - 1, -beta as int, -lo as int);
            let ghost lo_before = lo as int;
            let ghost best_before = best_score as int;
            let ghost move_before = best_move;
            let ghost tt_before = self.tt@;
            let score = -self.negamax(&child, depth - 1, -beta, -lo);
            proof {
                if !self.out_of_time {
                    lemma_saturated_add(base + done, c.2 as int);
                    assert(child == state_after(*state, mv));
                    assert(root_moves(keys, tt_before, *state, depth as int, moves@, i as int, lo_before, beta as int, best_before, move_before) == {
                        let best2 = if score > best_before { score as int } else { best_before };
                        let move2 = if score > best_before { Some(mv) } else { move_before };
                        let alpha2 = if score > lo_before { score as int } else { lo_before };
                        if alpha2 >= beta {
                            (best2, move2, c.1, c.2)
                        } else {
                            let r = root_moves(keys, c.1, *state, depth as int, moves@, i + 1, alpha2, beta as int, best2, move2);
                            (r.0, r.1, r.2, c.2 + r.3)
                        }
                    });
                }
                done = done + c.2;
            }
            if score > best_score {
                best_score = score;
                best_move = Some(mv);
            }
            if score > lo {
                lo = score;
            }
            if lo >= beta {
                break;
            }
            i += 1;
        }

        (best_score, best_move)
    }

    /// Searches `state` by iterative deepening from depth 1 up to the configured depth,
    /// stopping once the time budget is spent; the score and move are those of the
    /// deepest depth whose search finished.
    pub fn search(&mut self, state: &GameState) -> (r: SearchResult)
        requires
            search_room(*state, old(self).settings().max_depth as int),
            table_scores_ok(old(self).table()),
        ensures
            final(self).settings() == old(self).settings(),
            table_scores_ok(final(self).table()),
            final(self).keys() == old(self).keys(),
            r.nodes == final(self).node_count(),
            search_outcome(*state, old(self).settings(), r),
            r.score == search_value(old(self).keys(), old(self).table(), *state, r.depth as int).0,
            r.best_move == search_value(old(self).keys(), old(self).table(), *state, r.depth as int).1,
            old(self).settings().time_limit_ms is None ==> {
                let v = search_value(
                    old(self).keys(),
                    old(self).table(),
                    *state,
                    old(self).settings().max_depth as int,
                );
                &&& r.score == v.0
                &&& r.best_move == v.1
                &&& final(self).table() == v.2
                &&& r.nodes == saturated(v.3 as int)
            },
            old(self).settings().time_limit_ms is None && old(self).settings().max_depth >= 1 && legal_list(
                *state,
            ).len() > 0 && material_bounded(*state) && table_bounded(old(self).table()) ==> r.best_move is Some,
    {
        proof {
            if self.config.time_limit_ms is None && self.config.max_depth >= 1 && legal_list(*state).len() > 0
                && material_bounded(*state) && table_bounded(self.tt@) {
                law_search_returns_a_move(self.zobrist.keys(), self.tt@, *state, self.config.max_depth as int);
            }
        }
        let ghost keys = self.zobrist.keys();
        let ghost tt0 = self.tt@;
        self.start_time = clock_now();
        self.nodes = 0;
        self.out_of_time = false;

        let mut best_move: Option<Move> = None;
        let mut best_score: i32 = 0;
        let mut reached_depth: u8 = 0;

        let max_depth = self.config.max_depth;
        let mut depth: u16 = 1;
        while depth <= max_depth as u16
            invariant
                1 <= depth <= max_depth as u16 + 1,
                max_depth == old(self).config.max_depth,
                self.config == old(self).config,
                search_room(*state, max_depth as int),
                table_scores_ok(self.tt@),
                reached_depth as u16 == depth - 1,
                best_move matches Some(m) ==> legal_move(*state, m),
                reached_depth <= max_depth,
                reached_depth == 0 ==> best_move is None && best_score == 0,
                reached_depth >= 1 && (forall|m: Move| !legal_move(*state, m)) ==> best_move is None
                    && best_score == terminal_score(*state),
                self.zobrist == old(self).zobrist,
                keys == self.zobrist.keys(),
                tt0 == old(self).tt@,
                old(self).config.time_limit_ms is None ==> !self.out_of_time,
                best_score as int == search_value(keys, tt0, *state, reached_depth as int).0,
                best_move == search_value(keys, tt0, *state, reached_depth as int).1,
                !self.out_of_time ==> self.tt@ == search_value(keys, tt0, *state, reached_depth as int).2
                    && self.nodes == saturated(search_value(keys, tt0, *state, reached_depth as int).3 as int),
            ensures
                self.zobrist == old(self).zobrist,
                old(self).config.time_limit_ms is None ==> depth == max_depth as u16 + 1 && !self.out_of_time,
                reached_depth as u16 == depth - 1,
                self.config == old(self).config,
                table_scores_ok(self.tt@),
                best_move matches Some(m) ==> legal_move(*state, m),
                reached_depth == 0 ==> best_move is None && best_score == 0,
                reached_depth >= 1 && (forall|m: Move| !legal_move(*state, m)) ==> best_move is None
                    && best_score == terminal_score(*state),
                best_score as int == search_value(keys, tt0, *state, reached_depth as int).0,
                best_move == search_value(keys, tt0, *state, reached_depth as int).1,
                !self.out_of_time ==> self.tt@ == search_value(keys, tt0, *state, reached_depth as int).2
                    && self.nodes == saturated(search_value(keys, tt0, *state, reached_depth as int).3 as int),
            decreases max_depth as u16 + 1 - depth,
        {
            if self.time_exceeded() {
                break;
            }
            let ghost prev = search_value(keys, tt0, *state, reached_depth as int);
            let ghost v = root_search(keys, self.tt@, *state, depth as int, -MATE_SCORE as int, MATE_SCORE as int);
            let (score, mv) = self.root_negamax(state, depth as i32, -MATE_SCORE, MATE_SCORE);
            proof {
                if !self.out_of_time {
                    lemma_saturated_add(prev.3 as int, v.3 as int);
                    lemma_search_value_step(keys, tt0, *state, depth as int);
                }
            }
            if self.time_exceeded() {
                break;
            }
            best_score = score;
            best_move = mv;
            reached_depth = depth as u8;
            depth += 1;
        }

        SearchResult { best_move, score: best_score, depth: reached_depth, nodes: self.nodes }
    }

    fn quiescence(&mut self, state: &GameState, alpha: i32, beta: i32) -> (r: i32)
        requires
            alpha > i32::MIN,
            beta > i32::MIN,
            state.fullmove_number + capture_potential(state.board@, state.en_passant) + 1 <= u32::MAX,
        ensures
            r > i32::MIN,
            r == quiesce(*state, alpha as int, beta as int).0,
            final(self).nodes == saturated(old(self).nodes + quiesce(*state, alpha as int, beta as int).1),
            final(self).config == old(self).config,
            final(self).zobrist == old(self).zobrist,
            final(self).tt@ == old(self).tt@,
            final(self).out_of_time == old(self).out_of_time,
        decreases capture_potential(state.board@, state.en_passant),
    {
        let ghost alpha0 = alpha as int;
        let mut lo = alpha;
        self.nodes = self.nodes.saturating_add(1);
        let stand_pat = evaluate(state);
        if stand_pat >= beta {
            return beta;
        }
        if stand_pat > lo {
            lo = stand_pat;
        }
        proof {
            lemma_pieces_bound(state.board@, 64);
        }
        let ghost raised = lo as int;
        let ghost base: int = old(self).nodes as int + 1;
        let ghost mut done: nat = 0;
        let moves = generate_legal_moves(state);
        let mut i: usize = 0;
        while i < moves.len()
            invariant
                lo > i32::MIN,
                beta > i32::MIN,
                state.fullmove_number + capture_potential(state.board@, state.en_passant) + 1 <= u32::MAX,
                forall|m: Move| #[trigger] moves@.contains(m) <==> legal_move(*state, m),
                moves@ == legal_list(*state),
                i <= moves@.len(),
                self.config == old(self).config,
                self.zobrist == old(self).zobrist,
                self.tt@ == old(self).tt@,
                self.out_of_time == old(self).out_of_time,
                self.nodes == saturated(base + done),
                base == old(self).nodes as int + 1,
                stand_pat == evaluation(state.board@, state.side_to_move),
                stand_pat < beta,
                alpha0 == alpha as int,
                raised == (if stand_pat > alpha0 { stand_pat as int } else { alpha0 }),
                quiesce_from(*state, 0, raised, beta as int) == (
                    quiesce_from(*state, i as int, lo as int, beta as int).0,
                    done + quiesce_from(*state, i as int, lo as int, beta as int).1,
                ),
            decreases moves@.len() - i,
        {
            let mv = moves[i];
            proof {
                assert(moves@.contains(mv));
                lemma_pseudo_legal_in_range(*state, mv);
                lemma_pieces_bound(state.board@, 64);
            }
            if state.board[mv.to].is_some() || mv.is_en_passant {
                let mut child = *state;
                child.make_move(mv);
                proof {
                    law_capture_shrinks(*state, mv);
                    lemma_pieces_bound(child.board@, 64);
                }
                let ghost alpha_before = lo as int;
                let ghost c = quiesce(child, -beta as int, -lo as int);
                let score = -self.quiescence(&child, -beta, -lo);
                proof {
                    assert(child == state_after(*state, mv));
                    assert(is_capture(*state, mv));
                    assert(score == -c.0);
                    lemma_saturated_add(base + done, c.1 as int);
                    done = done + c.1;
                }
                if score >= beta {
                    assert(quiesce_from(*state, i as int, alpha_before, beta as int) == (beta as int, c.1));
                    assert(quiesce(*state, alpha0, beta as int) == (
                        quiesce_from(*state, 0, raised, beta as int).0,
                        quiesce_from(*state, 0, raised, beta as int).1 + 1,
                    ));
                    return beta;
                }
                if score > lo {
                    lo = score;
                }
            }
            i += 1;
        }
        lo
    }

}

} // verus!
