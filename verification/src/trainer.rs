//! The logic of the self-play trainer: its random number generator, the score
//! tally, random openings, reading engine replies, deciding when a game is over, and
//! (in submodules) writing positions as FEN and reading the command line. Driving the
//! engine processes is left to the caller.

use vstd::prelude::*;
use vstd::wrapping::u64_specs;

pub mod config;
pub mod fen_round_trip;
pub mod fen_writer;

pub use config::{config_of_args, parse_config_args, Config, ConfigView};
pub use fen_writer::{
    castling_text, fen_char, fen_text, game_state_to_fen, piece_to_fen_char, rank_text_from, ranks_text,
    run_text, square_to_text,
};

use crate::engine::board::{promotion_letter, square_text_defined, uci_text, Color, Move, PieceType};
use crate::engine::game_state::{state_after, GameState};
use crate::engine::legal::{
    castle_path, generate_legal_moves, in_check, king_attacked, legal_list, legal_move, moves_playable,
};
use crate::engine::movegen::{
    castles_last, lemma_castling_is_no_king_step, lemma_move_determined, lemma_promotion_choice,
    lemma_pseudo_legal_in_range, promotion_choice, pseudo_legal,
};
use crate::text::{
    chars_of, nat_text, push_decimal, split_whitespace, split_ws, string_of, trim, trim_whitespace,
};
use crate::uci::{has_prefix, starts_with};

verus! {

/// One step of the trainer's linear congruential generator (Knuth's MMIX constants).
pub open spec fn lcg_step(state: u64) -> u64 {
    u64_specs::wrapping_add(u64_specs::wrapping_mul(state, 6364136223846793005), 1442695040888963407)
}

/// The trainer's random number generator: a 64-bit linear congruential generator.
pub struct SmallRng {
    pub state: u64,
}

impl SmallRng {
    pub fn new(seed: u64) -> (r: Self)
        ensures
            r.state == seed,
    {
        Self { state: seed }
    }

    pub fn next_u64(&mut self) -> (r: u64)
        ensures
            final(self).state == lcg_step(old(self).state),
            r == final(self).state,
    {
        self.state = self.state.wrapping_mul(6364136223846793005).wrapping_add(1442695040888963407);
        self.state
    }

    /// A draw reduced to an index below `len`.
    pub fn pick_index(&mut self, len: usize) -> (r: usize)
        requires
            len > 0,
        ensures
            final(self).state == lcg_step(old(self).state),
            r == final(self).state % (len as u64),
            r < len,
    {
        (self.next_u64() % len as u64) as usize
    }
}

/// The candidate's wins, draws and losses so far.
pub struct Score {
    pub wins: u32,
    pub draws: u32,
    pub losses: u32,
}

impl Default for Score {
    fn default() -> (r: Self)
        ensures
            r.wins == 0,
            r.draws == 0,
            r.losses == 0,
    {
        Score { wins: 0, draws: 0, losses: 0 }
    }
}

/// How a game went for the candidate: 1 a win, 0 a draw, -1 a loss.
pub open spec fn candidate_outcome(result: GameResult, candidate_is_white: bool) -> int {
    match result {
        GameResult::Draw => 0,
        GameResult::WhiteWin => if candidate_is_white { 1 } else { -1 },
        GameResult::BlackWin => if candidate_is_white { -1 } else { 1 },
    }
}

impl Score {
    /// Adds a finished game to the tally, seen from the candidate's side.
    pub fn record_result(&mut self, result: GameResult, candidate_is_white: bool)
        requires
            candidate_outcome(result, candidate_is_white) == 1 ==> old(self).wins < u32::MAX,
            candidate_outcome(result, candidate_is_white) == 0 ==> old(self).draws < u32::MAX,
            candidate_outcome(result, candidate_is_white) == -1 ==> old(self).losses < u32::MAX,
        ensures
            final(self).wins == old(self).wins + if candidate_outcome(result, candidate_is_white) == 1 { 1int } else { 0int },
            final(self).draws == old(self).draws + if candidate_outcome(result, candidate_is_white) == 0 { 1int } else { 0int },
            final(self).losses == old(self).losses + if candidate_outcome(result, candidate_is_white) == -1 { 1int } else { 0int },
    {
        match result {
            GameResult::Draw => self.draws += 1,
            GameResult::WhiteWin => if candidate_is_white {
                self.wins += 1;
            } else {
                self.losses += 1;
            },
            GameResult::BlackWin => if candidate_is_white {
                self.losses += 1;
            } else {
                self.wins += 1;
            },
        }
    }

    pub fn games(&self) -> (r: u32)
        requires
            self.wins + self.draws + self.losses <= u32::MAX,
        ensures
            r == self.wins + self.draws + self.losses,
    {
        self.wins + self.draws + self.losses
    }
}

/// Whether the candidate plays White in game `game_idx`: the colours alternate, and the
/// candidate opens the first game.
pub fn candidate_is_white(game_idx: u32) -> (r: bool)
    ensures
        r == (game_idx % 2 == 0),
{
    game_idx % 2 == 0
}

/// How a game ended.
#[derive(Copy, Clone, Debug, PartialEq, Eq, Structural)]
pub enum GameResult {
    WhiteWin,
    BlackWin,
    Draw,
}

/// The result of a game in `s` if it is over: the side to move without a legal move
/// is mated when in check (the other side wins), else stalemated (a draw).
pub open spec fn game_over(s: GameState) -> Option<GameResult> {
    if exists|m: Move| legal_move(s, m) {
        None
    } else if king_attacked(s.board@, s.side_to_move) {
        if s.side_to_move == Color::White {
            Some(GameResult::BlackWin)
        } else {
            Some(GameResult::WhiteWin)
        }
    } else {
        Some(GameResult::Draw)
    }
}

/// The result of the game if the side to move has no legal move.
pub fn game_over_result(state: &GameState) -> (r: Option<GameResult>)
    requires
        moves_playable(*state),
    ensures
        r == game_over(*state),
{
    let legal = generate_legal_moves(state);
    if legal.len() == 0 {
        proof {
            assert forall|m: Move| !legal_move(*state, m) by {
                if legal_move(*state, m) {
                    assert(legal@.contains(m));
                }
            }
        }
        let result = if in_check(state, state.side_to_move) {
            if state.side_to_move == Color::White {
                GameResult::BlackWin
            } else {
                GameResult::WhiteWin
            }
        } else {
            GameResult::Draw
        };
        return Some(result);
    }
    proof {
        assert(legal@.contains(legal@[0]));
    }
    None
}

// ----- random openings -----

/// The generator's state after `n` draws from `state`.
pub open spec fn lcg_steps(state: u64, n: nat) -> u64
    decreases n,
{
    if n == 0 {
        state
    } else {
        lcg_step(lcg_steps(state, (n - 1) as nat))
    }
}

/// The position reached from `s` by playing the moves of `line` in order.
pub open spec fn play_line(s: GameState, line: Seq<Move>) -> GameState
    decreases line.len(),
{
    if line.len() == 0 {
        s
    } else {
        state_after(play_line(s, line.drop_last()), line.last())
    }
}

/// Each move of `line` is legal in the position where it is played.
pub open spec fn legal_line(s: GameState, line: Seq<Move>) -> bool
    decreases line.len(),
{
    line.len() == 0 || (legal_line(s, line.drop_last()) && legal_move(
        play_line(s, line.drop_last()),
        line.last(),
    ))
}

/// The position and generator state after a random opening of up to `n` plies from `s`
/// with generator state `r`: each ply draws once and plays the legal move at the draw
/// modulo the number of legal moves, in the order they are listed; a position without
/// legal moves ends the opening.
pub open spec fn opening_after(s: GameState, r: u64, n: nat) -> (GameState, u64)
    decreases n,
{
    let moves = legal_list(s);
    if n == 0 || moves.len() == 0 {
        (s, r)
    } else {
        let r2 = lcg_step(r);
        opening_after(state_after(s, moves[(r2 % (moves.len() as u64)) as int]), r2, (n - 1) as nat)
    }
}

/// Plays up to `opening_plies` random legal moves, each picked by one draw of `rng`,
/// stopping early when the side to move has no legal move.
pub fn randomize_opening(state: &mut GameState, rng: &mut SmallRng, opening_plies: u32)
    requires
        old(state).fullmove_number + (opening_plies + 1) / 2 <= u32::MAX,
    ensures
        (*final(state), final(rng).state) == opening_after(*old(state), old(rng).state, opening_plies as nat),
        exists|line: Seq<Move>|
            {
                &&& line.len() <= opening_plies
                &&& legal_line(*old(state), line)
                &&& #[trigger] play_line(*old(state), line) == *final(state)
                &&& final(rng).state == lcg_steps(old(rng).state, line.len())
                &&& line.len() < opening_plies ==> forall|m: Move| !legal_move(*final(state), m)
            },
{
    let ghost s0 = *state;
    let ghost r0 = rng.state;
    let ghost mut line: Seq<Move> = Seq::empty();
    let mut k: u32 = 0;
    while k < opening_plies
        invariant
            k <= opening_plies,
            line.len() == k,
            legal_line(s0, line),
            play_line(s0, line) == *state,
            rng.state == lcg_steps(r0, line.len()),
            opening_after(s0, r0, opening_plies as nat) == opening_after(*state, rng.state, (opening_plies - k) as nat),
            state.fullmove_number + ((opening_plies - k) + (if state.side_to_move == Color::Black {
                1int
            } else {
                0int
            })) / 2 <= u32::MAX,
        ensures
            k < opening_plies ==> forall|m: Move| !legal_move(*state, m),
            opening_after(s0, r0, opening_plies as nat) == (*state, rng.state),
        decreases opening_plies - k,
    {
        let legal = generate_legal_moves(state);
        if legal.len() == 0 {
            proof {
                assert(opening_after(*state, rng.state, (opening_plies - k) as nat) == (*state, rng.state));
                assert forall|m: Move| !legal_move(*state, m) by {
                    if legal_move(*state, m) {
                        assert(legal@.contains(m));
                    }
                }
            }
            break;
        }
        let ghost before = *state;
        let ghost r_before = rng.state;
        let pick = rng.pick_index(legal.len());
        let mv = legal[pick];
        proof {
            assert(legal@.contains(mv));
            lemma_pseudo_legal_in_range(*state, mv);
            assert(mv == legal_list(before)[(rng.state % (legal@.len() as u64)) as int]);
            assert(opening_after(before, r_before, (opening_plies - k) as nat) == opening_after(
                state_after(before, mv),
                rng.state,
                (opening_plies - k - 1) as nat,
            ));
        }
        state.make_move(mv);
        proof {
            let old_line = line;
            line = line.push(mv);
            assert(line.drop_last() =~= old_line);
        }
        k += 1;
    }
    assert(play_line(s0, line) == *state);
}

// ----- reading an engine's reply -----

/// The legal move of `s` whose UCI text is `t` and whose castling flag is `castling`.
pub open spec fn move_named(s: GameState, t: Seq<char>, castling: bool) -> Option<Move> {
    if exists|m: Move| legal_move(s, m) && uci_text(m) == t && m.is_castling == castling {
        Some(choose|m: Move| legal_move(s, m) && uci_text(m) == t && m.is_castling == castling)
    } else {
        None
    }
}

/// The legal move of `s` that the UCI text `t` names; where a castling move and another
/// move share the text, the other one.
pub open spec fn move_of_uci(s: GameState, t: Seq<char>) -> Option<Move> {
    match move_named(s, t, false) {
        Some(m) => Some(m),
        None => move_named(s, t, true),
    }
}

/// The UCI text of a move on the board that promotes, if at all, to one of the four
/// promotion pieces gives back its squares and promotion.
proof fn lemma_uci_text_fields(m1: Move, m2: Move)
    requires
        m1.from < 64,
        m1.to < 64,
        m2.from < 64,
        m2.to < 64,
        m1.promotion matches Some(k) ==> promotion_choice(k),
        m2.promotion matches Some(k) ==> promotion_choice(k),
        uci_text(m1) == uci_text(m2),
    ensures
        m1.from == m2.from,
        m1.to == m2.to,
        m1.promotion == m2.promotion,
{
    let t1 = uci_text(m1);
    let t2 = uci_text(m2);
    assert(t1[0] == t2[0] && t1[1] == t2[1]);
    assert(t1[2] == t2[2] && t1[3] == t2[3]);
    assert(t1[0] as int == 97 + m1.from % 8 && t2[0] as int == 97 + m2.from % 8);
    assert(t1[1] as int == 49 + m1.from / 8 && t2[1] as int == 49 + m2.from / 8);
    assert(t1[2] as int == 97 + m1.to % 8 && t2[2] as int == 97 + m2.to % 8);
    assert(t1[3] as int == 49 + m1.to / 8 && t2[3] as int == 49 + m2.to / 8);
    assert(m1.from % 8 == m2.from % 8 && m1.from / 8 == m2.from / 8);
    assert(m1.to % 8 == m2.to % 8 && m1.to / 8 == m2.to / 8);
    if m1.promotion is Some || m2.promotion is Some {
        assert(t1.len() == 5 && t2.len() == 5);
        assert(m1.promotion is Some && m2.promotion is Some);
        let k1 = m1.promotion->0;
        let k2 = m2.promotion->0;
        assert(t1[4] == promotion_letter(k1));
        assert(t2[4] == promotion_letter(k2));
        assert(k1 == k2);
    }
}

/// Two legal moves with the same UCI text have the same squares and promotion.
proof fn lemma_uci_text_same_squares(s: GameState, m1: Move, m2: Move)
    requires
        legal_move(s, m1),
        legal_move(s, m2),
        uci_text(m1) == uci_text(m2),
    ensures
        m1.from == m2.from,
        m1.to == m2.to,
        m1.promotion == m2.promotion,
{
    assert(pseudo_legal(s, m1) && pseudo_legal(s, m2));
    lemma_pseudo_legal_in_range(s, m1);
    lemma_pseudo_legal_in_range(s, m2);
    lemma_promotion_choice(s, m1);
    lemma_promotion_choice(s, m2);
    lemma_uci_text_fields(m1, m2);
}

/// Two legal moves with the same UCI text and castling flag are the same move.
pub proof fn lemma_uci_text_determines(s: GameState, m1: Move, m2: Move)
    requires
        legal_move(s, m1),
        legal_move(s, m2),
        uci_text(m1) == uci_text(m2),
        m1.is_castling == m2.is_castling,
    ensures
        m1 == m2,
{
    lemma_uci_text_same_squares(s, m1, m2);
    assert(pseudo_legal(s, m1) && pseudo_legal(s, m2));
    lemma_move_determined(s, m1, m2);
}

/// In a list of exactly the legal moves with castling moves last, the first move with
/// UCI text `t` is the move that `t` names.
proof fn lemma_first_named(s: GameState, moves: Seq<Move>, i: int, t: Seq<char>)
    requires
        0 <= i < moves.len(),
        forall|m: Move| #[trigger] moves.contains(m) <==> legal_move(s, m),
        castles_last(moves),
        forall|j: int| 0 <= j < i ==> uci_text(#[trigger] moves[j]) != t,
        uci_text(moves[i]) == t,
    ensures
        move_of_uci(s, t) == Some(moves[i]),
{
    let m = moves[i];
    assert(moves.contains(m));
    let c = m.is_castling;
    assert(move_named(s, t, c) == Some(m)) by {
        let w = choose|w: Move| legal_move(s, w) && uci_text(w) == t && w.is_castling == c;
        lemma_uci_text_determines(s, w, m);
    }
    if c {
        assert(move_named(s, t, false) is None) by {
            if exists|w: Move| legal_move(s, w) && uci_text(w) == t && w.is_castling == false {
                let w = choose|w: Move| legal_move(s, w) && uci_text(w) == t && w.is_castling == false;
                assert(moves.contains(w));
                let k = choose|k: int| 0 <= k < moves.len() && moves[k] == w;
                lemma_uci_text_same_squares(s, w, m);
                assert(k != i);
            }
        }
    }
}

/// When no move of a list of exactly the legal moves has UCI text `t`, `t` names none.
proof fn lemma_none_named(s: GameState, moves: Seq<Move>, t: Seq<char>)
    requires
        forall|m: Move| #[trigger] moves.contains(m) <==> legal_move(s, m),
        forall|j: int| 0 <= j < moves.len() ==> uci_text(#[trigger] moves[j]) != t,
    ensures
        move_of_uci(s, t) is None,
{
    assert forall|c: bool| move_named(s, t, c) is None by {
        if exists|w: Move| legal_move(s, w) && uci_text(w) == t && w.is_castling == c {
            let w = choose|w: Move| legal_move(s, w) && uci_text(w) == t && w.is_castling == c;
            assert(moves.contains(w));
            let k = choose|k: int| 0 <= k < moves.len() && moves[k] == w;
            assert(uci_text(moves[k]) != t);
        }
    }
    assert(move_named(s, t, false) is None);
    assert(move_named(s, t, true) is None);
}

/// Law: the UCI text of a legal move names that move again, unless it is a castling move
/// of a king standing off its home square, where a plain king step with the same text
/// comes first.
pub proof fn law_uci_text_round_trip(s: GameState, m: Move)
    requires
        legal_move(s, m),
        m.is_castling ==> m.from == castle_path(s.side_to_move, m.to as int).0,
    ensures
        move_of_uci(s, uci_text(m)) == Some(m),
{
    let t = uci_text(m);
    let c = m.is_castling;
    assert(move_named(s, t, c) == Some(m)) by {
        let w = choose|w: Move| legal_move(s, w) && uci_text(w) == t && w.is_castling == c;
        lemma_uci_text_determines(s, w, m);
    }
    if c {
        assert(move_named(s, t, false) is None) by {
            if exists|w: Move| legal_move(s, w) && uci_text(w) == t && w.is_castling == false {
                let w = choose|w: Move| legal_move(s, w) && uci_text(w) == t && w.is_castling == false;
                lemma_uci_text_same_squares(s, w, m);
                assert(pseudo_legal(s, m) && pseudo_legal(s, w));
                lemma_castling_is_no_king_step(s, m, w);
            }
        }
    }
}

pub fn pick_legal_move_from_uci(state: &GameState, uci: &str) -> (r: Option<Move>)
    requires
        moves_playable(*state),
    ensures
        r == move_of_uci(*state, uci@),
{
    let wanted = uci.to_owned();
    let moves = generate_legal_moves(state);
    let mut i: usize = 0;
    while i < moves.len()
        invariant
            i <= moves@.len(),
            wanted@ == uci@,
            forall|m: Move| #[trigger] moves@.contains(m) <==> legal_move(*state, m),
            castles_last(moves@),
            forall|j: int| 0 <= j < i ==> uci_text(#[trigger] moves@[j]) != uci@,
        decreases moves@.len() - i,
    {
        let m = moves[i];
        proof {
            assert(moves@.contains(m));
            assert(pseudo_legal(*state, m));
            lemma_pseudo_legal_in_range(*state, m);
        }
        if m.to_uci() == wanted {
            proof {
                lemma_first_named(*state, moves@, i as int, uci@);
            }
            return Some(m);
        }
        i += 1;
    }
    proof {
        lemma_none_named(*state, moves@, uci@);
    }
    None
}

// ----- one game between two engines -----

/// Whether the candidate engine moves when `side` is to move.
pub open spec fn candidate_to_move(side: Color, candidate_is_white: bool) -> bool {
    (side == Color::White && candidate_is_white) || (side == Color::Black && !candidate_is_white)
}

/// What happens at a ply of a game: it is over, or one of the engines is asked to move.
#[derive(Copy, Clone, Debug, PartialEq, Eq, Structural)]
pub enum Turn {
    Over(GameResult),
    Ask { candidate: bool },
}

/// The decision at the start of each ply, after `plies_played` plies of a game limited to
/// `max_plies`: a draw once the limit is reached, the result when the side to move has
/// no legal move, else which engine to ask.
pub fn next_turn(state: &GameState, candidate_is_white: bool, plies_played: u32, max_plies: u32) -> (r: Turn)
    requires
        moves_playable(*state),
    ensures
        plies_played >= max_plies ==> r == Turn::Over(GameResult::Draw),
        plies_played < max_plies ==> match r {
            Turn::Over(res) => game_over(*state) == Some(res),
            Turn::Ask { candidate } => game_over(*state) is None && candidate == candidate_to_move(
                state.side_to_move,
                candidate_is_white,
            ),
        },
{
    if plies_played >= max_plies {
        return Turn::Over(GameResult::Draw);
    }
    match game_over_result(state) {
        Some(res) => Turn::Over(res),
        None => {
            let candidate = (state.side_to_move == Color::White && candidate_is_white) || (
            state.side_to_move == Color::Black && !candidate_is_white);
            Turn::Ask { candidate }
        },
    }
}

/// Plays the move an engine answered with, or explains why it cannot be played.
pub fn play_reply(state: &mut GameState, reply: &str) -> (r: Result<(), String>)
    requires
        moves_playable(*old(state)),
    ensures
        match move_of_uci(*old(state), reply@) {
            Some(m) => r is Ok && *final(state) == state_after(*old(state), m),
            None => *final(state) == *old(state) && (r matches Err(e) && e@
                == "engine returned illegal move: "@ + reply@),
        },
{
    match pick_legal_move_from_uci(state, reply) {
        Some(mv) => {
            proof {
                assert(legal_move(*state, mv));
                assert(pseudo_legal(*state, mv));
                lemma_pseudo_legal_in_range(*state, mv);
            }
            state.make_move(mv);
            Ok(())
        },
        None => {
            let mut e = "engine returned illegal move: ".to_owned();
            e.append(reply);
            Err(e)
        },
    }
}

// ----- talking to an engine -----

/// The command that sets an engine's position to `s`.
pub open spec fn position_command_text(s: GameState) -> Seq<char> {
    "position fen "@ + fen_text(s)
}

pub fn position_command(state: &GameState) -> (r: String)
    requires
        state.en_passant matches Some(sq) ==> square_text_defined(sq as int),
    ensures
        r@ == position_command_text(*state),
{
    let mut r = "position fen ".to_owned();
    let fen = game_state_to_fen(state);
    r.append(fen.as_str());
    r
}

/// The command that asks an engine to think for `ms` milliseconds.
pub fn go_command(ms: u64) -> (r: String)
    ensures
        r@ == "go movetime "@ + nat_text(ms as nat),
{
    let mut r = "go movetime ".to_owned();
    push_decimal(&mut r, ms);
    r
}

/// The line `buf`, trimmed, when it starts with `prefix`.
pub open spec fn line_with_prefix(buf: Seq<char>, prefix: Seq<char>) -> Option<Seq<char>> {
    let t = trim(buf);
    if starts_with(t, prefix) {
        Some(t)
    } else {
        None
    }
}

pub fn match_line(buf: &str, prefix: &str) -> (r: Option<String>)
    ensures
        match (r, line_with_prefix(buf@, prefix@)) {
            (Some(a), Some(b)) => a@ == b,
            (None, None) => true,
            _ => false,
        },
{
    let chars = chars_of(buf);
    let line = trim_whitespace(&chars);
    if has_prefix(&line, prefix) {
        Some(string_of(&line))
    } else {
        None
    }
}

/// The move of a `bestmove` line: its second white-space separated word.
pub open spec fn bestmove_text(line: Seq<char>) -> Result<Seq<char>, Seq<char>> {
    let words = split_ws(line);
    if words.len() >= 2 {
        Ok(words[1])
    } else {
        Err("malformed bestmove line: "@ + line)
    }
}

pub fn bestmove_of_line(line: &str) -> (r: Result<String, String>)
    ensures
        match (r, bestmove_text(line@)) {
            (Ok(a), Ok(b)) => a@ == b,
            (Err(a), Err(b)) => a@ == b,
            _ => false,
        },
{
    let chars = chars_of(line);
    let words = split_whitespace(&chars);
    if words.len() >= 2 {
        Ok(string_of(&words[1]))
    } else {
        let mut e = "malformed bestmove line: ".to_owned();
        e.append(line);
        Err(e)
    }
}

} // verus!
