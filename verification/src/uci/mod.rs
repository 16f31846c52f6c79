//! The UCI front end: reads one command line at a time, updates the engine's
//! position and search settings, and answers with the lines to print.

use vstd::prelude::*;

use crate::engine::board::{promotion_letter, uci_text, Move, PieceType};
use crate::engine::fen::{
    fen_fields_parse, holds_position, lemma_state_of, parse_fen_fields, start_position,
    startpos_state, state_of,
};
use crate::engine::game_state::{state_after, GameState};
use crate::engine::legal::{
    castle_path, generate_legal_moves, legal_move, lemma_startpos_has_moves, moves_playable,
};
use crate::engine::movegen::{
    castles_last, lemma_castling_is_no_king_step, lemma_move_determined, lemma_promotion_choice,
    lemma_pseudo_legal_in_range, promotion_choice, pseudo_legal,
};
use crate::search::searcher::{
    lemma_searcher_fields, search_room, table_scores_ok, SearchConfig, Searcher,
};
use crate::search::mate_bound::{
    law_search_returns_a_move, lemma_startpos_material_bounded, table_bounded,
};
use crate::search::searcher::{saturated, search_outcome, search_value, SearchResult};
use crate::search::tt::{seeded_keys, TTEntry};
use crate::text::{
    byte_boundary, chars_of, int_text, is_byte_boundary, is_text, lemma_utf8_ascii_prefix, nat_text,
    natural_of_text,
    parse_natural, push_decimal, push_signed, split_whitespace, split_ws, trim, trim_end, trim_start,
    trim_whitespace,
    utf8_len, utf8_len_capped, views,
};

verus! {

/// The square that characters `i` and `i + 1` of `t` name (file letter, rank digit).
pub open spec fn square_at(t: Seq<char>, i: int) -> Option<usize> {
    if 0 <= i && i + 1 < t.len() && 'a' <= t[i] <= 'h' && '1' <= t[i + 1] <= '8' {
        Some(((t[i + 1] as int - '1' as int) * 8 + (t[i] as int - 'a' as int)) as usize)
    } else {
        None
    }
}

/// The piece a UCI promotion letter asks for.
pub open spec fn promotion_of_char(c: char) -> Option<PieceType> {
    if c == 'n' {
        Some(PieceType::Knight)
    } else if c == 'b' {
        Some(PieceType::Bishop)
    } else if c == 'r' {
        Some(PieceType::Rook)
    } else if c == 'q' {
        Some(PieceType::Queen)
    } else {
        None
    }
}

/// The from-square, to-square and promotion that a UCI move text names: at least four
/// bytes, two squares, and a promotion letter when it is exactly five bytes long.
pub open spec fn uci_move_fields(t: Seq<char>) -> Option<(usize, usize, Option<PieceType>)> {
    if utf8_len(t) < 4 {
        None
    } else {
        match (square_at(t, 0), square_at(t, 2)) {
            (Some(from), Some(to)) => Some(
                (from, to, if utf8_len(t) == 5 { promotion_of_char(t[4]) } else { None }),
            ),
            _ => None,
        }
    }
}

/// The text of a move can be cut at bytes 2 and 4 where the reader cuts it.
pub open spec fn uci_move_text_ok(t: Seq<char>) -> bool {
    utf8_len(t) < 4 || (byte_boundary(t, 2) && (square_at(t, 0) is None || byte_boundary(t, 4)))
}

/// The legal move of `s` with these squares, promotion and castling flag, if any.
pub open spec fn legal_match(
    s: GameState,
    from: usize,
    to: usize,
    promotion: Option<PieceType>,
    castling: bool,
) -> Option<Move> {
    if exists|m: Move|
        legal_move(s, m) && m.from == from && m.to == to && m.promotion == promotion
            && m.is_castling == castling {
        Some(
            choose|m: Move|
                legal_move(s, m) && m.from == from && m.to == to && m.promotion == promotion
                    && m.is_castling == castling,
        )
    } else {
        None
    }
}

/// The legal move of `s` that a UCI move text names: the one that is not castling if
/// there is one, else the castling move.
pub open spec fn uci_move_in(s: GameState, t: Seq<char>) -> Option<Move> {
    match uci_move_fields(t) {
        None => None,
        Some((from, to, promotion)) => match legal_match(s, from, to, promotion, false) {
            Some(m) => Some(m),
            None => legal_match(s, from, to, promotion, true),
        },
    }
}

fn square_at_exec(t: &Vec<char>, i: usize) -> (r: Option<usize>)
    requires
        i < 8,
    ensures
        r == square_at(t@, i as int),
{
    if i + 1 < t.len() && 'a' <= t[i] && t[i] <= 'h' && '1' <= t[i + 1] && t[i + 1] <= '8' {
        let f = (t[i] as u32 - 'a' as u32) as usize;
        let r = (t[i + 1] as u32 - '1' as u32) as usize;
        Some(r * 8 + f)
    } else {
        None
    }
}

fn parse_uci_move(state: &GameState, text: &Vec<char>) -> (r: Option<Move>)
    requires
        moves_playable(*state),
        uci_move_text_ok(text@),
    ensures
        r == uci_move_in(*state, text@),
{
    let len = utf8_len_capped(text);
    if len < 4 {
        return None;
    }
    let from = match square_at_exec(text, 0) {
        Some(sq) => sq,
        None => {
            return None;
        },
    };
    let to = match square_at_exec(text, 2) {
        Some(sq) => sq,
        None => {
            return None;
        },
    };
    proof {
        lemma_utf8_ascii_prefix(text@, 4);
        if text@.len() == 4 {
            assert(text@.take(4) =~= text@);
        }
    }
    let promotion = if len == 5 {
        match text[4] {
            'n' => Some(PieceType::Knight),
            'b' => Some(PieceType::Bishop),
            'r' => Some(PieceType::Rook),
            'q' => Some(PieceType::Queen),
            _ => None,
        }
    } else {
        None
    };
    assert(uci_move_fields(text@) == Some((from, to, promotion)));

    let moves = generate_legal_moves(state);
    let mut i: usize = 0;
    while i < moves.len()
        invariant
            i <= moves@.len(),
            forall|m: Move| #[trigger] moves@.contains(m) <==> legal_move(*state, m),
            castles_last(moves@),
            uci_move_fields(text@) == Some((from, to, promotion)),
            forall|j: int|
                0 <= j < i ==> !((#[trigger] moves@[j]).from == from && moves@[j].to == to
                    && moves@[j].promotion == promotion),
        decreases moves@.len() - i,
    {
        let m = moves[i];
        if m.from == from && m.to == to && m.promotion == promotion {
            proof {
                assert(moves@.contains(m));
                let c = m.is_castling;
                assert(legal_match(*state, from, to, promotion, c) == Some(m)) by {
                    let w = choose|w: Move|
                        legal_move(*state, w) && w.from == from && w.to == to && w.promotion == promotion
                            && w.is_castling == c;
                    lemma_move_determined(*state, w, m);
                }
                if c {
                    assert(legal_match(*state, from, to, promotion, false) is None) by {
                        if exists|w: Move|
                            legal_move(*state, w) && w.from == from && w.to == to && w.promotion
                                == promotion && w.is_castling == false {
                            let w = choose|w: Move|
                                legal_move(*state, w) && w.from == from && w.to == to && w.promotion
                                    == promotion && w.is_castling == false;
                            assert(moves@.contains(w));
                            let k = choose|k: int| 0 <= k < moves@.len() && moves@[k] == w;
                            assert(moves@[i as int] == m);
                        }
                    }
                }
                assert(uci_move_fields(text@) == Some((from, to, promotion)));
                assert(uci_move_in(*state, text@) == Some(m));
            }
            return Some(m);
        }
        i += 1;
    }
    proof {
        assert forall|c: bool| legal_match(*state, from, to, promotion, c) is None by {
            if exists|w: Move|
                legal_move(*state, w) && w.from == from && w.to == to && w.promotion == promotion
                    && w.is_castling == c {
                let w = choose|w: Move|
                    legal_move(*state, w) && w.from == from && w.to == to && w.promotion == promotion
                        && w.is_castling == c;
                assert(moves@.contains(w));
                let k = choose|k: int| 0 <= k < moves@.len() && moves@[k] == w;
            }
        }
    }
    None
}

/// The UCI text of a move on the board that promotes, if at all, to one of the four
/// promotion pieces reads back as its squares and promotion.
proof fn lemma_uci_text_fields(m: Move)
    requires
        m.from < 64,
        m.to < 64,
        m.promotion matches Some(k) ==> promotion_choice(k),
    ensures
        uci_move_text_ok(uci_text(m)),
        uci_move_fields(uci_text(m)) == Some((m.from, m.to, m.promotion)),
{
    let t = uci_text(m);
    assert(t[0] as int == 97 + m.from % 8);
    assert(t[1] as int == 49 + m.from / 8);
    assert(t[2] as int == 97 + m.to % 8);
    assert(t[3] as int == 49 + m.to / 8);
    if let Some(k) = m.promotion {
        assert(t[4] == promotion_letter(k));
        assert(promotion_of_char(t[4]) == Some(k));
    }
    assert forall|i: int| 0 <= i < t.len() implies (#[trigger] t[i] as u32) < 0x80 by {}
    lemma_utf8_ascii_prefix(t, t.len() as int);
    assert(t.take(t.len() as int) =~= t);
    lemma_utf8_ascii_prefix(t, 2);
    lemma_utf8_ascii_prefix(t, 4);
    assert(byte_boundary(t, 2));
    assert(byte_boundary(t, 4));
}

/// Law: the UCI text of a legal move, as the engine writes it after `bestmove`, is read
/// back by `position ... moves` as that move, unless it is a castling move of a king
/// standing off its home square, where a plain king step to the same square comes first.
pub proof fn law_uci_move_text_round_trip(s: GameState, m: Move)
    requires
        legal_move(s, m),
        m.is_castling ==> m.from == castle_path(s.side_to_move, m.to as int).0,
    ensures
        uci_move_text_ok(uci_text(m)),
        uci_move_in(s, uci_text(m)) == Some(m),
{
    assert(pseudo_legal(s, m));
    lemma_pseudo_legal_in_range(s, m);
    lemma_promotion_choice(s, m);
    lemma_uci_text_fields(m);
    let c = m.is_castling;
    assert(legal_match(s, m.from, m.to, m.promotion, c) == Some(m)) by {
        let w = choose|w: Move|
            legal_move(s, w) && w.from == m.from && w.to == m.to && w.promotion == m.promotion
                && w.is_castling == c;
        assert(pseudo_legal(s, w));
        lemma_move_determined(s, w, m);
    }
    if c {
        assert(legal_match(s, m.from, m.to, m.promotion, false) is None) by {
            if exists|w: Move|
                legal_move(s, w) && w.from == m.from && w.to == m.to && w.promotion == m.promotion
                    && w.is_castling == false {
                let w = choose|w: Move|
                    legal_move(s, w) && w.from == m.from && w.to == m.to && w.promotion == m.promotion
                        && w.is_castling == false;
                assert(pseudo_legal(s, w));
                lemma_castling_is_no_king_step(s, m, w);
            }
        }
    }
}

/// The search settings after a `go` command's `depth N` and `movetime MS` options,
/// read from token `i` on; an option whose value does not read leaves the setting.
pub open spec fn go_scan(cfg: SearchConfig, toks: Seq<Seq<char>>, i: int) -> SearchConfig
    decreases toks.len() - i,
{
    if i >= toks.len() {
        cfg
    } else if toks[i] == "depth"@ && i + 1 < toks.len() {
        let next = match natural_of_text(toks[i + 1], 255) {
            Some(d) => SearchConfig { max_depth: d as u8, time_limit_ms: cfg.time_limit_ms },
            None => cfg,
        };
        go_scan(next, toks, i + 2)
    } else if toks[i] == "movetime"@ && i + 1 < toks.len() {
        let next = match natural_of_text(toks[i + 1], u64::MAX as int) {
            Some(ms) => SearchConfig { max_depth: cfg.max_depth, time_limit_ms: Some(ms as u64) },
            None => cfg,
        };
        go_scan(next, toks, i + 2)
    } else {
        go_scan(cfg, toks, i + 1)
    }
}

/// The search settings after the `go` command `line`.
pub open spec fn go_config(cfg: SearchConfig, line: Seq<char>) -> SearchConfig {
    go_scan(cfg, split_ws(line), 1)
}

/// The index of the first `w` in `toks` from `i` on, or `toks.len()`.
pub open spec fn index_of(toks: Seq<Seq<char>>, w: Seq<char>, i: int) -> int
    decreases toks.len() - i,
{
    if i >= toks.len() {
        toks.len() as int
    } else if toks[i] == w {
        i
    } else {
        index_of(toks, w, i + 1)
    }
}

/// Playing the move texts `toks[k..]` from `s`, skipping those that name no legal move.
pub open spec fn replay(s: GameState, toks: Seq<Seq<char>>, k: int) -> GameState
    decreases toks.len() - k,
{
    if k >= toks.len() {
        s
    } else {
        let next = match uci_move_in(s, toks[k]) {
            Some(m) => state_after(s, m),
            None => s,
        };
        replay(next, toks, k + 1)
    }
}

/// The position a `position` command starts from, and where its remaining tokens begin:
/// `startpos`, or `fen` and six fields (the start position when they do not read).
pub open spec fn position_base(toks: Seq<Seq<char>>) -> Option<(GameState, int)> {
    if toks.len() < 2 {
        None
    } else if toks[1] == "startpos"@ {
        Some((startpos_state(), 2))
    } else if toks[1] == "fen"@ {
        if toks.len() < 8 {
            None
        } else {
            let base = match fen_fields_parse(toks.subrange(2, 8)) {
                Ok(p) => state_of(p),
                Err(_) => startpos_state(),
            };
            Some((base, 8))
        }
    } else {
        None
    }
}

/// The position after the `position` command `line`: its base position with the moves
/// after the first `moves` token played; no change when the command is malformed.
pub open spec fn position_command(cur: GameState, line: Seq<char>) -> GameState {
    let toks = split_ws(line);
    match position_base(toks) {
        None => cur,
        Some((base, start)) => replay(base, toks, index_of(toks, "moves"@, start) + 1),
    }
}

/// Replaying `toks[k..]` from `s` can neither overflow the move counter nor cut a
/// move text inside a character.
pub open spec fn replay_ok(s: GameState, toks: Seq<Seq<char>>, k: int) -> bool {
    &&& s.fullmove_number + toks.len() - k <= u32::MAX
    &&& forall|j: int| k <= j < toks.len() ==> uci_move_text_ok(#[trigger] toks[j])
}

pub open spec fn position_ok(line: Seq<char>) -> bool {
    let toks = split_ws(line);
    match position_base(toks) {
        None => true,
        Some((base, start)) => replay_ok(base, toks, index_of(toks, "moves"@, start) + 1),
    }
}

pub enum UciCommand {
    Uci,
    IsReady,
    Position,
    Go,
    NewGame,
    Quit,
    Other,
}

pub open spec fn starts_with(s: Seq<char>, p: Seq<char>) -> bool {
    p.len() <= s.len() && s.take(p.len() as int) == p
}

/// Which command a (trimmed) line is, checked in this order.
pub open spec fn command_of(line: Seq<char>) -> UciCommand {
    if line == "uci"@ {
        UciCommand::Uci
    } else if line == "isready"@ {
        UciCommand::IsReady
    } else if starts_with(line, "position"@) {
        UciCommand::Position
    } else if starts_with(line, "go"@) {
        UciCommand::Go
    } else if line == "ucinewgame"@ {
        UciCommand::NewGame
    } else if line == "quit"@ {
        UciCommand::Quit
    } else {
        UciCommand::Other
    }
}

/// Handling `raw` in position `st` with settings `cfg` stays within the machine's
/// limits (the move counter's range, character boundaries).
pub open spec fn command_safe(st: GameState, cfg: SearchConfig, raw: Seq<char>) -> bool {
    let line = trim(raw);
    match command_of(line) {
        UciCommand::Position => position_ok(line),
        UciCommand::Go => search_room(st, go_config(cfg, line).max_depth as int),
        _ => true,
    }
}

/// The answer to `go` for a search result: the search info and best move, or the null move.
pub open spec fn go_reply(r: SearchResult) -> Seq<Seq<char>> {
    match r.best_move {
        Some(m) => seq![
            "info depth "@ + nat_text(r.depth as nat) + " score cp "@ + int_text(r.score as int)
                + " nodes "@ + nat_text(r.nodes as nat),
            "bestmove "@ + uci_text(m),
        ],
        None => seq!["bestmove 0000"@],
    }
}

pub open spec fn line_views(v: Seq<String>) -> Seq<Seq<char>> {
    v.map_values(|x: String| x@)
}

pub(crate) fn has_prefix(v: &Vec<char>, lit: &str) -> (r: bool)
    ensures
        r == starts_with(v@, lit@),
{
    let w = chars_of(lit);
    if w.len() > v.len() {
        return false;
    }
    let mut i: usize = 0;
    while i < w.len()
        invariant
            i <= w@.len() <= v@.len(),
            w@ == lit@,
            forall|j: int| 0 <= j < i ==> v@[j] == w@[j],
        decreases w@.len() - i,
    {
        if v[i] != w[i] {
            assert(v@.take(w@.len() as int)[i as int] != w@[i as int]);
            return false;
        }
        i += 1;
    }
    assert(v@.take(w@.len() as int) =~= w@);
    true
}

fn copy_chars(v: &Vec<char>) -> (r: Vec<char>)
    ensures
        r@ == v@,
{
    let mut r: Vec<char> = Vec::new();
    let mut i: usize = 0;
    while i < v.len()
        invariant
            i <= v@.len(),
            r@ == v@.take(i as int),
        decreases v@.len() - i,
    {
        r.push(v[i]);
        i += 1;
        assert(r@ =~= v@.take(i as int));
    }
    assert(v@.take(v@.len() as int) =~= v@);
    r
}

fn text_line(lit: &str) -> (r: String)
    ensures
        r@ == lit@,
{
    lit.to_owned()
}

/// The position a `position` command starts from and the index of its first
/// remaining token, or `None` when the command is malformed.
fn position_start(toks: &Vec<Vec<char>>) -> (r: Option<(GameState, usize)>)
    ensures
        match (r, position_base(views(toks@))) {
            (None, None) => true,
            (Some((s, k)), Some((b, j))) => s == b && k == j,
            _ => false,
        },
{
    let ghost tv = views(toks@);
    if toks.len() < 2 {
        return None;
    }
    assert(tv[1] == toks@[1]@);
    if is_text(&toks[1], "startpos") {
        return Some((start_position(), 2));
    }
    if is_text(&toks[1], "fen") {
        if toks.len() < 8 {
            return None;
        }
        let mut fields: Vec<Vec<char>> = Vec::new();
        let mut k: usize = 2;
        while k < 8
            invariant
                2 <= k <= 8,
                toks@.len() >= 8,
                tv == views(toks@),
                views(fields@) == tv.subrange(2, k as int),
            decreases 8 - k,
        {
            let c = copy_chars(&toks[k]);
            let ghost before = views(fields@);
            fields.push(c);
            assert(views(fields@) =~= before.push(c@));
            assert(tv[k as int] == toks@[k as int]@);
            k += 1;
            assert(views(fields@) =~= tv.subrange(2, k as int));
        }
        let base = match parse_fen_fields(&fields) {
            Ok(s) => {
                proof {
                    lemma_state_of(s, fen_fields_parse(views(fields@))->Ok_0);
                }
                s
            },
            Err(_) => start_position(),
        };
        return Some((base, 8));
    }
    None
}

/// The index of the first token equal to `lit` from `i` on, or the number of tokens.
fn find_token(toks: &Vec<Vec<char>>, lit: &str, i: usize) -> (r: usize)
    ensures
        r == index_of(views(toks@), lit@, i as int),
{
    let ghost tv = views(toks@);
    let mut k = i;
    if k >= toks.len() {
        return toks.len();
    }
    while k < toks.len()
        invariant
            i <= k <= toks@.len(),
            tv == views(toks@),
            index_of(tv, lit@, i as int) == index_of(tv, lit@, k as int),
        decreases toks@.len() - k,
    {
        assert(tv[k as int] == toks@[k as int]@);
        if is_text(&toks[k], lit) {
            return k;
        }
        k += 1;
    }
    k
}

fn replay_ok_exec(base: &GameState, toks: &Vec<Vec<char>>, k: usize) -> (r: bool)
    ensures
        r == replay_ok(*base, views(toks@), k as int),
{
    let ghost tv = views(toks@);
    let n = toks.len();
    let remaining: u64 = if k < n { (n - k) as u64 } else { 0 };
    if remaining > 0xffff_ffff - (base.fullmove_number as u64) {
        return false;
    }
    let mut j = k;
    while j < n
        invariant
            k <= j || j == k,
            n == toks@.len(),
            tv == views(toks@),
            forall|x: int| k <= x < j ==> crate::uci::uci_move_text_ok(#[trigger] tv[x]),
        decreases n - j,
    {
        assert(tv[j as int] == toks@[j as int]@);
        if !uci_move_text_ok_exec(&toks[j]) {
            return false;
        }
        j += 1;
    }
    true
}

fn uci_move_text_ok_exec(t: &Vec<char>) -> (r: bool)
    ensures
        r == uci_move_text_ok(t@),
{
    if utf8_len_capped(t) < 4 {
        return true;
    }
    if !is_byte_boundary(t, 2) {
        return false;
    }
    match square_at_exec(t, 0) {
        None => true,
        Some(_) => is_byte_boundary(t, 4),
    }
}

fn go_reply_lines(r: &SearchResult) -> (lines: Vec<String>)
    requires
        r.best_move matches Some(m) ==> m.from < 64 && m.to < 64,
    ensures
        line_views(lines@) == go_reply(*r),
{
    let mut lines: Vec<String> = Vec::new();
    match r.best_move {
        Some(best) => {
            let mut info = text_line("info depth ");
            push_decimal(&mut info, r.depth as u64);
            info.append(" score cp ");
            push_signed(&mut info, r.score);
            info.append(" nodes ");
            push_decimal(&mut info, r.nodes);
            let mut bm = text_line("bestmove ");
            let uci = best.to_uci();
            bm.append(uci.as_str());
            lines.push(info);
            lines.push(bm);
        },
        None => {
            lines.push(text_line("bestmove 0000"));
        },
    }
    assert(line_views(lines@) =~= go_reply(*r));
    lines
}

/// The search settings after the `go` command `line`.
fn go_settings(cfg: SearchConfig, line: &Vec<char>) -> (r: SearchConfig)
    ensures
        r == go_config(cfg, line@),
{
    let mut max_depth = cfg.max_depth;
    let mut time_limit_ms = cfg.time_limit_ms;
    let parts = split_whitespace(line);
    let ghost tv = views(parts@);
    let mut i: usize = 1;
    proof {
        assert(SearchConfig { max_depth, time_limit_ms } == cfg);
    }
    while i < parts.len()
        invariant
            1 <= i,
            tv == views(parts@),
            tv == split_ws(line@),
            go_scan(cfg, tv, 1) == go_scan(SearchConfig { max_depth, time_limit_ms }, tv, i as int),
        decreases parts@.len() - i,
    {
        assert(tv[i as int] == parts@[i as int]@);
        if is_text(&parts[i], "depth") && i + 1 < parts.len() {
            assert(tv[i + 1] == parts@[i + 1]@);
            match parse_natural(&parts[i + 1], 255) {
                Some(d) => {
                    max_depth = d as u8;
                },
                None => {},
            }
            i += 1;
        } else if is_text(&parts[i], "movetime") && i + 1 < parts.len() {
            assert(tv[i + 1] == parts@[i + 1]@);
            match parse_natural(&parts[i + 1], 0xffff_ffff_ffff_ffff) {
                Some(ms) => {
                    time_limit_ms = Some(ms);
                },
                None => {},
            }
            i += 1;
        }
        i += 1;
    }
    SearchConfig { max_depth, time_limit_ms }
}

pub struct UciEngine {
    state: GameState,
    searcher: Searcher,
}

impl UciEngine {
    /// Well-formedness: every score the transposition table holds can be negated.
    pub closed spec fn wf(&self) -> bool {
        table_scores_ok(self.searcher.table())
    }

    /// The current position.
    pub closed spec fn position(&self) -> GameState {
        self.state
    }

    /// The current search settings.
    pub closed spec fn settings(&self) -> SearchConfig {
        self.searcher.settings()
    }

    pub fn new(config: SearchConfig) -> (r: Self)
        ensures
            r.wf(),
            r.position() == startpos_state(),
            r.settings() == config,
            r.table() == Map::<u64, TTEntry>::empty(),
            r.keys() == seeded_keys(0xC0FFEE),
    {
        let state = start_position();
        Self { state, searcher: Searcher::new(config) }
    }

    /// The transposition table's contents.
    pub closed spec fn table(&self) -> Map<u64, TTEntry> {
        self.searcher.table()
    }

    /// The Zobrist keys the search hashes positions with.
    pub closed spec fn keys(&self) -> Seq<u64> {
        self.searcher.keys()
    }

    fn apply_go(&mut self, line: &Vec<char>)
        ensures
            final(self).settings() == go_config(old(self).settings(), line@),
            final(self).position() == old(self).position(),
            final(self).table() == old(self).table(),
            final(self).keys() == old(self).keys(),
    {
        proof {
            lemma_searcher_fields(&self.searcher);
        }
        let cfg = go_settings(self.searcher.config, line);
        self.searcher.config.max_depth = cfg.max_depth;
        self.searcher.config.time_limit_ms = cfg.time_limit_ms;
        proof {
            lemma_searcher_fields(&self.searcher);
        }
    }

    fn apply_position(&mut self, line: &Vec<char>)
        requires
            position_ok(line@),
        ensures
            final(self).position() == position_command(old(self).position(), line@),
            final(self).settings() == old(self).settings(),
            final(self).table() == old(self).table(),
            final(self).keys() == old(self).keys(),
    {
        let parts = split_whitespace(line);
        let ghost tv = views(parts@);
        let (mut state, first) = match position_start(&parts) {
            Some(start) => start,
            None => {
                return;
            },
        };
        let pos = find_token(&parts, "moves", first);
        if pos < parts.len() {
            let ghost base = state;
            let mut k = pos + 1;
            while k < parts.len()
                invariant
                    pos < k <= parts@.len(),
                    tv == views(parts@),
                    tv == split_ws(line@),
                    replay(base, tv, pos + 1) == replay(state, tv, k as int),
                    replay_ok(state, tv, k as int),
                decreases parts@.len() - k,
            {
                assert(tv[k as int] == parts@[k as int]@);
                assert(uci_move_text_ok(tv[k as int]));
                let next = match parse_uci_move(&state, &parts[k]) {
                    Some(mv) => {
                        proof {
                            lemma_pseudo_legal_in_range(state, mv);
                        }
                        let mut after = state;
                        after.make_move(mv);
                        after
                    },
                    None => state,
                };
                state = next;
                k += 1;
            }
        }
        self.state = state;
    }

    /// Whether handling `line` stays within the machine's limits; where it does not,
    /// handling it would overflow the move counter or cut a move text inside a character.
    pub fn command_is_safe(&self, line: &str) -> (r: bool)
        ensures
            r == command_safe(self.position(), self.settings(), line@),
    {
        let raw = chars_of(line);
        let line = trim_whitespace(&raw);
        if is_text(&line, "uci") || is_text(&line, "isready") {
            return true;
        }
        if has_prefix(&line, "position") {
            let parts = split_whitespace(&line);
            return match position_start(&parts) {
                None => true,
                Some((base, first)) => {
                    let pos = find_token(&parts, "moves", first);
                    if pos < parts.len() {
                        replay_ok_exec(&base, &parts, pos + 1)
                    } else {
                        proof {
                            assert(replay_ok(base, views(parts@), pos + 1));
                        }
                        true
                    }
                },
            };
        }
        if has_prefix(&line, "go") {
            proof {
                lemma_searcher_fields(&self.searcher);
            }
            let cfg = go_settings(self.searcher.config, &line);
            return (self.state.fullmove_number as u64) + (cfg.max_depth as u64) + 66 <= 0xffff_ffff;
        }
        true
    }

    /// Handles one input line and gives whether to go on reading, with the lines to print.
    pub fn handle_command(&mut self, line: &str) -> (r: (bool, Vec<String>))
        requires
            old(self).wf(),
            command_safe(old(self).position(), old(self).settings(), line@),
        ensures
            final(self).wf(),
            final(self).keys() == old(self).keys(),
            !(command_of(trim(line@)) is Go) ==> final(self).table() == old(self).table(),
            match command_of(trim(line@)) {
                UciCommand::Uci => r.0 && line_views(r.1@) == seq![
                    "id name ChessBaseline"@,
                    "id author Codex"@,
                    "uciok"@,
                ] && final(self).position() == old(self).position() && final(self).settings()
                    == old(self).settings(),
                UciCommand::IsReady => r.0 && line_views(r.1@) == seq!["readyok"@]
                    && final(self).position() == old(self).position() && final(self).settings()
                    == old(self).settings(),
                UciCommand::Position => r.0 && r.1@.len() == 0 && final(self).position()
                    == position_command(old(self).position(), trim(line@)) && final(self).settings()
                    == old(self).settings(),
                UciCommand::Go => r.0 && final(self).position() == old(self).position()
                    && final(self).settings() == go_config(old(self).settings(), trim(line@))
                    && exists|res: SearchResult|
                    search_outcome(old(self).position(), final(self).settings(), res)
                        && line_views(r.1@) == go_reply(res)
                        && res.score == search_value(
                        old(self).keys(),
                        old(self).table(),
                        old(self).position(),
                        res.depth as int,
                    ).0 && res.best_move == search_value(
                        old(self).keys(),
                        old(self).table(),
                        old(self).position(),
                        res.depth as int,
                    ).1 && (final(self).settings().time_limit_ms is None
                        ==> {
                        let v = search_value(
                            old(self).keys(),
                            old(self).table(),
                            old(self).position(),
                            final(self).settings().max_depth as int,
                        );
                        &&& res.score == v.0
                        &&& res.best_move == v.1
                        &&& res.nodes == saturated(v.3 as int)
                        &&& final(self).table() == v.2
                    }),
                UciCommand::NewGame => r.0 && r.1@.len() == 0 && final(self).position()
                    == startpos_state() && final(self).settings() == old(self).settings(),
                UciCommand::Quit => !r.0 && r.1@.len() == 0 && final(self).position()
                    == old(self).position() && final(self).settings() == old(self).settings(),
                UciCommand::Other => r.0 && r.1@.len() == 0 && final(self).position()
                    == old(self).position() && final(self).settings() == old(self).settings(),
            },
    {
        let raw = chars_of(line);
        let line = trim_whitespace(&raw);
        let mut lines: Vec<String> = Vec::new();
        if is_text(&line, "uci") {
            lines.push(text_line("id name ChessBaseline"));
            lines.push(text_line("id author Codex"));
            lines.push(text_line("uciok"));
            assert(line_views(lines@) =~= seq!["id name ChessBaseline"@, "id author Codex"@, "uciok"@]);
        } else if is_text(&line, "isready") {
            lines.push(text_line("readyok"));
            assert(line_views(lines@) =~= seq!["readyok"@]);
        } else if has_prefix(&line, "position") {
            self.apply_position(&line);
        } else if has_prefix(&line, "go") {
            self.apply_go(&line);
            let result = self.searcher.search(&self.state);
            proof {
                if let Some(m) = result.best_move {
                    lemma_pseudo_legal_in_range(self.state, m);
                }
            }
            lines = go_reply_lines(&result);
        } else if is_text(&line, "ucinewgame") {
            self.state = start_position();
        } else if is_text(&line, "quit") {
            return (false, lines);
        }
        (true, lines)
    }
}

/// The line `position startpos` is a `position` command that sets up the start position.
proof fn lemma_position_startpos(cur: GameState)
    ensures
        command_of(trim("position startpos"@)) is Position,
        position_command(cur, trim("position startpos"@)) == startpos_state(),
{
    reveal_strlit("position startpos");
    reveal_strlit("position");
    reveal_strlit("startpos");
    reveal_strlit("uci");
    reveal_strlit("isready");
    reveal_strlit("moves");
    let line = "position startpos"@;
    assert(trim_start(line) == line);
    assert(trim_end(line) == line);
    assert(trim(line) == line);
    assert(line.take(8) =~= "position"@);
    assert(line != "uci"@);
    assert(line != "isready"@);
    let toks = split_ws(line);
    assert(toks =~~= seq!["position"@, "startpos"@]) by {
        reveal_with_fuel(crate::text::split_ws_from, 20);
    }
    assert(position_base(toks) == Some((startpos_state(), 2int)));
    assert(index_of(toks, "moves"@, 2) == 2);
}

/// Law: a session that sets up the start position and then searches it one ply deep or
/// more without a time limit is answered with an `info depth` line for the full depth
/// and then a `bestmove` line naming a legal move of the start position. Here `e` is the
/// engine when the `go` line `go_line` arrives (its table holding only scores short of
/// mate, as the empty table of a new engine does), and `res` the search result that
/// `handle_command` answers with.
pub proof fn law_start_position_session(
    e: UciEngine,
    cur: GameState,
    go_line: Seq<char>,
    res: SearchResult,
)
    requires
        e.position() == startpos_state(),
        table_bounded(e.table()),
        command_of(trim(go_line)) is Go,
        go_config(e.settings(), trim(go_line)).time_limit_ms is None,
        go_config(e.settings(), trim(go_line)).max_depth >= 1,
        search_outcome(e.position(), go_config(e.settings(), trim(go_line)), res),
        res.best_move == search_value(
            e.keys(),
            e.table(),
            e.position(),
            go_config(e.settings(), trim(go_line)).max_depth as int,
        ).1,
    ensures
        command_of(trim("position startpos"@)) is Position,
        position_command(cur, trim("position startpos"@)) == startpos_state(),
        res.depth == go_config(e.settings(), trim(go_line)).max_depth,
        res.best_move matches Some(m) && legal_move(startpos_state(), m) && go_reply(res) == seq![
            "info depth "@ + nat_text(res.depth as nat) + " score cp "@ + int_text(res.score as int)
                + " nodes "@ + nat_text(res.nodes as nat),
            "bestmove "@ + uci_text(m),
        ],
{
    lemma_position_startpos(cur);
    lemma_startpos_has_moves();
    lemma_startpos_material_bounded();
    let cfg = go_config(e.settings(), trim(go_line));
    law_search_returns_a_move(e.keys(), e.table(), startpos_state(), cfg.max_depth as int);
}

/// Replaying the tokens after a prefix is replaying the tokens themselves.
proof fn lemma_replay_after_prefix(st: GameState, pre: Seq<Seq<char>>, ts: Seq<Seq<char>>, k: int)
    requires
        0 <= k <= ts.len(),
    ensures
        replay(st, pre + ts, pre.len() + k) == replay(st, ts, k),
    decreases ts.len() - k,
{
    let all = pre + ts;
    if k < ts.len() {
        assert(all[pre.len() + k] == ts[k]);
        let next = match uci_move_in(st, ts[k]) {
            Some(m) => state_after(st, m),
            None => st,
        };
        lemma_replay_after_prefix(next, pre, ts, k + 1);
    }
}

/// Law: a `position startpos moves ...` command plays the move texts after `moves`, from
/// the first one on, starting from the start position, whatever position came before;
/// a single move text naming a legal move of the start position gives the position after
/// that move.
pub proof fn law_position_plays_moves(cur: GameState, line: Seq<char>, ts: Seq<Seq<char>>)
    requires
        split_ws(line) == seq!["position"@, "startpos"@, "moves"@] + ts,
    ensures
        position_command(cur, line) == replay(startpos_state(), ts, 0),
        ts.len() == 1 && uci_move_in(startpos_state(), ts[0]) is Some ==> position_command(cur, line)
            == state_after(startpos_state(), uci_move_in(startpos_state(), ts[0])->0),
{
    let pre = seq!["position"@, "startpos"@, "moves"@];
    let toks = split_ws(line);
    assert(toks[1] == "startpos"@);
    assert(toks[2] == "moves"@);
    assert(position_base(toks) == Some((startpos_state(), 2int)));
    assert(index_of(toks, "moves"@, 2) == 2);
    lemma_replay_after_prefix(startpos_state(), pre, ts, 0);
    if ts.len() == 1 {
        let st = startpos_state();
        let next = match uci_move_in(st, ts[0]) {
            Some(m) => state_after(st, m),
            None => st,
        };
        assert(replay(next, ts, 1) == next);
    }
}

} // verus!
