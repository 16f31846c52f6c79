use chess::cli::{parse_engine_args, EngineArgs};
use chess::engine::board::{square_to_str, str_to_square, Color, Move};
use chess::engine::board::{Piece, PieceType};
use chess::engine::fen::{parse_fen, piece_from_char, STARTPOS_FEN};
use chess::search::searcher::Searcher;
use chess::engine::legal::{generate_legal_moves, in_check, is_square_attacked};
use chess::search::eval::evaluate;
use chess::search::move_ordering::order_moves;
use chess::search::searcher::SearchConfig;
use chess::search::tt::{NodeType, TTEntry, TranspositionTable, Zobrist};
use chess::uci::UciEngine;

fn args(list: &[&str]) -> Vec<String> {
    list.iter().map(|s| s.to_string()).collect()
}

#[test]
fn fen_errors_name_the_faulty_field() {
    let err = |fen: &str| parse_fen(fen).unwrap_err();
    assert_eq!(err("8/8/8/8/8/8/8/8 w - -"), "FEN must have 6 fields");
    assert_eq!(err("8/8/8/8/8/8/8 w - - 0 1"), "Board field must have 8 ranks");
    assert_eq!(err("8/8/8/8/8/8/8/7x w - - 0 1"), "Invalid piece character: x");
    assert_eq!(err("8/8/8/8/8/8/8/8p w - - 0 1"), "Too many files in rank");
    assert_eq!(err("8/8/8/8/8/8/8/7 w - - 0 1"), "Rank does not have exactly 8 squares");
    assert_eq!(err("8/8/8/8/8/8/8/8 x - - 0 1"), "Invalid side to move");
    assert_eq!(err("8/8/8/8/8/8/8/8 w - e33 0 1"), "Invalid square format");
    assert_eq!(err("8/8/8/8/8/8/8/8 w - i3 0 1"), "Square out of range");
    assert_eq!(err("8/8/8/8/8/8/8/8 w - - x 1"), "Invalid halfmove clock");
    assert_eq!(err("8/8/8/8/8/8/8/8 w - - 0 -1"), "Invalid fullmove number");
}

#[test]
fn fen_fields_are_read() {
    let state = parse_fen("4k3/8/8/3pP3/8/8/8/R3K2R w Kq d6 12 34").unwrap();
    assert_eq!(state.side_to_move, Color::White);
    assert!(state.castling.white_king_side);
    assert!(!state.castling.white_queen_side);
    assert!(!state.castling.black_king_side);
    assert!(state.castling.black_queen_side);
    assert_eq!(state.en_passant, Some(43));
    assert_eq!(state.halfmove_clock, 12);
    assert_eq!(state.fullmove_number, 34);
    assert!(state.board[0].is_some());
    assert!(state.board[1].is_none());
}

#[test]
fn squares_read_and_write() {
    assert_eq!(str_to_square("a1"), Some(0));
    assert_eq!(str_to_square("h8"), Some(63));
    assert_eq!(str_to_square("e4"), Some(28));
    assert_eq!(str_to_square("i1"), None);
    assert_eq!(str_to_square("a9"), None);
    assert_eq!(str_to_square("a10"), None);
    for sq in 0..64 {
        assert_eq!(str_to_square(&square_to_str(sq)), Some(sq));
    }
}

#[test]
fn uci_text_of_moves() {
    assert_eq!(Move::new(12, 28).to_uci(), "e2e4");
}

#[test]
fn attacks_and_check() {
    let state = parse_fen("4k3/8/8/8/8/8/4q3/4K3 w - - 0 1").unwrap();
    assert!(in_check(&state, Color::White));
    assert!(!in_check(&state, Color::Black));
    assert!(is_square_attacked(&state, 3, Color::Black));
    assert!(!is_square_attacked(&state, 2, Color::Black));
}

#[test]
fn evaluation_counts_material_for_the_side_to_move() {
    let start = parse_fen(STARTPOS_FEN).unwrap();
    assert_eq!(evaluate(&start), 0);
    let white_queen_up = parse_fen("4k3/8/8/8/8/8/8/3QK3 w - - 0 1").unwrap();
    assert_eq!(evaluate(&white_queen_up), 900);
    let black_to_move = parse_fen("4k3/8/8/8/8/8/8/3QK3 b - - 0 1").unwrap();
    assert_eq!(evaluate(&black_to_move), -900);
}

#[test]
fn captures_are_ordered_first_and_table_move_before_them() {
    let state = parse_fen("4k3/8/8/3p4/4P3/8/8/4K3 w - - 0 1").unwrap();
    let mut moves = generate_legal_moves(&state);
    order_moves(&state, &mut moves, None);
    assert_eq!(moves[0].to_uci(), "e4d5");
    let quiet = Move::new(4, 5);
    order_moves(&state, &mut moves, Some(quiet));
    assert_eq!(moves[0], quiet);
    assert_eq!(moves[1].to_uci(), "e4d5");
}

#[test]
fn a_king_capturing_a_pawn_is_tried_after_quiet_moves() {
    let state = parse_fen("4k3/8/8/8/8/8/3p4/4K3 w - - 0 1").unwrap();
    let mut moves = generate_legal_moves(&state);
    order_moves(&state, &mut moves, None);
    assert!(moves.len() > 1);
    assert_eq!(moves[moves.len() - 1].to_uci(), "e1d2");
}

#[test]
fn table_reads_back_what_was_written() {
    let mut table = TranspositionTable::new();
    assert!(table.get(5).is_none());
    let entry = TTEntry { depth: 3, score: -40, node_type: NodeType::Exact, best_move: None };
    table.insert(5, entry);
    let got = table.get(5).unwrap();
    assert_eq!(got.depth, 3);
    assert_eq!(got.score, -40);
    assert!(table.get(6).is_none());
    table.insert(5, TTEntry { depth: 4, score: 7, node_type: NodeType::LowerBound, best_move: None });
    assert_eq!(table.get(5).unwrap().score, 7);
}

#[test]
fn zobrist_keys_come_from_the_seeded_generator() {
    let z = Zobrist::new(7);
    let kings = parse_fen("4k3/8/8/8/8/8/8/4K3 w - - 0 1").unwrap();
    assert_eq!(z.hash(&kings), 12417769937213049994);
    let black = parse_fen("4k3/8/8/8/8/8/8/4K3 b K e3 0 1").unwrap();
    assert_eq!(z.hash(&black), 7933527169364719399);
    assert_eq!(Zobrist::new(7).hash(&kings), z.hash(&kings));
}

#[test]
fn engine_arguments_are_read() {
    match parse_engine_args(&args(&["chess", "--depth", "6", "--movetime-ms", "250"])) {
        EngineArgs::Run(cfg) => {
            assert_eq!(cfg.max_depth, 6);
            assert_eq!(cfg.time_limit_ms, Some(250));
        },
        EngineArgs::Help => panic!("no help was asked for"),
    }
    match parse_engine_args(&args(&["chess", "--depth", "300", "extra", "--depth"])) {
        EngineArgs::Run(cfg) => {
            assert_eq!(cfg.max_depth, 4);
            assert_eq!(cfg.time_limit_ms, None);
        },
        EngineArgs::Help => panic!("no help was asked for"),
    }
    assert!(matches!(parse_engine_args(&args(&["chess", "-h"])), EngineArgs::Help));
    assert!(matches!(parse_engine_args(&args(&["chess", "--help", "--depth", "2"])), EngineArgs::Help));
}

#[test]
fn uci_session_answers_each_command() {
    let mut engine = UciEngine::new(SearchConfig { max_depth: 2, time_limit_ms: None });
    let (go_on, lines) = engine.handle_command("uci");
    assert!(go_on);
    assert_eq!(lines, vec!["id name ChessBaseline", "id author Codex", "uciok"]);
    let (_, lines) = engine.handle_command("  isready\n");
    assert_eq!(lines, vec!["readyok"]);
    let (go_on, lines) = engine.handle_command("position startpos moves e2e4 e7e5");
    assert!(go_on && lines.is_empty());
    let (_, lines) = engine.handle_command("go depth 1");
    assert_eq!(lines.len(), 2);
    assert!(lines[0].starts_with("info depth 1 score cp "));
    assert!(lines[1].starts_with("bestmove "));
    let (go_on, lines) = engine.handle_command("quit");
    assert!(!go_on && lines.is_empty());
}

#[test]
fn uci_go_in_a_mated_position_gives_null_move() {
    let mut engine = UciEngine::new(SearchConfig { max_depth: 2, time_limit_ms: None });
    engine.handle_command("position fen 7k/6Q1/6K1/8/8/8/8/8 b - - 0 1");
    let (_, lines) = engine.handle_command("go");
    assert_eq!(lines, vec!["bestmove 0000"]);
}

#[test]
fn uci_position_plays_only_legal_moves() {
    let mut engine = UciEngine::new(SearchConfig { max_depth: 1, time_limit_ms: None });
    engine.handle_command("position fen 7k/8/8/8/8/8/8/K6R w - - 0 1 moves e2e4 h1h7");
    let (_, lines) = engine.handle_command("go depth 1");
    assert!(lines[1].starts_with("bestmove "));
    assert_eq!(lines.len(), 2);
}

#[test]
fn a_move_from_an_empty_square_changes_nothing() {
    let mut state = parse_fen(STARTPOS_FEN).unwrap();
    let before = state.clone();
    state.make_move(Move::new(30, 99));
    assert_eq!(state.board, before.board);
    assert_eq!(state.side_to_move, before.side_to_move);
    assert_eq!(state.fullmove_number, before.fullmove_number);
}

#[test]
fn piece_letters_are_read() {
    assert_eq!(piece_from_char('N'), Some(Piece { color: Color::White, kind: PieceType::Knight }));
    assert_eq!(piece_from_char('k'), Some(Piece { color: Color::Black, kind: PieceType::King }));
    assert_eq!(piece_from_char('x'), None);
}

#[test]
fn a_mated_root_visits_no_node() {
    let state = parse_fen("7k/6Q1/6K1/8/8/8/8/8 b - - 0 1").unwrap();
    let mut searcher = Searcher::new(SearchConfig { max_depth: 3, time_limit_ms: None });
    let r = searcher.search(&state);
    assert!(r.best_move.is_none());
    assert_eq!(r.score, -99_999);
    assert_eq!(r.depth, 3);
    assert_eq!(r.nodes, 0);
}

#[test]
fn the_same_search_twice_from_a_fresh_table_agrees() {
    let state = parse_fen(STARTPOS_FEN).unwrap();
    let mut a = Searcher::new(SearchConfig { max_depth: 3, time_limit_ms: None });
    let mut b = Searcher::new(SearchConfig { max_depth: 3, time_limit_ms: None });
    let ra = a.search(&state);
    let rb = b.search(&state);
    assert_eq!(ra.best_move, rb.best_move);
    assert_eq!(ra.score, rb.score);
    assert_eq!(ra.nodes, rb.nodes);
    assert!(ra.best_move.is_some());
}

#[test]
fn uci_start_position_session_names_a_legal_move() {
    let mut engine = UciEngine::new(SearchConfig { max_depth: 4, time_limit_ms: None });
    let mut out: Vec<String> = Vec::new();
    let mut answers: Vec<bool> = Vec::new();
    for line in ["uci", "isready", "position startpos", "go depth 4", "quit"] {
        let (go_on, lines) = engine.handle_command(line);
        answers.push(go_on);
        out.extend(lines);
    }
    assert_eq!(answers, vec![true, true, true, true, false]);
    assert_eq!(out.len(), 6);
    assert_eq!(out[0..4], ["id name ChessBaseline", "id author Codex", "uciok", "readyok"]);
    assert!(out[4].starts_with("info depth 4 score cp "));
    assert!(out[4].contains(" nodes "));
    let start = parse_fen(STARTPOS_FEN).unwrap();
    let texts: Vec<String> = generate_legal_moves(&start).iter().map(|m| m.to_uci()).collect();
    let named = out[5].strip_prefix("bestmove ").unwrap();
    assert!(texts.iter().any(|t| t == named));
}
