use chess::engine::board::{Color, Move, Piece, PieceType};
use chess::engine::fen::{parse_fen, STARTPOS_FEN};
use chess::engine::game_state::GameState;
use chess::engine::legal::generate_legal_moves;
use chess::trainer::{
    bestmove_of_line, candidate_is_white, game_over_result, game_state_to_fen, go_command, match_line, next_turn,
    parse_config_args, pick_legal_move_from_uci, piece_to_fen_char, play_reply, position_command,
    randomize_opening, square_to_text, GameResult, Score, SmallRng, Turn,
};

fn same(a: &GameState, b: &GameState) -> bool {
    a.board == b.board
        && a.side_to_move == b.side_to_move
        && a.castling == b.castling
        && a.en_passant == b.en_passant
        && a.halfmove_clock == b.halfmove_clock
        && a.fullmove_number == b.fullmove_number
}

fn args(list: &[&str]) -> Vec<String> {
    list.iter().map(|s| s.to_string()).collect()
}

#[test]
fn fen_serialization_round_trip_startpos() {
    let state = parse_fen(STARTPOS_FEN).expect("valid start fen");
    let fen = game_state_to_fen(&state);
    let parsed = parse_fen(&fen).expect("round trip fen parses");
    assert_eq!(state.board, parsed.board);
    assert_eq!(state.side_to_move, parsed.side_to_move);
    assert_eq!(state.castling, parsed.castling);
    assert_eq!(state.en_passant, parsed.en_passant);
}

#[test]
fn fen_text_of_start_position_is_the_standard_one() {
    let state = parse_fen(STARTPOS_FEN).unwrap();
    assert_eq!(game_state_to_fen(&state), STARTPOS_FEN);
}

#[test]
fn fen_text_writes_runs_en_passant_and_clocks() {
    let fen = "4k3/8/8/3pP3/8/8/8/R3K2R w Kq d6 12 34";
    let state = parse_fen(fen).unwrap();
    assert_eq!(game_state_to_fen(&state), fen);
    let none = "8/8/8/8/8/8/8/8 b - - 0 1";
    assert_eq!(game_state_to_fen(&parse_fen(none).unwrap()), none);
}

#[test]
fn fen_round_trip_after_moves() {
    let mut state = parse_fen(STARTPOS_FEN).unwrap();
    for text in ["e2e4", "c7c5", "g1f3"] {
        play_reply(&mut state, text).unwrap();
    }
    let fen = game_state_to_fen(&state);
    assert_eq!(fen, "rnbqkbnr/pp1ppppp/8/2p5/4P3/5N2/PPPP1PPP/RNBQKB1R b KQkq - 0 2");
    let parsed = parse_fen(&fen).unwrap();
    assert!(same(&parsed, &state));
}

#[test]
fn piece_letters_are_upper_case_for_white() {
    let white_knight = Piece { color: Color::White, kind: PieceType::Knight };
    let black_queen = Piece { color: Color::Black, kind: PieceType::Queen };
    assert_eq!(piece_to_fen_char(white_knight), 'N');
    assert_eq!(piece_to_fen_char(black_queen), 'q');
}

#[test]
fn square_text_names_file_then_rank() {
    assert_eq!(square_to_text(0), "a1");
    assert_eq!(square_to_text(20), "e3");
    assert_eq!(square_to_text(63), "h8");
}

#[test]
fn small_rng_follows_the_linear_congruence() {
    let mut rng = SmallRng::new(42);
    assert_eq!(rng.next_u64(), 10481999410520546993);
    assert_eq!(rng.next_u64(), 4159066171780167020);
    let mut again = SmallRng::new(42);
    assert_eq!(again.pick_index(20), 13);
    assert_eq!(again.pick_index(20), 0);
    assert_eq!(again.pick_index(20), 15);
}

#[test]
fn score_counts_games() {
    let score = Score { wins: 3, draws: 2, losses: 1 };
    assert_eq!(score.games(), 6);
    assert_eq!(Score::default().games(), 0);
    let mut tally = Score::default();
    tally.record_result(GameResult::WhiteWin, true);
    tally.record_result(GameResult::WhiteWin, false);
    tally.record_result(GameResult::BlackWin, false);
    tally.record_result(GameResult::Draw, true);
    assert_eq!((tally.wins, tally.draws, tally.losses), (2, 1, 1));
}

#[test]
fn random_opening_plays_the_requested_plies() {
    let mut state = parse_fen(STARTPOS_FEN).unwrap();
    let mut rng = SmallRng::new(42);
    randomize_opening(&mut state, &mut rng, 6);
    assert_eq!(state.side_to_move, Color::White);
    assert_eq!(state.fullmove_number, 4);
    let mut count = SmallRng::new(42);
    for _ in 0..6 {
        count.next_u64();
    }
    assert_eq!(rng.state, count.state);
}

#[test]
fn random_opening_is_reproducible() {
    let mut a = parse_fen(STARTPOS_FEN).unwrap();
    let mut b = parse_fen(STARTPOS_FEN).unwrap();
    randomize_opening(&mut a, &mut SmallRng::new(7), 8);
    randomize_opening(&mut b, &mut SmallRng::new(7), 8);
    assert!(same(&a, &b));
}

#[test]
fn random_opening_stops_when_the_game_is_over() {
    let mut state = parse_fen("7k/5Q2/6K1/8/8/8/8/8 b - - 0 1").unwrap();
    let before = parse_fen("7k/5Q2/6K1/8/8/8/8/8 b - - 0 1").unwrap();
    let mut rng = SmallRng::new(1);
    randomize_opening(&mut state, &mut rng, 4);
    assert!(same(&state, &before));
    assert_eq!(rng.state, 1);
}

#[test]
fn uci_reply_is_matched_to_a_legal_move() {
    let state = parse_fen("r3k2r/8/8/8/8/8/8/R3K2R w KQkq - 0 1").unwrap();
    let castle = pick_legal_move_from_uci(&state, "e1g1").unwrap();
    assert!(castle.is_castling);
    let rook = pick_legal_move_from_uci(&state, "a1a8").unwrap();
    assert_eq!(rook, Move::new(0, 56));
    assert!(pick_legal_move_from_uci(&state, "e1e3").is_none());
    assert!(pick_legal_move_from_uci(&state, "zz").is_none());
}

#[test]
fn uci_reply_names_the_promotion() {
    let state = parse_fen("4k3/P7/8/8/8/8/8/4K3 w - - 0 1").unwrap();
    let mv = pick_legal_move_from_uci(&state, "a7a8n").unwrap();
    assert_eq!(mv.promotion, Some(PieceType::Knight));
    assert!(pick_legal_move_from_uci(&state, "a7a8").is_none());
}

#[test]
fn game_over_is_mate_or_stalemate() {
    let mated = parse_fen("7k/6Q1/6K1/8/8/8/8/8 b - - 0 1").unwrap();
    assert_eq!(game_over_result(&mated), Some(GameResult::WhiteWin));
    let stalemate = parse_fen("7k/5Q2/6K1/8/8/8/8/8 b - - 0 1").unwrap();
    assert_eq!(game_over_result(&stalemate), Some(GameResult::Draw));
    let black_mates = parse_fen("8/8/8/8/8/6k1/6q1/7K w - - 0 1").unwrap();
    assert_eq!(game_over_result(&black_mates), Some(GameResult::BlackWin));
    let start = parse_fen(STARTPOS_FEN).unwrap();
    assert_eq!(game_over_result(&start), None);
}

#[test]
fn next_turn_asks_the_side_to_move() {
    let start = parse_fen(STARTPOS_FEN).unwrap();
    assert_eq!(next_turn(&start, true, 0, 200), Turn::Ask { candidate: true });
    assert_eq!(next_turn(&start, false, 0, 200), Turn::Ask { candidate: false });
    let black = parse_fen("rnbqkbnr/pppppppp/8/8/4P3/8/PPPP1PPP/RNBQKBNR b KQkq e3 0 1").unwrap();
    assert_eq!(next_turn(&black, false, 1, 200), Turn::Ask { candidate: true });
    let mated = parse_fen("7k/6Q1/6K1/8/8/8/8/8 b - - 0 1").unwrap();
    assert_eq!(next_turn(&mated, true, 9, 200), Turn::Over(GameResult::WhiteWin));
    assert_eq!(next_turn(&start, true, 200, 200), Turn::Over(GameResult::Draw));
    assert_eq!(next_turn(&mated, true, 0, 0), Turn::Over(GameResult::Draw));
}

#[test]
fn illegal_reply_is_refused_and_leaves_the_position() {
    let mut state = parse_fen(STARTPOS_FEN).unwrap();
    let before = state.clone();
    let err = play_reply(&mut state, "e2e5").unwrap_err();
    assert_eq!(err, "engine returned illegal move: e2e5");
    assert!(same(&state, &before));
    play_reply(&mut state, "e2e4").unwrap();
    assert_eq!(state.side_to_move, Color::Black);
    assert_eq!(state.en_passant, Some(20));
}

#[test]
fn engine_commands_are_spelled_out() {
    let state = parse_fen(STARTPOS_FEN).unwrap();
    assert_eq!(position_command(&state), format!("position fen {STARTPOS_FEN}"));
    assert_eq!(go_command(250), "go movetime 250");
    assert_eq!(go_command(0), "go movetime 0");
}

#[test]
fn reply_lines_are_trimmed_and_matched_by_prefix() {
    assert_eq!(match_line("  uciok \n", "uciok"), Some("uciok".to_string()));
    assert_eq!(match_line("id name X\n", "uciok"), None);
    assert_eq!(match_line("bestmove e2e4 ponder e7e5\n", "bestmove"), Some("bestmove e2e4 ponder e7e5".to_string()));
}

#[test]
fn bestmove_line_gives_its_move() {
    assert_eq!(bestmove_of_line("bestmove e2e4 ponder e7e5"), Ok("e2e4".to_string()));
    assert_eq!(bestmove_of_line("bestmove"), Err("malformed bestmove line: bestmove".to_string()));
}

#[test]
fn trainer_arguments_are_read() {
    let cfg = parse_config_args(&args(&[
        "trainer", "--candidate", "./a", "--baseline", "./b", "--games", "4", "--movetime-ms",
        "50", "--max-plies", "80", "--opening-random-plies", "2", "--seed", "+9",
    ]))
    .unwrap()
    .unwrap();
    assert_eq!(cfg.candidate, "./a");
    assert_eq!(cfg.baseline, "./b");
    assert_eq!(cfg.games, 4);
    assert_eq!(cfg.movetime_ms, 50);
    assert_eq!(cfg.max_plies, 80);
    assert_eq!(cfg.opening_random_plies, 2);
    assert_eq!(cfg.seed, 9);
}

#[test]
fn trainer_arguments_have_defaults() {
    let cfg = parse_config_args(&args(&["trainer", "--candidate", "x", "--baseline", "y"]))
        .unwrap()
        .unwrap();
    assert_eq!(cfg.games, 20);
    assert_eq!(cfg.movetime_ms, 100);
    assert_eq!(cfg.max_plies, 200);
    assert_eq!(cfg.opening_random_plies, 6);
    assert_eq!(cfg.seed, 42);
}

#[test]
fn trainer_argument_errors() {
    let err = |list: &[&str]| parse_config_args(&args(list)).unwrap_err();
    assert_eq!(err(&["t", "--candidate", "x"]), "--candidate and --baseline are required");
    assert_eq!(err(&["t", "--games", "many"]), "--games must be a positive integer");
    assert_eq!(err(&["t", "--movetime-ms", "-1"]), "--movetime-ms must be a positive integer");
    assert_eq!(err(&["t", "--max-plies", ""]), "--max-plies must be a positive integer");
    assert_eq!(
        err(&["t", "--opening-random-plies", "x"]),
        "--opening-random-plies must be a positive integer"
    );
    assert_eq!(err(&["t", "--seed", "18446744073709551616"]), "--seed must be an integer");
    assert_eq!(err(&["t", "--verbose"]), "unknown or incomplete argument: --verbose");
    assert_eq!(err(&["t", "--candidate"]), "unknown or incomplete argument: --candidate");
}

#[test]
fn trainer_help_is_recognised() {
    assert!(parse_config_args(&args(&["t", "-h"])).unwrap().is_none());
    assert!(parse_config_args(&args(&["t", "--games", "3", "--help"])).unwrap().is_none());
}

#[test]
fn every_legal_move_round_trips_through_uci_text() {
    let state: GameState = parse_fen("r3k2r/1P6/8/3pP3/8/8/8/R3K2R w KQkq d6 0 1").unwrap();
    for mv in generate_legal_moves(&state) {
        assert_eq!(pick_legal_move_from_uci(&state, &mv.to_uci()), Some(mv));
    }
}

#[test]
fn candidate_colour_alternates_starting_with_white() {
    assert!(candidate_is_white(0));
    assert!(!candidate_is_white(1));
    assert!(candidate_is_white(2));
    assert!(!candidate_is_white(u32::MAX));
}
