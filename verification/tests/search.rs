use chess::engine::fen::parse_fen;
use chess::search::eval::evaluate;
use chess::search::searcher::{SearchConfig, Searcher};

#[test]
fn search_finds_mate_in_one() {
    let state = parse_fen("7k/5Q2/6K1/8/8/8/8/8 w - - 0 1").unwrap();
    let mut searcher = Searcher::new(SearchConfig {
        max_depth: 3,
        time_limit_ms: None,
    });

    let result = searcher.search(&state);

    let best = result.best_move.expect("expected a mating move").to_uci();
    assert!(
        result.score > 90_000,
        "expected mate score, got {}",
        result.score
    );
    assert!(matches!(best.as_str(), "f7g7" | "f7f8" | "f7e8"));
}

#[test]
fn search_prefers_winning_major_material_tactic() {
    let state = parse_fen("4k3/8/8/8/8/8/4q3/4R1K1 w - - 0 1").unwrap();
    let mut searcher = Searcher::new(SearchConfig {
        max_depth: 3,
        time_limit_ms: None,
    });

    let result = searcher.search(&state);

    assert_eq!(
        result.best_move.expect("expected a best move").to_uci(),
        "e1e2"
    );
}

#[test]
fn evaluation_increases_with_extra_material_for_side_to_move() {
    let balanced = parse_fen("4k3/8/8/8/8/8/8/4K3 w - - 0 1").unwrap();
    let white_extra_queen = parse_fen("4k3/8/8/8/8/8/8/3QK3 w - - 0 1").unwrap();

    assert!(evaluate(&white_extra_queen) > evaluate(&balanced));
}

#[test]
fn timed_search_gives_the_full_search_of_the_depth_it_reached() {
    let state = parse_fen("r1bqkbnr/pppp1ppp/2n5/4p3/4P3/5N2/PPPP1PPP/RNBQKB1R w KQkq - 2 3").unwrap();
    let mut timed = Searcher::new(SearchConfig {
        max_depth: 3,
        time_limit_ms: Some(60_000),
    });
    let r = timed.search(&state);
    assert!(r.depth >= 1);
    let mut plain = Searcher::new(SearchConfig {
        max_depth: r.depth,
        time_limit_ms: None,
    });
    let full = plain.search(&state);
    assert_eq!(r.score, full.score);
    assert_eq!(r.best_move, full.best_move);
}
