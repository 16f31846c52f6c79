//! The engine's command line: search depth and time budget, or a request for help.

use vstd::prelude::*;

use crate::search::searcher::SearchConfig;
use crate::text::{chars_of, is_text, natural_of_text, parse_natural};
use crate::uci::line_views;

verus! {

/// What the engine's command line asks for.
#[derive(Clone, Copy, Debug)]
pub enum EngineArgs {
    Run(SearchConfig),
    Help,
}

/// The settings read from argument `i` on, starting from `cfg`, or `None` when help is
/// asked for. `--depth N` and `--movetime-ms MS` set the depth and time budget when the
/// value reads; other arguments are passed over.
pub open spec fn engine_args_scan(args: Seq<Seq<char>>, i: int, cfg: SearchConfig) -> Option<SearchConfig>
    decreases args.len() - i,
{
    if i >= args.len() {
        Some(cfg)
    } else if args[i] == "--depth"@ && i + 1 < args.len() {
        let next = match natural_of_text(args[i + 1], 255) {
            Some(d) => SearchConfig { max_depth: d as u8, time_limit_ms: cfg.time_limit_ms },
            None => cfg,
        };
        engine_args_scan(args, i + 2, next)
    } else if args[i] == "--movetime-ms"@ && i + 1 < args.len() {
        let next = match natural_of_text(args[i + 1], u64::MAX as int) {
            Some(ms) => SearchConfig { max_depth: cfg.max_depth, time_limit_ms: Some(ms as u64) },
            None => cfg,
        };
        engine_args_scan(args, i + 2, next)
    } else if args[i] == "--help"@ || args[i] == "-h"@ {
        None
    } else {
        engine_args_scan(args, i + 1, cfg)
    }
}

/// The settings a whole command line asks for (the program name first): depth 4 and
/// no time budget unless the options say otherwise.
pub open spec fn engine_args(args: Seq<Seq<char>>) -> Option<SearchConfig> {
    engine_args_scan(args, 1, SearchConfig { max_depth: 4, time_limit_ms: None })
}

pub fn parse_engine_args(args: &Vec<String>) -> (r: EngineArgs)
    ensures
        match engine_args(line_views(args@)) {
            Some(cfg) => r == EngineArgs::Run(cfg),
            None => r == EngineArgs::Help,
        },
{
    let ghost a = line_views(args@);
    let mut cfg = SearchConfig { max_depth: 4, time_limit_ms: None };
    let mut i: usize = 1;
    while i < args.len()
        invariant
            1 <= i,
            a == line_views(args@),
            a.len() == args@.len(),
            engine_args(a) == engine_args_scan(a, i as int, cfg),
        decreases args@.len() - i,
    {
        let arg = chars_of(args[i].as_str());
        assert(arg@ == a[i as int]);
        if is_text(&arg, "--depth") && i + 1 < args.len() {
            let value = chars_of(args[i + 1].as_str());
            assert(value@ == a[i + 1]);
            match parse_natural(&value, 255) {
                Some(d) => {
                    cfg = SearchConfig { max_depth: d as u8, time_limit_ms: cfg.time_limit_ms };
                },
                None => {},
            }
            i += 2;
        } else if is_text(&arg, "--movetime-ms") && i + 1 < args.len() {
            let value = chars_of(args[i + 1].as_str());
            assert(value@ == a[i + 1]);
            match parse_natural(&value, u64::MAX) {
                Some(ms) => {
                    cfg = SearchConfig { max_depth: cfg.max_depth, time_limit_ms: Some(ms) };
                },
                None => {},
            }
            i += 2;
        } else if is_text(&arg, "--help") || is_text(&arg, "-h") {
            return EngineArgs::Help;
        } else {
            i += 1;
        }
    }
    EngineArgs::Run(cfg)
}

} // verus!
