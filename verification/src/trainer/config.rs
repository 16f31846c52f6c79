//! The trainer's command line.

use vstd::prelude::*;

use crate::text::{chars_of, is_text, natural_of_text, parse_natural, parse_u32, u32_of_text};
use crate::uci::line_views;

verus! {

/// The trainer's settings: the two engines to play, how many games, the thinking time
/// per move, the length limit of a game, the random opening length and the seed.
#[derive(Debug)]
pub struct Config {
    pub candidate: String,
    pub baseline: String,
    pub games: u32,
    pub movetime_ms: u64,
    pub max_plies: u32,
    pub opening_random_plies: u32,
    pub seed: u64,
}

/// The settings of a `Config`, with the engine paths as text.
pub struct ConfigView {
    pub candidate: Seq<char>,
    pub baseline: Seq<char>,
    pub games: u32,
    pub movetime_ms: u64,
    pub max_plies: u32,
    pub opening_random_plies: u32,
    pub seed: u64,
}

impl View for Config {
    type V = ConfigView;

    open spec fn view(&self) -> ConfigView {
        ConfigView {
            candidate: self.candidate@,
            baseline: self.baseline@,
            games: self.games,
            movetime_ms: self.movetime_ms,
            max_plies: self.max_plies,
            opening_random_plies: self.opening_random_plies,
            seed: self.seed,
        }
    }
}

pub open spec fn default_config() -> ConfigView {
    ConfigView {
        candidate: Seq::empty(),
        baseline: Seq::empty(),
        games: 20,
        movetime_ms: 100,
        max_plies: 200,
        opening_random_plies: 6,
        seed: 42,
    }
}

impl Default for Config {
    fn default() -> (r: Self)
        ensures
            r@ == default_config(),
    {
        Config {
            candidate: String::new(),
            baseline: String::new(),
            games: 20,
            movetime_ms: 100,
            max_plies: 200,
            opening_random_plies: 6,
            seed: 42,
        }
    }
}

/// The settings read from argument `i` on, starting from `cfg`: `Ok(None)` when help is
/// asked for, and the complaint about the first argument that does not read, about a
/// missing value, or about a missing engine path.
pub open spec fn config_scan(args: Seq<Seq<char>>, i: int, cfg: ConfigView) -> Result<Option<ConfigView>, Seq<char>>
    decreases args.len() - i,
{
    if i >= args.len() {
        if cfg.candidate.len() == 0 || cfg.baseline.len() == 0 {
            Err("--candidate and --baseline are required"@)
        } else {
            Ok(Some(cfg))
        }
    } else {
        let a = args[i];
        let more = i + 1 < args.len();
        if a == "--candidate"@ && more {
            config_scan(args, i + 2, ConfigView { candidate: args[i + 1], ..cfg })
        } else if a == "--baseline"@ && more {
            config_scan(args, i + 2, ConfigView { baseline: args[i + 1], ..cfg })
        } else if a == "--games"@ && more {
            match u32_of_text(args[i + 1]) {
                Some(v) => config_scan(args, i + 2, ConfigView { games: v, ..cfg }),
                None => Err("--games must be a positive integer"@),
            }
        } else if a == "--movetime-ms"@ && more {
            match natural_of_text(args[i + 1], u64::MAX as int) {
                Some(v) => config_scan(args, i + 2, ConfigView { movetime_ms: v as u64, ..cfg }),
                None => Err("--movetime-ms must be a positive integer"@),
            }
        } else if a == "--max-plies"@ && more {
            match u32_of_text(args[i + 1]) {
                Some(v) => config_scan(args, i + 2, ConfigView { max_plies: v, ..cfg }),
                None => Err("--max-plies must be a positive integer"@),
            }
        } else if a == "--opening-random-plies"@ && more {
            match u32_of_text(args[i + 1]) {
                Some(v) => config_scan(args, i + 2, ConfigView { opening_random_plies: v, ..cfg }),
                None => Err("--opening-random-plies must be a positive integer"@),
            }
        } else if a == "--seed"@ && more {
            match natural_of_text(args[i + 1], u64::MAX as int) {
                Some(v) => config_scan(args, i + 2, ConfigView { seed: v as u64, ..cfg }),
                None => Err("--seed must be an integer"@),
            }
        } else if a == "--help"@ || a == "-h"@ {
            Ok(None)
        } else {
            Err("unknown or incomplete argument: "@ + a)
        }
    }
}

/// The settings a whole command line (the program name first) asks for.
pub open spec fn config_of_args(args: Seq<Seq<char>>) -> Result<Option<ConfigView>, Seq<char>> {
    config_scan(args, 1, default_config())
}

fn message(text: &str) -> (r: String)
    ensures
        r@ == text@,
{
    text.to_owned()
}

/// Reads the trainer's command line: `Ok(None)` when help is asked for.
pub fn parse_config_args(args: &Vec<String>) -> (r: Result<Option<Config>, String>)
    ensures
        match (r, config_of_args(line_views(args@))) {
            (Ok(Some(c)), Ok(Some(v))) => c@ == v,
            (Ok(None), Ok(None)) => true,
            (Err(e), Err(m)) => e@ == m,
            _ => false,
        },
{
    let ghost a = line_views(args@);
    let mut cfg = Config::default();
    let mut i: usize = 1;
    while i < args.len()
        invariant
            1 <= i,
            a == line_views(args@),
            a.len() == args@.len(),
            config_of_args(a) == config_scan(a, i as int, cfg@),
        decreases args@.len() - i,
    {
        let arg = chars_of(args[i].as_str());
        assert(arg@ == a[i as int]);
        let more = i + 1 < args.len();
        if more {
            assert(line_views(args@)[i + 1] == args@[i + 1]@);
        }
        if is_text(&arg, "--candidate") && more {
            cfg.candidate = args[i + 1].clone();
            i += 2;
        } else if is_text(&arg, "--baseline") && more {
            cfg.baseline = args[i + 1].clone();
            i += 2;
        } else if is_text(&arg, "--games") && more {
            match parse_u32(&chars_of(args[i + 1].as_str())) {
                Some(v) => {
                    cfg.games = v;
                },
                None => {
                    return Err(message("--games must be a positive integer"));
                },
            }
            i += 2;
        } else if is_text(&arg, "--movetime-ms") && more {
            match parse_natural(&chars_of(args[i + 1].as_str()), u64::MAX) {
                Some(v) => {
                    cfg.movetime_ms = v;
                },
                None => {
                    return Err(message("--movetime-ms must be a positive integer"));
                },
            }
            i += 2;
        } else if is_text(&arg, "--max-plies") && more {
            match parse_u32(&chars_of(args[i + 1].as_str())) {
                Some(v) => {
                    cfg.max_plies = v;
                },
                None => {
                    return Err(message("--max-plies must be a positive integer"));
                },
            }
            i += 2;
        } else if is_text(&arg, "--opening-random-plies") && more {
            match parse_u32(&chars_of(args[i + 1].as_str())) {
                Some(v) => {
                    cfg.opening_random_plies = v;
                },
                None => {
                    return Err(message("--opening-random-plies must be a positive integer"));
                },
            }
            i += 2;
        } else if is_text(&arg, "--seed") && more {
            match parse_natural(&chars_of(args[i + 1].as_str()), u64::MAX) {
                Some(v) => {
                    cfg.seed = v;
                },
                None => {
                    return Err(message("--seed must be an integer"));
                },
            }
            i += 2;
        } else if is_text(&arg, "--help") || is_text(&arg, "-h") {
            return Ok(None);
        } else {
            let mut e = message("unknown or incomplete argument: ");
            e.append(args[i].as_str());
            return Err(e);
        }
    }
    if cfg.candidate.as_str().is_empty() || cfg.baseline.as_str().is_empty() {
        return Err(message("--candidate and --baseline are required"));
    }
    Ok(Some(cfg))
}

} // verus!
