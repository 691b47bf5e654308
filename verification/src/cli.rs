//! The command line: what the program is asked to do, with which smoothing parameters,
//! and the name of the report file it writes.
use vstd::prelude::*;
use crate::constants::{SMOOTH_VILS_MAX_DURATION_MS, SMOOTH_VILS_MIN_SPIKE};
use crate::text::{all_digits, chars_of, decimal_value, parse_u64, parse_u64_spec, str_eq, string_of};
use vstd::string::StringExecFns;

verus! {

/// What `str::parse::<i32>` accepts: an optional sign, then at least one ASCII digit, and a
/// value in range.
pub open spec fn parse_i32_spec(s: Seq<char>) -> Option<i32> {
    let neg = s.len() > 0 && s[0] == '-';
    let body = if s.len() > 0 && (s[0] == '+' || s[0] == '-') {
        s.drop_first()
    } else {
        s
    };
    if body.len() == 0 || !all_digits(body) {
        None
    } else if neg && decimal_value(body) <= 0x8000_0000 {
        Some((-decimal_value(body)) as i32)
    } else if !neg && decimal_value(body) <= 0x7fff_ffff {
        Some(decimal_value(body) as i32)
    } else {
        None
    }
}

/// Parses a decimal `i32` the way `str::parse::<i32>` does.
pub fn parse_i32(s: &[char]) -> (r: Option<i32>)
    ensures
        r == parse_i32_spec(s@),
{
    let neg = s.len() > 0 && s[0] == '-';
    let mut digits: Vec<char> = Vec::new();
    let start: usize = if s.len() > 0 && (s[0] == '+' || s[0] == '-') { 1 } else { 0 };
    let ghost body = if s@.len() > 0 && (s@[0] == '+' || s@[0] == '-') { s@.drop_first() } else { s@ };
    let mut k = start;
    while k < s.len()
        invariant
            start <= k <= s@.len(),
            body == s@.skip(start as int),
            digits@ == s@.subrange(start as int, k as int),
        decreases s.len() - k,
    {
        digits.push(s[k]);
        assert(s@.subrange(start as int, k + 1) =~= s@.subrange(start as int, k as int).push(s@[k as int]));
        k = k + 1;
    }
    assert(digits@ =~= body);
    if digits.len() == 0 || digits[0] == '+' {
        proof {
            if digits@.len() > 0 {
                assert(!crate::text::is_digit(body[0]));
            }
        }
        return None;
    }
    // An unsigned parse of the digits: a leading `+` was excluded above.
    match parse_u64(digits.as_slice()) {
        Some(v) => {
            if neg && v <= 0x8000_0000 {
                Some((0i64 - v as i64) as i32)
            } else if !neg && v <= 0x7fff_ffff {
                Some(v as i32)
            } else {
                None
            }
        },
        None => {
            proof {
                if all_digits(body) {
                    assert(decimal_value(body) > u64::MAX);
                }
            }
            None
        },
    }
}

/// What to do.
#[derive(Debug, Clone, PartialEq, Eq)]
pub enum Command {
    /// Analyse a telemetry CSV against a replay.
    Analyze { csv_path: String, replay_path: String },
    /// Print the events of a replay (the path, when one was given).
    ParseReplay { replay_path: Option<String> },
    /// Read the UI of a screenshot.
    Image { image_path: String },
    /// Watch the screen and record matches.
    Live,
}

/// Options that apply to every command.
#[derive(Debug, Clone, Copy, PartialEq, Eq)]
pub struct CliOptions {
    pub verbose: bool,
    pub min_spike: i32,
    pub max_duration_ms: u64,
}

/// The first position of `flag` among the arguments.
pub open spec fn position_of(args: Seq<Seq<char>>, flag: Seq<char>, k: int) -> Option<int>
    decreases args.len() - k,
{
    if k < 0 || k >= args.len() {
        None
    } else if args[k] == flag {
        Some(k)
    } else {
        position_of(args, flag, k + 1)
    }
}

/// The argument after the first `flag`, if there is one.
pub open spec fn value_after(args: Seq<Seq<char>>, flag: Seq<char>) -> Option<Seq<char>> {
    match position_of(args, flag, 0) {
        Some(p) => if p + 1 < args.len() { Some(args[p + 1]) } else { None },
        None => None,
    }
}

pub open spec fn options_spec(args: Seq<Seq<char>>) -> CliOptions {
    CliOptions {
        verbose: args.contains("--verbose"@) || args.contains("-v"@) || args.contains("--v"@),
        min_spike: match value_after(args, "--min-spike"@) {
            Some(v) => match parse_i32_spec(v) {
                Some(n) => n,
                None => SMOOTH_VILS_MIN_SPIKE,
            },
            None => SMOOTH_VILS_MIN_SPIKE,
        },
        max_duration_ms: match value_after(args, "--max-duration"@) {
            Some(v) => match parse_u64_spec(v) {
                Some(n) => n,
                None => SMOOTH_VILS_MAX_DURATION_MS,
            },
            None => SMOOTH_VILS_MAX_DURATION_MS,
        },
    }
}

pub open spec fn args_view(args: Seq<String>) -> Seq<Seq<char>> {
    args.map_values(|a: String| a@)
}

fn find_arg(args: &[String], flag: &str) -> (r: Option<usize>)
    ensures
        match r {
            Some(p) => position_of(args_view(args@), flag@, 0) == Some(p as int) && p < args.len(),
            None => position_of(args_view(args@), flag@, 0) is None,
        },
{
    let ghost av = args_view(args@);
    let mut k: usize = 0;
    while k < args.len()
        invariant
            k <= args@.len(),
            av == args_view(args@),
            position_of(av, flag@, 0) == position_of(av, flag@, k as int),
        decreases args.len() - k,
    {
        if str_eq(args[k].as_str(), flag) {
            return Some(k);
        }
        k = k + 1;
    }
    None
}

fn has_arg(args: &[String], flag: &str) -> (b: bool)
    ensures
        b == args_view(args@).contains(flag@),
{
    let ghost av = args_view(args@);
    for k in 0..args.len()
        invariant
            av == args_view(args@),
            forall|j: int| 0 <= j < k ==> av[j] != flag@,
    {
        if str_eq(args[k].as_str(), flag) {
            assert(av[k as int] == flag@);
            return true;
        }
    }
    false
}

/// The options given on the command line; unparsable values keep the defaults.
pub fn parse_options(args: &[String]) -> (o: CliOptions)
    ensures
        o == options_spec(args_view(args@)),
{
    let verbose = has_arg(args, "--verbose") || has_arg(args, "-v") || has_arg(args, "--v");
    let mut min_spike = SMOOTH_VILS_MIN_SPIKE;
    let mut max_duration_ms = SMOOTH_VILS_MAX_DURATION_MS;
    match find_arg(args, "--min-spike") {
        Some(p) => {
            if p + 1 < args.len() {
                let cs = chars_of(args[p + 1].as_str());
                match parse_i32(cs.as_slice()) {
                    Some(v) => min_spike = v,
                    None => {},
                }
            }
        },
        None => {},
    }
    match find_arg(args, "--max-duration") {
        Some(p) => {
            if p + 1 < args.len() {
                let cs = chars_of(args[p + 1].as_str());
                match parse_u64(cs.as_slice()) {
                    Some(v) => max_duration_ms = v,
                    None => {},
                }
            }
        },
        None => {},
    }
    CliOptions { verbose, min_spike, max_duration_ms }
}

pub open spec fn wants_analysis(args: Seq<Seq<char>>) -> bool {
    args.len() >= 4 && args[1] == "--analyze"@
}

pub open spec fn wants_replay(args: Seq<Seq<char>>) -> bool {
    args.len() > 1 && args[1] == "--parse-replay"@
}

pub open spec fn wants_image(args: Seq<Seq<char>>) -> bool {
    args.len() > 1 && args[1] != "--live"@
}

/// The command the arguments ask for: `--analyze <csv> <replay>`, else
/// `--parse-replay [<replay>]`, else a screenshot path, else (no argument or `--live`)
/// live capture.
pub fn parse_command(args: &[String]) -> (c: Command)
    ensures
        (c is Analyze) == wants_analysis(args_view(args@)),
        (c is ParseReplay) == (!wants_analysis(args_view(args@)) && wants_replay(args_view(args@))),
        (c is Image) == (!wants_analysis(args_view(args@)) && !wants_replay(args_view(args@)) && wants_image(args_view(args@))),
        c matches Command::Analyze { csv_path, replay_path } ==> csv_path@ == args@[2]@ && replay_path@ == args@[3]@,
        c matches Command::ParseReplay { replay_path } ==> (replay_path is Some <==> args@.len() > 2)
            && (replay_path matches Some(p) ==> p@ == args@[2]@),
        c matches Command::Image { image_path } ==> image_path@ == args@[1]@,
{
    let ghost av = args_view(args@);
    if args.len() >= 4 && str_eq(args[1].as_str(), "--analyze") {
        return Command::Analyze { csv_path: args[2].clone(), replay_path: args[3].clone() };
    }
    proof {
        if args@.len() > 1 {
            assert(av[1] == args@[1]@);
        }
    }
    if args.len() > 1 && str_eq(args[1].as_str(), "--parse-replay") {
        let replay_path = if args.len() > 2 { Some(args[2].clone()) } else { None };
        return Command::ParseReplay { replay_path };
    }
    if args.len() > 1 && !str_eq(args[1].as_str(), "--live") {
        return Command::Image { image_path: args[1].clone() };
    }
    Command::Live
}

/// The text with each `from` character replaced by `to`.
pub open spec fn replace_char(s: Seq<char>, from: char, to: Seq<char>) -> Seq<char>
    decreases s.len(),
{
    if s.len() == 0 {
        s
    } else {
        replace_char(s.drop_last(), from, to) + if s.last() == from { to } else { seq![s.last()] }
    }
}

/// The report's file name: `yyyymmdd-hhmmss-<player>-<civilization>.html`, from a start
/// time `yyyy-mm-dd hh:mm:ss` (dashes and colons dropped, the space made a dash) and the
/// names with spaces made underscores.
pub open spec fn report_file_name_spec(start_time: Seq<char>, player: Seq<char>, civ: Seq<char>) -> Seq<char> {
    let date = replace_char(replace_char(replace_char(start_time, '-', Seq::empty()), ':', Seq::empty()), ' ', seq!['-']);
    date + seq!['-'] + replace_char(player, ' ', seq!['_']) + seq!['-'] + replace_char(civ, ' ', seq!['_']) + ".html"@
}

fn replace_chars(s: &Vec<char>, from: char, to: &Vec<char>) -> (r: Vec<char>)
    ensures
        r@ == replace_char(s@, from, to@),
{
    let mut out: Vec<char> = Vec::new();
    for i in 0..s.len()
        invariant
            out@ == replace_char(s@.take(i as int), from, to@),
    {
        assert(s@.take(i + 1).drop_last() =~= s@.take(i as int));
        assert(s@.take(i + 1).last() == s@[i as int]);
        if s[i] == from {
            let ghost before = out@;
            for k in 0..to.len()
                invariant
                    out@ == before + to@.take(k as int),
            {
                out.push(to[k]);
                assert(to@.take(k + 1) =~= to@.take(k as int).push(to@[k as int]));
            }
            assert(to@.take(to@.len() as int) =~= to@);
        } else {
            out.push(s[i]);
        }
    }
    assert(s@.take(s@.len() as int) =~= s@);
    out
}

/// The report's file name (see `report_file_name_spec`).
pub fn report_file_name(start_time: &str, player: &str, civ: &str) -> (name: String)
    ensures
        name@ == report_file_name_spec(start_time@, player@, civ@),
{
    let none: Vec<char> = Vec::new();
    let mut dash: Vec<char> = Vec::new();
    dash.push('-');
    let mut underscore: Vec<char> = Vec::new();
    underscore.push('_');
    assert(none@ =~= Seq::<char>::empty());
    assert(dash@ =~= seq!['-']);
    assert(underscore@ =~= seq!['_']);
    let t = chars_of(start_time);
    let t = replace_chars(&t, '-', &none);
    let t = replace_chars(&t, ':', &none);
    let t = replace_chars(&t, ' ', &dash);
    let p = replace_chars(&chars_of(player), ' ', &underscore);
    let c = replace_chars(&chars_of(civ), ' ', &underscore);
    let mut name = string_of(t.as_slice());
    name.push('-');
    let ps = string_of(p.as_slice());
    let cs = string_of(c.as_slice());
    name.append(ps.as_str());
    name.push('-');
    name.append(cs.as_str());
    name.append(".html");
    assert(name@ =~= report_file_name_spec(start_time@, player@, civ@));
    name
}

} // verus!
