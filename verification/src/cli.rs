//! The program's decisions: what its command line asks for, what a key
//! press does, when the display refreshes, and how the API key is sent.
use vstd::prelude::*;

use crate::text::same_text;

verus! {

broadcast use vstd::string::group_string_axioms;

/// The router URL when neither `--url` nor `LLM_DEFAULT_URL` gives one.
pub open spec fn default_url() -> Seq<char> {
    "http://localhost:8080"@
}

/// The API key when neither `--key` nor `LLM_DEFAULT_KEY` gives one.
pub open spec fn default_key() -> Seq<char> {
    "KEY-SECRET"@
}

/// What parsing a command-line argument as a number of seconds (`f64`) gave.
#[derive(Debug, Clone, Copy, PartialEq, Eq, Structural)]
pub enum NumberArg {
    /// a number greater than 0 that a `Duration` can hold
    Positive,
    /// a number greater than 0 too large for a `Duration` (infinity)
    TooLarge,
    /// a number, but not greater than 0
    NotPositive,
    /// not a number
    NotANumber,
}

/// Why a command line is refused; an index is that of the argument at fault.
#[derive(Debug, Clone, Copy, PartialEq, Eq, Structural)]
pub enum CliError {
    /// `--url` was the last argument
    MissingUrl,
    /// `--key` was the last argument
    MissingKey,
    /// `-i`/`--interval` was the last argument
    MissingInterval,
    /// the argument is not a positive number of seconds where an interval
    /// is expected
    InvalidInterval(usize),
    /// the argument is neither an option nor a number
    UnknownArgument(usize),
    /// the argument is a positive number of seconds too large for a
    /// `Duration` (where the interval is set, which panics)
    IntervalTooLarge(usize),
}

/// The refresh interval, in seconds, when the command line sets none.
pub const DEFAULT_INTERVAL_SECS: u64 = 1;

/// What a valid command line sets.
#[derive(Debug)]
pub struct CliSettings {
    /// The position of the argument that gives the refresh interval in
    /// seconds, if any (the interval is `DEFAULT_INTERVAL_SECS` otherwise).
    pub interval_arg: Option<usize>,
    pub server_url: String,
    pub api_key: String,
}

/// What the command line asks for.
#[derive(Debug)]
pub enum CliCommand {
    /// print the usage and stop
    Help,
    /// monitor with these settings
    Run(CliSettings),
}

/// Where reading the arguments ends: help, a refusal, or the positions of
/// the last `--url` value, `--key` value and interval.
pub enum CliScan {
    Help,
    Fail(CliError),
    Done { url: Option<int>, key: Option<int>, interval: Option<int> },
}

/// Reads the arguments from position `i` on, left to right: `-h`/`--help`
/// asks for help; `--url` and `--key` take the next argument as their value
/// (a later one wins), and fail without one; `-i`/`--interval` takes the
/// next argument as the refresh interval, which must be a positive number of
/// seconds, and fails without one; any other argument must be a positive
/// number of seconds, the refresh interval too. A later interval wins, and
/// one too large for a `Duration` stops the reading.
pub open spec fn scan_args(
    args: Seq<Seq<char>>,
    nums: Seq<NumberArg>,
    i: int,
    url: Option<int>,
    key: Option<int>,
    interval: Option<int>,
) -> CliScan
    decreases args.len() - i,
{
    if i < 0 || i >= args.len() {
        CliScan::Done { url, key, interval }
    } else if args[i] == "-h"@ || args[i] == "--help"@ {
        CliScan::Help
    } else if args[i] == "--url"@ {
        if i + 1 < args.len() {
            scan_args(args, nums, i + 2, Some(i + 1), key, interval)
        } else {
            CliScan::Fail(CliError::MissingUrl)
        }
    } else if args[i] == "--key"@ {
        if i + 1 < args.len() {
            scan_args(args, nums, i + 2, url, Some(i + 1), interval)
        } else {
            CliScan::Fail(CliError::MissingKey)
        }
    } else if args[i] == "-i"@ || args[i] == "--interval"@ {
        if i + 1 < args.len() {
            match nums[i + 1] {
                NumberArg::Positive => scan_args(args, nums, i + 2, url, key, Some(i + 1)),
                NumberArg::TooLarge => CliScan::Fail(CliError::IntervalTooLarge((i + 1) as usize)),
                NumberArg::NotPositive => CliScan::Fail(CliError::InvalidInterval((i + 1) as usize)),
                NumberArg::NotANumber => CliScan::Fail(CliError::InvalidInterval((i + 1) as usize)),
            }
        } else {
            CliScan::Fail(CliError::MissingInterval)
        }
    } else {
        match nums[i] {
            NumberArg::Positive => scan_args(args, nums, i + 1, url, key, Some(i)),
            NumberArg::TooLarge => CliScan::Fail(CliError::IntervalTooLarge(i as usize)),
            NumberArg::NotPositive => CliScan::Fail(CliError::InvalidInterval(i as usize)),
            NumberArg::NotANumber => CliScan::Fail(CliError::UnknownArgument(i as usize)),
        }
    }
}

/// A setting's value: that of its option, else that of its environment
/// variable, else the default.
pub open spec fn setting(args: Seq<Seq<char>>, at: Option<int>, env: Option<Seq<char>>, default: Seq<char>) -> Seq<char> {
    match at {
        Some(j) => args[j],
        None => match env {
            Some(e) => e,
            None => default,
        },
    }
}

/// Command-line options override environment variables, which override
/// the defaults.
pub proof fn lemma_flags_override_env(args: Seq<Seq<char>>, at: Option<int>, env: Option<Seq<char>>, default: Seq<char>)
    ensures
        at matches Some(j) ==> setting(args, at, env, default) == args[j],
        at is None ==> (env matches Some(e) ==> setting(args, at, env, default) == e),
        at is None && env is None ==> setting(args, at, env, default) == default,
{
}

/// The text of an optional string.
pub open spec fn env_text(s: Option<String>) -> Option<Seq<char>> {
    match s {
        Some(t) => Some(t@),
        None => None,
    }
}

/// Reads the command line `args` (without the program's name).
/// `numbers[i]` is what parsing `args[i]` as a number gave; `env_url` and
/// `env_key` are the values of `LLM_DEFAULT_URL` and `LLM_DEFAULT_KEY`.
pub fn parse_args(
    args: &Vec<String>,
    numbers: &Vec<NumberArg>,
    env_url: Option<String>,
    env_key: Option<String>,
) -> (r: Result<CliCommand, CliError>)
    requires
        numbers@.len() == args@.len(),
    ensures
        ({
            let av = args@.map_values(|s: String| s@);
            match scan_args(av, numbers@, 0, None, None, None) {
                CliScan::Help => r matches Ok(CliCommand::Help),
                CliScan::Fail(e) => r == Err::<CliCommand, CliError>(e),
                CliScan::Done { url, key, interval } => r matches Ok(CliCommand::Run(s)) && s.interval_arg
                    == (match interval {
                    Some(j) => Some(j as usize),
                    None => None,
                }) && s.server_url@ == setting(av, url, env_text(env_url), default_url())
                    && s.api_key@ == setting(av, key, env_text(env_key), default_key()),
            }
        }),
{
    let ghost av = args@.map_values(|s: String| s@);
    let n = args.len();
    let mut i: usize = 0;
    let mut url: Option<usize> = None;
    let mut key: Option<usize> = None;
    let mut interval: Option<usize> = None;
    while i < n
        invariant
            n == args@.len(),
            numbers@.len() == n,
            av == args@.map_values(|s: String| s@),
            i <= n,
            url matches Some(j) ==> j < n,
            key matches Some(j) ==> j < n,
            interval matches Some(j) ==> j < n,
            scan_args(av, numbers@, 0, None, None, None) == scan_args(
                av,
                numbers@,
                i as int,
                match url {
                    Some(j) => Some(j as int),
                    None => None,
                },
                match key {
                    Some(j) => Some(j as int),
                    None => None,
                },
                match interval {
                    Some(j) => Some(j as int),
                    None => None,
                },
            ),
        decreases n - i,
    {
        let arg = args[i].as_str();
        assert(av[i as int] == arg@);
        if same_text(arg, "-h") || same_text(arg, "--help") {
            return Ok(CliCommand::Help);
        } else if same_text(arg, "--url") {
            if i + 1 < n {
                url = Some(i + 1);
                i = i + 2;
            } else {
                return Err(CliError::MissingUrl);
            }
        } else if same_text(arg, "--key") {
            if i + 1 < n {
                key = Some(i + 1);
                i = i + 2;
            } else {
                return Err(CliError::MissingKey);
            }
        } else if same_text(arg, "-i") || same_text(arg, "--interval") {
            if i + 1 < n {
                match numbers[i + 1] {
                    NumberArg::Positive => {
                        interval = Some(i + 1);
                        i = i + 2;
                    },
                    NumberArg::TooLarge => {
                        return Err(CliError::IntervalTooLarge(i + 1));
                    },
                    NumberArg::NotPositive => {
                        return Err(CliError::InvalidInterval(i + 1));
                    },
                    NumberArg::NotANumber => {
                        return Err(CliError::InvalidInterval(i + 1));
                    },
                }
            } else {
                return Err(CliError::MissingInterval);
            }
        } else {
            match numbers[i] {
                NumberArg::Positive => {
                    interval = Some(i);
                    i = i + 1;
                },
                NumberArg::TooLarge => {
                    return Err(CliError::IntervalTooLarge(i));
                },
                NumberArg::NotPositive => {
                    return Err(CliError::InvalidInterval(i));
                },
                NumberArg::NotANumber => {
                    return Err(CliError::UnknownArgument(i));
                },
            }
        }
    }
    let server_url = match url {
        Some(j) => {
            assert(av[j as int] == args@[j as int]@);
            args[j].clone()
        },
        None => match env_url {
            Some(e) => e,
            None => "http://localhost:8080".to_owned(),
        },
    };
    let api_key = match key {
        Some(j) => {
            assert(av[j as int] == args@[j as int]@);
            args[j].clone()
        },
        None => match env_key {
            Some(e) => e,
            None => "KEY-SECRET".to_owned(),
        },
    };
    Ok(CliCommand::Run(CliSettings { interval_arg: interval, server_url, api_key }))
}

// ----- keys -----

/// A key the program tells apart.
#[derive(Debug, Clone, Copy, PartialEq, Eq, Structural)]
pub enum Key {
    Char(char),
    Esc,
    Up,
    Down,
    Other,
}

/// What a key press makes the program do.
#[derive(Debug, Clone, Copy, PartialEq, Eq, Structural)]
pub enum KeyAction {
    Quit,
    Refresh,
    ScrollUp,
    ScrollDown,
    Nothing,
}

/// What a key event does: only presses count; `q`, Esc and Ctrl-C quit,
/// `r` forces a refresh, the arrows scroll.
pub open spec fn key_action_spec(key: Key, ctrl: bool, is_press: bool) -> KeyAction {
    if !is_press {
        KeyAction::Nothing
    } else {
        match key {
            Key::Char(c) => if c == 'q' {
                KeyAction::Quit
            } else if c == 'c' && ctrl {
                KeyAction::Quit
            } else if c == 'r' {
                KeyAction::Refresh
            } else {
                KeyAction::Nothing
            },
            Key::Esc => KeyAction::Quit,
            Key::Up => KeyAction::ScrollUp,
            Key::Down => KeyAction::ScrollDown,
            Key::Other => KeyAction::Nothing,
        }
    }
}

/// What a key event does (see `key_action_spec`); `ctrl` is whether the
/// Control modifier was held, `is_press` whether the event is a press.
pub fn key_action(key: Key, ctrl: bool, is_press: bool) -> (a: KeyAction)
    ensures
        a == key_action_spec(key, ctrl, is_press),
{
    if !is_press {
        return KeyAction::Nothing;
    }
    match key {
        Key::Char(c) => if c == 'q' {
            KeyAction::Quit
        } else if c == 'c' && ctrl {
            KeyAction::Quit
        } else if c == 'r' {
            KeyAction::Refresh
        } else {
            KeyAction::Nothing
        },
        Key::Esc => KeyAction::Quit,
        Key::Up => KeyAction::ScrollUp,
        Key::Down => KeyAction::ScrollDown,
        Key::Other => KeyAction::Nothing,
    }
}

// ----- timing -----

/// The longest the program waits for a key between two redraws (100 ms, in
/// nanoseconds).
pub const MAX_POLL_NANOS: u64 = 100_000_000;

/// How long to wait for a key, `elapsed` nanoseconds after the last
/// refresh with a refresh every `tick` nanoseconds: until the next refresh
/// is due, but at most `MAX_POLL_NANOS`.
pub fn poll_timeout(elapsed: u64, tick: u64) -> (t: u64)
    ensures
        t == (if elapsed < tick {
            if tick - elapsed < MAX_POLL_NANOS {
                tick - elapsed
            } else {
                MAX_POLL_NANOS as int
            }
        } else {
            0
        }),
{
    let left = if elapsed < tick {
        tick - elapsed
    } else {
        0
    };
    if left < MAX_POLL_NANOS {
        left
    } else {
        MAX_POLL_NANOS
    }
}

/// Whether a periodic refresh is due: a whole tick has passed since the
/// last one.
pub fn refresh_due(elapsed: u64, tick: u64) -> (r: bool)
    ensures
        r == (elapsed >= tick),
{
    elapsed >= tick
}

// ----- the API key -----

/// Whether requests carry the API key: only when one is configured (some
/// servers reject unexpected auth headers).
pub fn sends_api_key(api_key: &str) -> (r: bool)
    ensures
        r == (api_key@.len() > 0),
{
    !api_key.is_empty()
}

/// The value of the `Authorization` header for the key: `Bearer <key>`.
pub fn bearer_value(api_key: &str) -> (r: String)
    ensures
        r@ == "Bearer "@ + api_key@,
{
    let mut r = "Bearer ".to_owned();
    r.append(api_key);
    r
}

/// Whether `v` can be an HTTP header value: every character is a tab, or
/// is a space or above and not DEL.
pub open spec fn header_value_ok(v: Seq<char>) -> bool {
    forall|i: int| 0 <= i < v.len() ==> v[i] == '\t' || ((v[i] as u32) >= 32 && (v[i] as u32) != 127)
}

/// Whether `v` is a valid header value.
///
/// Trusted: `HeaderValue::from_str` of the http crate (as `reqwest::header`
/// re-exports it) succeeds exactly when every byte of `v`'s UTF-8 encoding
/// is a tab, or is 32 or above and not 127. In characters that is
/// `header_value_ok`: an ASCII character is its own byte, and every byte of
/// any other character is 128 or above.
#[verifier::external_body]
fn header_value_valid(v: &str) -> (r: bool)
    ensures
        r == header_value_ok(v@),
{
    reqwest::header::HeaderValue::from_str(v).is_ok()
}

/// The `Authorization` header to send for the API key: an error when
/// `Bearer <key>` is no valid header value; no header for an empty key (it
/// is attached only when one is configured); else `Bearer <key>`.
pub fn auth_header(api_key: &str) -> (r: Result<Option<String>, ()>)
    ensures
        (r is Ok) <==> header_value_ok("Bearer "@ + api_key@),
        r matches Ok(h) ==> (h is Some <==> api_key@.len() > 0),
        r matches Ok(Some(h)) ==> h@ == "Bearer "@ + api_key@,
{
    let v = bearer_value(api_key);
    if !header_value_valid(v.as_str()) {
        Err(())
    } else if !sends_api_key(api_key) {
        Ok(None)
    } else {
        Ok(Some(v))
    }
}

} // verus!
