//! Command-line values: `key=value` client overrides and human-readable durations.

use vstd::prelude::*;
use vstd::string::*;

verus! {

/// Nanoseconds in one second.
pub const NANOS_PER_SEC: u64 = 1_000_000_000;

/// What `humantime::parse_duration` makes of a text: whole seconds and the
/// nanoseconds beyond them, or nothing where it rejects the text.
pub uninterp spec fn humantime_duration(text: Seq<char>) -> Option<(u64, u32)>;

/// Number of decimal digits in a text.
pub open spec fn digit_count(text: Seq<char>) -> nat
    decreases text.len(),
{
    if text.len() == 0 {
        0
    } else {
        digit_count(text.drop_last()) + if is_digit(text.last()) { 1nat } else { 0nat }
    }
}

pub open spec fn is_digit(c: char) -> bool {
    '0' <= c && c <= '9'
}

/// Calls `humantime::parse_duration`. The contract names the outcome and adds
/// that the nanosecond part stays below one second, as `Duration::subsec_nanos`
/// documents. Texts with more than eleven digits are left out: on those the
/// parser's sum of seconds can reach the top of the `u64` range, where building
/// the `Duration` overflows.
#[verifier::external_body]
fn parse_duration_text(arg: &str) -> (r: Option<(u64, u32)>)
    requires
        digit_count(arg@) <= 11,
    ensures
        r == humantime_duration(arg@),
        r matches Some(d) ==> d.1 < NANOS_PER_SEC,
{
    match humantime::parse_duration(arg) {
        Ok(d) => Some((d.as_secs(), d.subsec_nanos())),
        Err(_) => None,
    }
}

/// Number of decimal digits in a text.
pub fn count_digits(arg: &str) -> (n: usize)
    ensures
        n == digit_count(arg@),
{
    let len = arg.unicode_len();
    let mut n: usize = 0;
    let mut i: usize = 0;
    while i < len
        invariant
            i <= len,
            len == arg@.len(),
            n == digit_count(arg@.take(i as int)),
            n <= i,
        decreases len - i,
    {
        let c = arg.get_char(i);
        proof {
            assert(arg@.take(i as int + 1).drop_last() =~= arg@.take(i as int));
        }
        if '0' <= c && c <= '9' {
            n = n + 1;
        }
        i = i + 1;
    }
    proof {
        assert(arg@.take(len as int) =~= arg@);
    }
    n
}


/// The most digits a duration text may hold.
pub const MAX_DIGITS: usize = 11;

/// Why a text was not taken as a duration.
#[derive(Clone, Copy, PartialEq, Eq, Structural, Debug)]
pub enum DurationError {
    /// The text holds more than [`MAX_DIGITS`] digits.
    TooManyDigits,
    /// The text is not a duration.
    Unparsable,
    /// The duration does not fit into 64 bits of nanoseconds.
    TooLong,
}

/// The duration in nanoseconds that a parse stands for.
pub open spec fn nanos_of(parsed: Option<(u64, u32)>) -> Result<u64, DurationError> {
    match parsed {
        None => Err(DurationError::Unparsable),
        Some(d) => if d.0 * NANOS_PER_SEC + d.1 <= u64::MAX {
            Ok((d.0 * NANOS_PER_SEC + d.1) as u64)
        } else {
            Err(DurationError::TooLong)
        },
    }
}

/// What a text stands for as a duration, in nanoseconds.
pub open spec fn duration_of(text: Seq<char>) -> Result<u64, DurationError> {
    if digit_count(text) > MAX_DIGITS {
        Err(DurationError::TooManyDigits)
    } else {
        nanos_of(humantime_duration(text))
    }
}

/// Turns a parse, whole seconds and the nanoseconds beyond them, into
/// nanoseconds.
pub fn duration_nanos(parsed: Option<(u64, u32)>) -> (r: Result<u64, DurationError>)
    ensures
        r == nanos_of(parsed),
{
    match parsed {
        None => Err(DurationError::Unparsable),
        Some((secs, nanos)) => {
            match secs.checked_mul(NANOS_PER_SEC) {
                Some(whole) => match whole.checked_add(nanos as u64) {
                    Some(all) => Ok(all),
                    None => Err(DurationError::TooLong),
                },
                None => Err(DurationError::TooLong),
            }
        },
    }
}

/// Reads a duration written for humans, such as `10s`, `15min` or `2h`, and
/// gives it in nanoseconds.
pub fn parsehuman(arg: &str) -> (r: Result<u64, DurationError>)
    ensures
        r == duration_of(arg@),
{
    if count_digits(arg) > MAX_DIGITS {
        return Err(DurationError::TooManyDigits);
    }
    duration_nanos(parse_duration_text(arg))
}

impl DurationError {
    /// What to tell the user about the text `arg`.
    pub fn message(&self, arg: &str) -> (r: String)
        ensures
            r@ == "Not a parsaeble time: "@ + arg@,
    {
        String::from_str("Not a parsaeble time: ").concat(arg)
    }
}

/// A client option that is not of the form `key=value`.
#[derive(Debug)]
pub struct OptionError {
    /// The text as it was given.
    pub arg: String,
}

impl OptionError {
    /// What to tell the user.
    pub fn message(&self) -> (r: String)
        ensures
            r@ == "Expected a parameter of form config.key=value, got "@ + self.arg@,
    {
        String::from_str("Expected a parameter of form config.key=value, got ").concat(self.arg.as_str())
    }
}

/// Splits a client option at its first `=` into key and value. A text
/// without `=` is an error.
pub fn parseopts(arg: &str) -> (r: Result<(String, String), OptionError>)
    ensures
        match r {
            Ok(kv) => kv.0@ + seq!['='] + kv.1@ == arg@ && !kv.0@.contains('='),
            Err(e) => !arg@.contains('=') && e.arg@ == arg@,
        },
{
    let n = arg.unicode_len();
    let mut i: usize = 0;
    while i < n && arg.get_char(i) != '='
        invariant
            n == arg@.len(),
            i <= n,
            forall|j: int| 0 <= j < i ==> arg@[j] != '=',
        decreases n - i,
    {
        i = i + 1;
    }
    if i < n {
        let key = String::from_str(arg.substring_char(0, i));
        let value = String::from_str(arg.substring_char(i + 1, n));
        proof {
            assert(key@ + seq!['='] + value@ =~= arg@);
            if key@.contains('=') {
                let j = choose|j: int| 0 <= j < key@.len() && key@[j] == '=';
                assert(arg@[j] == '=');
            }
        }
        Ok((key, value))
    } else {
        proof {
            if arg@.contains('=') {
                let j = choose|j: int| 0 <= j < arg@.len() && arg@[j] == '=';
                assert(arg@[j] != '=');
            }
        }
        Err(OptionError { arg: String::from_str(arg) })
    }
}

/// The visible window unless one is given: fifteen minutes.
pub const DEFAULT_DRAW_INTERVAL: u64 = 900_000_000_000;

/// The polling period unless one is given: ten seconds.
pub const DEFAULT_SCRAPE_INTERVAL: u64 = 10_000_000_000;

/// The timeout of a broker call unless one is given: five seconds.
pub const DEFAULT_SCRAPE_TIMEOUT: u64 = 5_000_000_000;

/// What the command line says.
#[derive(Debug)]
pub struct Opts {
    /// Bootstrap broker address.
    pub brokers: String,
    /// Additional client options, as keys and values.
    pub kafka_options: Vec<(String, String)>,
    /// Length of history to draw, in nanoseconds.
    pub draw_interval: u64,
    /// Polling period, in nanoseconds.
    pub scrape_interval: u64,
    /// Timeout of every broker call, in nanoseconds.
    pub scrape_timeout: u64,
}

} // verus!
