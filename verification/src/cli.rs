//! What a caller asks for, and the reading of the request limit "N:M".
use vstd::prelude::*;
use vstd::string::StrSliceExecFns;
use vstd::string::StringExecFns;

verus! {

/// Everything a run is asked for.
#[derive(Debug)]
pub struct Cli {
    /// The user whose plays are listed.
    pub user_id: String,
    /// Whether progress is to be reported.
    pub verbose: bool,
    pub command: Commands,
    /// The form of the output; a report in plain text if none is given.
    pub output: Option<OutputType>,
    /// Where the service is found.
    pub api_url_base: String,
    pub request_limit: RequestLimit,
}

/// At most `requests` requests in any `timeframe_secs` seconds; no limit
/// at all where `requests` is zero.
#[derive(Copy, Clone, Debug)]
pub struct RequestLimit {
    pub requests: u16,
    pub timeframe_secs: u16,
}

/// What is to be listed.
#[derive(Debug)]
pub enum Commands {
    /// The beatmap sets that the user played most: at most `limit` of them
    /// if a limit is given, and those of `modes` only unless `modes` is
    /// empty.
    MostPlayed { limit: Option<u16>, modes: Vec<BeatmapMode> },
}

/// The forms of output other than the report in plain text.
#[derive(Copy, Clone, PartialEq, Eq, Structural, PartialOrd, Ord, Debug)]
pub enum OutputType {
    Json,
}

/// The play modes a beatmap can be made for.
#[derive(Copy, Clone, PartialEq, Eq, Structural, PartialOrd, Ord, Debug)]
pub enum BeatmapMode {
    Standard,
    Mania,
    Taiko,
    Catch,
}

/// Whether `c` is a decimal digit.
pub open spec fn is_digit(c: char) -> bool {
    '0' <= c <= '9'
}

/// The number that the digit `c` stands for.
pub open spec fn digit_value(c: char) -> nat {
    (c as u32 - '0' as u32) as nat
}

/// The number that `digits` spell in decimal; leading zeros count for
/// nothing.
pub open spec fn digits_value(digits: Seq<char>) -> nat
    decreases digits.len(),
{
    if digits.len() == 0 {
        0
    } else {
        digits_value(digits.drop_last()) * 10 + digit_value(digits.last())
    }
}

/// `text` without the plus sign in front of it, if there is one.
pub open spec fn unsigned_part(text: Seq<char>) -> Seq<char> {
    if text.len() > 0 && text[0] == '+' {
        text.drop_first()
    } else {
        text
    }
}

/// The number that `text` spells, if it spells one that fits into 16 bits:
/// one or more decimal digits, with or without a plus sign in front.
pub open spec fn parsed_u16(text: Seq<char>) -> Option<u16> {
    let digits = unsigned_part(text);
    if digits.len() > 0 && (forall|i: int| 0 <= i < digits.len() ==> is_digit(#[trigger] digits[i]))
        && digits_value(digits) <= u16::MAX {
        Some(digits_value(digits) as u16)
    } else {
        None
    }
}

/// Whether `text` has a colon at `at` and nowhere else.
pub open spec fn only_colon_at(text: Seq<char>, at: int) -> bool {
    &&& 0 <= at < text.len()
    &&& text[at] == ':'
    &&& forall|i: int| 0 <= i < text.len() && i != at ==> #[trigger] text[i] != ':'
}

/// Whether `text` has exactly one colon.
pub open spec fn has_one_colon(text: Seq<char>) -> bool {
    exists|at: int| only_colon_at(text, at)
}

/// What is said of a text that is not two parts with a colon between them.
pub open spec fn format_message() -> Seq<char> {
    "Invalid API Limit format, use the format \"N:M\" where N is the maximum number of calls in M seconds. Use 0 to represent \"no limits\"."@
}

/// What is said of `part` when it does not spell a number.
pub open spec fn not_a_number_message(part: Seq<char>) -> Seq<char> {
    "\""@ + part + "\" is not a valid number"@
}

/// The request limit that `text` spells in the form "N:M", or what is said
/// of `text` if it spells none. Of two parts that both spell no number the
/// first is named.
pub open spec fn parsed_limit(text: Seq<char>) -> Result<RequestLimit, Seq<char>> {
    if !has_one_colon(text) {
        Err(format_message())
    } else {
        let at = choose|at: int| only_colon_at(text, at);
        let first = text.take(at);
        let second = text.skip(at + 1);
        match parsed_u16(first) {
            None => Err(not_a_number_message(first)),
            Some(requests) => match parsed_u16(second) {
                None => Err(not_a_number_message(second)),
                Some(timeframe_secs) => Ok(RequestLimit { requests, timeframe_secs }),
            },
        }
    }
}

/// Reads `text` as a number of 16 bits: one or more decimal digits, with or
/// without a plus sign in front.
pub fn parse_u16(text: &str) -> (number: Option<u16>)
    ensures
        number == parsed_u16(text@),
{
    let length = text.unicode_len();
    let start: usize = if length > 0 && text.get_char(0) == '+' {
        1
    } else {
        0
    };
    if start == length {
        return None;
    }
    let ghost digits = unsigned_part(text@);
    assert(digits =~= text@.skip(start as int));
    let mut value: u32 = 0;
    let mut too_large = false;
    let mut i: usize = start;
    assert(digits.take(0) =~= Seq::<char>::empty());
    while i < length
        invariant
            start <= i <= length,
            length == text@.len(),
            digits == text@.skip(start as int),
            digits == unsigned_part(text@),
            forall|k: int| 0 <= k < i - start ==> is_digit(#[trigger] digits[k]),
            !too_large ==> value == digits_value(digits.take(i - start)) && value <= u16::MAX,
            too_large ==> digits_value(digits.take(i - start)) > u16::MAX,
        decreases length - i,
    {
        let c = text.get_char(i);
        assert(c == digits[i - start]);
        if !(c >= '0' && c <= '9') {
            assert(!is_digit(digits[i - start]));
            return None;
        }
        proof {
            let longer = digits.take(i - start + 1);
            assert(longer.drop_last() =~= digits.take(i - start));
            assert(longer.last() == c);
        }
        if !too_large {
            value = value * 10 + (c as u32 - '0' as u32);
            if value > u16::MAX as u32 {
                too_large = true;
            }
        }
        i += 1;
    }
    assert(digits.take(i - start) =~= digits);
    if too_large {
        None
    } else {
        Some(value as u16)
    }
}

/// Where the first colon of `text` stands, at or behind `from`; the length
/// of `text` if there is none.
fn find_colon(text: &str, from: usize) -> (at: usize)
    requires
        from <= text@.len(),
    ensures
        from <= at <= text@.len(),
        forall|i: int| from <= i < at ==> #[trigger] text@[i] != ':',
        at < text@.len() ==> text@[at as int] == ':',
{
    let length = text.unicode_len();
    let mut at: usize = from;
    while at < length
        invariant
            from <= at <= length,
            length == text@.len(),
            forall|i: int| from <= i < at ==> #[trigger] text@[i] != ':',
        decreases length - at,
    {
        if text.get_char(at) == ':' {
            return at;
        }
        at += 1;
    }
    at
}

/// What is said of `part` when it does not spell a number.
fn not_a_number(part: &str) -> (message: String)
    ensures
        message@ == not_a_number_message(part@),
{
    let mut message = "\"".to_string();
    message.append(part);
    message.append("\" is not a valid number");
    message
}

/// Reads a request limit of the form "N:M": at most N requests in any M
/// seconds, both numbers of 16 bits. Any other text is answered by what is
/// to be said of it.
pub fn api_limit_parser(s: &str) -> (limit: Result<RequestLimit, String>)
    ensures
        match (limit, parsed_limit(s@)) {
            (Ok(read), Ok(spelled)) => read == spelled,
            (Err(said), Err(message)) => said@ == message,
            _ => false,
        },
{
    let length = s.unicode_len();
    let at = find_colon(s, 0);
    if at == length {
        assert(!has_one_colon(s@)) by {
            if has_one_colon(s@) {
                let other = choose|other: int| only_colon_at(s@, other);
                assert(s@[other] != ':');
            }
        }
        return Err(
            "Invalid API Limit format, use the format \"N:M\" where N is the maximum number of calls in M seconds. Use 0 to represent \"no limits\".".to_string(),
        );
    }
    let next = find_colon(s, at + 1);
    if next < length {
        assert(!has_one_colon(s@)) by {
            if has_one_colon(s@) {
                let other = choose|other: int| only_colon_at(s@, other);
                if other == at {
                    assert(s@[next as int] != ':');
                } else {
                    assert(s@[at as int] != ':');
                }
            }
        }
        return Err(
            "Invalid API Limit format, use the format \"N:M\" where N is the maximum number of calls in M seconds. Use 0 to represent \"no limits\".".to_string(),
        );
    }
    proof {
        assert(only_colon_at(s@, at as int));
        let chosen = choose|chosen: int| only_colon_at(s@, chosen);
        assert(chosen == at) by {
            if chosen != at {
                assert(s@[at as int] != ':');
            }
        }
    }
    let first = s.substring_char(0, at);
    let second = s.substring_char(at + 1, length);
    assert(first@ =~= s@.take(at as int));
    assert(second@ =~= s@.skip(at + 1));
    let requests = match parse_u16(first) {
        Some(requests) => requests,
        None => {
            return Err(not_a_number(first));
        },
    };
    let timeframe_secs = match parse_u16(second) {
        Some(timeframe_secs) => timeframe_secs,
        None => {
            return Err(not_a_number(second));
        },
    };
    Ok(RequestLimit { requests, timeframe_secs })
}

} // verus!
