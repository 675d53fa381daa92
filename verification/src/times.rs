use vstd::prelude::*;
use chrono::Timelike;

verus! {

/// The format in which schedule times and offsets are written.
pub open spec fn hms_format() -> Seq<char> {
    "%H:%M:%S"@
}

/// Names what `chrono::NaiveTime::parse_from_str(s, fmt)` yields, taken as the
/// time's hour, minute, second and nanosecond, or `None` when chrono reports
/// an error.
pub uninterp spec fn naive_time_parse(s: Seq<char>, fmt: Seq<char>) -> Option<(u32, u32, u32, u32)>;

/// Calls `chrono::NaiveTime::parse_from_str` and hands out the parsed time's
/// `hour()`, `minute()`, `second()` and `nanosecond()`. Claimed: the result
/// is the named function of both arguments, and chrono documents these
/// accessors to return 0 to 23, 0 to 59, 0 to 59, and 0 to 1,999,999,999
/// (a leap second reads as second 59 with a nanosecond of at least
/// 1,000,000,000).
#[verifier::external_body]
fn parse_naive_time(s: &str, fmt: &str) -> (res: Option<(u32, u32, u32, u32)>)
    ensures
        res == naive_time_parse(s@, fmt@),
        parsed_in_day(res),
{
    match chrono::NaiveTime::parse_from_str(s, fmt) {
        Ok(t) => Some((t.hour(), t.minute(), t.second(), t.nanosecond())),
        Err(_) => None,
    }
}

/// Seconds since midnight of a time of day given as hour, minute, second.
pub open spec fn hms_to_seconds(h: u32, m: u32, s: u32) -> int {
    h * 3600 + m * 60 + s
}

/// Whether a parsed time lies within one day, as every time chrono parses does.
pub open spec fn parsed_in_day(parsed: Option<(u32, u32, u32, u32)>) -> bool {
    parsed matches Some((h, m, s, nano)) ==> h < 24 && m < 60 && s < 60 && nano < 2_000_000_000
}

/// The offset that a parsed time stands for: its whole seconds since
/// midnight (a leap second counts as second 59), or zero when the text did
/// not parse.
pub open spec fn offset_of(parsed: Option<(u32, u32, u32, u32)>) -> int {
    match parsed {
        Some((h, m, s, _)) => hms_to_seconds(h, m, s),
        None => 0,
    }
}

/// A time of day in half-seconds since midnight: twice its whole seconds,
/// and one more within a leap second, so that `hh:mm:60` comes after
/// `hh:mm:59` and before the next minute.
pub open spec fn half_seconds(h: u32, m: u32, s: u32, nano: u32) -> int {
    2 * hms_to_seconds(h, m, s) + if nano >= 1_000_000_000 {
        1int
    } else {
        0int
    }
}

/// The time of day that a parsed time stands for, in half-seconds.
pub open spec fn time_of_day_of(parsed: Option<(u32, u32, u32, u32)>) -> Option<u32> {
    match parsed {
        Some((h, m, s, nano)) => Some(half_seconds(h, m, s, nano) as u32),
        None => None,
    }
}

/// The offset in seconds that a parsed time of day stands for (zero for `None`).
pub fn offset_seconds(parsed: Option<(u32, u32, u32, u32)>) -> (res: u32)
    requires
        parsed_in_day(parsed),
    ensures
        res == offset_of(parsed),
        res < 86400,
{
    match parsed {
        Some((h, m, s, _)) => h * 3600 + m * 60 + s,
        None => 0,
    }
}

/// Parses an `HH:MM:SS` offset as chrono does and returns it in whole
/// seconds; text that does not parse counts as a zero offset.
pub fn parse_offset(text: &str) -> (res: u32)
    ensures
        res == offset_of(naive_time_parse(text@, hms_format())),
        res < 86400,
{
    let parsed = parse_naive_time(text, "%H:%M:%S");
    offset_seconds(parsed)
}

/// Parses an `HH:MM:SS` time of day as chrono does and returns it in
/// half-seconds since midnight (see `half_seconds`), or `None` when it does
/// not parse.
pub fn parse_time_of_day(text: &str) -> (res: Option<u32>)
    ensures
        res == time_of_day_of(naive_time_parse(text@, hms_format())),
        res matches Some(t) ==> t < 172800,
{
    let parsed = parse_naive_time(text, "%H:%M:%S");
    match parsed {
        Some((h, m, s, nano)) => {
            let whole = offset_seconds(parsed);
            if nano >= 1_000_000_000 {
                Some(2 * whole + 1)
            } else {
                Some(2 * whole)
            }
        },
        None => None,
    }
}

/// Whether a character is an ASCII decimal digit.
pub open spec fn is_digit(c: char) -> bool {
    '0' <= c && c <= '9'
}

/// The value of a string of decimal digits.
pub open spec fn digits_value(s: Seq<char>) -> nat
    decreases s.len(),
{
    if s.len() == 0 {
        0
    } else {
        digits_value(s.drop_last()) * 10 + ((s.last() as nat) - ('0' as nat)) as nat
    }
}

/// Whether every character of `s` is an ASCII decimal digit.
pub open spec fn all_digits(s: Seq<char>) -> bool {
    forall|i: int| 0 <= i < s.len() ==> is_digit(#[trigger] s[i])
}

/// The value of a nonempty run of ASCII digits that fits in a `u16`.
pub open spec fn u16_of_digits(d: Seq<char>) -> Option<u16> {
    if d.len() > 0 && all_digits(d) && digits_value(d) <= u16::MAX {
        Some(digits_value(d) as u16)
    } else {
        None
    }
}

/// The text after an optional leading `+`.
pub open spec fn without_plus(s: Seq<char>) -> Seq<char> {
    if s.len() > 0 && s[0] == '+' {
        s.drop_first()
    } else {
        s
    }
}

/// What `str::parse::<u16>` returns, as std documents it: an optional `+`
/// followed by one or more ASCII digits whose value fits in a `u16`.
pub open spec fn u16_parse(s: Seq<char>) -> Option<u16> {
    u16_of_digits(without_plus(s))
}

proof fn lemma_digits_value_push(s: Seq<char>, c: char)
    ensures
        digits_value(s.push(c)) == digits_value(s) * 10 + ((c as nat) - ('0' as nat)) as nat,
{
    assert(s.push(c).drop_last() =~= s);
}

proof fn lemma_digits_value_monotone(s: Seq<char>, k: int)
    requires
        0 <= k <= s.len(),
        all_digits(s),
    ensures
        digits_value(s.take(k)) <= digits_value(s),
    decreases s.len() - k,
{
    if k < s.len() {
        lemma_digits_value_monotone(s, k + 1);
        let t = s.take(k + 1);
        assert(t.drop_last() =~= s.take(k));
        assert(t.last() == s[k]);
        assert(is_digit(s[k]));
        assert(digits_value(t) == digits_value(s.take(k)) * 10 + ((t.last() as nat) - ('0' as nat)) as nat);
    } else {
        assert(s.take(k) =~= s);
    }
}

/// Parses a decimal `u16` the way `str::parse::<u16>` does.
pub fn parse_u16(text: &str) -> (res: Option<u16>)
    ensures
        res == u16_parse(text@),
{
    let len = text.unicode_len();
    let mut start: usize = 0;
    if len > 0 && text.get_char(0) == '+' {
        start = 1;
    }
    let ghost d = without_plus(text@);
    assert(d =~= text@.subrange(start as int, len as int));
    if start == len {
        return None;
    }
    let mut value: u32 = 0;
    let mut i: usize = start;
    while i < len
        invariant
            start <= i <= len,
            len == text@.len(),
            start < len,
            d == text@.subrange(start as int, len as int),
            d == without_plus(text@),
            forall|j: int| 0 <= j < i - start ==> is_digit(#[trigger] d[j]),
            value == digits_value(d.take(i - start)),
            value <= u16::MAX,
        decreases len - i,
    {
        let c = text.get_char(i);
        assert(d[i - start] == c);
        if !('0' <= c && c <= '9') {
            assert(!is_digit(d[i - start]));
            return None;
        }
        proof {
            assert(d.take(i - start + 1) =~= d.take(i - start).push(c));
            lemma_digits_value_push(d.take(i - start), c);
        }
        let digit: u32 = (c as u32) - ('0' as u32);
        value = value * 10 + digit;
        if value > 65535 {
            proof {
                if all_digits(d) {
                    lemma_digits_value_monotone(d, i - start + 1);
                }
            }
            return None;
        }
        i = i + 1;
    }
    assert(d.take(len - start) =~= d);
    Some(value as u16)
}

} // verus!
