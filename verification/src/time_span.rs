//! Spans of time, how they are written for a reader, and how they are read.
use vstd::prelude::*;

use crate::text;
use crate::text::chars_of;

verus! {

/// A span of time in seconds and nanoseconds.
#[derive(Debug, Clone, Copy, PartialEq, Eq)]
pub struct TimeSpan {
    secs: u64,
    nanos: u32,
}

impl TimeSpan {
    /// The whole seconds.
    pub closed spec fn whole_secs(self) -> u64 {
        self.secs
    }

    /// The nanoseconds beyond the whole seconds.
    pub closed spec fn extra_nanos(self) -> u32 {
        self.nanos
    }

    #[verifier::type_invariant]
    spec fn normalized(self) -> bool {
        self.nanos < 1_000_000_000
    }

    /// A span of `secs` seconds.
    pub fn from_secs(secs: u64) -> (span: TimeSpan)
        ensures
            span.whole_secs() == secs,
            span.extra_nanos() == 0,
    {
        TimeSpan { secs, nanos: 0 }
    }

    /// A span of `secs` seconds and `nanos` nanoseconds, which are less than a second.
    pub fn from_parts(secs: u64, nanos: u32) -> (span: Option<TimeSpan>)
        ensures
            span is Some <==> nanos < 1_000_000_000,
            span is Some ==> span->0.whole_secs() == secs && span->0.extra_nanos() == nanos,
    {
        if nanos < 1_000_000_000 {
            Some(TimeSpan { secs, nanos })
        } else {
            None
        }
    }

    /// The whole seconds.
    pub fn secs(&self) -> (secs: u64)
        ensures
            secs == self.whole_secs(),
    {
        self.secs
    }

    /// The nanoseconds beyond the whole seconds.
    pub fn subsec_nanos(&self) -> (nanos: u32)
        ensures
            nanos == self.extra_nanos(),
            nanos < 1_000_000_000,
    {
        proof {
            use_type_invariant(self);
        }
        self.nanos
    }

    /// The span as a reader sees it, such as `10s` or `2h 37m`.
    pub fn text(&self) -> (text: String)
        ensures
            text@ == duration_text(self.whole_secs(), self.extra_nanos()),
    {
        let nanos = self.subsec_nanos();
        format_duration(self.secs, nanos)
    }
}

/// A number of units of time, where there are any. The long names of units take an `s` for
/// more than one.
pub open spec fn counted(value: int, unit: Seq<char>, long: bool) -> Seq<Seq<char>> {
    if value == 0 {
        Seq::empty()
    } else {
        seq![
            text::decimal(value as nat) + unit + (if long && value > 1 {
                "s"@
            } else {
                Seq::empty()
            }),
        ]
    }
}

/// A span as a reader sees it: the units that occur in it, from the longest to the shortest.
/// A year has 365.25 days, and a month 30.44 days.
pub open spec fn duration_text(secs: u64, nanos: u32) -> Seq<char> {
    let in_year = secs as int % 31_557_600;
    let in_month = in_year % 2_630_016;
    let in_day = in_month % 86_400;
    let fraction = nanos as int;
    if secs == 0 && nanos == 0 {
        "0s"@
    } else {
        text::joined(
            counted(secs as int / 31_557_600, "year"@, true) + counted(
                in_year / 2_630_016,
                "month"@,
                true,
            ) + counted(in_month / 86_400, "day"@, true) + counted(in_day / 3_600, "h"@, false)
                + counted(in_day % 3_600 / 60, "m"@, false) + counted(in_day % 60, "s"@, false)
                + counted(fraction / 1_000_000, "ms"@, false) + counted(
                fraction / 1_000 % 1_000,
                "us"@,
                false,
            ) + counted(fraction % 1_000, "ns"@, false),
            " "@,
        )
    }
}

/// `humantime::format_duration`, written out: the units that occur in the span, from years
/// down to nanoseconds, each behind its number, with a space between two of them; `0s` for
/// the empty span.
#[verifier::external_body]
fn format_duration(secs: u64, nanos: u32) -> (text: String)
    requires
        nanos < 1_000_000_000,
    ensures
        text@ == duration_text(secs, nanos),
{
    humantime::format_duration(std::time::Duration::new(secs, nanos)).to_string()
}

// ---- reading ----

/// How many characters of a span are read.
pub const SPAN_MAX_LEN: usize = 1000;

/// How many digits of a number in a span are read.
pub const SPAN_MAX_DIGITS: usize = 9;

/// Whether a number cannot go on behind `ch`: a letter, which belongs to a unit, or a point.
pub open spec fn ends_number(ch: char) -> bool {
    ||| 'a' <= ch <= 'z'
    ||| 'A' <= ch <= 'Z'
    ||| ch == '\u{b5}'
    ||| ch == '.'
}

/// How many digits the number has that ends before `at`.
pub open spec fn digits_before(text: Seq<char>, at: int) -> int
    decreases at,
{
    if at <= 0 || ends_number(text[at - 1]) {
        0
    } else if '0' <= text[at - 1] <= '9' {
        digits_before(text, at - 1) + 1
    } else {
        digits_before(text, at - 1)
    }
}

/// Whether a span is short enough, and every number in it, that no sum of it can be too
/// large: 500 numbers of nine digits are fewer seconds than 64 bits hold, even as years.
pub open spec fn is_moderate(text: Seq<char>) -> bool {
    &&& text.len() <= SPAN_MAX_LEN
    &&& forall|at: int|
        0 <= at <= text.len() ==> #[trigger] digits_before(text, at) <= SPAN_MAX_DIGITS
}

/// What `humantime::parse_duration` makes of a text: the seconds and the nanoseconds of the
/// span, or what is wrong with the text.
pub uninterp spec fn span_reading(text: Seq<char>) -> Result<(u64, u32), Seq<char>>;

/// A reading, with the message as a text.
pub open spec fn message_view(reading: Result<(u64, u32), String>) -> Result<
    (u64, u32),
    Seq<char>,
> {
    match reading {
        Ok(parts) => Ok(parts),
        Err(message) => Err(message@),
    }
}

/// Whether `reading` is the span that `text` was written for, where it was written for one.
pub open spec fn reads_back(text: Seq<char>, reading: Result<(u64, u32), Seq<char>>) -> bool {
    forall|secs: u64, nanos: u32|
        1_000_000_000 > nanos && text == #[trigger] duration_text(secs, nanos) ==> reading == Ok::<
            (u64, u32),
            Seq<char>,
        >((secs, nanos))
}

/// `humantime::parse_duration`, as seconds and nanoseconds, or as the message of its error.
/// What it gives is a function of the text, and is only named, but for two things: there are
/// fewer nanoseconds than make a second, and a span that was written by
/// `humantime::format_duration` is read as what it was. It panics where the seconds add up to
/// more than 64 bits hold by the last carry of the nanoseconds, which no moderate text does.
#[verifier::external_body]
fn parse_duration(text: &str) -> (reading: Result<(u64, u32), String>)
    requires
        is_moderate(text@),
    ensures
        message_view(reading) == span_reading(text@),
        reads_back(text@, message_view(reading)),
        reading is Ok ==> 1_000_000_000 > reading->Ok_0.1,
{
    match humantime::parse_duration(text) {
        Ok(span) => Ok((span.as_secs(), span.subsec_nanos())),
        Err(error) => Err(error.to_string()),
    }
}

/// A span that was read.
#[derive(Debug, PartialEq, Eq)]
pub enum SpanReading {
    Span { span: TimeSpan },
    /// The text is no span.
    Invalid { message: String },
    /// The text, or a number in it, is longer than what is read here.
    TooLong,
}

/// Whether `text` and every number in it are short enough to be read.
fn check_moderate(text: &str) -> (moderate: bool)
    ensures
        moderate == is_moderate(text@),
{
    let chars = chars_of(text);
    if chars.len() > SPAN_MAX_LEN {
        return false;
    }
    let mut digits: usize = 0;
    for at in 0..chars.len()
        invariant
            chars@ == text@,
            digits == digits_before(text@, at as int),
            digits <= SPAN_MAX_DIGITS,
            forall|i: int|
                0 <= i <= at ==> #[trigger] digits_before(text@, i) <= SPAN_MAX_DIGITS,
    {
        let ch = chars[at];
        let next = at + 1;
        if ('a' <= ch && ch <= 'z') || ('A' <= ch && ch <= 'Z') || ch == '\u{b5}' || ch == '.' {
            digits = 0;
        } else if '0' <= ch && ch <= '9' {
            digits = digits + 1;
        }
        assert(digits == digits_before(text@, next as int));
        if digits > SPAN_MAX_DIGITS {
            return false;
        }
    }
    true
}

/// Reads a span such as `10s` or `2h 37m`, as long as the text and the numbers in it are of
/// moderate length. What [`TimeSpan::text`] wrote is read as what it was.
pub fn read_time_span(text: &str) -> (reading: SpanReading)
    ensures
        match reading {
            SpanReading::Span { span } => {
                &&& is_moderate(text@)
                &&& span_reading(text@) == Ok::<(u64, u32), Seq<char>>(
                    (span.whole_secs(), span.extra_nanos()),
                )
            },
            SpanReading::Invalid { message } => {
                &&& is_moderate(text@)
                &&& span_reading(text@) == Err::<(u64, u32), Seq<char>>(message@)
            },
            SpanReading::TooLong => !is_moderate(text@),
        },
        is_moderate(text@) ==> reads_back(text@, span_reading(text@)),
{
    if !check_moderate(text) {
        return SpanReading::TooLong;
    }
    match parse_duration(text) {
        Ok((secs, nanos)) => SpanReading::Span { span: TimeSpan { secs, nanos } },
        Err(message) => SpanReading::Invalid { message },
    }
}

} // verus!
