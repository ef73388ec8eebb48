//! Timestamps: UTC instants held as epoch microseconds, limited to the
//! years 0000 through 9999. Text is parsed through chrono (RFC 3339 and
//! two fallback layouts); instants outside the supported range are
//! treated as absent.

use vstd::prelude::*;
use vstd::string::StrSliceExecFns;

verus! {

/// 0000-01-01T00:00:00 UTC, in epoch microseconds.
pub const TS_MIN_US: i64 = -62167219200000000;

/// 9999-12-31T23:59:59.999999 UTC, in epoch microseconds.
pub const TS_MAX_US: i64 = 253402300799999999;

/// A UTC instant: epoch microseconds within the supported range.
#[derive(Clone, Copy, Debug, PartialEq, Eq, Structural)]
pub struct Timestamp {
    pub micros: i64,
}

impl Timestamp {
    /// Well-formed: within the supported range.
    pub open spec fn wf(self) -> bool {
        TS_MIN_US <= self.micros <= TS_MAX_US
    }

    /// The instant at the given number of epoch microseconds, or `None`
    /// when it lies outside the supported range.
    pub fn from_micros(us: i64) -> (r: Option<Timestamp>)
        ensures
            r is Some <==> TS_MIN_US <= us <= TS_MAX_US,
            r matches Some(t) ==> t.wf() && t.micros == us,
    {
        if TS_MIN_US <= us && us <= TS_MAX_US {
            Some(Timestamp { micros: us })
        } else {
            None
        }
    }

    /// Whether this instant is at or before the other.
    pub fn le(self, other: Timestamp) -> (r: bool)
        ensures
            r == (self.micros <= other.micros),
    {
        self.micros <= other.micros
    }

    /// Whether this instant is strictly before the other.
    pub fn lt(self, other: Timestamp) -> (r: bool)
        ensures
            r == (self.micros < other.micros),
    {
        self.micros < other.micros
    }

    /// RFC 3339 text with millisecond precision and a `Z` marker.
    pub fn to_rfc3339_millis(self) -> (r: String)
        requires
            self.wf(),
        ensures
            r@ == rfc3339_millis_text_of(self.micros),
    {
        format_rfc3339_millis(self.micros)
    }
}

/// What chrono's `DateTime::parse_from_rfc3339` yields on this text, as
/// epoch microseconds.
pub uninterp spec fn rfc3339_micros_of(s: Seq<char>) -> Option<i64>;

/// What chrono's `NaiveDateTime::parse_from_str` yields on this text and
/// layout, read as UTC, as epoch microseconds.
pub uninterp spec fn layout_micros_of(s: Seq<char>, layout: Seq<char>) -> Option<i64>;

/// The RFC 3339 rendering, millisecond precision, of the instant at the
/// given number of epoch microseconds.
pub uninterp spec fn rfc3339_millis_text_of(us: i64) -> Seq<char>;

/// Relies on chrono's `DateTime::parse_from_rfc3339` and
/// `DateTime::timestamp_micros`: whether and how the text parses depends
/// on the text alone, and every chrono datetime's microsecond count fits
/// an `i64`.
#[verifier::external_body]
fn parse_rfc3339_micros(s: &str) -> (r: Option<i64>)
    ensures
        r == rfc3339_micros_of(s@),
{
    chrono::DateTime::parse_from_rfc3339(s).ok().map(|dt| dt.timestamp_micros())
}

/// Relies on chrono's `NaiveDateTime::parse_from_str` (with
/// `NaiveDateTime::and_utc` and `DateTime::timestamp_micros`): whether and
/// how the text parses depends on the text and the layout alone.
#[verifier::external_body]
fn parse_layout_micros(s: &str, layout: &str) -> (r: Option<i64>)
    ensures
        r == layout_micros_of(s@, layout@),
{
    chrono::NaiveDateTime::parse_from_str(s, layout).ok().map(|dt| dt.and_utc().timestamp_micros())
}

/// Relies on chrono's `DateTime::from_timestamp_micros` and
/// `DateTime::to_rfc3339_opts`: the rendering depends on the instant
/// alone, and instants of the years 0000 through 9999 are far inside
/// chrono's documented range (about 262,000 years either side of the
/// common era), so the lookup cannot miss.
#[verifier::external_body]
fn format_rfc3339_millis(us: i64) -> (r: String)
    requires
        TS_MIN_US <= us <= TS_MAX_US,
    ensures
        r@ == rfc3339_millis_text_of(us),
{
    match chrono::DateTime::from_timestamp_micros(us) {
        Some(dt) => dt.to_rfc3339_opts(chrono::SecondsFormat::Millis, true),
        None => String::new(),
    }
}

/// Whether the character counts as surrounding whitespace.
pub open spec fn is_ws(c: char) -> bool {
    c == ' ' || c == '\t' || c == '\n' || c == '\r'
}

/// The sequence with leading whitespace removed.
pub open spec fn trim_front(s: Seq<char>) -> Seq<char>
    decreases s.len(),
{
    if s.len() > 0 && is_ws(s[0]) {
        trim_front(s.drop_first())
    } else {
        s
    }
}

/// The sequence with trailing whitespace removed.
pub open spec fn trim_back(s: Seq<char>) -> Seq<char>
    decreases s.len(),
{
    if s.len() > 0 && is_ws(s.last()) {
        trim_back(s.drop_last())
    } else {
        s
    }
}

/// The sequence with surrounding whitespace removed.
pub open spec fn trimmed(s: Seq<char>) -> Seq<char> {
    trim_back(trim_front(s))
}

/// Remove surrounding whitespace.
pub fn trim_str(s: &str) -> (r: &str)
    ensures
        r@ == trimmed(s@),
{
    let len = s.unicode_len();
    let mut start: usize = 0;
    proof {
        assert(s@.subrange(0, len as int) =~= s@);
    }
    loop
        invariant
            len == s@.len(),
            0 <= start <= len,
            trim_front(s@) == trim_front(s@.subrange(start as int, len as int)),
        ensures
            len == s@.len(),
            0 <= start <= len,
            trim_front(s@) == s@.subrange(start as int, len as int),
        decreases len - start,
    {
        if start >= len {
            proof {
                assert(s@.subrange(start as int, len as int).len() == 0);
            }
            break;
        }
        let c = s.get_char(start);
        if !(c == ' ' || c == '\t' || c == '\n' || c == '\r') {
            proof {
                assert(s@.subrange(start as int, len as int)[0] == s@[start as int]);
            }
            break;
        }
        proof {
            let sub = s@.subrange(start as int, len as int);
            assert(sub.drop_first() =~= s@.subrange(start as int + 1, len as int));
        }
        start = start + 1;
    }
    let mut end: usize = len;
    loop
        invariant
            len == s@.len(),
            0 <= start <= end <= len,
            trim_front(s@) == s@.subrange(start as int, len as int),
            trim_back(s@.subrange(start as int, len as int)) == trim_back(
                s@.subrange(start as int, end as int),
            ),
        ensures
            0 <= start <= end <= len == s@.len(),
            trimmed(s@) == s@.subrange(start as int, end as int),
        decreases end,
    {
        if end <= start {
            proof {
                assert(s@.subrange(start as int, end as int).len() == 0);
            }
            break;
        }
        let c = s.get_char(end - 1);
        if !(c == ' ' || c == '\t' || c == '\n' || c == '\r') {
            proof {
                let sub = s@.subrange(start as int, end as int);
                assert(sub.last() == s@[end as int - 1]);
            }
            break;
        }
        proof {
            let sub = s@.subrange(start as int, end as int);
            assert(sub.drop_last() =~= s@.subrange(start as int, end as int - 1));
        }
        end = end - 1;
    }
    s.substring_char(start, end)
}

/// The instant denoted by the text: surrounding whitespace is ignored;
/// empty text denotes nothing; otherwise the first of RFC 3339, the
/// `T`-separated layout, and the space-separated layout that parses
/// decides, and an instant outside the supported range denotes nothing.
pub open spec fn spec_parse_datetime(s: Seq<char>) -> Option<Timestamp> {
    let t = trimmed(s);
    if t.len() == 0 {
        None
    } else if rfc3339_micros_of(t) is Some {
        clamp_opt(rfc3339_micros_of(t))
    } else if layout_micros_of(t, "%Y-%m-%dT%H:%M:%S%.f"@) is Some {
        clamp_opt(layout_micros_of(t, "%Y-%m-%dT%H:%M:%S%.f"@))
    } else {
        clamp_opt(layout_micros_of(t, "%Y-%m-%d %H:%M:%S%.f"@))
    }
}

/// Keep a parsed microsecond count only when it lies in the supported
/// range.
pub open spec fn clamp_opt(o: Option<i64>) -> Option<Timestamp> {
    match o {
        Some(us) => if TS_MIN_US <= us <= TS_MAX_US {
            Some(Timestamp { micros: us })
        } else {
            None
        },
        None => None,
    }
}

/// Parse a timestamp from text, by the rule of [`spec_parse_datetime`].
pub fn parse_datetime_text(s: &str) -> (r: Option<Timestamp>)
    ensures
        r == spec_parse_datetime(s@),
        r matches Some(t) ==> t.wf(),
{
    let t = trim_str(s);
    if t.unicode_len() == 0 {
        return None;
    }
    let first = parse_rfc3339_micros(t);
    match first {
        Some(us) => from_micros_opt(us),
        None => {
            let second = parse_layout_micros(t, "%Y-%m-%dT%H:%M:%S%.f");
            match second {
                Some(us) => from_micros_opt(us),
                None => {
                    let third = parse_layout_micros(t, "%Y-%m-%d %H:%M:%S%.f");
                    match third {
                        Some(us) => from_micros_opt(us),
                        None => None,
                    }
                },
            }
        },
    }
}

/// Range-filter a raw microsecond count into a timestamp.
fn from_micros_opt(us: i64) -> (r: Option<Timestamp>)
    ensures
        r == clamp_opt(Some(us)),
        r matches Some(t) ==> t.wf(),
{
    Timestamp::from_micros(us)
}

} // verus!
