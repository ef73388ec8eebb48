//! Loosely-typed record fields, as the boundary hands them over: text
//! (strings and stringified numbers), a boolean flag, or nothing
//! (absent, null, or a nested value), with the coercions the reconciler
//! uses on them.

use vstd::prelude::*;
use vstd::string::StrSliceExecFns;
use crate::decimal::Decimal;
use crate::decimal_text::{spec_parse, parse_decimal};
use crate::text::{eq_ignore_case, str_eq_ignore_case};
use crate::timestamp::{
    Timestamp, trimmed, trim_str, spec_parse_datetime, parse_datetime_text,
};

verus! {

/// A loosely-typed field value.
#[derive(Clone, Debug)]
pub enum FieldVal {
    /// A string, or a number rendered as its decimal text.
    Text(String),
    /// A boolean.
    Flag(bool),
    /// Missing, null, or of a shape the coercions reject.
    Absent,
}

/// The field as text: a flag reads as "true" or "false"; an absent
/// field has no text.
pub open spec fn field_text(v: FieldVal) -> Option<Seq<char>> {
    match v {
        FieldVal::Text(s) => Some(s@),
        FieldVal::Flag(b) => Some(
            if b {
                "true"@
            } else {
                "false"@
            },
        ),
        FieldVal::Absent => None,
    }
}

/// The decimal a field denotes: its text, trimmed, read as a decimal
/// numeral.
pub open spec fn spec_dec_of_field(v: FieldVal) -> Option<Decimal> {
    match field_text(v) {
        None => None,
        Some(t) => spec_parse(trimmed(t)),
    }
}

/// Read a field as a decimal.
pub fn dec_of_field(v: &FieldVal) -> (r: Option<Decimal>)
    ensures
        r == spec_dec_of_field(*v),
        r matches Some(d) ==> d.wf(),
{
    let txt: &str = match v {
        FieldVal::Text(s) => s.as_str(),
        FieldVal::Flag(b) => if *b {
            "true"
        } else {
            "false"
        },
        FieldVal::Absent => {
            return None;
        },
    };
    parse_decimal(trim_str(txt))
}

/// The boolean a field denotes: a flag itself, or text that reads
/// "true" or "false" in any ASCII case after trimming.
pub open spec fn spec_bool_of_field(v: FieldVal) -> Option<bool> {
    match v {
        FieldVal::Flag(b) => Some(b),
        FieldVal::Text(s) => if eq_ignore_case(trimmed(s@), "true"@) {
            Some(true)
        } else if eq_ignore_case(trimmed(s@), "false"@) {
            Some(false)
        } else {
            None
        },
        FieldVal::Absent => None,
    }
}

/// Read a field as a boolean.
pub fn bool_of_field(v: &FieldVal) -> (r: Option<bool>)
    ensures
        r == spec_bool_of_field(*v),
{
    match v {
        FieldVal::Flag(b) => Some(*b),
        FieldVal::Text(s) => {
            let t = trim_str(s.as_str());
            if str_eq_ignore_case(t, "true") {
                Some(true)
            } else if str_eq_ignore_case(t, "false") {
                Some(false)
            } else {
                None
            }
        },
        FieldVal::Absent => None,
    }
}

/// The instant a field denotes: nonempty text read as a timestamp.
pub open spec fn spec_time_of_field(v: FieldVal) -> Option<Timestamp> {
    match field_text(v) {
        None => None,
        Some(t) => if t.len() == 0 {
            None
        } else {
            spec_parse_datetime(t)
        },
    }
}

/// Read a field as a timestamp.
pub fn time_of_field(v: &FieldVal) -> (r: Option<Timestamp>)
    ensures
        r == spec_time_of_field(*v),
        r matches Some(t) ==> t.wf(),
{
    let txt: &str = match v {
        FieldVal::Text(s) => s.as_str(),
        FieldVal::Flag(b) => if *b {
            "true"
        } else {
            "false"
        },
        FieldVal::Absent => {
            return None;
        },
    };
    if txt.unicode_len() == 0 {
        None
    } else {
        parse_datetime_text(txt)
    }
}

} // verus!
