//! Small text helpers: exact string equality, ASCII-case-insensitive
//! equality, and ASCII uppercasing.

use vstd::prelude::*;
use vstd::string::StrSliceExecFns;

verus! {

/// The character's code point with ASCII lowercase letters mapped to
/// uppercase.
pub open spec fn upper_val(c: char) -> u32 {
    if ('a' as u32) <= (c as u32) && (c as u32) <= ('z' as u32) {
        (c as u32 - 32) as u32
    } else {
        c as u32
    }
}

/// Equality of character sequences up to ASCII case.
pub open spec fn eq_ignore_case(s: Seq<char>, t: Seq<char>) -> bool {
    s.len() == t.len() && (forall|i: int| 0 <= i < s.len() ==> upper_val(s[i]) == upper_val(t[i]))
}

/// Exact string equality.
pub fn str_eq(a: &str, b: &str) -> (r: bool)
    ensures
        r == (a@ == b@),
{
    let la = a.unicode_len();
    let lb = b.unicode_len();
    if la != lb {
        proof {
            assert(a@ != b@);
        }
        return false;
    }
    let mut i: usize = 0;
    while i < la
        invariant
            la == a@.len(),
            la == b@.len(),
            0 <= i <= la,
            forall|j: int| 0 <= j < i ==> a@[j] == b@[j],
        decreases la - i,
    {
        if a.get_char(i) != b.get_char(i) {
            return false;
        }
        i = i + 1;
    }
    proof {
        assert(a@ =~= b@);
    }
    true
}

/// String equality up to ASCII case.
pub fn str_eq_ignore_case(a: &str, b: &str) -> (r: bool)
    ensures
        r == eq_ignore_case(a@, b@),
{
    let la = a.unicode_len();
    let lb = b.unicode_len();
    if la != lb {
        return false;
    }
    let mut i: usize = 0;
    while i < la
        invariant
            la == a@.len(),
            la == b@.len(),
            0 <= i <= la,
            forall|j: int| 0 <= j < i ==> upper_val(a@[j]) == upper_val(b@[j]),
        decreases la - i,
    {
        let ca = a.get_char(i) as u32;
        let cb = b.get_char(i) as u32;
        let ua = if 97 <= ca && ca <= 122 { ca - 32 } else { ca };
        let ub = if 97 <= cb && cb <= 122 { cb - 32 } else { cb };
        if ua != ub {
            return false;
        }
        i = i + 1;
    }
    true
}

/// Relies on `str::to_ascii_uppercase`: ASCII lowercase letters are
/// mapped to their uppercase counterparts and every other character is
/// kept unchanged.
#[verifier::external_body]
pub(crate) fn ascii_uppercase(s: &str) -> (r: String)
    ensures
        r@.len() == s@.len(),
        forall|i: int| 0 <= i < s@.len() ==> (r@[i] as u32) == upper_val(s@[i]),
{
    s.to_ascii_uppercase()
}

} // verus!
