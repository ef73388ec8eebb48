//! Decimal text: parsing decimal-number strings into exact [`Decimal`]
//! values. The accepted grammar is an optional sign followed by digits
//! with at most one decimal point and at least one digit; underscores
//! may separate digits once one has been seen. Fractional digits beyond
//! the MAX_SCALE-th are read but dropped (the value is truncated toward
//! zero there); the magnitude must fit a 128-bit mantissa.

use vstd::prelude::*;
use vstd::string::{StrSliceExecFns, StringExecFns};
use crate::decimal::{Decimal, MAX_SCALE, fits_i128, normalize, spec_normalize};

verus! {

/// Whether a character is an ASCII digit.
pub open spec fn is_digit(c: char) -> bool {
    ('0' as u32) <= (c as u32) && (c as u32) <= ('9' as u32)
}

/// Numeric value of an ASCII digit.
pub open spec fn digit_val(c: char) -> int {
    c as u32 - '0' as u32
}

/// Scan of the numeric body after an optional sign: digits with at most
/// one decimal point, and underscore separators once a digit has been
/// seen. Accumulates the magnitude `m` and, once the point has been
/// seen, the count `frac` of fractional digits; `digits` records whether
/// any digit has been seen at all. A fractional digit past the
/// MAX_SCALE-th is read but dropped. Yields the magnitude and the number
/// of fractional digits, or `None` if the text is not numeric.
pub open spec fn scan_body(
    s: Seq<char>,
    i: int,
    m: int,
    digits: bool,
    dot: bool,
    frac: int,
) -> Option<(int, int)>
    decreases s.len() - i,
{
    if i < 0 || i >= s.len() {
        if digits {
            Some((m, if dot { frac } else { 0 }))
        } else {
            None
        }
    } else {
        let c = s[i];
        if is_digit(c) {
            if dot && frac >= MAX_SCALE {
                scan_body(s, i + 1, m, true, dot, frac)
            } else {
                scan_body(s, i + 1, m * 10 + digit_val(c), true, dot, if dot { frac + 1 } else { 0 })
            }
        } else if c == '_' && digits {
            scan_body(s, i + 1, m, digits, dot, frac)
        } else if c == '.' && !dot {
            scan_body(s, i + 1, m, digits, true, 0)
        } else {
            None
        }
    }
}

/// The signed magnitude and fractional-digit count denoted by the text,
/// or `None` if it is not a decimal numeral.
pub open spec fn spec_parse_raw(s: Seq<char>) -> Option<(int, int)> {
    if s.len() == 0 {
        None
    } else {
        let neg = s[0] == '-';
        let start: int = if s[0] == '-' || s[0] == '+' { 1 } else { 0 };
        match scan_body(s, start, 0, false, false, 0) {
            None => None,
            Some((m, f)) => Some(((if neg { -m } else { m }), f)),
        }
    }
}

/// The decimal denoted by the text: the parsed value in canonical form,
/// or `None` if the text is not numeric, needs more than MAX_SCALE
/// fractional digits, or overflows the 128-bit mantissa.
pub open spec fn spec_parse(s: Seq<char>) -> Option<Decimal> {
    match spec_parse_raw(s) {
        None => None,
        Some((m, f)) => if 0 <= f <= MAX_SCALE && fits_i128(m) {
            let (cm, cs) = spec_normalize(m, f as nat);
            Some(Decimal { mantissa: cm as i128, scale: cs as u32 })
        } else {
            None
        },
    }
}

/// A successful scan yields a magnitude and fraction count no smaller
/// than the accumulators it started from.
proof fn lemma_scan_monotone(s: Seq<char>, i: int, m: int, digits: bool, dot: bool, frac: int)
    requires
        m >= 0,
        frac >= 0,
        scan_body(s, i, m, digits, dot, frac) is Some,
    ensures
        scan_body(s, i, m, digits, dot, frac) matches Some((rm, rf)) && rm >= m && rf >= (if dot {
            frac
        } else {
            0
        }) && rf >= 0,
    decreases s.len() - i,
{
    if i < 0 || i >= s.len() {
    } else {
        let c = s[i];
        if is_digit(c) {
            if dot && frac >= MAX_SCALE {
                lemma_scan_monotone(s, i + 1, m, true, dot, frac);
            } else {
                assert(m * 10 >= m) by (nonlinear_arith)
                    requires m >= 0;
                lemma_scan_monotone(
                    s,
                    i + 1,
                    m * 10 + digit_val(c),
                    true,
                    dot,
                    if dot { frac + 1 } else { 0 },
                );
            }
        } else if c == '_' && digits {
            lemma_scan_monotone(s, i + 1, m, digits, dot, frac);
        } else if c == '.' && !dot {
            lemma_scan_monotone(s, i + 1, m, digits, true, 0);
        }
    }
}

/// Parse a decimal numeral. Returns exactly what [`spec_parse`] denotes.
pub fn parse_decimal(s: &str) -> (r: Option<Decimal>)
    ensures
        r == spec_parse(s@),
        r matches Some(c) ==> c.wf(),
{
    let len = s.unicode_len();
    if len == 0 {
        return None;
    }
    let first = s.get_char(0);
    let neg = first == '-';
    let mut i: usize = if first == '-' || first == '+' { 1 } else { 0 };
    let mut m: i128 = 0;
    let mut digits = false;
    let mut dot = false;
    let mut frac: usize = 0;
    let ghost start = i as int;
    while i < len
        invariant
            len == s@.len(),
            s@.len() > 0,
            neg == (s@[0] == '-'),
            start == (if s@[0] == '-' || s@[0] == '+' { 1int } else { 0int }),
            start <= i <= len,
            m >= 0,
            frac <= MAX_SCALE as usize,
            !dot ==> frac == 0,
            scan_body(s@, start, 0, false, false, 0) == scan_body(
                s@,
                i as int,
                m as int,
                digits,
                dot,
                frac as int,
            ),
        decreases len - i,
    {
        let c = s.get_char(i);
        let cu = c as u32;
        if 48 <= cu && cu <= 57 {
            if dot && frac >= MAX_SCALE as usize {
                // a fractional digit past the scale cap: read and dropped
                digits = true;
            } else {
                let d = (cu - 48) as i128;
                let m10 = match m.checked_mul(10) {
                    Some(v) => v,
                    None => {
                        proof {
                            lemma_scan_overflow(s@, i as int, m as int, digits, dot, frac as int);
                        }
                        return None;
                    },
                };
                let mn = match m10.checked_add(d) {
                    Some(v) => v,
                    None => {
                        proof {
                            lemma_scan_overflow(s@, i as int, m as int, digits, dot, frac as int);
                        }
                        return None;
                    },
                };
                m = mn;
                digits = true;
                if dot {
                    frac = frac + 1;
                }
            }
        } else if c == '_' && digits {
            // a separator between digits
        } else if c == '.' && !dot {
            dot = true;
        } else {
            return None;
        }
        i = i + 1;
    }
    if !digits {
        return None;
    }
    let signed: i128 = if neg { -m } else { m };
    Some(normalize(signed, frac as u32))
}

/// The character of one decimal digit.
pub open spec fn digit_char(d: int) -> char {
    if d == 0 {
        '0'
    } else if d == 1 {
        '1'
    } else if d == 2 {
        '2'
    } else if d == 3 {
        '3'
    } else if d == 4 {
        '4'
    } else if d == 5 {
        '5'
    } else if d == 6 {
        '6'
    } else if d == 7 {
        '7'
    } else if d == 8 {
        '8'
    } else {
        '9'
    }
}

/// The decimal digits of a nonnegative integer, most significant first.
pub open spec fn spec_digits(n: int) -> Seq<char>
    decreases n,
{
    if n < 10 {
        seq![digit_char(n)]
    } else {
        spec_digits(n / 10).push(digit_char(n % 10))
    }
}

/// A run of zero characters.
pub open spec fn zeros(n: nat) -> Seq<char> {
    Seq::new(n, |i: int| '0')
}

/// The canonical text of a decimal: the magnitude's digits with a point
/// before the last `scale` of them (padded with leading zeros to reach
/// the point), and a leading minus sign when negative.
pub open spec fn spec_dec_text(d: Decimal) -> Seq<char> {
    let n: int = if d.mantissa < 0 {
        -(d.mantissa as int)
    } else {
        d.mantissa as int
    };
    let ds = spec_digits(n);
    let body: Seq<char> = if d.scale == 0 {
        ds
    } else if ds.len() > d.scale {
        ds.take(ds.len() - d.scale) + seq!['.'] + ds.skip(ds.len() - d.scale)
    } else {
        seq!['0', '.'] + zeros((d.scale - ds.len()) as nat) + ds
    };
    if d.mantissa < 0 {
        seq!['-'] + body
    } else {
        body
    }
}

/// One digit as text.
fn digit_str(d: i128) -> (r: &'static str)
    requires
        0 <= d <= 9,
    ensures
        r@ =~= seq![digit_char(d as int)],
{
    proof {
        reveal_strlit("0");
        reveal_strlit("1");
        reveal_strlit("2");
        reveal_strlit("3");
        reveal_strlit("4");
        reveal_strlit("5");
        reveal_strlit("6");
        reveal_strlit("7");
        reveal_strlit("8");
        reveal_strlit("9");
    }
    if d == 0 {
        "0"
    } else if d == 1 {
        "1"
    } else if d == 2 {
        "2"
    } else if d == 3 {
        "3"
    } else if d == 4 {
        "4"
    } else if d == 5 {
        "5"
    } else if d == 6 {
        "6"
    } else if d == 7 {
        "7"
    } else if d == 8 {
        "8"
    } else {
        "9"
    }
}

/// Append the digits of a nonnegative integer.
fn push_digits(n: i128, out: &mut String)
    requires
        n >= 0,
    ensures
        final(out)@ == old(out)@ + spec_digits(n as int),
    decreases n,
{
    if n >= 10 {
        proof {
            vstd::arithmetic::div_mod::lemma_mod_division_less_than_divisor(n as int, 10);
            vstd::arithmetic::div_mod::lemma_div_pos_is_pos(n as int, 10);
            vstd::arithmetic::div_mod::lemma_div_is_strictly_smaller(n as int, 10);
        }
        let q = n.checked_div_euclid(10).unwrap();
        let r = n.checked_rem_euclid(10).unwrap();
        push_digits(q, out);
        out.append(digit_str(r));
        proof {
            assert(old(out)@ + spec_digits(q as int) + seq![digit_char(r as int)] =~= old(out)@
                + spec_digits(q as int).push(digit_char(r as int)));
        }
    } else {
        out.append(digit_str(n));
        proof {
            assert(old(out)@ + seq![digit_char(n as int)] =~= old(out)@ + spec_digits(n as int));
        }
    }
}

impl Decimal {
    /// Render this decimal as its canonical text.
    pub fn to_text(&self) -> (r: String)
        requires
            self.scale <= MAX_SCALE,
            fits_i128(self.mantissa as int),
        ensures
            r@ == spec_dec_text(*self),
    {
        let neg = self.mantissa < 0;
        let n: i128 = if neg {
            -self.mantissa
        } else {
            self.mantissa
        };
        let mut ds = String::new();
        push_digits(n, &mut ds);
        let ghost dss = spec_digits(n as int);
        proof {
            assert(ds@ =~= dss);
        }
        let len = ds.unicode_len();
        let mut out = String::new();
        if neg {
            out.append("-");
            proof {
                reveal_strlit("-");
                assert(out@ =~= seq!['-']);
            }
        }
        let ghost base = out@;
        let scale_us: usize = self.scale as usize;
        if scale_us == 0 {
            out.append(ds.as_str());
        } else if len > scale_us {
            let cut = len - scale_us;
            let head = ds.as_str().substring_char(0, cut);
            out.append(head);
            out.append(".");
            let tail = ds.as_str().substring_char(cut, len);
            out.append(tail);
            proof {
                reveal_strlit(".");
                assert(ds@.subrange(0, cut as int) =~= dss.take(cut as int));
                assert(ds@.subrange(cut as int, len as int) =~= dss.skip(cut as int));
                assert("."@ =~= seq!['.']);
                assert(base + dss.take(cut as int) + seq!['.'] + dss.skip(cut as int) =~= out@);
            }
        } else {
            out.append("0.");
            proof {
                reveal_strlit("0.");
                assert("0."@ =~= seq!['0', '.']);
            }
            let zcount = scale_us - len;
            let mut zi: usize = 0;
            while zi < zcount
                invariant
                    0 <= zi <= zcount,
                    out@ == base + seq!['0', '.'] + zeros(zi as nat),
                decreases zcount - zi,
            {
                out.append("0");
                proof {
                    reveal_strlit("0");
                    assert(base + seq!['0', '.'] + zeros(zi as nat) + "0"@ =~= base + seq![
                        '0',
                        '.',
                    ] + zeros((zi + 1) as nat));
                }
                zi = zi + 1;
            }
            out.append(ds.as_str());
            proof {
                assert(base + seq!['0', '.'] + zeros(zcount as nat) + dss =~= base + (seq![
                    '0',
                    '.',
                ] + zeros(zcount as nat) + dss));
            }
        }
        proof {
            if !neg {
                assert(base =~= Seq::<char>::empty());
                assert(out@ =~= spec_dec_text(*self));
            } else {
                assert(out@ =~= spec_dec_text(*self));
            }
        }
        out
    }
}

/// If the next accumulator step overflows 128 bits, the scan's final
/// magnitude cannot fit either.
proof fn lemma_scan_overflow(s: Seq<char>, i: int, m: int, digits: bool, dot: bool, frac: int)
    requires
        m >= 0,
        frac >= 0,
        0 <= i < s.len(),
        is_digit(s[i]),
        !(dot && frac >= MAX_SCALE),
        m * 10 + digit_val(s[i]) > i128::MAX as int,
    ensures
        scan_body(s, i, m, digits, dot, frac) matches Some((rm, rf)) ==> !fits_i128(rm),
{
    let c = s[i];
    if scan_body(s, i, m, digits, dot, frac) is Some {
        lemma_scan_monotone(
            s,
            i + 1,
            m * 10 + digit_val(c),
            true,
            dot,
            if dot { frac + 1 } else { 0 },
        );
    }
}

} // verus!
