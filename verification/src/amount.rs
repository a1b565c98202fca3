//! Fixed-point money. One unit is one ten-thousandth (0.0001) of the input
//! currency, so every amount with up to four fractional digits is exact.
//! Four fractional digits is a deliberate cut: a fifth digit has no exact
//! representation at this scale, and exactness is required, so such an
//! amount is non-parsable and fails its row. Parsing and formatting are
//! specified to the byte and proved inverse to each other.
use vstd::prelude::*;

use crate::digits::all_dec_digits;
use crate::digits::dec_digits;
use crate::digits::dec_value;
use crate::digits::is_dec_digit;
use crate::digits::lemma_dec_digits_roundtrip;
use crate::digits::lemma_dec_value_nonneg;
use crate::digits::parse_dec;
use crate::digits::u128_to_dec;

verus! {

/// ASCII codes of the decimal point and the minus sign.
pub const DOT: u8 = 46;

pub const MINUS: u8 = 45;

/// Units per whole: four fractional digits.
pub const UNIT_SCALE: u128 = 10000;

/// Largest representable magnitude, in units: 2^96 - 1, the range of a
/// 96-bit fixed-point significand.
pub const BAL_LIMIT: u128 = 79228162514264337593543950335;

pub open spec fn unit_range(v: int) -> bool {
    -(BAL_LIMIT as int) <= v <= BAL_LIMIT as int
}

/// Scale factor that pads `l` fractional digits out to four.
pub open spec fn frac_scale(l: int) -> int {
    if l == 1 {
        1000
    } else if l == 2 {
        100
    } else if l == 3 {
        10
    } else {
        1
    }
}

/// The unit value of an unsigned amount literal: digits, or digits
/// around one dot with up to four fractional digits, where either side
/// of the dot (but not both) may be empty. `None` on anything else; in
/// particular a fifth fractional digit is not representable and fails.
pub open spec fn spec_amount_body(s: Seq<u8>) -> Option<int> {
    if s.len() >= 1 && all_dec_digits(s) {
        Some(dec_value(s) * 10000)
    } else if exists|i: int| 0 <= i < s.len() && s[i] == DOT {
        let i = choose|i: int| 0 <= i < s.len() && s[i] == DOT;
        let ip = s.subrange(0, i);
        let fp = s.subrange(i + 1, s.len() as int);
        if ip.len() + fp.len() >= 1 && all_dec_digits(ip) && fp.len() <= 4 && all_dec_digits(
            fp,
        ) {
            Some(dec_value(ip) * 10000 + dec_value(fp) * frac_scale(fp.len() as int))
        } else {
            None
        }
    } else {
        None
    }
}

/// The unit value of an amount literal with an optional leading minus,
/// bounded to the representable range.
pub open spec fn spec_parse_amount(s: Seq<u8>) -> Option<int> {
    let body = if s.len() >= 1 && s[0] == MINUS {
        match spec_amount_body(s.subrange(1, s.len() as int)) {
            Some(v) => Some(-v),
            None => None,
        }
    } else {
        spec_amount_body(s)
    };
    match body {
        Some(v) => if unit_range(v) {
            Some(v)
        } else {
            None
        },
        None => None,
    }
}

/// Four zero-padded digits for a fractional remainder below ten thousand.
pub open spec fn dec4(r: int) -> Seq<u8> {
    seq![
        (48 + r / 1000) as u8,
        (48 + (r / 100) % 10) as u8,
        (48 + (r / 10) % 10) as u8,
        (48 + r % 10) as u8,
    ]
}

/// Canonical notation of a unit value: optional minus, whole part, dot,
/// exactly four fractional digits.
pub open spec fn spec_format_units(v: int) -> Seq<u8> {
    let m = if v < 0 {
        -v
    } else {
        v
    };
    let body = dec_digits((m / 10000) as nat) + seq![DOT] + dec4(m % 10000);
    if v < 0 {
        seq![MINUS] + body
    } else {
        body
    }
}

proof fn lemma_dec4_digits(r: int)
    requires
        0 <= r < 10000,
    ensures
        all_dec_digits(dec4(r)),
        dec4(r).len() == 4,
        dec_value(dec4(r)) == r,
{
    let s = dec4(r);
    assert(0 <= r / 1000 <= 9);
    assert(is_dec_digit(s[0]) && is_dec_digit(s[1]) && is_dec_digit(s[2]) && is_dec_digit(s[3]));
    assert(s.drop_last() =~= seq![s[0], s[1], s[2]]);
    assert(s.drop_last().drop_last() =~= seq![s[0], s[1]]);
    assert(s.drop_last().drop_last().drop_last() =~= seq![s[0]]);
    assert(seq![s[0]].drop_last() =~= Seq::<u8>::empty());
    assert(dec_value(seq![s[0]]) == dec_value(Seq::<u8>::empty()) * 10 + (s[0] - 48));
    assert(dec_value(Seq::<u8>::empty()) == 0);
    assert(dec_value(seq![s[0]]) == r / 1000);
    assert(dec_value(seq![s[0], s[1]]) == (r / 1000) * 10 + (r / 100) % 10);
    assert(dec_value(seq![s[0], s[1], s[2]]) == ((r / 1000) * 10 + (r / 100) % 10) * 10 + (r / 10)
        % 10);
    assert(dec_value(s) == (((r / 1000) * 10 + (r / 100) % 10) * 10 + (r / 10) % 10) * 10 + r
        % 10);
    assert((((r / 1000) * 10 + (r / 100) % 10) * 10 + (r / 10) % 10) * 10 + r % 10 == (r / 1000)
        * 1000 + ((r / 100) % 10) * 100 + ((r / 10) % 10) * 10 + r % 10) by (nonlinear_arith);
    assert((r / 1000) * 1000 + ((r / 100) % 10) * 100 + ((r / 10) % 10) * 10 + r % 10 == r)
        by (nonlinear_arith)
        requires
            0 <= r < 10000,
    ;
}

/// Exact canonical formatting of a unit value.
pub fn format_units(v: i128) -> (r: Vec<u8>)
    requires
        unit_range(v as int),
    ensures
        r@ == spec_format_units(v as int),
{
    let mut out: Vec<u8> = Vec::new();
    let m: u128 = if v < 0 {
        out.push(MINUS);
        (-v) as u128
    } else {
        v as u128
    };
    let mut ip = u128_to_dec(m / 10000);
    out.append(&mut ip);
    out.push(DOT);
    let f: u128 = m % 10000;
    out.push(48 + (f / 1000) as u8);
    out.push(48 + ((f / 100) % 10) as u8);
    out.push(48 + ((f / 10) % 10) as u8);
    out.push(48 + (f % 10) as u8);
    proof {
        assert(out@ =~= spec_format_units(v as int));
    }
    out
}

/// A formatted unit value is nonempty, holds only digits, the dot and a
/// possible leading minus, starts with a digit or the minus, and ends
/// with a digit.
pub proof fn lemma_format_units_shape(v: int)
    requires
        unit_range(v),
    ensures
        ({
            let s = spec_format_units(v);
            &&& s.len() >= 6
            &&& (forall|i: int|
                0 <= i < s.len() ==> (is_dec_digit(#[trigger] s[i]) || s[i] == DOT || s[i]
                    == MINUS))
            &&& (is_dec_digit(s[0]) || s[0] == MINUS)
            &&& is_dec_digit(s.last())
        }),
{
    let m = if v < 0 {
        -v
    } else {
        v
    };
    let ip = dec_digits((m / 10000) as nat);
    let fp = dec4(m % 10000);
    lemma_dec_digits_roundtrip((m / 10000) as nat);
    lemma_dec4_digits(m % 10000);
    let body = ip + seq![DOT] + fp;
    let s = spec_format_units(v);
    let off = if v < 0 {
        1int
    } else {
        0int
    };
    assert(s.len() == off + body.len());
    assert forall|i: int| 0 <= i < s.len() implies (is_dec_digit(#[trigger] s[i]) || s[i] == DOT
        || s[i] == MINUS) by {
        if v < 0 && i == 0 {
            assert(s[i] == MINUS);
        } else {
            let j = i - off;
            assert(s[i] == body[j]);
            if j < ip.len() {
                assert(body[j] == ip[j]);
                assert(is_dec_digit(ip[j]));
            } else if j == ip.len() {
                assert(body[j] == DOT);
            } else {
                assert(body[j] == fp[j - ip.len() - 1]);
                assert(is_dec_digit(fp[j - ip.len() - 1]));
            }
        }
    }
    assert(s.last() == fp.last());
    assert(is_dec_digit(fp[3]));
    if v >= 0 {
        assert(s[0] == ip[0]);
        assert(is_dec_digit(ip[0]));
    }
}

/// Formatting is exact: parsing a formatted unit value gives it back.
pub proof fn lemma_format_parse_roundtrip(v: int)
    requires
        unit_range(v),
    ensures
        spec_parse_amount(spec_format_units(v)) == Some(v),
{
    let m = if v < 0 {
        -v
    } else {
        v
    };
    let ip0 = dec_digits((m / 10000) as nat);
    let fp0 = dec4(m % 10000);
    let body = ip0 + seq![DOT] + fp0;
    lemma_dec_digits_roundtrip((m / 10000) as nat);
    lemma_dec4_digits(m % 10000);
    let i = ip0.len() as int;
    assert(body[i] == DOT);
    assert(forall|j: int| 0 <= j < i ==> body[j] == ip0[j] && is_dec_digit(#[trigger] body[j]));
    assert(!is_dec_digit(DOT));
    lemma_body_split_unique(body, i);
    assert(body.subrange(0, i) =~= ip0);
    assert(body.subrange(i + 1, body.len() as int) =~= fp0);
    assert(spec_amount_body(body) == Some(dec_value(ip0) * 10000 + dec_value(fp0) * frac_scale(4)));
    assert(dec_value(ip0) * 10000 + dec_value(fp0) == m);
    if v < 0 {
        let s = spec_format_units(v);
        assert(s =~= seq![MINUS] + body);
        assert(s[0] == MINUS);
        assert(s.subrange(1, s.len() as int) =~= body);
    } else {
        let s = spec_format_units(v);
        assert(s =~= body);
        assert(is_dec_digit(s[0]) && s[0] != MINUS);
    }
}

/// Position of the first dot, if any.
fn find_dot(s: &[u8]) -> (r: Option<usize>)
    ensures
        match r {
            Some(i) => 0 <= i < s@.len() && s@[i as int] == DOT && forall|j: int|
                0 <= j < i ==> s@[j] != DOT,
            None => forall|j: int| 0 <= j < s@.len() ==> s@[j] != DOT,
        },
{
    let mut i: usize = 0;
    while i < s.len()
        invariant
            0 <= i <= s@.len(),
            forall|j: int| 0 <= j < i ==> s@[j] != DOT,
        decreases s@.len() - i,
    {
        if s[i] == DOT {
            return Some(i);
        }
        i = i + 1;
    }
    None
}

/// Parses an amount literal into units; `None` exactly where the grammar
/// or the representable range is violated.
pub fn parse_amount(s: &[u8]) -> (r: Option<i128>)
    ensures
        match r {
            Some(v) => spec_parse_amount(s@) == Some(v as int),
            None => spec_parse_amount(s@) is None,
        },
{
    if s.len() >= 1 && s[0] == MINUS {
        let rest = slice_drop_first(s);
        match parse_amount_body(rest) {
            Some(v) => Some(-v),
            None => None,
        }
    } else {
        parse_amount_body(s)
    }
}

/// The first-element drop of a slice.
fn slice_drop_first(s: &[u8]) -> (r: &[u8])
    requires
        s@.len() >= 1,
    ensures
        r@ == s@.subrange(1, s@.len() as int),
{
    let r = vstd::slice::slice_subrange(s, 1, s.len());
    proof {
        assert(r@ =~= s@.subrange(1, s@.len() as int));
    }
    r
}

/// Parses an unsigned amount body into units, bounded to `BAL_LIMIT`.
fn parse_amount_body(s: &[u8]) -> (r: Option<i128>)
    ensures
        match r {
            Some(v) => spec_amount_body(s@) == Some(v as int) && 0 <= v <= BAL_LIMIT,
            None => match spec_amount_body(s@) {
                Some(v) => !unit_range(v),
                None => true,
            },
        },
{
    match find_dot(s) {
        None => {
            match parse_dec(s, BAL_LIMIT / 10000) {
                Some(w) => {
                    let units: u128 = w * 10000;
                    proof {
                        assert(w * 10000 <= (BAL_LIMIT / 10000) * 10000 <= BAL_LIMIT)
                            by (nonlinear_arith)
                            requires
                                w <= BAL_LIMIT / 10000,
                        ;
                    }
                    Some(units as i128)
                },
                None => {
                    proof {
                        if s@.len() >= 1 && all_dec_digits(s@) {
                            lemma_dec_value_nonneg(s@);
                            assert(dec_value(s@) > BAL_LIMIT / 10000);
                            assert(dec_value(s@) * 10000 > BAL_LIMIT) by (nonlinear_arith)
                                requires
                                    dec_value(s@) > BAL_LIMIT / 10000,
                            ;
                        }
                    }
                    None
                },
            }
        },
        Some(i) => {
            proof {
                // the spec's chosen split can only be a dot; the digit
                // checks below force it to be this one
                assert(!all_dec_digits(s@)) by {
                    assert(!is_dec_digit(s@[i as int]));
                }
            }
            let n = s.len();
            let ip = vstd::slice::slice_subrange(s, 0, i);
            let fp = vstd::slice::slice_subrange(s, i + 1, n);
            proof {
                assert(ip@ =~= s@.subrange(0, i as int));
                assert(fp@ =~= s@.subrange(i as int + 1, s@.len() as int));
            }
            if fp.len() > 4 || (ip.len() == 0 && fp.len() == 0) {
                proof {
                    lemma_body_split_unique(s@, i as int);
                }
                return None;
            }
            let fw: u128 = if fp.len() == 0 {
                0
            } else {
                match parse_dec(fp, 9999) {
                    Some(fw) => fw,
                    None => {
                        proof {
                            if all_dec_digits(fp@) {
                                lemma_dec_value_bounded(fp@);
                                assert(false);
                            }
                            lemma_body_split_unique(s@, i as int);
                        }
                        return None;
                    },
                }
            };
            proof {
                assert(fw as int == dec_value(fp@));
                assert(all_dec_digits(fp@));
            }
            let iw: u128 = if ip.len() == 0 {
                0
            } else {
                match parse_dec(ip, BAL_LIMIT / 10000) {
                    Some(iw) => iw,
                    None => {
                        proof {
                            lemma_body_split_unique(s@, i as int);
                            if all_dec_digits(ip@) {
                                // over the cap: the whole amount exceeds
                                // the representable range
                                lemma_dec_value_nonneg(ip@);
                                lemma_dec_value_nonneg(fp@);
                                assert(dec_value(ip@) > BAL_LIMIT / 10000);
                                assert(dec_value(ip@) * 10000 > BAL_LIMIT) by (nonlinear_arith)
                                    requires
                                        dec_value(ip@) > BAL_LIMIT / 10000,
                                ;
                                assert(dec_value(fp@) * frac_scale(fp@.len() as int) >= 0)
                                    by (nonlinear_arith)
                                    requires
                                        dec_value(fp@) >= 0,
                                        frac_scale(fp@.len() as int) >= 1,
                                ;
                            }
                        }
                        return None;
                    },
                }
            };
            proof {
                assert(iw as int == dec_value(ip@));
                assert(all_dec_digits(ip@));
            }
            let scale: u128 = if fp.len() == 1 {
                1000
            } else if fp.len() == 2 {
                100
            } else if fp.len() == 3 {
                10
            } else {
                1
            };
            proof {
                assert(iw * 10000 <= (BAL_LIMIT / 10000) * 10000 <= BAL_LIMIT)
                    by (nonlinear_arith)
                    requires
                        iw <= BAL_LIMIT / 10000,
                ;
                assert(fw * scale <= 9999 * 1000) by (nonlinear_arith)
                    requires
                        fw <= 9999,
                        scale <= 1000,
                        fw >= 0,
                        scale >= 0,
                ;
            }
            let units: u128 = iw * 10000 + fw * scale;
            proof {
                lemma_body_split_unique(s@, i as int);
            }
            if units <= BAL_LIMIT {
                Some(units as i128)
            } else {
                None
            }
        },
    }
}

/// A string of at most four digits is worth less than ten thousand.
proof fn lemma_dec_value_bounded(s: Seq<u8>)
    requires
        all_dec_digits(s),
        s.len() <= 4,
    ensures
        dec_value(s) <= 9999,
    decreases s.len(),
{
    if s.len() > 0 {
        assert(all_dec_digits(s.drop_last()));
        lemma_dec_value_bounded_gen(s);
    }
}

proof fn lemma_dec_value_bounded_gen(s: Seq<u8>)
    requires
        all_dec_digits(s),
        s.len() <= 4,
    ensures
        dec_value(s) < 10000,
    decreases s.len(),
{
    if s.len() == 0 {
    } else {
        assert(all_dec_digits(s.drop_last()));
        lemma_dec_value_bounded_small(s.drop_last());
        assert(dec_value(s) == dec_value(s.drop_last()) * 10 + (s.last() - 48));
        assert(dec_value(s.drop_last()) * 10 <= 999 * 10) by (nonlinear_arith)
            requires
                dec_value(s.drop_last()) <= 999,
        ;
        lemma_dec_value_nonneg(s.drop_last());
    }
}

proof fn lemma_dec_value_bounded_small(s: Seq<u8>)
    requires
        all_dec_digits(s),
        s.len() <= 3,
    ensures
        dec_value(s) <= 999,
    decreases s.len(),
{
    if s.len() > 0 {
        assert(all_dec_digits(s.drop_last()));
        lemma_dec_value_bounded_small2(s.drop_last());
        lemma_dec_value_nonneg(s.drop_last());
        assert(dec_value(s.drop_last()) * 10 <= 99 * 10) by (nonlinear_arith)
            requires
                dec_value(s.drop_last()) <= 99,
        ;
    }
}

proof fn lemma_dec_value_bounded_small2(s: Seq<u8>)
    requires
        all_dec_digits(s),
        s.len() <= 2,
    ensures
        dec_value(s) <= 99,
    decreases s.len(),
{
    if s.len() > 0 {
        assert(all_dec_digits(s.drop_last()));
        lemma_dec_value_bounded_small3(s.drop_last());
        lemma_dec_value_nonneg(s.drop_last());
        assert(dec_value(s.drop_last()) * 10 <= 9 * 10) by (nonlinear_arith)
            requires
                dec_value(s.drop_last()) <= 9,
        ;
    }
}

proof fn lemma_dec_value_bounded_small3(s: Seq<u8>)
    requires
        all_dec_digits(s),
        s.len() <= 1,
    ensures
        dec_value(s) <= 9,
{
    if s.len() > 0 {
        assert(s.drop_last() =~= Seq::<u8>::empty());
        assert(dec_value(s.drop_last()) == 0);
    }
}

/// The body grammar evaluates the same at the first dot as at the
/// spec's chosen dot: if the split at the first dot is accepted, its
/// parts are all digits, so no other dot exists and the chosen dot is
/// this one; if it is rejected, any later dot sits inside the chosen
/// split's whole part, which then holds a dot and is rejected too.
proof fn lemma_body_split_unique(s: Seq<u8>, i: int)
    requires
        0 <= i < s.len(),
        s[i] == DOT,
        forall|j: int| 0 <= j < i ==> s[j] != DOT,
    ensures
        spec_amount_body(s) == ({
            let ip = s.subrange(0, i);
            let fp = s.subrange(i + 1, s.len() as int);
            if ip.len() + fp.len() >= 1 && all_dec_digits(ip) && fp.len() <= 4
                && all_dec_digits(fp) {
                Some(dec_value(ip) * 10000 + dec_value(fp) * frac_scale(fp.len() as int))
            } else {
                None::<int>
            }
        }),
{
    assert(!is_dec_digit(DOT));
    assert(!all_dec_digits(s)) by {
        assert(s[i] == DOT && !is_dec_digit(s[i]));
    }
    assert(exists|k: int| 0 <= k < s.len() && s[k] == DOT) by {
        assert(s[i] == DOT);
    }
    let c = choose|k: int| 0 <= k < s.len() && s[k] == DOT;
    if c != i {
        assert(c > i) by {
            if c < i {
                assert(s[c] != DOT);
            }
        }
        let ipc = s.subrange(0, c);
        let fp = s.subrange(i + 1, s.len() as int);
        assert(ipc[i] == DOT);
        assert(!all_dec_digits(ipc));
        assert(fp[c - i - 1] == s[c]);
        assert(!is_dec_digit(fp[c - i - 1]));
        assert(!all_dec_digits(fp));
    }
}

} // verus!
