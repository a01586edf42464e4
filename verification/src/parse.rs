//! Parsing of the address tokens a memory-configuration tool prints: one hex
//! number per token, optionally `0x`-prefixed. A malformed token is rejected,
//! never silently read as zero — a zero-sized region would make the engine
//! skip memory without any signal to the operator.

use vstd::prelude::*;
use crate::region::ScrubArea;

verus! {

/// ASCII code points the parser recognises.
pub const DIGIT_0: u8 = 48;

pub const DIGIT_9: u8 = 57;

pub const LOWER_A: u8 = 97;

pub const LOWER_F: u8 = 102;

pub const UPPER_A: u8 = 65;

pub const UPPER_F: u8 = 70;

pub const LOWER_X: u8 = 120;

pub const UPPER_X: u8 = 88;


/// An ASCII hexadecimal digit.
pub open spec fn is_hex_digit(b: u8) -> bool {
    (DIGIT_0 <= b <= DIGIT_9) || (LOWER_A <= b <= LOWER_F) || (UPPER_A <= b <= UPPER_F)
}

/// The value of one hexadecimal digit.
pub open spec fn hex_digit_value(b: u8) -> int
    recommends
        is_hex_digit(b),
{
    if DIGIT_0 <= b <= DIGIT_9 {
        b - DIGIT_0
    } else if LOWER_A <= b <= LOWER_F {
        b - LOWER_A + 10
    } else {
        b - UPPER_A + 10
    }
}

/// The value of a run of hexadecimal digits, most significant first.
pub open spec fn hex_value(s: Seq<u8>) -> int
    decreases s.len(),
{
    if s.len() == 0 {
        0
    } else {
        hex_value(s.drop_last()) * 16 + hex_digit_value(s.last())
    }
}

/// Every byte of the run is a hexadecimal digit.
pub open spec fn all_hex(s: Seq<u8>) -> bool {
    forall|i: int| 0 <= i < s.len() ==> is_hex_digit(#[trigger] s[i])
}

/// The token with one optional leading `0x` or `0X` removed.
pub open spec fn strip_hex_prefix(s: Seq<u8>) -> Seq<u8> {
    if s.len() >= 2 && s[0] == DIGIT_0 && (s[1] == LOWER_X || s[1] == UPPER_X) {
        s.skip(2)
    } else {
        s
    }
}

/// What a token parses to: its digits' value, provided that after the
/// optional prefix at least one digit remains, every byte is a digit, and the
/// value fits an address; nothing otherwise.
pub open spec fn spec_parse_hex(s: Seq<u8>) -> Option<int> {
    let d = strip_hex_prefix(s);
    if d.len() >= 1 && all_hex(d) && hex_value(d) <= usize::MAX {
        Some(hex_value(d))
    } else {
        None
    }
}

/// A longer run of digits never has a smaller value.
proof fn lemma_hex_value_prefix_le(s: Seq<u8>, j: int)
    requires
        0 <= j <= s.len(),
        all_hex(s),
    ensures
        hex_value(s.take(j)) <= hex_value(s),
        hex_value(s) >= 0,
    decreases s.len(),
{
    if s.len() == 0 {
        assert(s.take(j) =~= s);
    } else {
        let s0 = s.drop_last();
        assert(all_hex(s0)) by {
            assert(forall|i: int| 0 <= i < s0.len() ==> s0[i] == s[i] && is_hex_digit(s[i]));
        }
        if j == s.len() {
            assert(s.take(j) =~= s);
            lemma_hex_value_prefix_le(s0, s0.len() as int);
            assert(hex_value(s) == hex_value(s0) * 16 + hex_digit_value(s.last()));
            assert(hex_value(s0) * 16 >= hex_value(s0)) by (nonlinear_arith)
                requires
                    hex_value(s0) >= 0,
            ;
            assert(hex_digit_value(s.last()) >= 0);
        } else {
            assert(s.take(j) =~= s0.take(j));
            lemma_hex_value_prefix_le(s0, j);
            assert(hex_value(s) == hex_value(s0) * 16 + hex_digit_value(s.last()));
            assert(hex_value(s0) * 16 >= hex_value(s0)) by (nonlinear_arith)
                requires
                    hex_value(s0) >= 0,
            ;
            assert(hex_digit_value(s.last()) >= 0);
        }
    }
}

/// Parses one hexadecimal address token, exactly as `spec_parse_hex` reads
/// it: `None` on an empty run, a non-digit byte, or a value too large for an
/// address.
pub fn parse_hex_token(s: &[u8]) -> (r: Option<usize>)
    ensures
        match r {
            Some(v) => spec_parse_hex(s@) == Some(v as int),
            None => spec_parse_hex(s@) is None,
        },
{
    let n = s.len();
    let start: usize = if n >= 2 && s[0] == DIGIT_0 && (s[1] == LOWER_X || s[1] == UPPER_X) {
        2
    } else {
        0
    };
    let ghost d = strip_hex_prefix(s@);
    proof {
        assert(d =~= s@.skip(start as int));
    }
    if n - start == 0 {
        return None;
    }
    let mut acc: usize = 0;
    let mut i: usize = start;
    while i < n
        invariant
            start <= i <= n,
            n == s@.len(),
            n - start >= 1,
            d == strip_hex_prefix(s@),
            d =~= s@.skip(start as int),
            all_hex(d.take(i - start)),
            acc as int == hex_value(d.take(i - start)),
        decreases n - i,
    {
        let b = s[i];
        proof {
            assert(d[i - start] == s@[i as int]);
        }
        let dv: usize = if b >= DIGIT_0 && b <= DIGIT_9 {
            (b - DIGIT_0) as usize
        } else if b >= LOWER_A && b <= LOWER_F {
            (b - LOWER_A) as usize + 10
        } else if b >= UPPER_A && b <= UPPER_F {
            (b - UPPER_A) as usize + 10
        } else {
            proof {
                assert(!is_hex_digit(d[i - start]));
            }
            return None;
        };
        proof {
            assert(is_hex_digit(d[i - start]));
            assert(dv as int == hex_digit_value(d[i - start]));
        }
        if acc > (usize::MAX - dv) / 16 {
            proof {
                lemma_acc_overflow(acc as int, dv as int);
                assert(d.take(i - start + 1) =~= d.take(i - start).push(d[i - start]));
                assert(hex_value(d.take(i - start + 1)) == acc as int * 16 + dv as int) by {
                    assert(d.take(i - start + 1).drop_last() =~= d.take(i - start));
                }
                if all_hex(d) {
                    lemma_hex_value_prefix_le(d, i - start + 1);
                }
            }
            return None;
        }
        proof {
            lemma_acc_fits(acc as int, dv as int);
            assert(d.take(i - start + 1) =~= d.take(i - start).push(d[i - start]));
            assert(d.take(i - start + 1).drop_last() =~= d.take(i - start));
        }
        acc = acc * 16 + dv;
        i = i + 1;
    }
    proof {
        assert(d.take(n - start) =~= d);
    }
    Some(acc)
}

/// An accumulator above `(max - d) / 16` overflows one more digit.
proof fn lemma_acc_overflow(acc: int, dv: int)
    requires
        acc > (usize::MAX - dv) / 16,
        0 <= dv <= 15,
        acc >= 0,
    ensures
        acc * 16 + dv > usize::MAX,
{
    let m = usize::MAX - dv;
    vstd::arithmetic::div_mod::lemma_fundamental_div_mod(m, 16);
    assert(acc >= m / 16 + 1);
    assert(acc * 16 >= (m / 16 + 1) * 16) by (nonlinear_arith)
        requires
            acc >= m / 16 + 1,
    ;
    assert((m / 16 + 1) * 16 == 16 * (m / 16) + 16) by (nonlinear_arith);
    vstd::arithmetic::div_mod::lemma_mod_bound(m, 16);
}

/// An accumulator at most `(max - d) / 16` takes one more digit.
proof fn lemma_acc_fits(acc: int, dv: int)
    requires
        0 <= acc <= (usize::MAX - dv) / 16,
        0 <= dv <= 15,
    ensures
        acc * 16 + dv <= usize::MAX,
{
    let m = usize::MAX - dv;
    vstd::arithmetic::div_mod::lemma_fundamental_div_mod(m, 16);
    vstd::arithmetic::div_mod::lemma_mod_bound(m, 16);
    assert(acc * 16 <= (m / 16) * 16) by (nonlinear_arith)
        requires
            acc <= m / 16,
    ;
    assert((m / 16) * 16 == 16 * (m / 16)) by (nonlinear_arith);
}

/// What a pair of address tokens parses to: an inclusive region, provided
/// both tokens parse. Whether the region's bounds are usable is the engine's
/// validation to decide, not the parser's.
pub open spec fn spec_parse_area(s1: Seq<u8>, s2: Seq<u8>) -> Option<ScrubArea> {
    match (spec_parse_hex(s1), spec_parse_hex(s2)) {
        (Some(a), Some(b)) => Some(ScrubArea { start: a as usize, end: b as usize }),
        _ => None,
    }
}

/// Parses a start token and an end token into one scrub region, exactly as
/// `spec_parse_area` reads them.
pub fn parse_scrub_area(s1: &[u8], s2: &[u8]) -> (r: Option<ScrubArea>)
    ensures
        r == spec_parse_area(s1@, s2@),
{
    match parse_hex_token(s1) {
        None => None,
        Some(a) => match parse_hex_token(s2) {
            None => None,
            Some(b) => Some(ScrubArea { start: a, end: b }),
        },
    }
}

} // verus!
