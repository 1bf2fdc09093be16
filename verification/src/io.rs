//! Index arithmetic of Wavefront mesh files.
//!
//! A face line refers to vertices by decimal tokens: positive tokens are
//! 1-based indices and nonpositive tokens count from the end of the list.
//! Reading the file and building triangles is I/O and floating-point work
//! for the application layer; the exact token-to-index rule lives here.

use vstd::prelude::*;
use vstd::string::*;

verus! {

/// The numeric value of a string of ASCII decimal digits.
pub open spec fn digits_value(s: Seq<u8>) -> int
    decreases s.len(),
{
    if s.len() == 0 {
        0
    } else {
        digits_value(s.drop_last()) * 10 + (s.last() - 0x30)
    }
}

/// Every byte is an ASCII decimal digit.
pub open spec fn all_digits(s: Seq<u8>) -> bool {
    forall|i: int| 0 <= i < s.len() ==> 0x30 <= #[trigger] s[i] <= 0x39
}

/// The digits of an integer literal, after any leading `+` or `-`.
pub open spec fn literal_digits(s: Seq<u8>) -> Seq<u8> {
    if s.len() >= 1 && (s[0] == 0x2b || s[0] == 0x2d) {
        s.drop_first()
    } else {
        s
    }
}

/// The literal starts with a minus sign.
pub open spec fn literal_negative(s: Seq<u8>) -> bool {
    s.len() >= 1 && s[0] == 0x2d
}

/// The byte string is an integer literal that fits an `i32`: an optional
/// sign followed by at least one digit and nothing else, with a value in
/// `[-2^31, 2^31 - 1]`.
pub open spec fn is_i32_literal(s: Seq<u8>) -> bool {
    &&& literal_digits(s).len() >= 1
    &&& all_digits(literal_digits(s))
    &&& if literal_negative(s) {
        digits_value(literal_digits(s)) <= 0x8000_0000
    } else {
        digits_value(literal_digits(s)) <= 0x7fff_ffff
    }
}

/// The signed value of an integer literal.
pub open spec fn i32_literal_value(s: Seq<u8>) -> int {
    if literal_negative(s) {
        -digits_value(literal_digits(s))
    } else {
        digits_value(literal_digits(s))
    }
}

/// A string of digits has a nonnegative value.
proof fn lemma_digits_value_nonneg(s: Seq<u8>)
    requires
        all_digits(s),
    ensures
        digits_value(s) >= 0,
    decreases s.len(),
{
    if s.len() > 0 {
        assert(all_digits(s.drop_last()));
        lemma_digits_value_nonneg(s.drop_last());
    }
}

/// Extending a string of digits to the right never shrinks its value.
proof fn lemma_digits_prefix_le(s: Seq<u8>, k: int)
    requires
        all_digits(s),
        0 <= k <= s.len(),
    ensures
        digits_value(s.take(k)) <= digits_value(s),
    decreases s.len() - k,
{
    if k < s.len() {
        assert(s.take(k + 1).drop_last() =~= s.take(k));
        assert(s.take(k + 1).last() == s[k]);
        assert(all_digits(s.take(k)));
        lemma_digits_value_nonneg(s.take(k));
        lemma_digits_prefix_le(s, k + 1);
    } else {
        assert(s.take(k) =~= s);
    }
}

/// Parse a decimal integer the way `str::parse::<i32>` does: an optional
/// sign, then only digits; the empty digit string, any other byte, and
/// any value outside the `i32` range are rejected.
#[verifier::loop_isolation(false)]
pub fn parse_i32(value: &str) -> (r: Option<i32>)
    ensures
        match r {
            Some(v) => is_i32_literal(value.spec_bytes()) && v == i32_literal_value(
                value.spec_bytes(),
            ),
            None => !is_i32_literal(value.spec_bytes()),
        },
{
    let bytes = value.as_bytes();
    let n = bytes.len();
    let ghost bs = value.spec_bytes();
    if n == 0 {
        return None;
    }
    let first = bytes[0];
    let start: usize = if first == 0x2b || first == 0x2d {
        1
    } else {
        0
    };
    let negative = first == 0x2d;
    proof {
        assert(literal_digits(bs) =~= bs.subrange(start as int, n as int));
    }
    if start == n {
        return None;
    }
    let mut acc: u64 = 0;
    let mut k = start;
    while k < n
        invariant
            start <= k <= n,
            acc == digits_value(bs.subrange(start as int, k as int)),
            all_digits(bs.subrange(start as int, k as int)),
            acc <= 0x8000_0000,
        decreases n - k,
    {
        let c = bytes[k];
        proof {
            assert(bs.subrange(start as int, k + 1).drop_last() =~= bs.subrange(
                start as int,
                k as int,
            ));
            assert(bs.subrange(start as int, k + 1).last() == bs[k as int]);
        }
        if c < 0x30 || c > 0x39 {
            proof {
                assert(literal_digits(bs)[k - start] == bs[k as int]);
            }
            return None;
        }
        let d = (c - 0x30) as u64;
        let next = acc * 10 + d;
        if next > 0x8000_0000 {
            proof {
                if is_i32_literal(bs) {
                    lemma_digits_prefix_le(literal_digits(bs), k + 1 - start);
                    assert(literal_digits(bs).take(k + 1 - start) =~= bs.subrange(
                        start as int,
                        k + 1,
                    ));
                }
            }
            return None;
        }
        acc = next;
        k = k + 1;
    }
    proof {
        assert(bs.subrange(start as int, n as int) =~= literal_digits(bs));
    }
    if negative {
        if acc == 0x8000_0000 {
            Some(i32::MIN)
        } else {
            Some(-(acc as i32))
        }
    } else {
        if acc > 0x7fff_ffff {
            return None;
        }
        Some(acc as i32)
    }
}

/// Turn a face-line token into a 0-based index into a list of `len`
/// elements: a positive token `t` means element `t - 1`, and any other
/// token `t` means element `len + t`, counting from the end. A token that
/// is not an integer gives nothing. When `len + t` falls below zero the
/// index wraps around the unsigned range, exactly as the unchecked cast
/// in a mesh loader does; the result is then out of every list's bounds
/// and the caller rejects it as it would any oversized index.
pub fn parse_index(value: &str, len: usize) -> (r: Option<usize>)
    requires
        len <= 0x7fff_ffff,
    ensures
        match r {
            Some(idx) => {
                &&& is_i32_literal(value.spec_bytes())
                &&& {
                    let v = i32_literal_value(value.spec_bytes());
                    if v > 0 {
                        idx == v - 1
                    } else if len + v >= 0 {
                        idx == len + v
                    } else {
                        idx as int == len + v + usize::MAX as int + 1
                    }
                }
            },
            None => !is_i32_literal(value.spec_bytes()),
        },
{
    match parse_i32(value) {
        None => None,
        Some(index) => {
            if index > 0 {
                Some((index - 1) as usize)
            } else {
                let shifted = (len as i64) + (index as i64);
                if shifted >= 0 {
                    Some(shifted as usize)
                } else {
                    Some(usize::MAX - ((-shifted - 1) as usize))
                }
            }
        },
    }
}

} // verus!
