//! Decimal build-number parsing.
//!
//! Build numbers arrive as ASCII text: twelve bytes out of an archive
//! entry, or the device's own version string. Both are read the way
//! `u64` reads base-10 text: an optional leading `+`, then one or more
//! decimal digits, and the value must fit in a `u64`.

use vstd::prelude::*;
use vstd::string::StringSliceAdditionalSpecFns;

verus! {

/// True for the ASCII digits `0` through `9`.
pub open spec fn is_dec_digit(b: u8) -> bool {
    48 <= b <= 57
}

/// True when every byte of `s` is an ASCII decimal digit.
pub open spec fn all_dec_digits(s: Seq<u8>) -> bool {
    forall|i: int| 0 <= i < s.len() ==> is_dec_digit(#[trigger] s[i])
}

/// Mathematical value of a sequence of ASCII digits, most significant first.
pub open spec fn dec_digits_value(s: Seq<u8>) -> int
    decreases s.len(),
{
    if s.len() == 0 {
        0
    } else {
        dec_digits_value(s.drop_last()) * 10 + (s.last() - 48)
    }
}

/// The digit run of a decimal string: everything after an optional leading `+`.
pub open spec fn dec_body(s: Seq<u8>) -> Seq<u8> {
    if s.len() > 0 && s[0] == 43 {
        s.skip(1)
    } else {
        s
    }
}

/// What parsing `s` as an unsigned base-10 number yields: the value if
/// `s` is an optional `+` followed by one or more digits and the value
/// fits in a `u64`, and nothing otherwise.
pub open spec fn parse_build(s: Seq<u8>) -> Option<u64> {
    let body = dec_body(s);
    if body.len() > 0 && all_dec_digits(body) && dec_digits_value(body) <= u64::MAX {
        Some(dec_digits_value(body) as u64)
    } else {
        None
    }
}

/// The value of a digit sequence is never negative.
proof fn lemma_dec_value_nonneg(s: Seq<u8>)
    requires
        all_dec_digits(s),
    ensures
        dec_digits_value(s) >= 0,
    decreases s.len(),
{
    if s.len() > 0 {
        assert(all_dec_digits(s.drop_last())) by {
            assert(forall|i: int|
                0 <= i < s.drop_last().len() ==> s.drop_last()[i] == #[trigger] s[i]);
        }
        lemma_dec_value_nonneg(s.drop_last());
    }
}

/// Extending a digit run to the right can only grow its value.
proof fn lemma_dec_value_prefix(s: Seq<u8>, k: int)
    requires
        all_dec_digits(s),
        0 <= k <= s.len(),
    ensures
        dec_digits_value(s.subrange(0, k)) <= dec_digits_value(s),
    decreases s.len() - k,
{
    if k < s.len() {
        lemma_dec_value_prefix(s, k + 1);
        let p = s.subrange(0, k + 1);
        assert(p.drop_last() =~= s.subrange(0, k));
        assert(all_dec_digits(s.subrange(0, k))) by {
            assert(forall|i: int|
                0 <= i < k ==> s.subrange(0, k)[i] == #[trigger] s[i]);
        }
        lemma_dec_value_nonneg(s.subrange(0, k));
        assert(dec_digits_value(p) == dec_digits_value(s.subrange(0, k)) * 10 + (s[k] - 48));
        assert(dec_digits_value(s.subrange(0, k)) * 10 >= dec_digits_value(s.subrange(0, k)))
            by (nonlinear_arith)
            requires dec_digits_value(s.subrange(0, k)) >= 0;
    } else {
        assert(s.subrange(0, k) =~= s);
    }
}

/// Parses `v[start..end)` as an unsigned base-10 number: an optional
/// leading `+`, then decimal digits, rejecting anything else and values
/// beyond `u64`.
#[verifier::loop_isolation(false)]
pub fn parse_build_range(v: &Vec<u8>, start: usize, end: usize) -> (r: Option<u64>)
    requires
        start <= end <= v@.len(),
    ensures
        r == parse_build(v@.subrange(start as int, end as int)),
{
    let ghost s = v@.subrange(start as int, end as int);
    let mut i: usize = start;
    if i < end && v[i] == 43 {
        i = i + 1;
    }
    let ghost body = dec_body(s);
    proof {
        assert(body =~= v@.subrange(i as int, end as int));
    }
    if i == end {
        return None;
    }
    let mut val: u64 = 0;
    let mut j: usize = i;
    while j < end
        invariant
            i <= j <= end <= v@.len(),
            body == v@.subrange(i as int, end as int),
            all_dec_digits(body.subrange(0, j - i)),
            val == dec_digits_value(body.subrange(0, j - i)),
        decreases end - j,
    {
        let b = v[j];
        proof {
            assert(body[j - i] == v@[j as int]);
        }
        if b < 48 || b > 57 {
            proof {
                assert(!is_dec_digit(body[j - i]));
                assert(!all_dec_digits(body));
            }
            return None;
        }
        let d = (b - 48) as u64;
        let ghost prefix = body.subrange(0, j - i);
        let ghost next = body.subrange(0, j + 1 - i);
        proof {
            assert(next.drop_last() =~= prefix);
            assert(next.last() == b);
            assert(all_dec_digits(next));
        }
        let hi = match val.checked_mul(10) {
            Some(x) => x,
            None => {
                proof {
                    assert(dec_digits_value(next) == val * 10 + (b - 48));
                    if all_dec_digits(body) {
                        lemma_dec_value_prefix(body, j + 1 - i);
                        assert(dec_digits_value(body) > u64::MAX);
                    }
                }
                return None;
            },
        };
        let val2 = match hi.checked_add(d) {
            Some(x) => x,
            None => {
                proof {
                    assert(dec_digits_value(next) == val * 10 + (b - 48));
                    if all_dec_digits(body) {
                        lemma_dec_value_prefix(body, j + 1 - i);
                        assert(dec_digits_value(body) > u64::MAX);
                    }
                }
                return None;
            },
        };
        val = val2;
        j = j + 1;
    }
    proof {
        assert(body.subrange(0, end - i) =~= body);
    }
    Some(val)
}

/// Parses a whole byte string as a build number.
pub fn parse_build_bytes(v: &Vec<u8>) -> (r: Option<u64>)
    ensures
        r == parse_build(v@),
{
    let n = v.len();
    let r = parse_build_range(v, 0, n);
    proof {
        assert(v@.subrange(0, v@.len() as int) =~= v@);
    }
    r
}

/// Parses the device's version string as a build number; the string is
/// read through its UTF-8 bytes, so any non-ASCII text fails as a
/// non-digit just as it does for `u64` parsing.
pub fn parse_build_str(s: &str) -> (r: Option<u64>)
    ensures
        r == parse_build(s.spec_bytes()),
{
    let v = s.as_bytes_vec();
    parse_build_bytes(&v)
}

} // verus!
