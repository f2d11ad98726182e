//! The ustar archive format.
//!
//! An archive is a flat run of 512-byte blocks: each entry is one
//! header block followed by its data, padded up to a block boundary,
//! and the run ends at an all-zero block or at the end of the buffer.
//! A header names the entry (a 100-byte field, extended by the ustar
//! 155-byte prefix field), gives its size as a trimmed octal field, and
//! carries an octal checksum of the header bytes with the checksum
//! field itself read as spaces. Anything else — a short block, a bad
//! checksum, a malformed size, data running past the buffer — makes the
//! whole archive unreadable.

use vstd::prelude::*;

use crate::engine::views_of;
use crate::engine::EntryModel;
use crate::engine::SyncError;
use crate::engine::TarEntry;

verus! {

/// True for the ASCII octal digits `0` through `7`.
pub open spec fn is_octal_digit(b: u8) -> bool {
    48 <= b <= 55
}

/// True when every byte is an octal digit.
pub open spec fn all_octal_digits(s: Seq<u8>) -> bool {
    forall|i: int| 0 <= i < s.len() ==> is_octal_digit(#[trigger] s[i])
}

/// Mathematical value of a run of octal digits, most significant first.
pub open spec fn octal_value(s: Seq<u8>) -> int
    decreases s.len(),
{
    if s.len() == 0 {
        0
    } else {
        octal_value(s.drop_last()) * 8 + (s.last() - 48)
    }
}

/// The bytes before the first NUL.
pub open spec fn until_nul(s: Seq<u8>) -> Seq<u8>
    decreases s.len(),
{
    if s.len() == 0 || s[0] == 0 {
        Seq::empty()
    } else {
        seq![s[0]] + until_nul(s.skip(1))
    }
}

/// `s` without leading spaces.
pub open spec fn trim_start_spaces(s: Seq<u8>) -> Seq<u8>
    decreases s.len(),
{
    if s.len() > 0 && s[0] == 32 {
        trim_start_spaces(s.skip(1))
    } else {
        s
    }
}

/// `s` without trailing spaces.
pub open spec fn trim_end_spaces(s: Seq<u8>) -> Seq<u8>
    decreases s.len(),
{
    if s.len() > 0 && s.last() == 32 {
        trim_end_spaces(s.drop_last())
    } else {
        s
    }
}

/// What a numeric header field denotes: the field is cut at its first
/// NUL and stripped of surrounding spaces, and what remains must be one
/// or more octal digits whose value fits in 64 bits.
pub open spec fn parse_octal_field(s: Seq<u8>) -> Option<int> {
    let t = trim_end_spaces(trim_start_spaces(until_nul(s)));
    if t.len() > 0 && all_octal_digits(t) && octal_value(t) <= u64::MAX {
        Some(octal_value(t))
    } else {
        None
    }
}

/// Sum of a run of bytes.
pub open spec fn sum_bytes(s: Seq<u8>) -> int
    decreases s.len(),
{
    if s.len() == 0 {
        0
    } else {
        sum_bytes(s.drop_last()) + s.last()
    }
}

/// True when every byte is zero.
pub open spec fn all_zero(s: Seq<u8>) -> bool {
    forall|i: int| 0 <= i < s.len() ==> #[trigger] s[i] == 0
}

/// A header's checksum holds when its checksum field, read as octal,
/// equals the sum of the block's bytes with the checksum field itself
/// counted as eight spaces.
pub open spec fn checksum_ok(block: Seq<u8>) -> bool {
    match parse_octal_field(block.subrange(148, 156)) {
        Option::Some(v) => v == sum_bytes(block.subrange(0, 148)) + sum_bytes(
            block.subrange(156, 512),
        ) + 256,
        Option::None => false,
    }
}

/// True when the block carries the POSIX ustar magic and version.
pub open spec fn is_ustar_block(block: Seq<u8>) -> bool {
    block.subrange(257, 263) =~= seq![117u8, 115u8, 116u8, 97u8, 114u8, 0u8]
        && block.subrange(263, 265) =~= seq![48u8, 48u8]
}

/// The path a header names: the name field cut at its first NUL, with
/// the ustar prefix field — when the header is ustar and the prefix is
/// in use — put in front, joined by a slash.
pub open spec fn spec_entry_path(block: Seq<u8>) -> Seq<u8> {
    let name = until_nul(block.subrange(0, 100));
    if is_ustar_block(block) && block[345] != 0 {
        until_nul(block.subrange(345, 500)) + seq![47u8] + name
    } else {
        name
    }
}

/// An entry's data is padded up to the next block boundary.
pub open spec fn round_up_block(n: int) -> int {
    ((n + 511) / 512) * 512
}

/// The entries of the archive from byte `off` on: none at the end of
/// the buffer or at an all-zero block, otherwise one header block, its
/// data, and the rest — or nothing at all if any header is unreadable
/// or any data runs past the buffer.
pub open spec fn spec_parse_at(bytes: Seq<u8>, off: int) -> Option<Seq<EntryModel>>
    decreases bytes.len() - off,
    via spec_parse_at_decreases
{
    if off < 0 || off > bytes.len() {
        None
    } else if off == bytes.len() {
        Some(Seq::empty())
    } else if off + 512 > bytes.len() {
        None
    } else {
        let block = bytes.subrange(off, off + 512);
        if all_zero(block) {
            Some(Seq::empty())
        } else if !checksum_ok(block) {
            None
        } else {
            match parse_octal_field(block.subrange(124, 136)) {
                Option::None => None,
                Option::Some(size) => {
                    let next = off + 512 + round_up_block(size);
                    if next > bytes.len() {
                        None
                    } else {
                        match spec_parse_at(bytes, next) {
                            Option::None => None,
                            Option::Some(rest) => Some(
                                seq![
                                    EntryModel {
                                        path: spec_entry_path(block),
                                        content: bytes.subrange(off + 512, off + 512 + size),
                                    },
                                ] + rest,
                            ),
                        }
                    }
                },
            }
        }
    }
}

/// Digit runs have non-negative value.
proof fn lemma_octal_value_nonneg(s: Seq<u8>)
    requires
        all_octal_digits(s),
    ensures
        octal_value(s) >= 0,
    decreases s.len(),
{
    if s.len() > 0 {
        assert(forall|i: int|
            0 <= i < s.drop_last().len() ==> s.drop_last()[i] == #[trigger] s[i]);
        lemma_octal_value_nonneg(s.drop_last());
    }
}

#[via_fn]
proof fn spec_parse_at_decreases(bytes: Seq<u8>, off: int) {
    if 0 <= off && off + 512 <= bytes.len() {
        let block = bytes.subrange(off, off + 512);
        if !all_zero(block) && checksum_ok(block) {
            match parse_octal_field(block.subrange(124, 136)) {
                Option::None => {},
                Option::Some(size) => {
                    let t = trim_end_spaces(trim_start_spaces(until_nul(block.subrange(124, 136))));
                    lemma_octal_value_nonneg(t);
                    assert(size >= 0);
                    assert(round_up_block(size) >= 0) by (nonlinear_arith)
                        requires size >= 0;
                },
            }
        }
    }
}

/// What the whole buffer parses to.
pub open spec fn spec_parse(bytes: Seq<u8>) -> Option<Seq<EntryModel>> {
    spec_parse_at(bytes, 0)
}

/// Extending a digit run to the right can only grow its value.
proof fn lemma_octal_value_prefix(s: Seq<u8>, k: int)
    requires
        all_octal_digits(s),
        0 <= k <= s.len(),
    ensures
        octal_value(s.subrange(0, k)) <= octal_value(s),
    decreases s.len() - k,
{
    if k < s.len() {
        lemma_octal_value_prefix(s, k + 1);
        let p = s.subrange(0, k + 1);
        assert(p.drop_last() =~= s.subrange(0, k));
        assert(all_octal_digits(s.subrange(0, k))) by {
            assert(forall|i: int| 0 <= i < k ==> s.subrange(0, k)[i] == #[trigger] s[i]);
        }
        lemma_octal_value_nonneg(s.subrange(0, k));
        assert(octal_value(p) == octal_value(s.subrange(0, k)) * 8 + (s[k] - 48));
        assert(octal_value(s.subrange(0, k)) * 8 >= octal_value(s.subrange(0, k)))
            by (nonlinear_arith)
            requires octal_value(s.subrange(0, k)) >= 0;
    } else {
        assert(s.subrange(0, k) =~= s);
    }
}

/// Scanning to the first NUL cuts the field exactly there.
proof fn lemma_until_nul_at(s: Seq<u8>, m: int)
    requires
        0 <= m <= s.len(),
        forall|k: int| 0 <= k < m ==> s[k] != 0,
        m < s.len() ==> s[m] == 0,
    ensures
        until_nul(s) =~= s.subrange(0, m),
    decreases s.len(),
{
    if s.len() > 0 && s[0] != 0 {
        assert(m >= 1);
        assert(forall|k: int| 0 <= k < m - 1 ==> s.skip(1)[k] == #[trigger] s[k + 1]);
        lemma_until_nul_at(s.skip(1), m - 1);
        assert(until_nul(s) =~= seq![s[0]] + until_nul(s.skip(1)));
    }
}

/// Skipping the leading spaces trims the run exactly there.
proof fn lemma_trim_start_at(s: Seq<u8>, m: int)
    requires
        0 <= m <= s.len(),
        forall|k: int| 0 <= k < m ==> s[k] == 32,
        m < s.len() ==> s[m] != 32,
    ensures
        trim_start_spaces(s) =~= s.subrange(m, s.len() as int),
    decreases s.len(),
{
    if s.len() > 0 && s[0] == 32 {
        assert(m >= 1);
        assert(forall|k: int| 0 <= k < m - 1 ==> s.skip(1)[k] == #[trigger] s[k + 1]);
        lemma_trim_start_at(s.skip(1), m - 1);
        assert(s.skip(1).subrange(m - 1, s.skip(1).len() as int) =~= s.subrange(
            m,
            s.len() as int,
        ));
    } else {
        assert(s.subrange(0, s.len() as int) =~= s);
    }
}

/// Dropping the trailing spaces trims the run exactly there.
proof fn lemma_trim_end_at(s: Seq<u8>, m: int)
    requires
        0 <= m <= s.len(),
        forall|k: int| m <= k < s.len() ==> s[k] == 32,
        m > 0 ==> s[m - 1] != 32,
    ensures
        trim_end_spaces(s) =~= s.subrange(0, m),
    decreases s.len(),
{
    if s.len() > 0 && s.last() == 32 {
        assert(m < s.len());
        lemma_trim_end_at(s.drop_last(), m);
    } else {
        assert(s.subrange(0, s.len() as int) =~= s);
    }
}

/// Reads a numeric header field: the bytes are cut at the first NUL,
/// stripped of surrounding spaces, and read as octal digits.
#[verifier::loop_isolation(false)]
#[verifier::rlimit(80)]
pub fn parse_octal_range(v: &Vec<u8>, start: usize, end: usize) -> (r: Option<u64>)
    requires
        start <= end <= v@.len(),
    ensures
        match r {
            Option::Some(x) => parse_octal_field(v@.subrange(start as int, end as int)) == Some(
                x as int,
            ),
            Option::None => parse_octal_field(v@.subrange(start as int, end as int)) is None,
        },
{
    let ghost s = v@.subrange(start as int, end as int);
    // Cut at the first NUL.
    let mut e1: usize = start;
    while e1 < end && v[e1] != 0
        invariant
            start <= e1 <= end,
            forall|k: int| start <= k < e1 ==> v@[k] != 0,
        decreases end - e1,
    {
        e1 = e1 + 1;
    }
    proof {
        lemma_until_nul_at(s, e1 - start as int);
    }
    // Strip spaces at both ends.
    let mut a: usize = start;
    while a < e1 && v[a] == 32
        invariant
            start <= a <= e1,
            forall|k: int| start <= k < a ==> v@[k] == 32,
        decreases e1 - a,
    {
        a = a + 1;
    }
    let ghost cut = s.subrange(0, e1 - start as int);
    proof {
        lemma_trim_start_at(cut, a - start as int);
    }
    let mut b: usize = e1;
    while b > a && v[b - 1] == 32
        invariant
            a <= b <= e1,
            forall|k: int| b <= k < e1 ==> v@[k] == 32,
        decreases b,
    {
        b = b - 1;
    }
    let ghost st = cut.subrange(a - start as int, cut.len() as int);
    proof {
        lemma_trim_end_at(st, b - a as int);
        assert(st.subrange(0, b - a as int) =~= s.subrange(a - start as int, b - start as int));
    }
    let ghost t = trim_end_spaces(trim_start_spaces(until_nul(s)));
    proof {
        assert(t =~= s.subrange(a - start as int, b - start as int));
    }
    if a == b {
        return None;
    }
    // Read the digits.
    let mut val: u64 = 0;
    let mut j: usize = a;
    while j < b
        invariant
            a <= j <= b,
            t == s.subrange(a - start as int, b - start as int),
            all_octal_digits(t.subrange(0, j - a as int)),
            val == octal_value(t.subrange(0, j - a as int)),
        decreases b - j,
    {
        let c = v[j];
        proof {
            assert(t[j - a as int] == v@[j as int]);
        }
        if c < 48 || c > 55 {
            proof {
                assert(!is_octal_digit(t[j - a as int]));
            }
            return None;
        }
        let d = (c - 48) as u64;
        let ghost prefix = t.subrange(0, j - a as int);
        let ghost nextp = t.subrange(0, j + 1 - a as int);
        proof {
            assert(nextp.drop_last() =~= prefix);
            assert(nextp.last() == c);
            assert(all_octal_digits(nextp));
        }
        let hi = match val.checked_mul(8) {
            Some(x) => x,
            None => {
                proof {
                    assert(octal_value(nextp) == val * 8 + (c - 48));
                    if all_octal_digits(t) {
                        lemma_octal_value_prefix(t, j + 1 - a as int);
                        assert(octal_value(t) > u64::MAX);
                    }
                }
                return None;
            },
        };
        let val2 = match hi.checked_add(d) {
            Some(x) => x,
            None => {
                proof {
                    assert(octal_value(nextp) == val * 8 + (c - 48));
                    if all_octal_digits(t) {
                        lemma_octal_value_prefix(t, j + 1 - a as int);
                        assert(octal_value(t) > u64::MAX);
                    }
                }
                return None;
            },
        };
        val = val2;
        j = j + 1;
    }
    proof {
        assert(t.subrange(0, b - a as int) =~= t);
    }
    Some(val)
}

/// True when the 512-byte block at `off` is all zeros.
#[verifier::loop_isolation(false)]
fn block_all_zero(v: &Vec<u8>, off: usize) -> (r: bool)
    requires
        off + 512 <= v@.len(),
    ensures
        r == all_zero(v@.subrange(off as int, off as int + 512)),
{
    proof {
        vstd::std_specs::vec::axiom_spec_len(v);
    }
    let mut i: usize = 0;
    while i < 512
        invariant
            i <= 512,
            off + 512 <= v@.len(),
            forall|k: int| 0 <= k < i ==> #[trigger] v@[off + k] == 0,
        decreases 512 - i,
    {
        if v[off + i] != 0 {
            proof {
                assert(v@.subrange(off as int, off as int + 512)[i as int] != 0);
            }
            return false;
        }
        i = i + 1;
    }
    proof {
        assert forall|k: int| 0 <= k < 512 implies #[trigger] v@.subrange(
            off as int,
            off as int + 512,
        )[k] == 0 by {
            assert(v@[off + k] == 0);
        }
    }
    true
}

/// Sums the bytes of `v[start..end)`.
#[verifier::loop_isolation(false)]
fn sum_range(v: &Vec<u8>, start: usize, end: usize) -> (r: u64)
    requires
        start <= end <= v@.len(),
        end - start <= 512,
    ensures
        r == sum_bytes(v@.subrange(start as int, end as int)),
        r <= 255 * (end - start),
{
    let ghost s = v@.subrange(start as int, end as int);
    let mut r: u64 = 0;
    let mut i: usize = start;
    while i < end
        invariant
            start <= i <= end,
            r == sum_bytes(s.subrange(0, i - start as int)),
            r <= 255 * (i - start),
        decreases end - i,
    {
        proof {
            assert(s.subrange(0, i + 1 - start as int).drop_last() =~= s.subrange(
                0,
                i - start as int,
            ));
            assert(s.subrange(0, i + 1 - start as int).last() == v@[i as int]);
        }
        r = r + v[i] as u64;
        i = i + 1;
    }
    proof {
        assert(s.subrange(0, end - start as int) =~= s);
    }
    r
}

/// Verifies the header checksum of the block at `off`.
fn block_checksum_ok(v: &Vec<u8>, off: usize) -> (r: bool)
    requires
        off + 512 <= v@.len(),
    ensures
        r == checksum_ok(v@.subrange(off as int, off as int + 512)),
{
    proof {
        vstd::std_specs::vec::axiom_spec_len(v);
    }
    let ghost block = v@.subrange(off as int, off as int + 512);
    let head = sum_range(v, off, off + 148);
    let tail = sum_range(v, off + 156, off + 512);
    proof {
        assert(v@.subrange(off as int, off as int + 148) =~= block.subrange(0, 148));
        assert(v@.subrange(off as int + 156, off as int + 512) =~= block.subrange(156, 512));
        assert(v@.subrange(off as int + 148, off as int + 156) =~= block.subrange(148, 156));
    }
    let sum = head + tail + 256;
    match parse_octal_range(v, off + 148, off + 156) {
        Some(x) => x == sum,
        None => false,
    }
}

/// Copies `v[start..end)` out.
fn copy_range(v: &Vec<u8>, start: usize, end: usize) -> (r: Vec<u8>)
    requires
        start <= end <= v@.len(),
    ensures
        r@ == v@.subrange(start as int, end as int),
{
    let mut r: Vec<u8> = Vec::new();
    let mut i: usize = start;
    while i < end
        invariant
            start <= i <= end <= v@.len(),
            r@ =~= v@.subrange(start as int, i as int),
        decreases end - i,
    {
        r.push(v[i]);
        proof {
            assert(r@ =~= v@.subrange(start as int, i + 1));
        }
        i = i + 1;
    }
    proof {
        assert(r@ =~= v@.subrange(start as int, end as int));
    }
    r
}

/// Scans forward from `start` to the first NUL, at most to `end`.
fn find_nul(v: &Vec<u8>, start: usize, end: usize) -> (r: usize)
    requires
        start <= end <= v@.len(),
    ensures
        start <= r <= end,
        forall|k: int| start <= k < r ==> v@[k] != 0,
        r < end ==> v@[r as int] == 0,
{
    let mut i: usize = start;
    while i < end && v[i] != 0
        invariant
            start <= i <= end <= v@.len(),
            forall|k: int| start <= k < i ==> v@[k] != 0,
        decreases end - i,
    {
        i = i + 1;
    }
    i
}

/// Reads the path the header block at `off` names.
#[verifier::loop_isolation(false)]
fn read_entry_path(v: &Vec<u8>, off: usize) -> (r: Vec<u8>)
    requires
        off + 512 <= v@.len(),
    ensures
        r@ == spec_entry_path(v@.subrange(off as int, off as int + 512)),
{
    proof {
        vstd::std_specs::vec::axiom_spec_len(v);
    }
    let ghost block = v@.subrange(off as int, off as int + 512);
    // The name field, cut at its first NUL.
    let name_end = find_nul(v, off, off + 100);
    proof {
        assert(forall|k: int| 0 <= k < 100 ==> block.subrange(0, 100)[k] == v@[off + k]);
        lemma_until_nul_at(block.subrange(0, 100), name_end - off as int);
        assert(until_nul(block.subrange(0, 100)) =~= v@.subrange(off as int, name_end as int));
    }
    // The ustar magic, version, and prefix.
    let is_ustar = v[off + 257] == 117 && v[off + 258] == 115 && v[off + 259] == 116 && v[off
        + 260] == 97 && v[off + 261] == 114 && v[off + 262] == 0 && v[off + 263] == 48 && v[off
        + 264] == 48;
    proof {
        assert(forall|k: int| 0 <= k < 6 ==> block.subrange(257, 263)[k] == v@[off + 257 + k]);
        assert(forall|k: int| 0 <= k < 2 ==> block.subrange(263, 265)[k] == v@[off + 263 + k]);
        assert(is_ustar == is_ustar_block(block)) by {
            if is_ustar {
                assert(block.subrange(257, 263) =~= seq![117u8, 115u8, 116u8, 97u8, 114u8, 0u8]);
                assert(block.subrange(263, 265) =~= seq![48u8, 48u8]);
            } else {
                if is_ustar_block(block) {
                    assert(block.subrange(257, 263)[0] == 117 && block.subrange(257, 263)[1] == 115
                        && block.subrange(257, 263)[2] == 116 && block.subrange(257, 263)[3] == 97
                        && block.subrange(257, 263)[4] == 114 && block.subrange(257, 263)[5] == 0);
                    assert(block.subrange(263, 265)[0] == 48 && block.subrange(263, 265)[1] == 48);
                }
            }
        }
    }
    if is_ustar && v[off + 345] != 0 {
        proof {
            assert(block[345] == v@[off + 345]);
        }
        let pre_end = find_nul(v, off + 345, off + 500);
        proof {
            assert(forall|k: int| 0 <= k < 155 ==> block.subrange(345, 500)[k] == v@[off + 345 + k]);
            lemma_until_nul_at(block.subrange(345, 500), pre_end - (off + 345) as int);
            assert(until_nul(block.subrange(345, 500)) =~= v@.subrange(
                off as int + 345,
                pre_end as int,
            ));
        }
        let mut r = copy_range(v, off + 345, pre_end);
        r.push(47);
        let name = copy_range(v, off, name_end);
        let mut i: usize = 0;
        let ghost base = r@;
        while i < name.len()
            invariant
                i <= name@.len(),
                r@ == base + name@.subrange(0, i as int),
            decreases name@.len() - i,
        {
            r.push(name[i]);
            proof {
                assert(base + name@.subrange(0, i + 1) =~= (base + name@.subrange(0, i as int))
                    .push(name@[i as int]));
            }
            i = i + 1;
        }
        proof {
            assert(name@.subrange(0, name@.len() as int) =~= name@);
            assert(r@ =~= until_nul(block.subrange(345, 500)) + seq![47u8] + until_nul(
                block.subrange(0, 100),
            ));
        }
        r
    } else {
        proof {
            assert(block[345] == v@[off + 345]);
        }
        copy_range(v, off, name_end)
    }
}

/// Parses a whole in-memory archive into its entries; a malformed or
/// truncated archive is one archive-read error, whole.
#[verifier::loop_isolation(false)]
#[verifier::rlimit(80)]
pub fn parse_archive(buffer: &Vec<u8>) -> (r: Result<Vec<TarEntry>, SyncError>)
    ensures
        match r {
            Result::Ok(es) => spec_parse(buffer@) == Some(views_of(es@)),
            Result::Err(e) => spec_parse(buffer@) is None && e == SyncError::ArchiveRead,
        },
{
    let n = buffer.len();
    let mut entries: Vec<TarEntry> = Vec::new();
    let mut off: usize = 0;
    while off < n
        invariant
            off <= n == buffer@.len(),
            match spec_parse_at(buffer@, off as int) {
                Option::Some(rest) => spec_parse(buffer@) == Some(views_of(entries@) + rest),
                Option::None => spec_parse(buffer@) is None,
            },
        decreases n - off,
    {
        if n - off < 512 {
            return Err(SyncError::ArchiveRead);
        }
        let ghost block = buffer@.subrange(off as int, off as int + 512);
        if block_all_zero(buffer, off) {
            proof {
                assert(views_of(entries@) + Seq::<EntryModel>::empty() =~= views_of(entries@));
            }
            return Ok(entries);
        }
        if !block_checksum_ok(buffer, off) {
            return Err(SyncError::ArchiveRead);
        }
        let size = match parse_octal_range(buffer, off + 124, off + 136) {
            Some(x) => x,
            None => {
                proof {
                    assert(buffer@.subrange(off as int + 124, off as int + 136) =~= block.subrange(
                        124,
                        136,
                    ));
                }
                return Err(SyncError::ArchiveRead);
            },
        };
        proof {
            assert(buffer@.subrange(off as int + 124, off as int + 136) =~= block.subrange(
                124,
                136,
            ));
        }
        let rounded128 = ((size as u128 + 511) / 512) * 512;
        proof {
            assert(rounded128 == round_up_block(size as int));
            assert(round_up_block(size as int) >= size) by (nonlinear_arith)
                requires size >= 0;
        }
        if rounded128 > (n - off - 512) as u128 {
            proof {
                assert(off + 512 + round_up_block(size as int) > n);
            }
            return Err(SyncError::ArchiveRead);
        }
        let data_start = off + 512;
        let data_end = data_start + (size as usize);
        let next = data_start + (rounded128 as usize);
        let path = read_entry_path(buffer, off);
        let content = copy_range(buffer, data_start, data_end);
        let entry = TarEntry { path, content };
        entries.push(entry);
        proof {
            let rest = spec_parse_at(buffer@, next as int);
            match rest {
                Option::Some(rs) => {
                    assert(spec_parse_at(buffer@, off as int) == Some(
                        seq![
                            EntryModel {
                                path: spec_entry_path(block),
                                content: buffer@.subrange(
                                    off as int + 512,
                                    off as int + 512 + size as int,
                                ),
                            },
                        ] + rs,
                    ));
                    assert(views_of(entries@) =~= views_of(entries@.drop_last()) + seq![
                        entries@.last()@,
                    ]);
                    assert(views_of(entries@.drop_last()) + (seq![entries@.last()@] + rs)
                        =~= views_of(entries@) + rs);
                },
                Option::None => {},
            }
        }
        off = next;
    }
    proof {
        assert(spec_parse_at(buffer@, n as int) == Some(Seq::<EntryModel>::empty()));
        assert(views_of(entries@) + Seq::<EntryModel>::empty() =~= views_of(entries@));
    }
    Ok(entries)
}

} // verus!
