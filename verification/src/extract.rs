//! The single-file extraction path.
//!
//! When the archive holds exactly one entry, its bytes are copied to the
//! target in 32 KiB chunks, and after each chunk the percentage of bytes
//! copied so far is reported instead of a file count. Each percentage is
//! `floor(bytes_so_far * 100 / total)`; the last chunk always reports
//! exactly 100, and no earlier chunk does.

use vstd::prelude::*;

use crate::engine::TarEntry;
use crate::engine::Volume;

verus! {

/// Bytes copied per chunk.
pub const CHUNK_SIZE: usize = 32768;

/// How many chunks a file of `len` bytes takes.
pub open spec fn n_chunks(len: int) -> int {
    (len + 32767) / 32768
}

/// Bytes copied once chunk `i` is done.
pub open spec fn chunk_done(len: int, i: int) -> int {
    if (i + 1) * 32768 <= len {
        (i + 1) * 32768
    } else {
        len
    }
}

/// The percentage reported after chunk `i`.
pub open spec fn chunk_percent(len: int, i: int) -> int {
    chunk_done(len, i) * 100 / len
}

/// The whole progress report of a single-file extraction: one
/// percentage per chunk.
pub open spec fn spec_percents(len: int) -> Seq<u16> {
    Seq::new(n_chunks(len) as nat, |i: int| chunk_percent(len, i) as u16)
}

/// The percentages of a single-file extraction never decrease, stay
/// within 0 to 100, and hit 100 exactly once: at the final chunk.
pub proof fn lemma_percents_shape(len: int)
    requires
        len >= 1,
    ensures
        spec_percents(len).len() == n_chunks(len) >= 1,
        spec_percents(len).last() == 100,
        forall|i: int| 0 <= i < n_chunks(len) - 1 ==> #[trigger] spec_percents(len)[i] < 100,
        forall|i: int, j: int|
            0 <= i <= j < n_chunks(len) ==> #[trigger] spec_percents(len)[i]
                <= #[trigger] spec_percents(len)[j],
{
    assert(n_chunks(len) >= 1) by (nonlinear_arith)
        requires len >= 1;
    let n = n_chunks(len);
    assert forall|i: int| 0 <= i < n implies 0 <= #[trigger] chunk_done(len, i) <= len by {
        assert((i + 1) * 32768 > 0) by (nonlinear_arith)
            requires i >= 0;
    }
    assert(chunk_done(len, n - 1) == len) by {
        assert(n * 32768 >= len) by (nonlinear_arith)
            requires n == (len + 32767) / 32768 && len >= 1;
    }
    assert(chunk_percent(len, n - 1) == 100) by {
        assert(len * 100 / len == 100) by (nonlinear_arith)
            requires len >= 1;
    }
    assert forall|i: int| 0 <= i < n - 1 implies #[trigger] spec_percents(len)[i] < 100 by {
        assert((i + 1) * 32768 < len) by (nonlinear_arith)
            requires i + 1 < (len + 32767) / 32768;
        assert(chunk_done(len, i) * 100 / len < 100) by (nonlinear_arith)
            requires 0 <= chunk_done(len, i) < len && len >= 1;
        assert(chunk_percent(len, i) >= 0) by (nonlinear_arith)
            requires chunk_done(len, i) >= 0 && len >= 1;
    }
    assert forall|i: int, j: int| 0 <= i <= j < n implies #[trigger] spec_percents(len)[i]
        <= #[trigger] spec_percents(len)[j] by {
        assert(chunk_done(len, i) <= chunk_done(len, j)) by (nonlinear_arith)
            requires 0 <= i <= j;
        assert(chunk_done(len, i) * 100 / len <= chunk_done(len, j) * 100 / len)
            by (nonlinear_arith)
            requires len >= 1 && 0 <= chunk_done(len, i) <= chunk_done(len, j);
        assert(chunk_percent(len, i) >= 0) by (nonlinear_arith)
            requires chunk_done(len, i) >= 0 && len >= 1;
        assert(chunk_percent(len, j) <= 100) by (nonlinear_arith)
            requires 0 <= chunk_done(len, j) <= len && len >= 1;
    }
}

/// Every percentage fits comfortably in a `u16`.
proof fn lemma_percent_bounds(len: int, i: int)
    requires
        len >= 1,
        0 <= i < n_chunks(len),
    ensures
        0 <= chunk_percent(len, i) <= 100,
{
    assert((i + 1) * 32768 > 0) by (nonlinear_arith)
        requires i >= 0;
    assert(0 <= chunk_done(len, i) <= len);
    assert(chunk_done(len, i) * 100 / len <= len * 100 / len) by (nonlinear_arith)
        requires len >= 1 && 0 <= chunk_done(len, i) <= len;
    assert(len * 100 / len == 100) by (nonlinear_arith)
        requires len >= 1;
    assert(chunk_percent(len, i) >= 0) by (nonlinear_arith)
        requires chunk_done(len, i) >= 0 && len >= 1;
}

/// The percentage of a copy that is done, rounded down.
pub fn percent_of(done: u64, total: u64) -> (r: u16)
    requires
        0 < total,
        done <= total,
        total as int * 100 <= u64::MAX,
    ensures
        r as int == done as int * 100 / (total as int),
{
    proof {
        assert(done as int * 100 <= total as int * 100) by (nonlinear_arith)
            requires done as int <= total as int;
        assert(done as int * 100 / (total as int) <= 100) by (nonlinear_arith)
            requires 0 < total as int && done as int <= total as int;
        assert(done as int * 100 / (total as int) >= 0) by (nonlinear_arith)
            requires 0 < total as int && done as int >= 0;
    }
    ((done * 100) / total) as u16
}

/// Copies the single entry's bytes onto the volume and reports the
/// per-chunk percentages, exactly one per 32 KiB chunk. An empty entry
/// still creates (or truncates) the file, and reports nothing, so the
/// percentage arithmetic never divides by zero.
#[verifier::loop_isolation(false)]
pub fn extract_single_file(volume: &mut Volume, entry: &TarEntry) -> (r: Vec<u16>)
    requires
        entry@.content.len() * 100 <= u64::MAX,
    ensures
        final(volume)@.files == old(volume)@.files.insert(entry@.path, entry@.content),
        final(volume)@.dirs == old(volume)@.dirs,
        r@ == spec_percents(entry@.content.len() as int),
{
    let len = entry.content.len();
    let path = crate::engine::clone_bytes(&entry.path);
    let content = crate::engine::clone_bytes(&entry.content);
    volume.write_file(path, content);
    let mut r: Vec<u16> = Vec::new();
    if len == 0 {
        proof {
            assert(spec_percents(0) =~= Seq::<u16>::empty());
        }
        return r;
    }
    let mut done: usize = 0;
    let mut i: usize = 0;
    while done < len
        invariant
            1 <= len == entry@.content.len(),
            i >= 1 ==> done == chunk_done(len as int, i - 1),
            i == 0 ==> done == 0,
            done <= len,
            done < len ==> i <= n_chunks(len as int) - 1,
            done == len ==> i == n_chunks(len as int),
            r@.len() == i,
            forall|k: int| 0 <= k < i ==> r@[k] == spec_percents(len as int)[k],
        decreases len - done,
    {
        let step = if len - done < CHUNK_SIZE {
            len - done
        } else {
            CHUNK_SIZE
        };
        let done2 = done + step;
        proof {
            assert(done == i * 32768 || done == 0 && i == 0) by {
                if i >= 1 {
                    if i * 32768 <= len {
                    } else {
                        assert(chunk_done(len as int, i - 1) == len);
                    }
                }
            }
            assert(done2 == chunk_done(len as int, i as int)) by {
                assert(done == i * 32768) by {
                    if i >= 1 && chunk_done(len as int, i - 1) == len {
                        assert(done == len);
                    }
                }
            }
            lemma_percent_bounds(len as int, i as int);
        }
        let pct = (((done2 as u64) * 100) / (len as u64)) as u16;
        r.push(pct);
        proof {
            assert(pct as int == chunk_percent(len as int, i as int));
            assert(r@[i as int] == spec_percents(len as int)[i as int]);
            if done2 < len {
                assert(i + 1 <= n_chunks(len as int) - 1) by (nonlinear_arith)
                    requires
                        done2 == chunk_done(len as int, i as int),
                        done2 < len,
                        (i + 1) * 32768 <= len,
                ;
            } else {
                assert(i + 1 == n_chunks(len as int)) by (nonlinear_arith)
                    requires
                        done2 == len,
                        len >= 1,
                        done2 == chunk_done(len as int, i as int),
                        i * 32768 < len,
                ;
            }
        }
        done = done2;
        i = i + 1;
    }
    proof {
        assert(r@ =~= spec_percents(len as int));
    }
    r
}

} // verus!
