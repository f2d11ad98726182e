//! Merge-policy selection.
//!
//! Every archive entry is classified by the extension of its path,
//! case-sensitively and by exact match: no extension means the entry
//! stands for a directory; `oab`, `owb`, `otb` and `oob` files are
//! patched by comparing a 12-byte header; `xlb` files are replaced only
//! when they carry a strictly newer build number; everything else is
//! overwritten whenever its bytes differ from the target's.

use vstd::prelude::*;

verus! {

/// How one archive entry is merged onto the target volume.
#[derive(Clone, Copy, Debug, PartialEq, Eq, Structural)]
pub enum Policy {
    /// Extension-less entry: create the directory (and parents) if missing.
    CreateDirectory,
    /// Compare the first 12 bytes and overwrite fully on any mismatch.
    HeaderCompareAndPatch,
    /// Overwrite only when the entry's build number is strictly newer.
    VersionGatedReplace,
    /// Overwrite whenever the bytes differ at all.
    DiffAndOverwrite,
}

/// `p` with any trailing `/` bytes removed.
pub open spec fn strip_trailing_slashes(p: Seq<u8>) -> Seq<u8>
    decreases p.len(),
{
    if p.len() > 0 && p.last() == 47 {
        strip_trailing_slashes(p.drop_last())
    } else {
        p
    }
}

/// The suffix of `p` after its last `/`, or all of `p` if it has none.
pub open spec fn after_last_slash(p: Seq<u8>) -> Seq<u8>
    decreases p.len(),
{
    if p.len() == 0 {
        p
    } else if p.last() == 47 {
        Seq::empty()
    } else {
        after_last_slash(p.drop_last()).push(p.last())
    }
}

/// The final component of a path, the way the filesystem sees it:
/// trailing slashes are ignored, then everything after the last slash.
pub open spec fn spec_file_name(p: Seq<u8>) -> Seq<u8> {
    after_last_slash(strip_trailing_slashes(p))
}

/// True when the file name is `.` or `..`, which name no file of their own.
pub open spec fn is_dot_name(n: Seq<u8>) -> bool {
    n =~= seq![46u8] || n =~= seq![46u8, 46u8]
}

/// The suffix of `n` after its last `.`, or all of `n` if it has none.
pub open spec fn after_last_dot(n: Seq<u8>) -> Seq<u8>
    decreases n.len(),
{
    if n.len() == 0 {
        n
    } else if n.last() == 46 {
        Seq::empty()
    } else {
        after_last_dot(n.drop_last()).push(n.last())
    }
}

/// True when `n` has a `.` anywhere after its first byte.
pub open spec fn has_dot_after_first(n: Seq<u8>) -> bool {
    exists|i: int| 1 <= i < n.len() && #[trigger] n[i] == 46
}

/// The extension of a path: the part of its file name after the final
/// `.`, and nothing when the file name is empty, is `.` or `..`, has no
/// `.`, or starts with its only `.` (a hidden file).
pub open spec fn spec_extension(p: Seq<u8>) -> Option<Seq<u8>> {
    let n = spec_file_name(p);
    if n.len() == 0 || is_dot_name(n) || !has_dot_after_first(n) {
        None
    } else {
        Some(after_last_dot(n))
    }
}

/// True for the four extensions whose files carry a 12-byte header.
pub open spec fn is_header_ext(e: Seq<u8>) -> bool {
    ||| e =~= seq![111u8, 97u8, 98u8]  // oab
    ||| e =~= seq![111u8, 119u8, 98u8]  // owb
    ||| e =~= seq![111u8, 116u8, 98u8]  // otb
    ||| e =~= seq![111u8, 111u8, 98u8]  // oob
}

/// True for the build-number-gated extension `xlb`.
pub open spec fn is_version_ext(e: Seq<u8>) -> bool {
    e =~= seq![120u8, 108u8, 98u8]
}

/// The merge policy an entry path falls under; it depends on the
/// extension alone.
pub open spec fn policy_for(p: Seq<u8>) -> Policy {
    match spec_extension(p) {
        Option::None => Policy::CreateDirectory,
        Option::Some(e) => if is_header_ext(e) {
            Policy::HeaderCompareAndPatch
        } else if is_version_ext(e) {
            Policy::VersionGatedReplace
        } else {
            Policy::DiffAndOverwrite
        },
    }
}

/// Past the end of the run of trailing slashes, the spec strip is the prefix.
proof fn lemma_strip_prefix(p: Seq<u8>, e: int)
    requires
        0 <= e <= p.len(),
        e == 0 || p[e - 1] != 47,
        forall|j: int| e <= j < p.len() ==> p[j] == 47,
    ensures
        strip_trailing_slashes(p) =~= p.subrange(0, e),
    decreases p.len(),
{
    if p.len() == 0 {
    } else if p.last() == 47 {
        assert(e < p.len());
        lemma_strip_prefix(p.drop_last(), e);
    } else {
        assert(e == p.len());
    }
}

/// Inside a slash-free suffix that starts at a slash boundary, the part
/// after the last slash is exactly that suffix.
proof fn lemma_after_last_slash(p: Seq<u8>, s: int)
    requires
        0 <= s <= p.len(),
        s == 0 || p[s - 1] == 47,
        forall|j: int| s <= j < p.len() ==> p[j] != 47,
    ensures
        after_last_slash(p) =~= p.subrange(s, p.len() as int),
    decreases p.len(),
{
    if p.len() == 0 {
    } else if p.last() == 47 {
        assert(s == p.len());
    } else {
        if s == p.len() {
            assert(p[s - 1] == p.last());
            assert(false);
        }
        lemma_after_last_slash(p.drop_last(), s);
        assert(p.subrange(s, p.len() as int) =~= p.drop_last().subrange(
            s,
            p.drop_last().len() as int,
        ).push(p.last()));
    }
}

/// Same shape as `lemma_after_last_slash`, for the last dot of a file name.
proof fn lemma_after_last_dot(n: Seq<u8>, d: int)
    requires
        0 <= d <= n.len(),
        d == 0 || n[d - 1] == 46,
        forall|j: int| d <= j < n.len() ==> n[j] != 46,
    ensures
        after_last_dot(n) =~= n.subrange(d, n.len() as int),
    decreases n.len(),
{
    if n.len() == 0 {
    } else if n.last() == 46 {
        assert(d == n.len());
    } else {
        if d == n.len() {
            assert(n[d - 1] == n.last());
            assert(false);
        }
        lemma_after_last_dot(n.drop_last(), d);
        assert(n.subrange(d, n.len() as int) =~= n.drop_last().subrange(
            d,
            n.drop_last().len() as int,
        ).push(n.last()));
    }
}

/// Classifies a path under its merge policy.
pub fn entry_policy(path: &Vec<u8>) -> (r: Policy)
    ensures
        r == policy_for(path@),
{
    // Ignore trailing slashes.
    let mut e: usize = path.len();
    while e > 0 && path[e - 1] == 47
        invariant
            e <= path@.len(),
            forall|j: int| e <= j < path@.len() ==> path@[j] == 47,
        decreases e,
    {
        e = e - 1;
    }
    proof {
        lemma_strip_prefix(path@, e as int);
    }
    // Find the start of the file name.
    let mut s: usize = e;
    while s > 0 && path[s - 1] != 47
        invariant
            s <= e <= path@.len(),
            forall|j: int| s <= j < e ==> path@[j] != 47,
        decreases s,
    {
        s = s - 1;
    }
    let ghost stripped = path@.subrange(0, e as int);
    proof {
        assert(forall|j: int| s <= j < stripped.len() ==> stripped[j] != 47);
        if s > 0 {
            assert(stripped[s - 1] == 47);
        }
        lemma_after_last_slash(stripped, s as int);
        assert(spec_file_name(path@) =~= path@.subrange(s as int, e as int));
    }
    let ghost name = spec_file_name(path@);
    // Empty names and the dot names carry no extension.
    if s == e {
        return Policy::CreateDirectory;
    }
    if e - s == 1 && path[s] == 46 {
        proof {
            assert(is_dot_name(name));
        }
        return Policy::CreateDirectory;
    }
    if e - s == 2 && path[s] == 46 && path[s + 1] == 46 {
        proof {
            assert(is_dot_name(name));
        }
        return Policy::CreateDirectory;
    }
    proof {
        assert(!is_dot_name(name)) by {
            assert(name == path@.subrange(s as int, e as int));
            if name =~= seq![46u8] {
                assert(name.len() == 1);
                assert(name[0] == 46);
                assert(path@[s as int] == name[0]);
            }
            if name =~= seq![46u8, 46u8] {
                assert(name[0] == 46 && name[1] == 46);
                assert(path@[s as int] == 46 && path@[s + 1] == 46);
            }
        }
    }
    // Find the last dot of the file name.
    let mut d: usize = e;
    while d > s && path[d - 1] != 46
        invariant
            s <= d <= e <= path@.len(),
            forall|j: int| d <= j < e ==> path@[j] != 46,
        decreases d,
    {
        d = d - 1;
    }
    if d <= s + 1 {
        // No dot at all, or only a leading one: a hidden file has no extension.
        if d == s {
            proof {
                assert(forall|i: int| 1 <= i < name.len() ==> name[i] != 46);
                assert(!has_dot_after_first(name));
            }
        } else {
            proof {
                assert(path@[s as int] == 46);
                assert(forall|i: int| 1 <= i < name.len() ==> name[i] != 46);
                assert(!has_dot_after_first(name));
            }
        }
        return Policy::CreateDirectory;
    }
    proof {
        assert(path@[d - 1] == 46);
        assert(name[d - 1 - s] == 46);
        assert(has_dot_after_first(name));
        lemma_after_last_dot(name, d as int - s as int);
        assert(spec_extension(path@) == Some(path@.subrange(d as int, e as int)));
    }
    // Three-byte extensions pick the two special policies.
    if e - d == 3 {
        let c0 = path[d];
        let c1 = path[d + 1];
        let c2 = path[d + 2];
        let ghost ext = path@.subrange(d as int, e as int);
        proof {
            assert(ext.len() == 3);
            assert(ext[0] == c0 && ext[1] == c1 && ext[2] == c2);
        }
        if c0 == 111 && c2 == 98 && (c1 == 97 || c1 == 119 || c1 == 116 || c1 == 111) {
            return Policy::HeaderCompareAndPatch;
        }
        if c0 == 120 && c1 == 108 && c2 == 98 {
            return Policy::VersionGatedReplace;
        }
        proof {
            assert(!is_header_ext(ext));
            assert(!is_version_ext(ext));
        }
        return Policy::DiffAndOverwrite;
    }
    proof {
        let ext = path@.subrange(d as int, e as int);
        assert(ext.len() != 3);
        assert(!is_header_ext(ext));
        assert(!is_version_ext(ext));
    }
    Policy::DiffAndOverwrite
}

} // verus!
