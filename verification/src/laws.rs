//! Laws of the sync engine.
//!
//! The central one: a run is idempotent. Once a run has completed
//! successfully, running the same archive against the resulting volume
//! changes nothing — every policy's skip condition (or rewrite of the
//! same bytes) reproduces the same volume. The proof projects a run
//! onto each path: processing touches a path's file only through the
//! entries that name that path, so idempotence reduces to idempotence
//! of the per-path fold, shown per policy.
//!
//! Alongside it stand the per-policy laws: what each merge policy
//! decides and what that decision does to the volume.

use vstd::prelude::*;

use crate::engine::apply_model;
use crate::engine::run_entries;
use crate::engine::spec_decide;
use crate::engine::target_of;
use crate::engine::Action;
use crate::engine::EntryModel;
use crate::engine::SyncError;
use crate::engine::VolumeModel;
use crate::num::parse_build;
use crate::policy::policy_for;
use crate::policy::Policy;
use crate::sync::sync_model;

verus! {

/// What one entry does to the file at its own path, when its decision
/// succeeds: the entry's bytes on a write, the old bytes otherwise.
pub open spec fn step_file(
    t: Option<Seq<u8>>,
    e: EntryModel,
    sw: Option<Seq<u8>>,
) -> Option<Seq<u8>> {
    match spec_decide(e, t, sw) {
        Result::Ok(Action::WriteFile) => Some(e.content),
        _ => t,
    }
}

/// The file left at a path after a list of entries has stepped over it.
pub open spec fn fold_path(
    t: Option<Seq<u8>>,
    es: Seq<EntryModel>,
    sw: Option<Seq<u8>>,
) -> Option<Seq<u8>>
    decreases es.len(),
{
    if es.len() == 0 {
        t
    } else {
        fold_path(step_file(t, es[0], sw), es.skip(1), sw)
    }
}

/// The entries of `es` whose path is `p`, in order.
pub open spec fn entries_at(es: Seq<EntryModel>, p: Seq<u8>) -> Seq<EntryModel>
    decreases es.len(),
{
    if es.len() == 0 {
        es
    } else if es[0].path == p {
        seq![es[0]] + entries_at(es.skip(1), p)
    } else {
        entries_at(es.skip(1), p)
    }
}

/// The directories a list of entries creates.
pub open spec fn dir_paths(es: Seq<EntryModel>) -> Set<Seq<u8>>
    decreases es.len(),
{
    if es.len() == 0 {
        Set::empty()
    } else if policy_for(es[0].path) is CreateDirectory {
        dir_paths(es.skip(1)).insert(es[0].path)
    } else {
        dir_paths(es.skip(1))
    }
}

/// True when an entry's decision cannot fail, whatever the volume
/// holds: header entries carry their full 12-byte header, and
/// version-gated entries carry 36 bytes and two parseable build numbers.
pub open spec fn entry_ok(e: EntryModel, sw: Option<Seq<u8>>) -> bool {
    match policy_for(e.path) {
        Policy::HeaderCompareAndPatch => e.content.len() >= 12,
        Policy::VersionGatedReplace => {
            &&& e.content.len() >= 36
            &&& sw is Some
            &&& parse_build(sw.unwrap()) is Some
            &&& parse_build(e.content.subrange(24, 36)) is Some
        },
        _ => true,
    }
}

/// True when no entry of the list can fail.
pub open spec fn entries_ok(es: Seq<EntryModel>, sw: Option<Seq<u8>>) -> bool {
    forall|i: int| 0 <= i < es.len() ==> entry_ok(#[trigger] es[i], sw)
}

/// A decision on an `entry_ok` entry always succeeds.
proof fn lemma_decide_ok(e: EntryModel, t: Option<Seq<u8>>, sw: Option<Seq<u8>>)
    requires
        entry_ok(e, sw),
    ensures
        spec_decide(e, t, sw) is Ok,
{
}

/// Entry lists that cannot fail stay that way when the first entry is dropped.
proof fn lemma_entries_ok_skip(es: Seq<EntryModel>, sw: Option<Seq<u8>>)
    requires
        entries_ok(es, sw),
        es.len() > 0,
    ensures
        entries_ok(es.skip(1), sw),
{
    assert forall|i: int| 0 <= i < es.skip(1).len() implies entry_ok(#[trigger] es.skip(1)[i], sw) by {
        assert(es.skip(1)[i] == es[i + 1]);
    }
}

/// A run over entries that cannot fail succeeds.
pub proof fn lemma_run_ok(v: VolumeModel, es: Seq<EntryModel>, sw: Option<Seq<u8>>)
    requires
        entries_ok(es, sw),
    ensures
        run_entries(v, es, sw).result is Ok,
    decreases es.len(),
{
    if es.len() > 0 {
        lemma_decide_ok(es[0], target_of(v, es[0].path), sw);
        lemma_entries_ok_skip(es, sw);
        let a = spec_decide(es[0], target_of(v, es[0].path), sw).unwrap();
        lemma_run_ok(apply_model(v, es[0], a), es.skip(1), sw);
    }
}

/// Conversely, a successful run whose header entries carry their full
/// headers had no failing entry at all: version gating never depends on
/// the volume, so its success in one run is its success in any.
pub proof fn lemma_ok_run_entries_ok(v: VolumeModel, es: Seq<EntryModel>, sw: Option<Seq<u8>>)
    requires
        run_entries(v, es, sw).result is Ok,
        forall|i: int|
            0 <= i < es.len() ==> policy_for((#[trigger] es[i]).path) is HeaderCompareAndPatch
                ==> es[i].content.len() >= 12,
    ensures
        entries_ok(es, sw),
    decreases es.len(),
{
    if es.len() > 0 {
        let d = spec_decide(es[0], target_of(v, es[0].path), sw);
        assert(d is Ok);
        assert(entry_ok(es[0], sw));
        let a = d.unwrap();
        lemma_ok_run_entries_ok(apply_model(v, es[0], a), es.skip(1), sw);
        assert forall|i: int| 0 <= i < es.len() implies entry_ok(#[trigger] es[i], sw) by {
            if i > 0 {
                assert(es.skip(1)[i - 1] == es[i]);
                assert(entry_ok(es.skip(1)[i - 1], sw));
            }
        }
    }
}

/// Every entry `entries_at` selects has the selected path, and they all
/// still cannot fail.
proof fn lemma_entries_at_props(es: Seq<EntryModel>, p: Seq<u8>, sw: Option<Seq<u8>>)
    requires
        entries_ok(es, sw),
    ensures
        forall|j: int|
            0 <= j < entries_at(es, p).len() ==> (#[trigger] entries_at(es, p)[j]).path == p,
        entries_ok(entries_at(es, p), sw),
    decreases es.len(),
{
    if es.len() > 0 {
        lemma_entries_ok_skip(es, sw);
        lemma_entries_at_props(es.skip(1), p, sw);
    }
}

/// A run touches the file at `p` exactly through the entries that name
/// `p`: the projection of a whole run onto one path.
pub proof fn lemma_run_files_at(
    v: VolumeModel,
    es: Seq<EntryModel>,
    sw: Option<Seq<u8>>,
    p: Seq<u8>,
)
    requires
        entries_ok(es, sw),
    ensures
        target_of(run_entries(v, es, sw).volume, p) == fold_path(
            target_of(v, p),
            entries_at(es, p),
            sw,
        ),
    decreases es.len(),
{
    if es.len() > 0 {
        lemma_decide_ok(es[0], target_of(v, es[0].path), sw);
        lemma_entries_ok_skip(es, sw);
        let a = spec_decide(es[0], target_of(v, es[0].path), sw).unwrap();
        let v2 = apply_model(v, es[0], a);
        lemma_run_files_at(v2, es.skip(1), sw, p);
        if es[0].path == p {
            let sel = entries_at(es, p);
            assert(sel == seq![es[0]] + entries_at(es.skip(1), p));
            assert(sel[0] == es[0]);
            assert(sel.skip(1) =~= entries_at(es.skip(1), p));
            assert(target_of(v2, p) == step_file(target_of(v, p), es[0], sw));
        } else {
            assert(target_of(v2, p) == target_of(v, p));
        }
    }
}

/// A run's directories are the volume's plus those the entries create.
pub proof fn lemma_run_dirs(v: VolumeModel, es: Seq<EntryModel>, sw: Option<Seq<u8>>)
    requires
        entries_ok(es, sw),
    ensures
        run_entries(v, es, sw).volume.dirs =~= v.dirs.union(dir_paths(es)),
    decreases es.len(),
{
    if es.len() > 0 {
        lemma_decide_ok(es[0], target_of(v, es[0].path), sw);
        lemma_entries_ok_skip(es, sw);
        let a = spec_decide(es[0], target_of(v, es[0].path), sw).unwrap();
        let v2 = apply_model(v, es[0], a);
        lemma_run_dirs(v2, es.skip(1), sw);
    }
}

/// A fold of entries that all skip their file (directory entries) is
/// the identity on the file.
proof fn lemma_fold_dir(t: Option<Seq<u8>>, p: Seq<u8>, es: Seq<EntryModel>, sw: Option<Seq<u8>>)
    requires
        policy_for(p) is CreateDirectory,
        forall|j: int| 0 <= j < es.len() ==> (#[trigger] es[j]).path == p,
    ensures
        fold_path(t, es, sw) == t,
    decreases es.len(),
{
    if es.len() > 0 {
        lemma_fold_dir(t, p, es.skip(1), sw);
    }
}

/// A fold of plain-overwrite entries ends at the last entry's bytes.
proof fn lemma_fold_diff(t: Option<Seq<u8>>, p: Seq<u8>, es: Seq<EntryModel>, sw: Option<Seq<u8>>)
    requires
        policy_for(p) is DiffAndOverwrite,
        forall|j: int| 0 <= j < es.len() ==> (#[trigger] es[j]).path == p,
        es.len() > 0,
    ensures
        fold_path(t, es, sw) == Some(es.last().content),
    decreases es.len(),
{
    if es.len() == 1 {
    } else {
        lemma_fold_diff(step_file(t, es[0], sw), p, es.skip(1), sw);
        assert(es.skip(1).last() == es.last());
    }
}

/// Version-gated steps never read the file, so refolding reproduces the
/// same result.
proof fn lemma_fold_idem_version(
    t: Option<Seq<u8>>,
    p: Seq<u8>,
    es: Seq<EntryModel>,
    sw: Option<Seq<u8>>,
)
    requires
        policy_for(p) is VersionGatedReplace,
        forall|j: int| 0 <= j < es.len() ==> (#[trigger] es[j]).path == p,
        entries_ok(es, sw),
    ensures
        fold_path(fold_path(t, es, sw), es, sw) == fold_path(t, es, sw),
    decreases es.len(),
{
    if es.len() > 0 {
        lemma_entries_ok_skip(es, sw);
        let e0 = es[0];
        let v = fold_path(t, es, sw);
        if step_file(t, e0, sw) == Some(e0.content) && spec_decide(e0, t, sw)
            == Result::<Action, SyncError>::Ok(Action::WriteFile) {
            // A newer build number admits the entry whatever file is present.
            assert(spec_decide(e0, v, sw) == Result::<Action, SyncError>::Ok(Action::WriteFile));
            assert(step_file(v, e0, sw) == Some(e0.content));
            assert(fold_path(v, es, sw) == fold_path(Some(e0.content), es.skip(1), sw));
        } else {
            assert(step_file(t, e0, sw) == t);
            assert(step_file(v, e0, sw) == v);
            lemma_fold_idem_version(t, p, es.skip(1), sw);
        }
    }
}

/// After at least one header-policy step the file is present, carries
/// at least 12 bytes, and its header is the last entry's.
proof fn lemma_fold_header_shape(
    t: Option<Seq<u8>>,
    p: Seq<u8>,
    es: Seq<EntryModel>,
    sw: Option<Seq<u8>>,
)
    requires
        policy_for(p) is HeaderCompareAndPatch,
        forall|j: int| 0 <= j < es.len() ==> (#[trigger] es[j]).path == p,
        entries_ok(es, sw),
        es.len() > 0,
    ensures
        fold_path(t, es, sw) is Some,
        fold_path(t, es, sw).unwrap().len() >= 12,
        fold_path(t, es, sw).unwrap().subrange(0, 12) == es.last().content.subrange(0, 12),
    decreases es.len(),
{
    lemma_entries_ok_skip(es, sw);
    let w = step_file(t, es[0], sw);
    assert(w is Some && w.unwrap().len() >= 12 && w.unwrap().subrange(0, 12) == es[0].content
        .subrange(0, 12));
    if es.len() > 1 {
        lemma_fold_header_shape(w, p, es.skip(1), sw);
        assert(es.skip(1).last() == es.last());
    } else {
        assert(es.skip(1).len() == 0);
        assert(fold_path(w, es.skip(1), sw) == w);
        assert(fold_path(t, es, sw) == w);
        assert(es.last() == es[0]);
    }
}

/// Two files with equal headers are driven to the same place by a list
/// of header-policy entries — unless every entry skips over both, which
/// leaves each unchanged.
proof fn lemma_fold_header_pair(
    u: Option<Seq<u8>>,
    x: Option<Seq<u8>>,
    p: Seq<u8>,
    es: Seq<EntryModel>,
    sw: Option<Seq<u8>>,
)
    requires
        policy_for(p) is HeaderCompareAndPatch,
        forall|j: int| 0 <= j < es.len() ==> (#[trigger] es[j]).path == p,
        entries_ok(es, sw),
        u is Some && u.unwrap().len() >= 12,
        x is Some && x.unwrap().len() >= 12,
        u.unwrap().subrange(0, 12) == x.unwrap().subrange(0, 12),
    ensures
        fold_path(u, es, sw) == fold_path(x, es, sw) || (fold_path(u, es, sw) == u && fold_path(
            x,
            es,
            sw,
        ) == x),
    decreases es.len(),
{
    if es.len() > 0 {
        lemma_entries_ok_skip(es, sw);
        let e0 = es[0];
        if e0.content.subrange(0, 12) == u.unwrap().subrange(0, 12) {
            // Both skip.
            assert(step_file(u, e0, sw) == u);
            assert(step_file(x, e0, sw) == x);
            lemma_fold_header_pair(u, x, p, es.skip(1), sw);
        } else {
            // Both are overwritten with the entry, and stay together.
            assert(step_file(u, e0, sw) == Some(e0.content));
            assert(step_file(x, e0, sw) == Some(e0.content));
        }
    }
}

/// Refolding header-policy entries over their own result changes nothing.
proof fn lemma_fold_idem_header(
    t: Option<Seq<u8>>,
    p: Seq<u8>,
    es: Seq<EntryModel>,
    sw: Option<Seq<u8>>,
)
    requires
        policy_for(p) is HeaderCompareAndPatch,
        forall|j: int| 0 <= j < es.len() ==> (#[trigger] es[j]).path == p,
        entries_ok(es, sw),
    ensures
        fold_path(fold_path(t, es, sw), es, sw) == fold_path(t, es, sw),
    decreases es.len(),
{
    if es.len() > 0 {
        lemma_entries_ok_skip(es, sw);
        let e0 = es[0];
        let t1 = step_file(t, e0, sw);
        let v = fold_path(t, es, sw);
        assert(v == fold_path(t1, es.skip(1), sw));
        lemma_fold_header_shape(t, p, es, sw);
        let vv = v.unwrap();
        if e0.content.subrange(0, 12) == vv.subrange(0, 12) {
            // The first entry skips over the result.
            assert(step_file(v, e0, sw) == v);
            lemma_fold_idem_header(t1, p, es.skip(1), sw);
        } else {
            // The first entry would rewrite the result; later entries
            // bring it back to the same place.
            assert(step_file(v, e0, sw) == Some(e0.content));
            if t1 == Some(e0.content) {
                assert(fold_path(v, es, sw) == fold_path(t1, es.skip(1), sw));
            } else {
                // The first step skipped in the first fold: the old
                // file's header already matched the entry's.
                assert(t1 == t);
                assert(t is Some && t.unwrap().len() >= 12 && t.unwrap().subrange(0, 12)
                    == e0.content.subrange(0, 12));
                lemma_fold_header_pair(Some(e0.content), t, p, es.skip(1), sw);
                if fold_path(Some(e0.content), es.skip(1), sw) == fold_path(t, es.skip(1), sw) {
                    assert(fold_path(v, es, sw) == v);
                } else {
                    // Both suffix folds are the identity: then the
                    // result's header is the old file's, equal to the
                    // entry's — against the case assumption.
                    assert(fold_path(t, es.skip(1), sw) == t);
                    assert(v == t);
                    assert(false);
                }
            }
        }
    }
}

/// Refolding any one path's entries over their own result changes nothing.
proof fn lemma_fold_idem(t: Option<Seq<u8>>, p: Seq<u8>, es: Seq<EntryModel>, sw: Option<Seq<u8>>)
    requires
        forall|j: int| 0 <= j < es.len() ==> (#[trigger] es[j]).path == p,
        entries_ok(es, sw),
    ensures
        fold_path(fold_path(t, es, sw), es, sw) == fold_path(t, es, sw),
{
    match policy_for(p) {
        Policy::CreateDirectory => {
            lemma_fold_dir(t, p, es, sw);
            lemma_fold_dir(fold_path(t, es, sw), p, es, sw);
        },
        Policy::HeaderCompareAndPatch => {
            lemma_fold_idem_header(t, p, es, sw);
        },
        Policy::VersionGatedReplace => {
            lemma_fold_idem_version(t, p, es, sw);
        },
        Policy::DiffAndOverwrite => {
            if es.len() > 0 {
                lemma_fold_diff(t, p, es, sw);
                lemma_fold_diff(fold_path(t, es, sw), p, es, sw);
            }
        },
    }
}

/// Idempotence of a whole run. A successful run, none of whose
/// header-policy entries is shorter than its own 12-byte header, is a
/// fixpoint: running the same archive again over the volume it left
/// succeeds, emits the same number of events, and changes nothing.
///
/// (A header-policy entry shorter than 12 bytes can be written by a
/// first run and then make a second run fail while reading it back, so
/// such entries are excluded.)
pub proof fn lemma_sync_idempotent(v: VolumeModel, es: Seq<EntryModel>, sw: Option<Seq<u8>>)
    requires
        sync_model(v, es, sw).result is Ok,
        forall|i: int|
            0 <= i < es.len() ==> policy_for((#[trigger] es[i]).path) is HeaderCompareAndPatch
                ==> es[i].content.len() >= 12,
    ensures
        sync_model(sync_model(v, es, sw).volume, es, sw).result is Ok,
        sync_model(sync_model(v, es, sw).volume, es, sw).volume == sync_model(v, es, sw).volume,
        sync_model(sync_model(v, es, sw).volume, es, sw).processed == sync_model(
            v,
            es,
            sw,
        ).processed,
{
    let v1 = sync_model(v, es, sw).volume;
    if es.len() == 1 {
        let v2 = sync_model(v1, es, sw).volume;
        assert(v2.files =~= v1.files);
        assert(v2 == v1);
    } else {
        lemma_ok_run_entries_ok(v, es, sw);
        lemma_run_ok(v1, es, sw);
        let v2 = sync_model(v1, es, sw).volume;
        assert forall|p: Seq<u8>| #[trigger]
            target_of(v2, p) == target_of(v1, p) by {
            lemma_run_files_at(v, es, sw, p);
            lemma_run_files_at(v1, es, sw, p);
            lemma_entries_at_props(es, p, sw);
            lemma_fold_idem(target_of(v, p), p, entries_at(es, p), sw);
        }
        assert(v2.files =~= v1.files) by {
            assert forall|p: Seq<u8>| v2.files.dom().contains(p) <==> v1.files.dom().contains(
                p,
            ) by {
                assert(target_of(v2, p) == target_of(v1, p));
            }
            assert forall|p: Seq<u8>| v1.files.dom().contains(p) implies v2.files[p] == v1.files[p] by {
                assert(target_of(v2, p) == target_of(v1, p));
            }
        }
        assert(v2.dirs =~= v1.dirs) by {
            lemma_run_dirs(v, es, sw);
            lemma_run_dirs(v1, es, sw);
        }
        assert(v2 == v1);
        crate::engine::lemma_run_processed(v, es, sw);
        crate::engine::lemma_run_processed(v1, es, sw);
    }
}

/// HeaderCompareAndPatch on a missing target, or one shorter than 12
/// bytes: the entry is written verbatim, whatever the headers hold.
pub proof fn lemma_header_short_target(
    v: VolumeModel,
    e: EntryModel,
    t: Option<Seq<u8>>,
    sw: Option<Seq<u8>>,
)
    requires
        policy_for(e.path) is HeaderCompareAndPatch,
        t is None || t.unwrap().len() < 12,
    ensures
        spec_decide(e, t, sw) == Result::<Action, SyncError>::Ok(Action::WriteFile),
        target_of(apply_model(v, e, Action::WriteFile), e.path) == Some(e.content),
{
}

/// HeaderCompareAndPatch on a full-sized target: equal 12-byte headers
/// skip and leave the volume as it was; unequal headers rewrite the
/// file with the entry's bytes — its header followed by its remainder.
pub proof fn lemma_header_compare(
    v: VolumeModel,
    e: EntryModel,
    t: Seq<u8>,
    sw: Option<Seq<u8>>,
)
    requires
        policy_for(e.path) is HeaderCompareAndPatch,
        t.len() >= 12,
        e.content.len() >= 12,
    ensures
        t.subrange(0, 12) == e.content.subrange(0, 12) ==> spec_decide(e, Some(t), sw)
            == Result::<Action, SyncError>::Ok(Action::Skip) && apply_model(v, e, Action::Skip)
            == v,
        t.subrange(0, 12) != e.content.subrange(0, 12) ==> spec_decide(e, Some(t), sw)
            == Result::<Action, SyncError>::Ok(Action::WriteFile) && target_of(
            apply_model(v, e, Action::WriteFile),
            e.path,
        ) == Some(e.content) && e.content == e.content.subrange(0, 12) + e.content.subrange(
            12,
            e.content.len() as int,
        ),
{
    assert(e.content =~= e.content.subrange(0, 12) + e.content.subrange(
        12,
        e.content.len() as int,
    ));
}

/// VersionGatedReplace: a strictly newer build number rewrites the file
/// with the entry's bytes — its 36-byte prefix followed by the rest; an
/// equal or older one leaves the volume untouched; and a build number
/// that does not parse, on either side, fails the run with a parse
/// error before anything is written.
pub proof fn lemma_version_gate(
    v: VolumeModel,
    e: EntryModel,
    t: Option<Seq<u8>>,
    sw: Seq<u8>,
)
    requires
        policy_for(e.path) is VersionGatedReplace,
        e.content.len() >= 36,
    ensures
        parse_build(sw) is Some && parse_build(e.content.subrange(24, 36)) is Some ==> {
            let dev = parse_build(sw).unwrap();
            let new = parse_build(e.content.subrange(24, 36)).unwrap();
            &&& new > dev ==> spec_decide(e, t, Some(sw)) == Result::<Action, SyncError>::Ok(
                Action::WriteFile,
            ) && target_of(apply_model(v, e, Action::WriteFile), e.path) == Some(e.content)
                && e.content == e.content.subrange(0, 36) + e.content.subrange(
                36,
                e.content.len() as int,
            )
            &&& new <= dev ==> spec_decide(e, t, Some(sw)) == Result::<Action, SyncError>::Ok(
                Action::Skip,
            ) && apply_model(v, e, Action::Skip) == v
        },
        parse_build(sw) is None ==> spec_decide(e, t, Some(sw)) == Result::<Action, SyncError>::Err(
            SyncError::ParseDeviceBuild,
        ) && run_entries(v, seq![e], Some(sw)).volume == v,
        parse_build(sw) is Some && parse_build(e.content.subrange(24, 36)) is None ==> spec_decide(
            e,
            t,
            Some(sw),
        ) == Result::<Action, SyncError>::Err(SyncError::ParseNewBuild) && run_entries(
            v,
            seq![e],
            Some(sw),
        ).volume == v,
{
    assert(e.content =~= e.content.subrange(0, 36) + e.content.subrange(
        36,
        e.content.len() as int,
    ));
    assert(seq![e][0] == e);
}

/// DiffAndOverwrite: byte-identical entry and target skip and leave the
/// volume as it was; any difference (or a missing target) rewrites the
/// file to exactly the entry's bytes.
pub proof fn lemma_diff_overwrite(
    v: VolumeModel,
    e: EntryModel,
    t: Option<Seq<u8>>,
    sw: Option<Seq<u8>>,
)
    requires
        policy_for(e.path) is DiffAndOverwrite,
    ensures
        t == Some(e.content) ==> spec_decide(e, t, sw) == Result::<Action, SyncError>::Ok(
            Action::Skip,
        ) && apply_model(v, e, Action::Skip) == v,
        t != Some(e.content) ==> spec_decide(e, t, sw) == Result::<Action, SyncError>::Ok(
            Action::WriteFile,
        ) && target_of(apply_model(v, e, Action::WriteFile), e.path) == Some(e.content),
{
}

/// CreateDirectory: an extension-less entry only ever creates its
/// directory — no file changes — and creating a directory that already
/// exists changes nothing at all.
pub proof fn lemma_create_directory(
    v: VolumeModel,
    e: EntryModel,
    t: Option<Seq<u8>>,
    sw: Option<Seq<u8>>,
)
    requires
        policy_for(e.path) is CreateDirectory,
    ensures
        spec_decide(e, t, sw) == Result::<Action, SyncError>::Ok(Action::MakeDir),
        apply_model(v, e, Action::MakeDir).files == v.files,
        apply_model(v, e, Action::MakeDir).dirs == v.dirs.insert(e.path),
        v.dirs.contains(e.path) ==> apply_model(v, e, Action::MakeDir).dirs == v.dirs,
{
    if v.dirs.contains(e.path) {
        assert(v.dirs.insert(e.path) =~= v.dirs);
    }
}

} // verus!
