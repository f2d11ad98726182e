//! One whole update run.
//!
//! The parsed archive entries are merged onto the volume in archive
//! order, one progress event per processed entry. An archive of exactly
//! one entry is handed to the single-file extraction path instead: the
//! entry is always written, and progress is reported per chunk as a
//! percentage, with the total-files field fixed at the sentinel 100.

use vstd::prelude::*;

use crate::engine::apply_model;
use crate::engine::clone_bytes;
use crate::engine::decide_entry;
use crate::engine::opt_bytes_view;
use crate::engine::opt_sw_view;
use crate::engine::run_entries;
use crate::engine::target_of;
use crate::engine::views_of;
use crate::engine::Action;
use crate::engine::EntryModel;
use crate::engine::SyncError;
use crate::engine::SyncRun;
use crate::engine::TarEntry;
use crate::engine::Volume;
use crate::engine::VolumeModel;
use crate::extract::extract_single_file;
use crate::extract::n_chunks;
use crate::extract::spec_percents;

verus! {

/// One progress report: byte counters echo the download, file counters
/// describe this run, and `current_file` names the entry just finished
/// (empty on the single-file path).
#[derive(Clone, Debug)]
pub struct UpdateProgress {
    pub url: String,
    pub total_bytes: u64,
    pub downloaded: u64,
    pub current_file: Vec<u8>,
    pub processed_files: u16,
    pub total_files: u16,
}

/// A whole run, as mathematics: the single-entry archive goes through
/// the extraction path (an unconditional write, chunk-count progress),
/// anything else through entry-by-entry processing.
pub open spec fn sync_model(v: VolumeModel, es: Seq<EntryModel>, sw: Option<Seq<u8>>) -> SyncRun {
    if es.len() == 1 {
        SyncRun {
            volume: VolumeModel { files: v.files.insert(es[0].path, es[0].content), dirs: v.dirs },
            result: Ok(()),
            processed: n_chunks(es[0].content.len() as int),
        }
    } else {
        run_entries(v, es, sw)
    }
}

/// Merges every archive entry onto the volume and returns the outcome
/// of the run together with the progress events it emitted, in order:
/// processed-file counts rise by exactly one per event, against a fixed
/// total, and a successful multi-entry run emits one event per entry.
#[verifier::loop_isolation(false)]
pub fn sync_archive(
    volume: &mut Volume,
    entries: &Vec<TarEntry>,
    device_sw: Option<&String>,
    url: &String,
    total_bytes: u64,
) -> (r: (Result<(), SyncError>, Vec<UpdateProgress>))
    requires
        entries@.len() <= u16::MAX,
        entries@.len() == 1 ==> entries@[0]@.content.len() * 100 <= u64::MAX,
    ensures
        ({
            let run = sync_model(old(volume)@, views_of(entries@), opt_sw_view(device_sw));
            &&& final(volume)@ == run.volume
            &&& r.0 == run.result
            &&& r.1@.len() == run.processed
            &&& (entries@.len() != 1 && r.0 is Ok) ==> r.1@.len() == entries@.len()
            &&& forall|i: int|
                0 <= i < r.1@.len() ==> {
                    let ev = #[trigger] r.1@[i];
                    &&& ev.url@ == url@
                    &&& ev.total_bytes == total_bytes
                    &&& ev.downloaded == total_bytes
                    &&& if entries@.len() == 1 {
                        &&& ev.total_files == 100
                        &&& ev.processed_files == spec_percents(
                            entries@[0]@.content.len() as int,
                        )[i]
                        &&& ev.current_file@ == Seq::<u8>::empty()
                    } else {
                        &&& ev.total_files as int == entries@.len() as int
                        &&& ev.processed_files as int == i + 1
                        &&& ev.current_file@ == entries@[i]@.path
                    }
                }
        }),
{
    let ghost views = views_of(entries@);
    let ghost sw = opt_sw_view(device_sw);
    let ghost v0 = volume@;
    let mut events: Vec<UpdateProgress> = Vec::new();
    if entries.len() == 1 {
        let entry = &entries[0];
        proof {
            assert(views[0] == entry@);
        }
        let percents = extract_single_file(volume, entry);
        let mut k: usize = 0;
        let n = percents.len();
        while k < n
            invariant
                k <= n == percents@.len(),
                events@.len() == k,
                forall|i: int|
                    0 <= i < k ==> {
                        let ev = #[trigger] events@[i];
                        &&& ev.url@ == url@
                        &&& ev.total_bytes == total_bytes
                        &&& ev.downloaded == total_bytes
                        &&& ev.total_files == 100
                        &&& ev.processed_files == percents@[i]
                        &&& ev.current_file@ == Seq::<u8>::empty()
                    },
            decreases n - k,
        {
            let ev = UpdateProgress {
                url: url.clone(),
                total_bytes,
                downloaded: total_bytes,
                current_file: Vec::new(),
                processed_files: percents[k],
                total_files: 100,
            };
            events.push(ev);
            k = k + 1;
        }
        return (Ok(()), events);
    }
    let count: u16 = entries.len() as u16;
    let n = entries.len();
    let mut i: usize = 0;
    proof {
        assert(views.skip(0) =~= views);
    }
    while i < n
        invariant
            i <= n,
            events@.len() == i,
            run_entries(v0, views, sw).volume == run_entries(
                volume@,
                views.skip(i as int),
                sw,
            ).volume,
            run_entries(v0, views, sw).result == run_entries(
                volume@,
                views.skip(i as int),
                sw,
            ).result,
            run_entries(v0, views, sw).processed == i + run_entries(
                volume@,
                views.skip(i as int),
                sw,
            ).processed,
            forall|j: int|
                0 <= j < i ==> {
                    let ev = #[trigger] events@[j];
                    &&& ev.url@ == url@
                    &&& ev.total_bytes == total_bytes
                    &&& ev.downloaded == total_bytes
                    &&& ev.total_files as int == entries@.len() as int
                    &&& ev.processed_files as int == j + 1
                    &&& ev.current_file@ == entries@[j]@.path
                },
        decreases n - i,
    {
        let entry = &entries[i];
        let ghost rem = views.skip(i as int);
        proof {
            assert(rem[0] == entry@);
            assert(rem.skip(1) =~= views.skip(i as int + 1));
        }
        let ghost vcur = volume@;
        let target = volume.get_file(&entry.path);
        let decision = decide_entry(entry, target, device_sw);
        proof {
            assert(opt_bytes_view(target) == target_of(vcur, rem[0].path));
        }
        match decision {
            Result::Err(e) => {
                proof {
                    assert(run_entries(vcur, rem, sw).result == Err::<(), SyncError>(e));
                    assert(run_entries(vcur, rem, sw).processed == 0);
                    assert(run_entries(vcur, rem, sw).volume == vcur);
                }
                return (Err(e), events);
            },
            Result::Ok(a) => {
                match a {
                    Action::WriteFile => {
                        let p = clone_bytes(&entry.path);
                        let c = clone_bytes(&entry.content);
                        volume.write_file(p, c);
                    },
                    Action::MakeDir => {
                        let p = clone_bytes(&entry.path);
                        volume.make_dir(p);
                    },
                    Action::Skip => {},
                }
                proof {
                    assert(volume@ == apply_model(vcur, rem[0], a));
                    assert(run_entries(vcur, rem, sw).volume == run_entries(
                        volume@,
                        views.skip(i as int + 1),
                        sw,
                    ).volume);
                    assert(run_entries(vcur, rem, sw).processed == 1 + run_entries(
                        volume@,
                        views.skip(i as int + 1),
                        sw,
                    ).processed);
                }
                let ev = UpdateProgress {
                    url: url.clone(),
                    total_bytes,
                    downloaded: total_bytes,
                    current_file: clone_bytes(&entry.path),
                    processed_files: (i as u16) + 1,
                    total_files: count,
                };
                events.push(ev);
                i = i + 1;
            },
        }
    }
    proof {
        assert(views.skip(n as int) =~= Seq::<EntryModel>::empty());
    }
    (Ok(()), events)
}

} // verus!
