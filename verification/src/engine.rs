//! The sync engine's data model and per-entry merge decision.
//!
//! An archive entry is merged onto the target volume by first deciding,
//! from the entry, the target file's current bytes and the device's
//! version string, whether to write the entry's bytes, create a
//! directory, or leave the target alone — and then applying that action.
//! The volume is modelled as a map from paths to file contents together
//! with a set of directories, so a whole run is a fold of decisions over
//! the entry list.

use vstd::prelude::*;
use vstd::string::StringSliceAdditionalSpecFns;

use crate::num::parse_build;
use crate::num::parse_build_range;
use crate::num::parse_build_str;
use crate::policy::entry_policy;
use crate::policy::policy_for;
use crate::policy::Policy;

verus! {

/// Why a run stopped: the first unrecoverable condition met.
#[derive(Clone, Copy, Debug, PartialEq, Eq, Structural)]
pub enum SyncError {
    /// The archive bytes do not parse as a ustar archive.
    ArchiveRead,
    /// An entry is too short for the bytes its policy must read.
    EntryRead,
    /// The device's info could not be obtained for a version-gated entry.
    DeviceInfoUnavailable,
    /// The device's version string is not a base-10 build number.
    ParseDeviceBuild,
    /// The entry's embedded version bytes are not a base-10 build number.
    ParseNewBuild,
}

/// The error message each condition surfaces to the caller.
pub open spec fn message_of(e: SyncError) -> Seq<char> {
    match e {
        SyncError::ArchiveRead => "Failed to get entry"@,
        SyncError::EntryRead => "Failed to read file"@,
        SyncError::DeviceInfoUnavailable => "Failed to get device info"@,
        SyncError::ParseDeviceBuild => "Failed to parse device built number"@,
        SyncError::ParseNewBuild => "Failed to parse new built number"@,
    }
}

impl SyncError {
    /// A human-readable description of the failure.
    pub fn message(&self) -> (r: String)
        ensures
            r@ == message_of(*self),
    {
        match self {
            SyncError::ArchiveRead => "Failed to get entry".to_owned(),
            SyncError::EntryRead => "Failed to read file".to_owned(),
            SyncError::DeviceInfoUnavailable => "Failed to get device info".to_owned(),
            SyncError::ParseDeviceBuild => "Failed to parse device built number".to_owned(),
            SyncError::ParseNewBuild => "Failed to parse new built number".to_owned(),
        }
    }
}

/// One record of the archive: a relative path and the entry's bytes.
#[derive(Debug)]
pub struct TarEntry {
    pub path: Vec<u8>,
    pub content: Vec<u8>,
}

/// The mathematical shadow of an entry.
pub struct EntryModel {
    pub path: Seq<u8>,
    pub content: Seq<u8>,
}

impl View for TarEntry {
    type V = EntryModel;

    open spec fn view(&self) -> EntryModel {
        EntryModel { path: self.path@, content: self.content@ }
    }
}

/// The models of a list of entries, in order.
pub open spec fn views_of(s: Seq<TarEntry>) -> Seq<EntryModel> {
    Seq::new(s.len(), |i: int| s[i]@)
}

/// What the engine does to the volume for one entry.
#[derive(Clone, Copy, Debug, PartialEq, Eq, Structural)]
pub enum Action {
    /// Write the entry's bytes over the target path.
    WriteFile,
    /// Create the directory named by the entry (and its parents).
    MakeDir,
    /// Leave the target untouched.
    Skip,
}

/// The files and directories of the target volume, as mathematics:
/// file contents by path, and the set of directories.
pub struct VolumeModel {
    pub files: Map<Seq<u8>, Seq<u8>>,
    pub dirs: Set<Seq<u8>>,
}

/// The target file's bytes at `p`, if a file is there.
pub open spec fn target_of(v: VolumeModel, p: Seq<u8>) -> Option<Seq<u8>> {
    if v.files.dom().contains(p) {
        Some(v.files[p])
    } else {
        None
    }
}

/// The merge decision for one entry: directories are always created;
/// header files are written
/// unless target and entry agree on their first 12 bytes; `xlb` files
/// are written only for a strictly newer build number; all other files
/// are written whenever their bytes differ from the target's.
pub open spec fn spec_decide(
    e: EntryModel,
    target: Option<Seq<u8>>,
    sw: Option<Seq<u8>>,
) -> Result<Action, SyncError> {
    match policy_for(e.path) {
        Policy::CreateDirectory => Ok(Action::MakeDir),
        Policy::HeaderCompareAndPatch => match target {
            Option::None => Ok(Action::WriteFile),
            Option::Some(t) => if t.len() < 12 {
                Ok(Action::WriteFile)
            } else if e.content.len() < 12 {
                Err(SyncError::EntryRead)
            } else if e.content.subrange(0, 12) != t.subrange(0, 12) {
                Ok(Action::WriteFile)
            } else {
                Ok(Action::Skip)
            },
        },
        Policy::VersionGatedReplace => if e.content.len() < 36 {
            Err(SyncError::EntryRead)
        } else {
            match sw {
                Option::None => Err(SyncError::DeviceInfoUnavailable),
                Option::Some(sws) => match parse_build(sws) {
                    Option::None => Err(SyncError::ParseDeviceBuild),
                    Option::Some(dev) => match parse_build(e.content.subrange(24, 36)) {
                        Option::None => Err(SyncError::ParseNewBuild),
                        Option::Some(new) => if new > dev {
                            Ok(Action::WriteFile)
                        } else {
                            Ok(Action::Skip)
                        },
                    },
                },
            }
        },
        Policy::DiffAndOverwrite => match target {
            Option::None => Ok(Action::WriteFile),
            Option::Some(t) => if t == e.content {
                Ok(Action::Skip)
            } else {
                Ok(Action::WriteFile)
            },
        },
    }
}

/// The volume after one entry's action: writes replace the file at the
/// entry's path with the entry's bytes, directory creation adds the
/// path to the directory set, and a skip changes nothing.
pub open spec fn apply_model(v: VolumeModel, e: EntryModel, a: Action) -> VolumeModel {
    match a {
        Action::WriteFile => VolumeModel { files: v.files.insert(e.path, e.content), dirs: v.dirs },
        Action::MakeDir => VolumeModel { files: v.files, dirs: v.dirs.insert(e.path) },
        Action::Skip => v,
    }
}

/// The outcome of a run: the volume left behind, success or the first
/// error, and how many entries were fully processed (one progress
/// emission each).
pub struct SyncRun {
    pub volume: VolumeModel,
    pub result: Result<(), SyncError>,
    pub processed: int,
}

/// Entry-by-entry processing, in archive order, stopping at the first
/// error and leaving earlier writes in place.
pub open spec fn run_entries(
    v: VolumeModel,
    es: Seq<EntryModel>,
    sw: Option<Seq<u8>>,
) -> SyncRun
    decreases es.len(),
{
    if es.len() == 0 {
        SyncRun { volume: v, result: Ok(()), processed: 0 }
    } else {
        match spec_decide(es[0], target_of(v, es[0].path), sw) {
            Result::Err(err) => SyncRun { volume: v, result: Err(err), processed: 0 },
            Result::Ok(a) => {
                let rest = run_entries(apply_model(v, es[0], a), es.skip(1), sw);
                SyncRun { volume: rest.volume, result: rest.result, processed: 1 + rest.processed }
            },
        }
    }
}

/// A run never counts more processed entries than there are, and a
/// successful run counts them all.
pub proof fn lemma_run_processed(v: VolumeModel, es: Seq<EntryModel>, sw: Option<Seq<u8>>)
    ensures
        0 <= run_entries(v, es, sw).processed <= es.len(),
        run_entries(v, es, sw).result is Ok ==> run_entries(v, es, sw).processed == es.len(),
    decreases es.len(),
{
    if es.len() > 0 {
        match spec_decide(es[0], target_of(v, es[0].path), sw) {
            Result::Err(_) => {},
            Result::Ok(a) => {
                lemma_run_processed(apply_model(v, es[0], a), es.skip(1), sw);
            },
        }
    }
}

/// An in-memory image of the target volume, for exercising whole runs:
/// a journal of writes (the latest write to a path wins) and the
/// directories created.
pub struct Volume {
    pub files: Vec<(Vec<u8>, Vec<u8>)>,
    pub dirs: Vec<Vec<u8>>,
}

/// The file map a write journal denotes: later writes override earlier ones.
pub open spec fn files_map(s: Seq<(Vec<u8>, Vec<u8>)>) -> Map<Seq<u8>, Seq<u8>>
    decreases s.len(),
{
    if s.len() == 0 {
        Map::empty()
    } else {
        files_map(s.drop_last()).insert(s.last().0@, s.last().1@)
    }
}

/// The set of directories a creation journal denotes.
pub open spec fn dirs_set(s: Seq<Vec<u8>>) -> Set<Seq<u8>>
    decreases s.len(),
{
    if s.len() == 0 {
        Set::empty()
    } else {
        dirs_set(s.drop_last()).insert(s.last()@)
    }
}

impl View for Volume {
    type V = VolumeModel;

    open spec fn view(&self) -> VolumeModel {
        VolumeModel { files: files_map(self.files@), dirs: dirs_set(self.dirs@) }
    }
}

/// If `i` is the last write to its path, the journal's map holds that write.
proof fn lemma_files_map_hit(s: Seq<(Vec<u8>, Vec<u8>)>, i: int)
    requires
        0 <= i < s.len(),
        forall|j: int| i < j < s.len() ==> (#[trigger] s[j]).0@ != s[i].0@,
    ensures
        files_map(s).dom().contains(s[i].0@),
        files_map(s)[s[i].0@] == s[i].1@,
    decreases s.len(),
{
    if i == s.len() - 1 {
    } else {
        lemma_files_map_hit(s.drop_last(), i);
        assert(s.drop_last()[i] == s[i]);
        assert(s.last().0@ != s[i].0@);
    }
}

/// A path no write names is absent from the journal's map.
proof fn lemma_files_map_miss(s: Seq<(Vec<u8>, Vec<u8>)>, p: Seq<u8>)
    requires
        forall|j: int| 0 <= j < s.len() ==> (#[trigger] s[j]).0@ != p,
    ensures
        !files_map(s).dom().contains(p),
    decreases s.len(),
{
    if s.len() > 0 {
        lemma_files_map_miss(s.drop_last(), p);
    }
}

/// A directory is in the journal's set exactly when some creation names it.
proof fn lemma_dirs_set_index(s: Seq<Vec<u8>>, p: Seq<u8>)
    ensures
        dirs_set(s).contains(p) <==> exists|j: int| 0 <= j < s.len() && (#[trigger] s[j])@ == p,
    decreases s.len(),
{
    if s.len() > 0 {
        lemma_dirs_set_index(s.drop_last(), p);
        if dirs_set(s).contains(p) {
            if s.last()@ != p {
                let j = choose|j: int| 0 <= j < s.drop_last().len() && (#[trigger] s.drop_last()[j])@ == p;
                assert(s[j]@ == p);
            }
        }
        if exists|j: int| 0 <= j < s.len() && (#[trigger] s[j])@ == p {
            let j = choose|j: int| 0 <= j < s.len() && (#[trigger] s[j])@ == p;
            if j < s.len() - 1 {
                assert(s.drop_last()[j]@ == p);
            }
        }
    }
}

/// Byte-for-byte comparison of two buffers.
pub fn bytes_eq(a: &Vec<u8>, b: &Vec<u8>) -> (r: bool)
    ensures
        r == (a@ == b@),
{
    if a.len() != b.len() {
        return false;
    }
    let n = a.len();
    let mut i: usize = 0;
    while i < n
        invariant
            n == a@.len() == b@.len(),
            i <= n,
            forall|k: int| 0 <= k < i ==> a@[k] == b@[k],
        decreases n - i,
    {
        if a[i] != b[i] {
            return false;
        }
        i = i + 1;
    }
    proof {
        assert(a@ =~= b@);
    }
    true
}

/// A copy of a byte buffer.
pub fn clone_bytes(v: &Vec<u8>) -> (r: Vec<u8>)
    ensures
        r@ == v@,
{
    broadcast use vstd::std_specs::vec::vec_clone_deep_view_proof;

    let r = v.clone();
    proof {
        assert(r@ =~= v@);
    }
    r
}

impl Volume {
    /// An empty volume: no files, no directories.
    pub fn new() -> (r: Self)
        ensures
            r@.files == Map::<Seq<u8>, Seq<u8>>::empty(),
            r@.dirs == Set::<Seq<u8>>::empty(),
    {
        Volume { files: Vec::new(), dirs: Vec::new() }
    }

    /// The current bytes of the file at `path`, if one has been written.
    pub fn get_file<'a>(&'a self, path: &Vec<u8>) -> (r: Option<&'a Vec<u8>>)
        ensures
            match r {
                Option::Some(c) => self@.files.dom().contains(path@) && c@ == self@.files[path@],
                Option::None => !self@.files.dom().contains(path@),
            },
    {
        let n = self.files.len();
        let mut i: usize = n;
        while i > 0
            invariant
                i <= n == self.files@.len(),
                forall|j: int| i <= j < n ==> (#[trigger] self.files@[j]).0@ != path@,
            decreases i,
        {
            i = i - 1;
            if bytes_eq(&self.files[i].0, path) {
                proof {
                    lemma_files_map_hit(self.files@, i as int);
                }
                return Some(&self.files[i].1);
            }
        }
        proof {
            lemma_files_map_miss(self.files@, path@);
        }
        None
    }

    /// True when the directory at `path` has been created.
    pub fn has_dir(&self, path: &Vec<u8>) -> (r: bool)
        ensures
            r == self@.dirs.contains(path@),
    {
        let n = self.dirs.len();
        let mut i: usize = 0;
        while i < n
            invariant
                i <= n == self.dirs@.len(),
                forall|j: int| 0 <= j < i ==> (#[trigger] self.dirs@[j])@ != path@,
            decreases n - i,
        {
            if bytes_eq(&self.dirs[i], path) {
                proof {
                    lemma_dirs_set_index(self.dirs@, path@);
                }
                return true;
            }
            i = i + 1;
        }
        proof {
            lemma_dirs_set_index(self.dirs@, path@);
        }
        false
    }

    /// Records a full overwrite of the file at `path`.
    pub fn write_file(&mut self, path: Vec<u8>, content: Vec<u8>)
        ensures
            final(self)@.files == old(self)@.files.insert(path@, content@),
            final(self)@.dirs == old(self)@.dirs,
    {
        let ghost p = path@;
        let ghost c = content@;
        self.files.push((path, content));
        proof {
            assert(self.files@.drop_last() =~= old(self).files@);
            assert(self.files@.last().0@ == p && self.files@.last().1@ == c);
        }
    }

    /// Records the creation of the directory at `path`.
    pub fn make_dir(&mut self, path: Vec<u8>)
        ensures
            final(self)@.files == old(self)@.files,
            final(self)@.dirs == old(self)@.dirs.insert(path@),
    {
        let ghost p = path@;
        self.dirs.push(path);
        proof {
            assert(self.dirs@.drop_last() =~= old(self).dirs@);
            assert(self.dirs@.last()@ == p);
        }
    }
}

/// The model of an optional borrowed buffer.
pub open spec fn opt_bytes_view(t: Option<&Vec<u8>>) -> Option<Seq<u8>> {
    match t {
        Option::Some(v) => Some(v@),
        Option::None => None,
    }
}

/// The model of the optional device version string: its UTF-8 bytes.
pub open spec fn opt_sw_view(sw: Option<&String>) -> Option<Seq<u8>> {
    match sw {
        Option::Some(s) => Some(vstd::utf8::encode_utf8(s@)),
        Option::None => None,
    }
}

/// Takes the merge decision for one entry against the target file's
/// current bytes and the device's version string.
pub fn decide_entry(
    entry: &TarEntry,
    target: Option<&Vec<u8>>,
    device_sw: Option<&String>,
) -> (r: Result<Action, SyncError>)
    ensures
        r == spec_decide(entry@, opt_bytes_view(target), opt_sw_view(device_sw)),
{
    match entry_policy(&entry.path) {
        Policy::CreateDirectory => Ok(Action::MakeDir),
        Policy::HeaderCompareAndPatch => match target {
            None => Ok(Action::WriteFile),
            Some(t) => {
                if t.len() < 12 {
                    return Ok(Action::WriteFile);
                }
                if entry.content.len() < 12 {
                    return Err(SyncError::EntryRead);
                }
                let mut k: usize = 0;
                let mut same = true;
                while k < 12
                    invariant
                        k <= 12,
                        t@.len() >= 12,
                        entry.content@.len() >= 12,
                        same <==> entry.content@.subrange(0, k as int) =~= t@.subrange(0, k as int),
                    decreases 12 - k,
                {
                    if entry.content[k] != t[k] {
                        proof {
                            assert(entry.content@.subrange(0, 12)[k as int] != t@.subrange(
                                0,
                                12,
                            )[k as int]);
                        }
                        same = false;
                        k = 12;
                    } else {
                        proof {
                            assert(entry.content@.subrange(0, k + 1 as int) =~= entry.content@
                                .subrange(0, k as int).push(entry.content@[k as int]));
                            assert(t@.subrange(0, k + 1 as int) =~= t@.subrange(0, k as int).push(
                                t@[k as int],
                            ));
                        }
                        k = k + 1;
                    }
                }
                if same {
                    Ok(Action::Skip)
                } else {
                    Ok(Action::WriteFile)
                }
            },
        },
        Policy::VersionGatedReplace => {
            if entry.content.len() < 36 {
                return Err(SyncError::EntryRead);
            }
            let dev = match device_sw {
                None => {
                    return Err(SyncError::DeviceInfoUnavailable);
                },
                Some(s) => match parse_build_str(s.as_str()) {
                    None => {
                        return Err(SyncError::ParseDeviceBuild);
                    },
                    Some(d) => d,
                },
            };
            let new_build = match parse_build_range(&entry.content, 24, 36) {
                None => {
                    return Err(SyncError::ParseNewBuild);
                },
                Some(n) => n,
            };
            if new_build > dev {
                Ok(Action::WriteFile)
            } else {
                Ok(Action::Skip)
            }
        },
        Policy::DiffAndOverwrite => match target {
            None => Ok(Action::WriteFile),
            Some(t) => {
                if bytes_eq(t, &entry.content) {
                    Ok(Action::Skip)
                } else {
                    Ok(Action::WriteFile)
                }
            },
        },
    }
}

} // verus!
