use skyup::engine::SyncError;
use skyup::engine::TarEntry;
use skyup::engine::Volume;
use skyup::policy::entry_policy;
use skyup::policy::Policy;
use skyup::sync::sync_archive;

fn entry(path: &str, content: &[u8]) -> TarEntry {
    TarEntry { path: path.as_bytes().to_vec(), content: content.to_vec() }
}

fn run(volume: &mut Volume, entries: Vec<TarEntry>, sw: Option<&str>) -> (Result<(), SyncError>, usize) {
    let url = String::from("http://example/archive.tar");
    let sw_string = sw.map(|s| s.to_string());
    let (res, events) = sync_archive(volume, &entries, sw_string.as_ref(), &url, 0);
    (res, events.len())
}

#[test]
fn classification_by_extension() {
    assert_eq!(entry_policy(&b"a/cfg.otb".to_vec()), Policy::HeaderCompareAndPatch);
    assert_eq!(entry_policy(&b"x.oab".to_vec()), Policy::HeaderCompareAndPatch);
    assert_eq!(entry_policy(&b"x.owb".to_vec()), Policy::HeaderCompareAndPatch);
    assert_eq!(entry_policy(&b"x.oob".to_vec()), Policy::HeaderCompareAndPatch);
    assert_eq!(entry_policy(&b"fw.xlb".to_vec()), Policy::VersionGatedReplace);
    assert_eq!(entry_policy(&b"readme.txt".to_vec()), Policy::DiffAndOverwrite);
    assert_eq!(entry_policy(&b"update".to_vec()), Policy::CreateDirectory);
    assert_eq!(entry_policy(&b"update/".to_vec()), Policy::CreateDirectory);
    assert_eq!(entry_policy(&b".hidden".to_vec()), Policy::CreateDirectory);
    assert_eq!(entry_policy(&b"x.OTB".to_vec()), Policy::DiffAndOverwrite);
}

// A target shorter than 12 bytes is overwritten verbatim, headers unseen.
#[test]
fn header_patch_short_target_overwritten() {
    let mut vol = Volume::new();
    vol.write_file(b"cfg.otb".to_vec(), b"tiny".to_vec());
    let e = entry("cfg.otb", b"tinyXXXXXXXXmore");
    let (res, n) = run(&mut vol, vec![e, entry("d", b"")], None);
    res.unwrap();
    assert_eq!(n, 2);
    assert_eq!(vol.get_file(&b"cfg.otb".to_vec()).unwrap(), b"tinyXXXXXXXXmore");
}

// Equal 12-byte headers skip; different headers rewrite the whole file.
#[test]
fn header_patch_compares_first_twelve_bytes() {
    let mut vol = Volume::new();
    vol.write_file(b"cfg.otb".to_vec(), b"HEADER12BYTEoriginal-body".to_vec());

    // Same header, different body: untouched.
    let same = entry("cfg.otb", b"HEADER12BYTEnew-body");
    let (res, _) = run(&mut vol, vec![same, entry("d", b"")], None);
    res.unwrap();
    assert_eq!(vol.get_file(&b"cfg.otb".to_vec()).unwrap(), b"HEADER12BYTEoriginal-body");

    // Different header: full overwrite.
    let diff = entry("cfg.otb", b"OTHERHEADER!new-body");
    let (res, _) = run(&mut vol, vec![diff, entry("d", b"")], None);
    res.unwrap();
    assert_eq!(vol.get_file(&b"cfg.otb".to_vec()).unwrap(), b"OTHERHEADER!new-body");
}

#[test]
fn header_patch_missing_target_written() {
    let mut vol = Volume::new();
    let e = entry("new.owb", b"HEADER12BYTEbody");
    let (res, _) = run(&mut vol, vec![e, entry("d", b"")], None);
    res.unwrap();
    assert_eq!(vol.get_file(&b"new.owb".to_vec()).unwrap(), b"HEADER12BYTEbody");
}

fn xlb_entry(build: &str) -> TarEntry {
    // 24 bytes of prefix, then the 12-byte build-number field, then the rest.
    let mut content = Vec::new();
    content.extend_from_slice(b"PREFIXPREFIXPREFIXPREFIX");
    let mut padded = vec![b'0'; 12 - build.len()];
    padded.extend_from_slice(build.as_bytes());
    content.extend_from_slice(&padded);
    content.extend_from_slice(b"rest-of-firmware");
    TarEntry { path: b"fw.xlb".to_vec(), content }
}

// A strictly newer build number replaces the file; an equal or older
// one leaves it; unparseable build numbers are fatal parse errors.
#[test]
fn version_gate_replaces_only_newer() {
    let sw = Some("1000");

    let mut vol = Volume::new();
    vol.write_file(b"fw.xlb".to_vec(), b"old-firmware".to_vec());
    let (res, _) = run(&mut vol, vec![xlb_entry("1001"), entry("d", b"")], sw);
    res.unwrap();
    assert_eq!(vol.get_file(&b"fw.xlb".to_vec()).unwrap(), &xlb_entry("1001").content);

    let mut vol = Volume::new();
    vol.write_file(b"fw.xlb".to_vec(), b"old-firmware".to_vec());
    let (res, _) = run(&mut vol, vec![xlb_entry("1000"), entry("d", b"")], sw);
    res.unwrap();
    assert_eq!(vol.get_file(&b"fw.xlb".to_vec()).unwrap(), b"old-firmware");

    let mut vol = Volume::new();
    vol.write_file(b"fw.xlb".to_vec(), b"old-firmware".to_vec());
    let (res, _) = run(&mut vol, vec![xlb_entry("0999"), entry("d", b"")], sw);
    res.unwrap();
    assert_eq!(vol.get_file(&b"fw.xlb".to_vec()).unwrap(), b"old-firmware");
}

#[test]
fn version_gate_parse_errors_are_fatal() {
    let mut vol = Volume::new();
    let (res, n) = run(&mut vol, vec![xlb_entry("1001"), entry("d", b"")], Some("not-a-number"));
    assert_eq!(res.unwrap_err(), SyncError::ParseDeviceBuild);
    assert_eq!(n, 0);
    assert!(vol.get_file(&b"fw.xlb".to_vec()).is_none());

    let mut vol = Volume::new();
    let mut bad = xlb_entry("1001");
    bad.content[30] = b'x';
    let (res, _) = run(&mut vol, vec![bad, entry("d", b"")], Some("1000"));
    assert_eq!(res.unwrap_err(), SyncError::ParseNewBuild);
    assert!(vol.get_file(&b"fw.xlb".to_vec()).is_none());

    let mut vol = Volume::new();
    let (res, _) = run(&mut vol, vec![xlb_entry("1001"), entry("d", b"")], None);
    assert_eq!(res.unwrap_err(), SyncError::DeviceInfoUnavailable);
}

// Identical bytes mean no write at all; any difference rewrites exactly.
#[test]
fn diff_and_overwrite() {
    let mut vol = Volume::new();
    vol.write_file(b"readme.txt".to_vec(), b"same bytes".to_vec());
    let journal_before = vol.files.len();
    let (res, _) = run(&mut vol, vec![entry("readme.txt", b"same bytes"), entry("d", b"")], None);
    res.unwrap();
    // No write happened: the journal did not grow.
    assert_eq!(vol.files.len(), journal_before);

    let (res, _) = run(&mut vol, vec![entry("readme.txt", b"new bytes"), entry("d", b"")], None);
    res.unwrap();
    assert_eq!(vol.get_file(&b"readme.txt".to_vec()).unwrap(), b"new bytes");
}

// Extension-less entries create their directory; doing it again is harmless.
#[test]
fn create_directory_idempotent() {
    let mut vol = Volume::new();
    let (res, _) = run(&mut vol, vec![entry("update/", b""), entry("d2", b"")], None);
    res.unwrap();
    assert!(vol.has_dir(&b"update/".to_vec()));
    let (res, _) = run(&mut vol, vec![entry("update/", b""), entry("d2", b"")], None);
    res.unwrap();
    assert!(vol.has_dir(&b"update/".to_vec()));
    assert!(vol.get_file(&b"update/".to_vec()).is_none());
}

// The 14-byte config file whose header differs ends up byte-identical
// to the archive entry.
#[test]
fn otb_header_mismatch_full_copy() {
    let mut vol = Volume::new();
    vol.write_file(b"cfg.otb".to_vec(), b"AAAAAAAAAAAAbb".to_vec());
    let e = entry("cfg.otb", b"CCCCCCCCCCCCdd");
    assert_eq!(e.content.len(), 14);
    let (res, _) = run(&mut vol, vec![e, entry("d", b"")], None);
    res.unwrap();
    assert_eq!(vol.get_file(&b"cfg.otb".to_vec()).unwrap(), b"CCCCCCCCCCCCdd");
}

// Progress counts up by one per entry and ends at the total.
#[test]
fn progress_counts_every_entry() {
    let mut vol = Volume::new();
    let entries = vec![
        entry("a.txt", b"1"),
        entry("b.txt", b"2"),
        entry("update/", b""),
        entry("cfg.otb", b"HEADER12BYTEx"),
    ];
    let url = String::from("http://example/a.tar");
    let (res, events) = sync_archive(&mut vol, &entries, None, &url, 77);
    res.unwrap();
    assert_eq!(events.len(), 4);
    for (i, ev) in events.iter().enumerate() {
        assert_eq!(ev.processed_files, (i + 1) as u16);
        assert_eq!(ev.total_files, 4);
        assert_eq!(ev.url, "http://example/a.tar");
        assert_eq!(ev.total_bytes, 77);
        assert_eq!(ev.downloaded, 77);
        assert_eq!(ev.current_file, entries[i].path);
    }
}

// Running the same archive twice leaves the volume exactly as one run does.
#[test]
fn sync_twice_changes_nothing() {
    let paths: Vec<&[u8]> = vec![b"a.txt", b"cfg.otb", b"fw.xlb", b"update/"];
    let mut vol = Volume::new();
    vol.write_file(b"cfg.otb".to_vec(), b"AAAAAAAAAAAAbody".to_vec());
    let entries = vec![
        entry("a.txt", b"contents"),
        entry("cfg.otb", b"BBBBBBBBBBBBbody"),
        xlb_entry("2000"),
        entry("update/", b""),
    ];
    let sw = Some("1500");
    let (res, _) = run(&mut vol, clone_entries(&entries), sw);
    res.unwrap();
    let after_one: Vec<Option<Vec<u8>>> =
        paths.iter().map(|p| vol.get_file(&p.to_vec()).cloned()).collect();
    let (res, _) = run(&mut vol, entries, sw);
    res.unwrap();
    let after_two: Vec<Option<Vec<u8>>> =
        paths.iter().map(|p| vol.get_file(&p.to_vec()).cloned()).collect();
    assert_eq!(after_one, after_two);
}

fn clone_entries(entries: &[TarEntry]) -> Vec<TarEntry> {
    entries
        .iter()
        .map(|e| TarEntry { path: e.path.clone(), content: e.content.clone() })
        .collect()
}

#[test]
fn error_messages() {
    assert_eq!(SyncError::ArchiveRead.message(), "Failed to get entry");
    assert_eq!(SyncError::EntryRead.message(), "Failed to read file");
    assert_eq!(SyncError::DeviceInfoUnavailable.message(), "Failed to get device info");
    assert_eq!(SyncError::ParseDeviceBuild.message(), "Failed to parse device built number");
    assert_eq!(SyncError::ParseNewBuild.message(), "Failed to parse new built number");
}
