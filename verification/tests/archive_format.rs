use skyup::archive::parse_archive;
use skyup::engine::SyncError;

fn build_archive(files: &[(&str, &[u8])], dirs: &[&str]) -> Vec<u8> {
    let mut builder = tar::Builder::new(Vec::new());
    for name in dirs {
        let mut header = tar::Header::new_ustar();
        header.set_entry_type(tar::EntryType::Directory);
        header.set_size(0);
        header.set_mode(0o755);
        builder.append_data(&mut header, *name, &b""[..]).unwrap();
    }
    for (name, content) in files {
        let mut header = tar::Header::new_ustar();
        header.set_entry_type(tar::EntryType::Regular);
        header.set_size(content.len() as u64);
        header.set_mode(0o644);
        builder.append_data(&mut header, *name, *content).unwrap();
    }
    builder.into_inner().unwrap()
}

#[test]
fn parses_real_ustar_output() {
    let bytes = build_archive(
        &[("cfg.otb", b"HEADER12BYTEbody"), ("update/app.tar", b"payload-bytes")],
        &["update/"],
    );
    let entries = parse_archive(&bytes).unwrap();
    assert_eq!(entries.len(), 3);
    assert_eq!(entries[0].path, b"update/");
    assert_eq!(entries[0].content, b"");
    assert_eq!(entries[1].path, b"cfg.otb");
    assert_eq!(entries[1].content, b"HEADER12BYTEbody");
    assert_eq!(entries[2].path, b"update/app.tar");
    assert_eq!(entries[2].content, b"payload-bytes");
}

#[test]
fn parses_content_across_block_boundaries() {
    let big = vec![7u8; 1000];
    let bytes = build_archive(&[("big.bin", &big)], &[]);
    let entries = parse_archive(&bytes).unwrap();
    assert_eq!(entries.len(), 1);
    assert_eq!(entries[0].content, big);
}

#[test]
fn parses_long_paths_through_the_prefix_field() {
    let dir = "a".repeat(90);
    let name = format!("{}/{}", dir, "b".repeat(60));
    let bytes = build_archive(&[(&name, b"x")], &[]);
    let entries = parse_archive(&bytes).unwrap();
    assert_eq!(entries.len(), 1);
    assert_eq!(entries[0].path, name.as_bytes());
}

#[test]
fn empty_archive_has_no_entries() {
    let entries = parse_archive(&Vec::new()).unwrap();
    assert!(entries.is_empty());
    // A bare terminator parses the same way.
    let entries = parse_archive(&vec![0u8; 1024]).unwrap();
    assert!(entries.is_empty());
}

#[test]
fn truncated_archive_is_one_read_error() {
    let bytes = build_archive(&[("cfg.otb", b"HEADER12BYTEbody")], &[]);
    let cut = bytes[..700].to_vec();
    assert_eq!(parse_archive(&cut).unwrap_err(), SyncError::ArchiveRead);
    let short = bytes[..100].to_vec();
    assert_eq!(parse_archive(&short).unwrap_err(), SyncError::ArchiveRead);
}

#[test]
fn corrupt_checksum_is_rejected() {
    let mut bytes = build_archive(&[("cfg.otb", b"HEADER12BYTEbody")], &[]);
    // Flip a byte inside the name field of the first header.
    bytes[0] ^= 1;
    assert_eq!(parse_archive(&bytes).unwrap_err(), SyncError::ArchiveRead);
}

#[test]
fn garbage_is_rejected() {
    let bytes = vec![0xabu8; 512];
    assert_eq!(parse_archive(&bytes).unwrap_err(), SyncError::ArchiveRead);
}
