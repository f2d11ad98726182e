use skyup::engine::TarEntry;
use skyup::engine::Volume;
use skyup::extract::extract_single_file;
use skyup::sync::sync_archive;

// A one-entry archive goes through the chunked extraction path:
// percentages rise strictly from a positive value to exactly 100, and
// the file arrives byte-identical.
#[test]
fn single_entry_reports_percentages() {
    let content = vec![42u8; 50000];
    let entries = vec![TarEntry { path: b"update.oob".to_vec(), content: content.clone() }];
    let mut vol = Volume::new();
    let url = String::from("http://example/u.tar");
    let (res, events) = sync_archive(&mut vol, &entries, None, &url, 50000);
    res.unwrap();
    assert_eq!(events.len(), 2);
    let percents: Vec<u16> = events.iter().map(|e| e.processed_files).collect();
    assert_eq!(percents, vec![65, 100]);
    assert!(percents[0] > 0);
    assert!(percents.windows(2).all(|w| w[0] < w[1]));
    assert_eq!(events.iter().filter(|e| e.processed_files == 100).count(), 1);
    for ev in &events {
        assert_eq!(ev.total_files, 100);
        assert_eq!(ev.current_file, b"");
    }
    let written = vol.get_file(&b"update.oob".to_vec()).unwrap();
    assert_eq!(written.len(), 50000);
    assert_eq!(written, &content);
}

// The single-entry path writes even when every policy would skip.
#[test]
fn single_entry_always_writes() {
    let mut vol = Volume::new();
    vol.write_file(b"cfg.otb".to_vec(), b"HEADER12BYTEold".to_vec());
    let entries = vec![TarEntry {
        path: b"cfg.otb".to_vec(),
        content: b"HEADER12BYTEnew".to_vec(),
    }];
    let url = String::from("u");
    let (res, events) = sync_archive(&mut vol, &entries, None, &url, 0);
    res.unwrap();
    assert_eq!(events.len(), 1);
    assert_eq!(events[0].processed_files, 100);
    assert_eq!(vol.get_file(&b"cfg.otb".to_vec()).unwrap(), b"HEADER12BYTEnew");
}

#[test]
fn extractor_chunk_percentages_are_exact() {
    let mut vol = Volume::new();
    let entry = TarEntry { path: b"fw.bin".to_vec(), content: vec![1u8; 100000] };
    let percents = extract_single_file(&mut vol, &entry);
    assert_eq!(percents, vec![32, 65, 98, 100]);
    assert_eq!(vol.get_file(&b"fw.bin".to_vec()).unwrap().len(), 100000);
}

#[test]
fn extractor_empty_entry_writes_empty_file() {
    let mut vol = Volume::new();
    let entry = TarEntry { path: b"empty.bin".to_vec(), content: Vec::new() };
    let percents = extract_single_file(&mut vol, &entry);
    assert!(percents.is_empty());
    assert_eq!(vol.get_file(&b"empty.bin".to_vec()).unwrap(), b"");
}

#[test]
fn extractor_small_entry_is_one_chunk() {
    let mut vol = Volume::new();
    let entry = TarEntry { path: b"s.bin".to_vec(), content: vec![9u8; 10] };
    let percents = extract_single_file(&mut vol, &entry);
    assert_eq!(percents, vec![100]);
}
