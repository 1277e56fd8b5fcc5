use scribo::scanner::{file_created_ms, find_latest_mix_file, FileMeta, ScanEntry};

fn mix_entry(path: &[u8], modified_ms: i64) -> ScanEntry {
    ScanEntry {
        path: path.to_vec(),
        meta: Some(FileMeta { size_bytes: 1, modified_ms: Some(modified_ms), created_ms: None }),
    }
}

#[test]
fn latest_artifact_wins_by_strictly_greatest_timestamp() {
    let entries = vec![
        mix_entry(b"/r/a-mix.wav", 100),
        mix_entry(b"/r/b-mix.wav", 200),
        mix_entry(b"/r/c-mix.wav", 150),
    ];
    assert_eq!(find_latest_mix_file(&entries), Some(b"/r/b-mix.wav".to_vec()));
}

#[test]
fn ties_keep_the_earliest_encountered_candidate_every_time() {
    let entries = vec![
        mix_entry(b"/r/early-mix.wav", 100),
        mix_entry(b"/r/late-mix.wav", 100),
    ];
    let first = find_latest_mix_file(&entries);
    let second = find_latest_mix_file(&entries);
    assert_eq!(first, Some(b"/r/early-mix.wav".to_vec()));
    assert_eq!(first, second);
}

#[test]
fn non_mix_and_unreadable_entries_are_not_candidates() {
    let entries = vec![
        mix_entry(b"/r/notes.txt", 900),
        mix_entry(b"/r/track.wav", 900),
        mix_entry(b"/r/track-mic.wav", 900),
        ScanEntry { path: b"/r/broken-mix.wav".to_vec(), meta: None },
        mix_entry(b"/r/real-mix.wav", 5),
    ];
    assert_eq!(find_latest_mix_file(&entries), Some(b"/r/real-mix.wav".to_vec()));
}

#[test]
fn empty_scan_yields_none() {
    let entries: Vec<ScanEntry> = Vec::new();
    assert_eq!(find_latest_mix_file(&entries), None);
}

#[test]
fn scan_without_candidates_yields_none() {
    let entries = vec![mix_entry(b"/r/readme.md", 100)];
    assert_eq!(find_latest_mix_file(&entries), None);
}

#[test]
fn timestamp_prefers_modification_time() {
    let m = FileMeta { size_bytes: 0, modified_ms: Some(7), created_ms: Some(3) };
    assert_eq!(file_created_ms(&m), 7);
}

#[test]
fn timestamp_falls_back_to_creation_time() {
    let m = FileMeta { size_bytes: 0, modified_ms: None, created_ms: Some(3) };
    assert_eq!(file_created_ms(&m), 3);
}

#[test]
fn timestamp_falls_back_to_zero() {
    let m = FileMeta { size_bytes: 0, modified_ms: None, created_ms: None };
    assert_eq!(file_created_ms(&m), 0);
}
