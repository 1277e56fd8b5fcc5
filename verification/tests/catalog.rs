use scribo::catalog::Catalog;
use scribo::scanner::{FileMeta, ScanEntry};

fn mix_entry(path: &[u8], size_bytes: u64, modified_ms: Option<i64>, created_ms: Option<i64>) -> ScanEntry {
    ScanEntry {
        path: path.to_vec(),
        meta: Some(FileMeta { size_bytes, modified_ms, created_ms }),
    }
}

#[test]
fn insert_same_path_twice_keeps_one_row() {
    let mut cat = Catalog::new();
    cat.insert_recording(b"a-mix.wav", b"/root/a-mix.wav", 10, 100);
    cat.insert_recording(b"other name", b"/root/a-mix.wav", 999, 777);
    assert_eq!(cat.count(), 1);
    let rows = cat.list();
    assert_eq!(rows.len(), 1);
    assert_eq!(rows[0].file_path, b"/root/a-mix.wav".to_vec());
    assert_eq!(rows[0].name, b"a-mix.wav".to_vec());
    assert_eq!(rows[0].file_size_bytes, 10);
    assert_eq!(rows[0].created_at_ms, 100);
}

#[test]
fn list_orders_by_created_at_descending() {
    let mut cat = Catalog::new();
    cat.insert_recording(b"a", b"/r/a-mix.wav", 1, 500);
    cat.insert_recording(b"b", b"/r/b-mix.wav", 1, 100);
    cat.insert_recording(b"c", b"/r/c-mix.wav", 1, 300);
    let rows = cat.list();
    let ts: Vec<i64> = rows.iter().map(|r| r.created_at_ms).collect();
    assert_eq!(ts, vec![500, 300, 100]);
    assert_eq!(rows[0].file_path, b"/r/a-mix.wav".to_vec());
    assert_eq!(rows[1].file_path, b"/r/c-mix.wav".to_vec());
    assert_eq!(rows[2].file_path, b"/r/b-mix.wav".to_vec());
}

#[test]
fn list_breaks_ties_by_insertion_order() {
    let mut cat = Catalog::new();
    cat.insert_recording(b"first", b"/r/first-mix.wav", 1, 200);
    cat.insert_recording(b"second", b"/r/second-mix.wav", 1, 200);
    cat.insert_recording(b"newer", b"/r/newer-mix.wav", 1, 300);
    let rows = cat.list();
    assert_eq!(rows[0].file_path, b"/r/newer-mix.wav".to_vec());
    assert_eq!(rows[1].file_path, b"/r/first-mix.wav".to_vec());
    assert_eq!(rows[2].file_path, b"/r/second-mix.wav".to_vec());
    assert!(rows[1].id < rows[2].id);
}

#[test]
fn delete_by_path_removes_exactly_one_row() {
    let mut cat = Catalog::new();
    cat.insert_recording(b"a", b"/r/a-mix.wav", 1, 1);
    cat.insert_recording(b"b", b"/r/b-mix.wav", 1, 2);
    cat.delete_by_path(b"/r/a-mix.wav");
    assert_eq!(cat.count(), 1);
    let rows = cat.list();
    assert_eq!(rows[0].file_path, b"/r/b-mix.wav".to_vec());
}

#[test]
fn delete_by_path_of_absent_path_changes_nothing() {
    let mut cat = Catalog::new();
    cat.insert_recording(b"a", b"/r/a-mix.wav", 1, 1);
    cat.delete_by_path(b"/r/missing-mix.wav");
    assert_eq!(cat.count(), 1);
}

#[test]
fn insert_recording_from_path_derives_row_fields() {
    let mut cat = Catalog::new();
    let e = mix_entry(b"/root/s1-mix.wav", 4321, Some(1700), None);
    assert!(cat.insert_recording_from_path(&e).is_ok());
    let rows = cat.list();
    assert_eq!(rows.len(), 1);
    assert_eq!(rows[0].name, b"s1-mix.wav".to_vec());
    assert_eq!(rows[0].file_path, b"/root/s1-mix.wav".to_vec());
    assert_eq!(rows[0].file_size_bytes, 4321);
    assert_eq!(rows[0].created_at_ms, 1700);
}

#[test]
fn insert_recording_from_path_without_metadata_fails_and_changes_nothing() {
    let mut cat = Catalog::new();
    let e = ScanEntry { path: b"/root/s1-mix.wav".to_vec(), meta: None };
    assert!(cat.insert_recording_from_path(&e).is_err());
    assert_eq!(cat.count(), 0);
}

#[test]
fn seed_if_empty_inserts_one_row_per_mix_artifact() {
    let mut cat = Catalog::new();
    let entries = vec![
        mix_entry(b"/r/a-mix.wav", 1, Some(10), None),
        mix_entry(b"/r/b-mix.wav", 2, Some(20), None),
        mix_entry(b"/r/c-mix.wav", 3, Some(30), None),
    ];
    cat.seed_if_empty(&entries);
    assert_eq!(cat.count(), 3);
    let rows = cat.list();
    assert_eq!(rows.len(), 3);
    assert_eq!(rows[0].file_path, b"/r/c-mix.wav".to_vec());
}

#[test]
fn seed_if_empty_skips_non_candidates() {
    let mut cat = Catalog::new();
    let entries = vec![
        mix_entry(b"/r/a-mix.wav", 1, Some(10), None),
        mix_entry(b"/r/notes.txt", 1, Some(10), None),
        mix_entry(b"/r/plain.wav", 1, Some(10), None),
        ScanEntry { path: b"/r/unreadable-mix.wav".to_vec(), meta: None },
    ];
    cat.seed_if_empty(&entries);
    assert_eq!(cat.count(), 1);
}

#[test]
fn seed_if_empty_on_non_empty_catalog_is_a_no_op() {
    let mut cat = Catalog::new();
    cat.insert_recording(b"kept", b"/r/kept-mix.wav", 1, 1);
    let entries = vec![
        mix_entry(b"/r/a-mix.wav", 1, Some(10), None),
        mix_entry(b"/r/b-mix.wav", 2, Some(20), None),
    ];
    cat.seed_if_empty(&entries);
    assert_eq!(cat.count(), 1);
    let rows = cat.list();
    assert_eq!(rows[0].file_path, b"/r/kept-mix.wav".to_vec());
}

#[test]
fn seed_if_empty_deduplicates_repeated_paths() {
    let mut cat = Catalog::new();
    let entries = vec![
        mix_entry(b"/r/a-mix.wav", 1, Some(10), None),
        mix_entry(b"/r/a-mix.wav", 1, Some(10), None),
    ];
    cat.seed_if_empty(&entries);
    assert_eq!(cat.count(), 1);
}

#[test]
fn file_size_saturates_into_store_integer() {
    let mut cat = Catalog::new();
    let e = mix_entry(b"/r/huge-mix.wav", u64::MAX, Some(5), None);
    assert!(cat.insert_recording_from_path(&e).is_ok());
    let rows = cat.list();
    assert_eq!(rows[0].file_size_bytes, i64::MAX);
}
