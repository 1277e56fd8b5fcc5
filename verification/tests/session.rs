use scribo::catalog::Catalog;
use scribo::db_path;
use scribo::playback::audio_data_url;
use scribo::scanner::{FileMeta, ScanEntry};
use scribo::session::SessionController;

fn mix_entry(path: &[u8], modified_ms: i64) -> ScanEntry {
    ScanEntry {
        path: path.to_vec(),
        meta: Some(FileMeta { size_bytes: 8, modified_ms: Some(modified_ms), created_ms: None }),
    }
}

#[test]
fn controller_state_follows_engine_outcomes() {
    let mut ctl = SessionController::new();
    assert!(!ctl.is_capturing());
    ctl.start_capture(false);
    assert!(!ctl.is_capturing());
    ctl.start_capture(true);
    assert!(ctl.is_capturing());
    let mut cat = Catalog::new();
    let no_entries: Vec<ScanEntry> = Vec::new();
    ctl.stop_capture(&mut cat, &no_entries);
    assert!(!ctl.is_capturing());
    assert_eq!(cat.count(), 0);
}

#[test]
fn stop_reconciles_the_freshest_mix_artifact_into_the_catalog() {
    let mut ctl = SessionController::new();
    let mut cat = Catalog::new();
    ctl.start_capture(true);
    let entries = vec![
        mix_entry(b"/r/old-mix.wav", 100),
        mix_entry(b"/r/new-mix.wav", 900),
    ];
    ctl.stop_capture(&mut cat, &entries);
    assert_eq!(cat.count(), 1);
    let rows = cat.list();
    assert_eq!(rows[0].file_path, b"/r/new-mix.wav".to_vec());
    assert_eq!(rows[0].name, b"new-mix.wav".to_vec());
    assert_eq!(rows[0].created_at_ms, 900);
}

#[test]
fn stop_with_nothing_to_reconcile_leaves_the_catalog_alone() {
    let mut ctl = SessionController::new();
    let mut cat = Catalog::new();
    let entries = vec![mix_entry(b"/r/not-audio.txt", 100)];
    ctl.stop_capture(&mut cat, &entries);
    assert_eq!(cat.count(), 0);
}

#[test]
fn stop_is_idempotent_for_the_catalog() {
    let mut ctl = SessionController::new();
    let mut cat = Catalog::new();
    let entries = vec![mix_entry(b"/r/s-mix.wav", 42)];
    ctl.stop_capture(&mut cat, &entries);
    ctl.stop_capture(&mut cat, &entries);
    assert_eq!(cat.count(), 1);
}

#[test]
fn playback_payload_is_prefixed_base64() {
    let url = audio_data_url(&b"hello".to_vec());
    assert_eq!(url, "data:audio/wav;base64,aGVsbG8=");
}

#[test]
fn playback_payload_of_empty_bytes_is_just_the_prefix() {
    let url = audio_data_url(&Vec::new());
    assert_eq!(url, "data:audio/wav;base64,");
}

#[test]
fn playback_payload_pads_partial_groups() {
    let url = audio_data_url(&vec![0u8, 0u8, 0u8, 0u8]);
    assert_eq!(url, "data:audio/wav;base64,AAAAAA==");
}

#[test]
fn db_path_lives_inside_the_storage_root() {
    let p = db_path(b"/home/u/Library/Application Support/scribo");
    assert_eq!(p, b"/home/u/Library/Application Support/scribo/scribo.sqlite3".to_vec());
    let q = db_path(b"/data/app/");
    assert_eq!(q, b"/data/app/scribo.sqlite3".to_vec());
}
