use scribo::catalog::Catalog;
use scribo::sandbox::AccessError;
use scribo::service::{delete_recording, list_recordings, sibling_paths};

fn canon(path: &[u8]) -> Option<Vec<u8>> {
    Some(path.to_vec())
}

#[test]
fn siblings_of_a_mix_path_cover_the_whole_session() {
    let plan = sibling_paths(b"/data/app/s1-mix.wav").unwrap();
    assert_eq!(plan.app_path, b"/data/app/s1.wav".to_vec());
    assert_eq!(plan.mic_path, b"/data/app/s1-mic.wav".to_vec());
    assert_eq!(plan.mix_path, b"/data/app/s1-mix.wav".to_vec());
}

#[test]
fn siblings_from_a_mic_path_name_the_same_session() {
    let plan = sibling_paths(b"/data/app/s1-mic.wav").unwrap();
    assert_eq!(plan.app_path, b"/data/app/s1.wav".to_vec());
    assert_eq!(plan.mic_path, b"/data/app/s1-mic.wav".to_vec());
    assert_eq!(plan.mix_path, b"/data/app/s1-mix.wav".to_vec());
}

#[test]
fn siblings_from_the_primary_path_name_the_same_session() {
    let plan = sibling_paths(b"/data/app/s1.wav").unwrap();
    assert_eq!(plan.app_path, b"/data/app/s1.wav".to_vec());
    assert_eq!(plan.mic_path, b"/data/app/s1-mic.wav".to_vec());
    assert_eq!(plan.mix_path, b"/data/app/s1-mix.wav".to_vec());
}

#[test]
fn sibling_stem_keeps_a_name_without_known_suffix() {
    let plan = sibling_paths(b"/data/app/capture.ogg").unwrap();
    assert_eq!(plan.app_path, b"/data/app/capture.ogg.wav".to_vec());
    assert_eq!(plan.mix_path, b"/data/app/capture.ogg-mix.wav".to_vec());
}

#[test]
fn sibling_paths_need_a_file_name() {
    assert_eq!(sibling_paths(b"/data/app/").unwrap_err(), AccessError::InvalidFileName);
}

#[test]
fn delete_recording_removes_exactly_the_mix_row() {
    let mut cat = Catalog::new();
    cat.insert_recording(b"s1-mix.wav", b"/data/app/s1-mix.wav", 1, 10);
    cat.insert_recording(b"s2-mix.wav", b"/data/app/s2-mix.wav", 1, 20);
    let plan = delete_recording(
        &mut cat,
        &canon(b"/data/app"),
        &canon(b"/data/app/s1-mix.wav"),
    )
    .unwrap();
    assert_eq!(plan.app_path, b"/data/app/s1.wav".to_vec());
    assert_eq!(plan.mic_path, b"/data/app/s1-mic.wav".to_vec());
    assert_eq!(plan.mix_path, b"/data/app/s1-mix.wav".to_vec());
    assert_eq!(cat.count(), 1);
    let rows = cat.list();
    assert_eq!(rows[0].file_path, b"/data/app/s2-mix.wav".to_vec());
}

#[test]
fn deleting_the_same_recording_again_still_succeeds() {
    let mut cat = Catalog::new();
    cat.insert_recording(b"s1-mix.wav", b"/data/app/s1-mix.wav", 1, 10);
    let first = delete_recording(
        &mut cat,
        &canon(b"/data/app"),
        &canon(b"/data/app/s1-mix.wav"),
    );
    assert!(first.is_ok());
    let second = delete_recording(
        &mut cat,
        &canon(b"/data/app"),
        &canon(b"/data/app/s1-mix.wav"),
    );
    assert!(second.is_ok());
    assert_eq!(cat.count(), 0);
}

#[test]
fn delete_recording_by_a_sibling_path_removes_the_mix_row() {
    let mut cat = Catalog::new();
    cat.insert_recording(b"s1-mix.wav", b"/data/app/s1-mix.wav", 1, 10);
    let r = delete_recording(&mut cat, &canon(b"/data/app"), &canon(b"/data/app/s1-mic.wav"));
    assert!(r.is_ok());
    assert_eq!(cat.count(), 0);
}

#[test]
fn delete_recording_outside_the_sandbox_is_rejected_and_keeps_the_row() {
    let mut cat = Catalog::new();
    cat.insert_recording(b"s1-mix.wav", b"/data/app/s1-mix.wav", 1, 10);
    let r = delete_recording(&mut cat, &canon(b"/data/app"), &canon(b"/tmp/s1-mix.wav"));
    assert_eq!(r.unwrap_err(), AccessError::PathNotAllowed);
    assert_eq!(cat.count(), 1);
}

#[test]
fn list_recordings_shows_path_name_and_timestamp_in_listing_order() {
    let mut cat = Catalog::new();
    cat.insert_recording(b"a-mix.wav", b"/r/a-mix.wav", 1, 100);
    cat.insert_recording(b"b-mix.wav", b"/r/b-mix.wav", 1, 300);
    let items = list_recordings(&cat);
    assert_eq!(items.len(), 2);
    assert_eq!(items[0].path, b"/r/b-mix.wav".to_vec());
    assert_eq!(items[0].file_name, b"b-mix.wav".to_vec());
    assert_eq!(items[0].created_at_ms, 300);
    assert_eq!(items[1].path, b"/r/a-mix.wav".to_vec());
}
