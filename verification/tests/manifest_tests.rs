use updatekit::Manifest;

fn sample_manifest() -> Manifest {
    let mut m = Manifest::new_incomplete();
    m.set_target(&b"alpha".to_vec(), 10, &vec![0xaa, 0xbb]);
    m.set_target(&b"beta".to_vec(), 20, &vec![0xcc]);
    m.update_version(3);
    m.set_update_complete_result(true);
    m
}

#[test]
fn save_load_round_trip() {
    let m = sample_manifest();
    let bytes = m.save();
    let loaded = Manifest::load(&bytes).expect("round trip");
    assert_eq!(loaded.version(), 3);
    assert!(!loaded.is_incomplete());
    assert!(loaded.contains_target(&b"alpha".to_vec()));
    assert!(loaded.contains_target(&b"beta".to_vec()));
    assert_eq!(loaded.files().len(), 2);
    assert!(loaded.is_target_updated(&b"alpha".to_vec(), 10, &vec![0xaa, 0xbb]));
    assert!(loaded.is_target_updated(&b"beta".to_vec(), 20, &vec![0xcc]));
    let bytes_again = loaded.save();
    assert_eq!(bytes, bytes_again);
}

#[test]
fn save_load_round_trip_empty() {
    let m = Manifest::new_incomplete();
    let bytes = m.save();
    let loaded = Manifest::load(&bytes).expect("round trip");
    assert_eq!(loaded.version(), 1);
    assert!(loaded.is_incomplete());
    assert_eq!(loaded.files().len(), 0);
}

#[test]
fn load_or_new_missing_path_is_fresh() {
    let m = Manifest::load_or_new(None);
    assert_eq!(m.version(), 1);
    assert!(m.is_incomplete());
    assert_eq!(m.files().len(), 0);
}

#[test]
fn load_or_new_corrupt_bytes_is_fresh() {
    let garbage = vec![0x13, 0x37, 0x00, 0xff];
    let m = Manifest::load_or_new(Some(&garbage));
    assert_eq!(m.version(), 1);
    assert!(m.is_incomplete());
    assert_eq!(m.files().len(), 0);
}

#[test]
fn load_or_new_truncated_record_is_fresh() {
    let mut bytes = sample_manifest().save();
    bytes.truncate(bytes.len() - 3);
    let m = Manifest::load_or_new(Some(&bytes));
    assert_eq!(m.version(), 1);
    assert!(m.is_incomplete());
}

#[test]
fn load_or_new_good_bytes_is_loaded() {
    let bytes = sample_manifest().save();
    let m = Manifest::load_or_new(Some(&bytes));
    assert_eq!(m.version(), 3);
    assert!(!m.is_incomplete());
    assert!(m.contains_target(&b"alpha".to_vec()));
}

#[test]
fn load_rejects_garbage() {
    assert!(Manifest::load(&vec![1, 2, 3]).is_none());
}

#[test]
fn is_updated_needs_version_and_completeness() {
    let mut m = Manifest::new_incomplete();
    assert!(!m.is_updated(1));
    m.set_update_complete_result(true);
    assert!(m.is_updated(1));
    assert!(!m.is_updated(2));
    m.update_version(2);
    assert!(m.is_updated(2));
    m.set_update_complete_result(false);
    assert!(!m.is_updated(2));
}

#[test]
fn target_match_is_length_or_hash() {
    let mut m = Manifest::new_incomplete();
    m.set_target(&b"a".to_vec(), 10, &vec![0x01]);
    // same length, different hash: still counted as up to date
    assert!(m.is_target_updated(&b"a".to_vec(), 10, &vec![0x02]));
    // different length, same hash: counted as up to date
    assert!(m.is_target_updated(&b"a".to_vec(), 11, &vec![0x01]));
    // both differ: not up to date
    assert!(!m.is_target_updated(&b"a".to_vec(), 11, &vec![0x02]));
    // unknown name: not up to date
    assert!(!m.is_target_updated(&b"b".to_vec(), 10, &vec![0x01]));
}

#[test]
fn set_target_overwrites() {
    let mut m = Manifest::new_incomplete();
    m.set_target(&b"a".to_vec(), 10, &vec![0x01]);
    m.set_target(&b"a".to_vec(), 12, &vec![0x03]);
    assert_eq!(m.files().len(), 1);
    assert!(m.is_target_updated(&b"a".to_vec(), 12, &vec![0x03]));
    assert!(!m.is_target_updated(&b"a".to_vec(), 10, &vec![0x04]));
}

#[test]
fn remove_target_drops_entry() {
    let mut m = sample_manifest();
    m.remove_target(&b"alpha".to_vec());
    assert!(!m.contains_target(&b"alpha".to_vec()));
    assert!(m.contains_target(&b"beta".to_vec()));
    m.remove_target(&b"missing".to_vec());
    assert_eq!(m.files().len(), 1);
}

#[test]
fn retain_targets_keeps_only_listed() {
    let mut m = sample_manifest();
    m.retain_targets(&vec![b"beta".to_vec(), b"gamma".to_vec()]);
    assert!(!m.contains_target(&b"alpha".to_vec()));
    assert!(m.contains_target(&b"beta".to_vec()));
    assert_eq!(m.files().len(), 1);
    assert_eq!(m.version(), 3);
}
