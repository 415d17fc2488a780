use updatekit::ActionOutcome;
use updatekit::Manifest;
use updatekit::ProgressWatcher;
use updatekit::TargetInfo;
use updatekit::UpdateAction;
use updatekit::UpdateError;
use updatekit::UpdateErrorKind;
use updatekit::UpdateProgress;
use updatekit::UpdateReport;
use updatekit::UpdateResult;
use updatekit::Updater;
use updatekit::targets_unique;

struct NoWatch;

impl ProgressWatcher for NoWatch {
    fn update_progress(&self, _progress: UpdateProgress) {}
}

fn target(name: &[u8], length: u64, hash: &[u8]) -> TargetInfo {
    TargetInfo { name: name.to_vec(), length, hash: hash.to_vec() }
}

/// Drives one whole pass, failing the named fetches and deletions.
fn run_pass(
    manifest: Manifest,
    targets: Vec<TargetInfo>,
    version: u64,
    fail_fetch: &[&[u8]],
    fail_delete: &[&[u8]],
) -> (Manifest, UpdateResult, Vec<UpdateAction>) {
    assert!(targets_unique(&targets));
    let mut u = Updater::begin(manifest, targets, version, b"self-exe".to_vec(), None::<NoWatch>);
    let mut actions: Vec<UpdateAction> = Vec::new();
    while let Some(act) = u.next_action() {
        let outcome = match &act {
            UpdateAction::FetchTarget { name, .. } => {
                if fail_fetch.iter().any(|f| f.to_vec() == *name) {
                    ActionOutcome::Failure
                } else {
                    ActionOutcome::Success
                }
            }
            UpdateAction::DeleteFile { name } => {
                if fail_delete.iter().any(|f| f.to_vec() == *name) {
                    ActionOutcome::Failure
                } else {
                    ActionOutcome::Success
                }
            }
        };
        actions.push(act);
        u.apply_outcome(outcome);
    }
    let (m, r) = u.finish(5);
    (m, r, actions)
}

fn report_of(r: &UpdateResult) -> &UpdateReport {
    match r {
        UpdateResult::CompleteUpdate(report) => report,
        UpdateResult::IncompleteUpdate { report, .. } => report,
        UpdateResult::AlreadyUpdated => panic!("no report on AlreadyUpdated"),
    }
}

fn errors_of(r: &UpdateResult) -> &Vec<UpdateError> {
    match r {
        UpdateResult::IncompleteUpdate { errs, .. } => errs,
        _ => panic!("not an incomplete update"),
    }
}

#[test]
fn updated_manifest_short_circuits() {
    let mut m = Manifest::new_incomplete();
    m.set_target(&b"a".to_vec(), 10, &vec![0x01]);
    m.update_version(4);
    m.set_update_complete_result(true);
    let targets = vec![target(b"a", 10, &[0x01])];
    let (m2, r, actions) = run_pass(m, targets, 4, &[], &[]);
    assert!(matches!(r, UpdateResult::AlreadyUpdated));
    assert_eq!(actions.len(), 0);
    assert!(m2.is_updated(4));
    assert!(m2.contains_target(&b"a".to_vec()));
}

#[test]
fn successful_pass_is_updated_for_release() {
    let m = Manifest::new_incomplete();
    let targets = vec![target(b"a", 10, &[0x01]), target(b"b", 5, &[0x02])];
    let (m2, r, actions) = run_pass(m, targets, 2, &[], &[]);
    assert!(matches!(r, UpdateResult::CompleteUpdate(_)));
    assert!(m2.is_updated(2));
    assert_eq!(actions.len(), 2);
    assert_eq!(report_of(&r).updated_files, 2);
    assert_eq!(report_of(&r).deleted_files, 0);
    assert_eq!(report_of(&r).update_time_millis, 5);
    assert!(m2.is_target_updated(&b"a".to_vec(), 10, &vec![0x01]));
    assert!(m2.is_target_updated(&b"b".to_vec(), 5, &vec![0x02]));
}

#[test]
fn partial_failure_is_not_updated_though_version_advanced() {
    let m = Manifest::new_incomplete();
    let targets = vec![target(b"a", 10, &[0x01])];
    let (m2, r, _) = run_pass(m, targets, 2, &[b"a"], &[]);
    assert!(matches!(r, UpdateResult::IncompleteUpdate { .. }));
    assert!(!m2.is_updated(2));
    assert_eq!(m2.version(), 2);
    assert!(m2.is_incomplete());
}

#[test]
fn second_pass_does_nothing() {
    let m = Manifest::new_incomplete();
    let targets = vec![target(b"a", 10, &[0x01]), target(b"b", 5, &[0x02])];
    let (m1, r1, actions1) = run_pass(m, targets, 7, &[], &[]);
    assert!(matches!(r1, UpdateResult::CompleteUpdate(_)));
    assert_eq!(actions1.len(), 2);
    let targets_again = vec![target(b"a", 10, &[0x01]), target(b"b", 5, &[0x02])];
    let (m2, r2, actions2) = run_pass(m1, targets_again, 7, &[], &[]);
    assert!(matches!(r2, UpdateResult::AlreadyUpdated));
    assert_eq!(actions2.len(), 0);
    assert!(m2.is_updated(7));
}

#[test]
fn length_match_masks_changed_hash() {
    // Recorded: a with length 10, hash H1; the release carries a with the
    // same length but hash H2, and a new b. The length-or-hash policy
    // counts a as applied, so only b is fetched.
    let mut m = Manifest::new_incomplete();
    m.set_target(&b"a".to_vec(), 10, &vec![0x11]);
    m.update_version(1);
    m.set_update_complete_result(true);
    let targets = vec![target(b"a", 10, &[0x22]), target(b"b", 5, &[0x33])];
    let (m2, r, actions) = run_pass(m, targets, 2, &[], &[]);
    assert!(matches!(r, UpdateResult::CompleteUpdate(_)));
    assert_eq!(actions.len(), 1);
    match &actions[0] {
        UpdateAction::FetchTarget { name, .. } => assert_eq!(name, &b"b".to_vec()),
        _ => panic!("expected a fetch"),
    }
    assert!(m2.is_updated(2));
    assert_eq!(report_of(&r).updated_files, 1);
}

#[test]
fn removed_target_is_deleted_from_manifest() {
    let mut m = Manifest::new_incomplete();
    m.set_target(&b"a".to_vec(), 10, &vec![0x01]);
    m.set_target(&b"b".to_vec(), 5, &vec![0x02]);
    m.update_version(1);
    m.set_update_complete_result(true);
    let targets = vec![target(b"a", 10, &[0x01])];
    let (m2, r, actions) = run_pass(m, targets, 2, &[], &[]);
    assert!(matches!(r, UpdateResult::CompleteUpdate(_)));
    assert_eq!(actions.len(), 1);
    match &actions[0] {
        UpdateAction::DeleteFile { name } => assert_eq!(name, &b"b".to_vec()),
        _ => panic!("expected a deletion"),
    }
    assert!(m2.contains_target(&b"a".to_vec()));
    assert!(!m2.contains_target(&b"b".to_vec()));
    assert_eq!(report_of(&r).updated_files, 0);
    assert_eq!(report_of(&r).deleted_files, 1);
}

#[test]
fn failed_deletion_keeps_entry_and_reports() {
    let mut m = Manifest::new_incomplete();
    m.set_target(&b"a".to_vec(), 10, &vec![0x01]);
    m.set_target(&b"b".to_vec(), 5, &vec![0x02]);
    m.update_version(1);
    m.set_update_complete_result(true);
    let targets = vec![target(b"a", 10, &[0x01])];
    let (m2, r, _) = run_pass(m, targets, 2, &[], &[b"b"]);
    assert!(matches!(r, UpdateResult::IncompleteUpdate { .. }));
    assert!(m2.contains_target(&b"b".to_vec()));
    let errs = errors_of(&r);
    assert_eq!(errs.len(), 1);
    assert_eq!(errs[0].name, b"b".to_vec());
    assert_eq!(errs[0].kind, UpdateErrorKind::DeleteFailed);
    assert_eq!(report_of(&r).deleted_files, 0);
    assert!(m2.is_incomplete());
}

#[test]
fn one_failed_fetch_leaves_siblings_applied() {
    let m = Manifest::new_incomplete();
    let targets =
        vec![target(b"a", 10, &[0x01]), target(b"b", 5, &[0x02]), target(b"c", 7, &[0x03])];
    let (m2, r, actions) = run_pass(m, targets, 3, &[b"c"], &[]);
    assert_eq!(actions.len(), 3);
    assert!(m2.contains_target(&b"a".to_vec()));
    assert!(m2.contains_target(&b"b".to_vec()));
    assert!(!m2.contains_target(&b"c".to_vec()));
    let errs = errors_of(&r);
    assert_eq!(errs.len(), 1);
    assert_eq!(errs[0].name, b"c".to_vec());
    assert_eq!(errs[0].kind, UpdateErrorKind::FetchFailed);
    assert!(m2.is_incomplete());
    assert_eq!(m2.version(), 3);
    assert_eq!(report_of(&r).updated_files, 2);
}

#[test]
fn empty_release_completes_at_once() {
    let m = Manifest::new_incomplete();
    let (m2, r, actions) = run_pass(m, Vec::new(), 1, &[], &[]);
    assert!(matches!(r, UpdateResult::CompleteUpdate(_)));
    assert_eq!(actions.len(), 0);
    assert!(m2.is_updated(1));
}

#[test]
fn self_target_is_flagged_for_replacement() {
    let m = Manifest::new_incomplete();
    let targets = vec![target(b"other", 1, &[0x01]), target(b"self-exe", 2, &[0x02])];
    let (_, _, actions) = run_pass(m, targets, 1, &[], &[]);
    let mut self_flags = Vec::new();
    for act in &actions {
        match act {
            UpdateAction::FetchTarget { name, replaces_self } => {
                self_flags.push((name.clone(), *replaces_self));
            }
            _ => panic!("no deletions expected"),
        }
    }
    assert_eq!(self_flags.len(), 2);
    assert_eq!(self_flags[0], (b"other".to_vec(), false));
    assert_eq!(self_flags[1], (b"self-exe".to_vec(), true));
}

#[test]
fn duplicate_target_names_are_detected() {
    let dup = vec![target(b"a", 1, &[0x01]), target(b"a", 2, &[0x02])];
    assert!(!targets_unique(&dup));
    let ok = vec![target(b"a", 1, &[0x01]), target(b"b", 2, &[0x02])];
    assert!(targets_unique(&ok));
}

#[test]
fn retry_after_failure_fetches_only_missing() {
    let m = Manifest::new_incomplete();
    let targets = vec![target(b"a", 10, &[0x01]), target(b"c", 7, &[0x03])];
    let (m1, _, _) = run_pass(m, targets, 2, &[b"c"], &[]);
    assert!(!m1.is_updated(2));
    // the next pass retries: only c is fetched again
    let targets_again = vec![target(b"a", 10, &[0x01]), target(b"c", 7, &[0x03])];
    let (m2, r2, actions2) = run_pass(m1, targets_again, 2, &[], &[]);
    assert_eq!(actions2.len(), 1);
    match &actions2[0] {
        UpdateAction::FetchTarget { name, .. } => assert_eq!(name, &b"c".to_vec()),
        _ => panic!("expected a fetch"),
    }
    assert!(matches!(r2, UpdateResult::CompleteUpdate(_)));
    assert!(m2.is_updated(2));
}

struct Recorder {
    events: std::cell::RefCell<Vec<String>>,
}

impl ProgressWatcher for Recorder {
    fn update_progress(&self, progress: UpdateProgress) {
        let tag = match progress {
            UpdateProgress::StartFileDownload(name) => {
                format!("start:{}", String::from_utf8_lossy(&name))
            }
            UpdateProgress::UpdateFileProgress(done, total) => format!("bytes:{done}/{total}"),
            UpdateProgress::FinishFileDownload => "finish-file".to_string(),
            UpdateProgress::FinishUpdate => "finish-update".to_string(),
        };
        self.events.borrow_mut().push(tag);
    }
}

#[test]
fn watcher_sees_lifecycle_events() {
    let recorder = Recorder { events: std::cell::RefCell::new(Vec::new()) };
    let targets = vec![target(b"a", 10, &[0x01])];
    let mut u = Updater::begin(
        Manifest::new_incomplete(),
        targets,
        1,
        b"self-exe".to_vec(),
        Some(recorder),
    );
    while let Some(act) = u.next_action() {
        assert!(matches!(act, UpdateAction::FetchTarget { .. }));
        u.report_progress(50, 100);
        u.apply_outcome(ActionOutcome::Success);
    }
    let events = u.watcher.as_ref().unwrap().events.borrow().clone();
    assert_eq!(
        events,
        vec![
            "start:a".to_string(),
            "bytes:50/100".to_string(),
            "finish-file".to_string(),
            "finish-update".to_string(),
        ]
    );
    drop(events);
    let (m, r) = u.finish(0);
    assert!(matches!(r, UpdateResult::CompleteUpdate(_)));
    assert!(m.is_updated(1));
}

#[test]
fn pass_survives_save_and_load() {
    let m = Manifest::new_incomplete();
    let targets = vec![target(b"a", 10, &[0x01])];
    let (m1, _, _) = run_pass(m, targets, 2, &[], &[]);
    let bytes = m1.save();
    let m2 = Manifest::load_or_new(Some(&bytes));
    assert!(m2.is_updated(2));
    let targets_again = vec![target(b"a", 10, &[0x01])];
    let (_, r, actions) = run_pass(m2, targets_again, 2, &[], &[]);
    assert!(matches!(r, UpdateResult::AlreadyUpdated));
    assert_eq!(actions.len(), 0);
}
