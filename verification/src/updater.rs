use vstd::prelude::*;

use crate::manifest::bytes_eq;
use crate::manifest::clone_bytes;
use crate::manifest::entries_of;
use crate::manifest::kv_map;
use crate::manifest::kv_unique;
use crate::manifest::lemma_kv_map_dom;
use crate::manifest::lemma_kv_map_index;
use crate::manifest::EntryMeta;
use crate::manifest::EntrySeq;
use crate::manifest::Manifest;

verus! {

/// The remote-declared expected state of one file, supplied already
/// verified by the trust layer.
#[derive(Debug)]
pub struct TargetInfo {
    pub name: Vec<u8>,
    pub length: u64,
    pub hash: Vec<u8>,
}

/// Ghost form of a target list.
pub open spec fn targets_entries(ts: Seq<TargetInfo>) -> EntrySeq {
    ts.map_values(|t: TargetInfo| (t.name@, (t.length, t.hash@)))
}

/// Ghost name-to-meta-data map of a target list.
pub open spec fn targets_map(ts: Seq<TargetInfo>) -> Map<Seq<u8>, EntryMeta> {
    kv_map(targets_entries(ts))
}

/// One lifecycle event of a reconciliation pass.
#[derive(Debug)]
pub enum UpdateProgress {
    StartFileDownload(Vec<u8>),
    UpdateFileProgress(u64, u64),
    FinishFileDownload,
    FinishUpdate,
}

/// Observer of lifecycle events. Side-effect only: nothing of the pass
/// depends on it, and it cannot report back.
pub trait ProgressWatcher {
    fn update_progress(&self, progress: UpdateProgress);
}

/// What a finished pass did.
#[derive(Debug)]
pub struct UpdateReport {
    pub updated_files: usize,
    pub deleted_files: usize,
    pub update_time_millis: u64,
}

#[derive(Clone, Copy, Debug, PartialEq, Eq)]
pub enum UpdateErrorKind {
    FetchFailed,
    DeleteFailed,
}

/// A per-target failure, with the name it belongs to.
#[derive(Debug)]
pub struct UpdateError {
    pub name: Vec<u8>,
    pub kind: UpdateErrorKind,
}

/// Outcome of one reconciliation pass.
#[derive(Debug)]
pub enum UpdateResult {
    AlreadyUpdated,
    IncompleteUpdate { errs: Vec<UpdateError>, report: UpdateReport },
    CompleteUpdate(UpdateReport),
}

/// What the driver must do next: fetch a target into the distribution
/// directory, or delete a stale file from it. When `replaces_self` is set
/// the named target is the running executable, and the driver must make
/// room for it (platform-specific) before writing.
#[derive(Debug)]
pub enum UpdateAction {
    FetchTarget { name: Vec<u8>, replaces_self: bool },
    DeleteFile { name: Vec<u8> },
}

/// How the issued action went.
#[derive(Clone, Copy, Debug)]
pub enum ActionOutcome {
    Success,
    Failure,
}

#[derive(Clone, Copy, Debug)]
pub enum PassPhase {
    Updating,
    Deleting,
    Finished,
}

/// An error is recorded for this name.
pub open spec fn has_error_for(errs: Seq<UpdateError>, name: Seq<u8>) -> bool {
    exists|i: int| 0 <= i < errs.len() && (#[trigger] errs[i]).name@ == name
}

/// Target `j` is resolved: recorded as applied, or charged with an error.
pub open spec fn target_resolved_at(
    manifest: Manifest,
    tents: EntrySeq,
    errs: Seq<UpdateError>,
    j: int,
) -> bool {
    manifest.spec_target_updated(tents[j].0, tents[j].1.0, tents[j].1.1) || has_error_for(
        errs,
        tents[j].0,
    )
}

/// The first `n` targets are resolved.
pub open spec fn resolved_upto(
    manifest: Manifest,
    tents: EntrySeq,
    errs: Seq<UpdateError>,
    n: int,
) -> bool {
    forall|j: int| 0 <= j < n ==> target_resolved_at(manifest, tents, errs, j)
}

/// Queued stale names at or after `from`: each recorded locally and no
/// longer a target.
pub open spec fn stale_ok_from(
    manifest: Manifest,
    tents: EntrySeq,
    stale: Seq<Vec<u8>>,
    from: int,
) -> bool {
    forall|i: int|
        from <= i < stale.len() ==> manifest.files_map().contains_key((#[trigger] stale[i])@)
            && !kv_map(tents).contains_key(stale[i]@)
}

/// Every recorded name is still wanted, still queued for deletion at or
/// after `from`, or charged with an error.
pub open spec fn keys_covered_from(
    manifest: Manifest,
    tents: EntrySeq,
    stale: Seq<Vec<u8>>,
    errs: Seq<UpdateError>,
    from: int,
) -> bool {
    forall|k: Seq<u8>|
        #[trigger] manifest.files_map().contains_key(k) ==> kv_map(tents).contains_key(k) || (
        exists|i: int| from <= i < stale.len() && (#[trigger] stale[i])@ == k) || has_error_for(
            errs,
            k,
        )
}

pub open spec fn stale_distinct_from(stale: Seq<Vec<u8>>, from: int) -> bool {
    forall|i1: int, i2: int|
        from <= i1 < i2 < stale.len() ==> (#[trigger] stale[i1])@ != (#[trigger] stale[i2])@
}

/// One reconciliation pass, driven step by step: `begin` decides whether
/// anything is to do at all, `next_action` hands out the next fetch or
/// deletion, `apply_outcome` records how it went, and `finish` seals the
/// manifest and reports. The pass itself performs no I/O; the caller does,
/// between `next_action` and `apply_outcome`.
pub struct Updater<W: ProgressWatcher> {
    pub manifest: Manifest,
    pub targets: Vec<TargetInfo>,
    pub version: u64,
    pub safe_delete_exe_target: Vec<u8>,
    pub watcher: Option<W>,
    pub phase: PassPhase,
    pub already: bool,
    pub t_idx: usize,
    pub stale: Vec<Vec<u8>>,
    pub d_idx: usize,
    pub pending: bool,
    pub updated_files: usize,
    pub deleted_files: usize,
    pub errs: Vec<UpdateError>,
}

impl<W: ProgressWatcher> Updater<W> {
    pub open spec fn tentries(self) -> EntrySeq {
        targets_entries(self.targets@)
    }

    pub open spec fn tmap(self) -> Map<Seq<u8>, EntryMeta> {
        targets_map(self.targets@)
    }

    pub open spec fn wf(self) -> bool {
        &&& self.manifest.wf()
        &&& kv_unique(self.tentries())
        &&& self.version >= 1
        &&& self.t_idx <= self.targets@.len()
        &&& self.d_idx <= self.stale@.len()
        &&& self.updated_files <= self.t_idx
        &&& self.deleted_files <= self.d_idx
        &&& (self.already ==> self.phase is Finished && self.errs@.len() == 0)
        &&& (self.pending ==> !(self.phase is Finished))
        &&& (self.pending && self.phase is Deleting ==> self.d_idx < self.stale@.len())
        &&& (self.pending && self.phase is Updating ==> self.t_idx < self.targets@.len())
        &&& (self.phase is Updating ==> self.d_idx == 0 && self.stale@.len() == 0
            && resolved_upto(self.manifest, self.tentries(), self.errs@, self.t_idx as int))
        &&& (self.phase is Deleting ==> resolved_upto(
            self.manifest,
            self.tentries(),
            self.errs@,
            self.targets@.len() as int,
        ) && keys_covered_from(
            self.manifest,
            self.tentries(),
            self.stale@,
            self.errs@,
            self.d_idx as int,
        ) && stale_distinct_from(self.stale@, self.d_idx as int) && stale_ok_from(
            self.manifest,
            self.tentries(),
            self.stale@,
            self.d_idx as int,
        ))
        &&& (self.phase is Finished && !self.already ==> resolved_upto(
            self.manifest,
            self.tentries(),
            self.errs@,
            self.targets@.len() as int,
        ) && keys_covered_from(
            self.manifest,
            self.tentries(),
            self.stale@,
            self.errs@,
            self.stale@.len() as int,
        ))
    }

    fn update_progress(&self, progress: UpdateProgress) {
        match &self.watcher {
            Some(w) => w.update_progress(progress),
            None => {},
        }
    }

    /// Forwards a byte-level progress report to the watcher, if any.
    pub fn report_progress(&self, bytes_done: u64, bytes_total: u64) {
        self.update_progress(UpdateProgress::UpdateFileProgress(bytes_done, bytes_total));
    }

    /// Opens a pass toward `snapshot_version`. When the manifest already
    /// answers for that version the pass is born finished: no action will
    /// be handed out, and `finish` reports `AlreadyUpdated`.
    pub fn begin(
        manifest: Manifest,
        targets: Vec<TargetInfo>,
        snapshot_version: u64,
        safe_delete_exe_target: Vec<u8>,
        watcher: Option<W>,
    ) -> (u: Updater<W>)
        requires
            manifest.wf(),
            snapshot_version >= 1,
            kv_unique(targets_entries(targets@)),
        ensures
            u.wf(),
            u.manifest == manifest,
            u.targets == targets,
            u.version == snapshot_version,
            u.safe_delete_exe_target == safe_delete_exe_target,
            u.already == manifest.spec_is_updated(snapshot_version),
            !u.pending,
            u.errs@.len() == 0,
            u.updated_files == 0,
            u.deleted_files == 0,
            u.already ==> u.phase is Finished,
            !u.already ==> u.phase is Updating && u.t_idx == 0,
    {
        let already = manifest.is_updated(snapshot_version);
        let u = Updater {
            manifest,
            targets,
            version: snapshot_version,
            safe_delete_exe_target,
            watcher,
            phase: if already {
                PassPhase::Finished
            } else {
                PassPhase::Updating
            },
            already,
            t_idx: 0,
            stale: Vec::new(),
            d_idx: 0,
            pending: false,
            updated_files: 0,
            deleted_files: 0,
            errs: Vec::new(),
        };
        u
    }

    /// Hands out the next action of the pass, or `None` when the pass is
    /// finished. Targets that the manifest already records as applied are
    /// skipped without any action; a pass that was born already updated
    /// never hands out an action.
    pub fn next_action(&mut self) -> (a: Option<UpdateAction>)
        requires
            old(self).wf(),
            !old(self).pending,
        ensures
            final(self).wf(),
            final(self).manifest == old(self).manifest,
            final(self).targets == old(self).targets,
            final(self).version == old(self).version,
            final(self).safe_delete_exe_target == old(self).safe_delete_exe_target,
            final(self).errs == old(self).errs,
            final(self).updated_files == old(self).updated_files,
            final(self).deleted_files == old(self).deleted_files,
            final(self).already == old(self).already,
            old(self).already ==> a is None,
            match a {
                Some(act) => final(self).pending && match act {
                    UpdateAction::FetchTarget { name, replaces_self } => {
                        &&& final(self).phase is Updating
                        &&& final(self).t_idx < final(self).targets@.len()
                        &&& name@ == final(self).tentries()[final(self).t_idx as int].0
                        &&& !final(self).manifest.spec_target_updated(
                            final(self).tentries()[final(self).t_idx as int].0,
                            final(self).tentries()[final(self).t_idx as int].1.0,
                            final(self).tentries()[final(self).t_idx as int].1.1,
                        )
                        &&& replaces_self == (name@ == final(self).safe_delete_exe_target@)
                    },
                    UpdateAction::DeleteFile { name } => {
                        &&& final(self).phase is Deleting
                        &&& final(self).d_idx < final(self).stale@.len()
                        &&& name@ == final(self).stale@[final(self).d_idx as int]@
                        &&& final(self).manifest.files_map().contains_key(name@)
                        &&& !final(self).tmap().contains_key(name@)
                    },
                },
                None => !final(self).pending && final(self).phase is Finished,
            },
    {
        match self.phase {
            PassPhase::Updating => {
                while self.t_idx < self.targets.len()
                    invariant
                        self.wf(),
                        self.phase is Updating,
                        !self.pending,
                        self.manifest == old(self).manifest,
                        self.targets == old(self).targets,
                        self.version == old(self).version,
                        self.safe_delete_exe_target == old(self).safe_delete_exe_target,
                        self.errs == old(self).errs,
                        self.updated_files == old(self).updated_files,
                        self.deleted_files == old(self).deleted_files,
                        self.already == old(self).already,
                        self.stale == old(self).stale,
                        self.d_idx == old(self).d_idx,
                        self.watcher == old(self).watcher,
                    decreases self.targets@.len() - self.t_idx,
                {
                    let ghost j0 = self.t_idx as int;
                    let t = &self.targets[self.t_idx];
                    proof {
                        assert(self.tentries()[j0] == (t.name@, (t.length, t.hash@)));
                    }
                    if self.manifest.is_target_updated(&t.name, t.length, &t.hash) {
                        proof {
                            assert(target_resolved_at(self.manifest, self.tentries(), self.errs@, j0));
                        }
                        self.t_idx += 1;
                        proof {
                            assert forall|j: int| 0 <= j < self.t_idx implies target_resolved_at(
                                self.manifest,
                                self.tentries(),
                                self.errs@,
                                j,
                            ) by {}
                        }
                    } else {
                        self.update_progress(
                            UpdateProgress::StartFileDownload(clone_bytes(&t.name)),
                        );
                        let name = clone_bytes(&t.name);
                        let replaces_self = bytes_eq(&t.name, &self.safe_delete_exe_target);
                        self.pending = true;
                        return Some(UpdateAction::FetchTarget { name, replaces_self });
                    }
                }
                self.update_progress(UpdateProgress::FinishUpdate);
                let ghost m0 = self.manifest;
                let ghost te0 = self.tentries();
                let ghost ev = self.errs@;
                let stale = stale_names(&self.manifest, &self.targets);
                let ghost sv = stale@;
                proof {
                    assert(targets_map(self.targets@) == kv_map(te0));
                    assert(resolved_upto(m0, te0, ev, self.targets@.len() as int));
                    assert forall|k: Seq<u8>| #[trigger] m0.files_map().contains_key(k) implies
                        kv_map(te0).contains_key(k) || (exists|i: int|
                        0 <= i < sv.len() && (#[trigger] sv[i])@ == k) || has_error_for(ev, k) by {
                        if !kv_map(te0).contains_key(k) {
                            assert(m0.files_map().contains_key(k) && !targets_map(
                                self.targets@,
                            ).contains_key(k));
                        }
                    }
                    assert(keys_covered_from(m0, te0, sv, ev, 0));
                    assert forall|i: int|
                        0 <= i < sv.len() implies m0.files_map().contains_key((#[trigger] sv[i])@)
                        && !kv_map(te0).contains_key(sv[i]@) by {}
                    assert(stale_ok_from(m0, te0, sv, 0));
                    assert forall|i1: int, i2: int|
                        0 <= i1 < i2 < sv.len() implies (#[trigger] sv[i1])@ != (
                    #[trigger] sv[i2])@ by {}
                    assert(stale_distinct_from(sv, 0));
                }
                self.stale = stale;
                self.phase = PassPhase::Deleting;
                proof {
                    assert(self.manifest == m0 && self.tentries() == te0 && self.errs@ == ev
                        && self.stale@ == sv);
                    assert(keys_covered_from(self.manifest, self.tentries(), self.stale@, self.errs@, 0));
                    assert(stale_ok_from(self.manifest, self.tentries(), self.stale@, 0));
                    assert(stale_distinct_from(self.stale@, 0));
                    assert(resolved_upto(
                        self.manifest,
                        self.tentries(),
                        self.errs@,
                        self.targets@.len() as int,
                    ));
                }
                self.next_delete()
            },
            PassPhase::Deleting => self.next_delete(),
            PassPhase::Finished => None,
        }
    }

    fn next_delete(&mut self) -> (a: Option<UpdateAction>)
        requires
            old(self).wf(),
            !old(self).pending,
            old(self).phase is Deleting,
        ensures
            final(self).wf(),
            final(self).manifest == old(self).manifest,
            final(self).targets == old(self).targets,
            final(self).version == old(self).version,
            final(self).safe_delete_exe_target == old(self).safe_delete_exe_target,
            final(self).errs == old(self).errs,
            final(self).updated_files == old(self).updated_files,
            final(self).deleted_files == old(self).deleted_files,
            final(self).already == old(self).already,
            match a {
                Some(act) => final(self).pending && match act {
                    UpdateAction::FetchTarget { .. } => false,
                    UpdateAction::DeleteFile { name } => {
                        &&& final(self).phase is Deleting
                        &&& final(self).d_idx < final(self).stale@.len()
                        &&& name@ == final(self).stale@[final(self).d_idx as int]@
                        &&& final(self).manifest.files_map().contains_key(name@)
                        &&& !final(self).tmap().contains_key(name@)
                    },
                },
                None => !final(self).pending && final(self).phase is Finished,
            },
    {
        if self.d_idx < self.stale.len() {
            proof {
                assert(self.manifest.files_map().contains_key(self.stale@[self.d_idx as int]@)
                    && !kv_map(self.tentries()).contains_key(self.stale@[self.d_idx as int]@));
            }
            let name = clone_bytes(&self.stale[self.d_idx]);
            self.pending = true;
            Some(UpdateAction::DeleteFile { name })
        } else {
            self.phase = PassPhase::Finished;
            None
        }
    }

    /// Records how the issued action went. A success is recorded in the
    /// manifest (an upsert after a fetch, a removal after a deletion); a
    /// failure leaves the manifest untouched and charges exactly one error
    /// to the target's name.
    pub fn apply_outcome(&mut self, outcome: ActionOutcome)
        requires
            old(self).wf(),
            old(self).pending,
        ensures
            final(self).wf(),
            !final(self).pending,
            final(self).targets == old(self).targets,
            final(self).version == old(self).version,
            final(self).safe_delete_exe_target == old(self).safe_delete_exe_target,
            final(self).already == old(self).already,
            final(self).phase == old(self).phase,
            final(self).stale == old(self).stale,
            final(self).manifest.spec_version() == old(self).manifest.spec_version(),
            final(self).manifest.spec_incomplete() == old(self).manifest.spec_incomplete(),
            old(self).phase is Updating ==> {
                &&& final(self).t_idx == old(self).t_idx + 1
                &&& final(self).deleted_files == old(self).deleted_files
                &&& match outcome {
                    ActionOutcome::Success => {
                        &&& final(self).manifest.files_map() == old(
                            self,
                        ).manifest.files_map().insert(
                            old(self).tentries()[old(self).t_idx as int].0,
                            old(self).tentries()[old(self).t_idx as int].1,
                        )
                        &&& final(self).errs == old(self).errs
                        &&& final(self).updated_files == old(self).updated_files + 1
                    },
                    ActionOutcome::Failure => {
                        &&& final(self).manifest.files_map() == old(self).manifest.files_map()
                        &&& final(self).updated_files == old(self).updated_files
                        &&& final(self).errs@.len() == old(self).errs@.len() + 1
                        &&& final(self).errs@.take(old(self).errs@.len() as int) == old(self).errs@
                        &&& final(self).errs@.last().name@ == old(self).tentries()[old(
                            self,
                        ).t_idx as int].0
                        &&& final(self).errs@.last().kind is FetchFailed
                    },
                }
            },
            old(self).phase is Deleting ==> {
                &&& final(self).d_idx == old(self).d_idx + 1
                &&& final(self).updated_files == old(self).updated_files
                &&& match outcome {
                    ActionOutcome::Success => {
                        &&& final(self).manifest.files_map() == old(
                            self,
                        ).manifest.files_map().remove(old(self).stale@[old(self).d_idx as int]@)
                        &&& final(self).errs == old(self).errs
                        &&& final(self).deleted_files == old(self).deleted_files + 1
                    },
                    ActionOutcome::Failure => {
                        &&& final(self).manifest.files_map() == old(self).manifest.files_map()
                        &&& final(self).deleted_files == old(self).deleted_files
                        &&& final(self).errs@.len() == old(self).errs@.len() + 1
                        &&& final(self).errs@.take(old(self).errs@.len() as int) == old(self).errs@
                        &&& final(self).errs@.last().name@ == old(self).stale@[old(
                            self,
                        ).d_idx as int]@
                        &&& final(self).errs@.last().kind is DeleteFailed
                    },
                }
            },
    {
        match self.phase {
            PassPhase::Updating => {
                let ghost j0 = self.t_idx as int;
                let n = self.targets.len();
                match outcome {
                    ActionOutcome::Success => {
                        let name = clone_bytes(&self.targets[self.t_idx].name);
                        let hash = clone_bytes(&self.targets[self.t_idx].hash);
                        let length = self.targets[self.t_idx].length;
                        proof {
                            assert(self.tentries()[j0] == (name@, (length, hash@)));
                        }
                        self.update_progress(UpdateProgress::FinishFileDownload);
                        self.manifest.set_target(&name, length, &hash);
                        self.updated_files += 1;
                        self.t_idx += 1;
                        proof {
                            lemma_resolved_after_set(
                                old(self).manifest,
                                self.manifest,
                                self.tentries(),
                                self.errs@,
                                j0,
                            );
                        }
                    },
                    ActionOutcome::Failure => {
                        let name = clone_bytes(&self.targets[self.t_idx].name);
                        proof {
                            assert(self.tentries()[j0].0 == name@);
                        }
                        self.errs.push(UpdateError { name, kind: UpdateErrorKind::FetchFailed });
                        self.t_idx += 1;
                        proof {
                            assert(self.errs@.take(self.errs@.len() - 1) =~= old(self).errs@);
                            lemma_resolved_after_push_error(
                                self.manifest,
                                self.tentries(),
                                old(self).errs@,
                                self.errs@,
                                j0,
                            );
                        }
                    },
                }
            },
            PassPhase::Deleting => {
                let ghost i0 = self.d_idx as int;
                let nd = self.stale.len();
                proof {
                    assert(self.manifest.files_map().contains_key(self.stale@[i0]@) && !kv_map(
                        self.tentries(),
                    ).contains_key(self.stale@[i0]@));
                }
                match outcome {
                    ActionOutcome::Success => {
                        let name = clone_bytes(&self.stale[self.d_idx]);
                        self.manifest.remove_target(&name);
                        self.deleted_files += 1;
                        self.d_idx += 1;
                        proof {
                            lemma_covered_after_remove(
                                old(self).manifest,
                                self.manifest,
                                self.tentries(),
                                self.stale@,
                                self.errs@,
                                i0,
                            );
                        }
                    },
                    ActionOutcome::Failure => {
                        let name = clone_bytes(&self.stale[self.d_idx]);
                        self.errs.push(UpdateError { name, kind: UpdateErrorKind::DeleteFailed });
                        self.d_idx += 1;
                        proof {
                            assert(self.errs@.take(self.errs@.len() - 1) =~= old(self).errs@);
                            lemma_covered_after_error(
                                self.manifest,
                                self.tentries(),
                                self.stale@,
                                old(self).errs@,
                                self.errs@,
                                i0,
                            );
                        }
                    },
                }
            },
            PassPhase::Finished => {
                proof {
                    assert(false);
                }
            },
        }
        self.pending = false;
    }

    /// Seals the pass: stamps the release version, marks the manifest
    /// complete exactly when no error was collected, and reports what was
    /// done. The caller persists the returned manifest; a pass born already
    /// updated hands the manifest back untouched. A manifest sealed without
    /// failures answers `is_updated` for the release; one sealed after any
    /// failure answers it for no version at all, though the version was
    /// advanced.
    pub fn finish(self, elapsed_millis: u64) -> (r: (Manifest, UpdateResult))
        requires
            self.wf(),
            self.phase is Finished,
            !self.pending,
        ensures
            r.0.wf(),
            self.already ==> r.1 is AlreadyUpdated && r.0 == self.manifest,
            !self.already ==> {
                &&& r.0.files_map() == self.manifest.files_map()
                &&& r.0.spec_version() == self.version
                &&& r.0.spec_incomplete() == (self.errs@.len() > 0)
                &&& (self.errs@.len() == 0 ==> r.0.spec_is_updated(self.version))
                &&& (self.errs@.len() > 0 ==> forall|v: u64| !r.0.spec_is_updated(v))
                &&& resolved_upto(
                    self.manifest,
                    targets_entries(self.targets@),
                    self.errs@,
                    self.targets@.len() as int,
                )
                &&& (forall|k: Seq<u8>|
                    #[trigger] r.0.files_map().contains_key(k) ==> targets_map(
                        self.targets@,
                    ).contains_key(k) || has_error_for(self.errs@, k))
            },
            match r.1 {
                UpdateResult::AlreadyUpdated => self.already,
                UpdateResult::CompleteUpdate(report) => {
                    &&& !self.already
                    &&& self.errs@.len() == 0
                    &&& report.updated_files == self.updated_files
                    &&& report.deleted_files == self.deleted_files
                    &&& report.update_time_millis == elapsed_millis
                },
                UpdateResult::IncompleteUpdate { errs, report } => {
                    &&& !self.already
                    &&& errs@ == self.errs@
                    &&& errs@.len() > 0
                    &&& report.updated_files == self.updated_files
                    &&& report.deleted_files == self.deleted_files
                    &&& report.update_time_millis == elapsed_millis
                },
            },
    {
        proof {
            if !self.already {
                assert forall|k: Seq<u8>|
                    #[trigger] self.manifest.files_map().contains_key(k) implies targets_map(
                    self.targets@,
                ).contains_key(k) || has_error_for(self.errs@, k) by {
                    assert(keys_covered_from(
                        self.manifest,
                        self.tentries(),
                        self.stale@,
                        self.errs@,
                        self.stale@.len() as int,
                    ));
                }
            }
        }
        let Updater { manifest, updated_files, deleted_files, errs, version, already, .. } = self;
        if already {
            return (manifest, UpdateResult::AlreadyUpdated);
        }
        let mut m = manifest;
        let complete = errs.is_empty();
        m.set_update_complete_result(complete);
        m.update_version(version);
        let report = UpdateReport {
            updated_files,
            deleted_files,
            update_time_millis: elapsed_millis,
        };
        let r = if complete {
            UpdateResult::CompleteUpdate(report)
        } else {
            UpdateResult::IncompleteUpdate { errs, report }
        };
        (m, r)
    }
}

proof fn lemma_error_prefix(errs0: Seq<UpdateError>, errs1: Seq<UpdateError>, k: Seq<u8>)
    requires
        errs1.len() >= errs0.len(),
        errs1.take(errs0.len() as int) == errs0,
        has_error_for(errs0, k),
    ensures
        has_error_for(errs1, k),
{
    let w = choose|i: int| 0 <= i < errs0.len() && (#[trigger] errs0[i]).name@ == k;
    assert(errs1.take(errs0.len() as int)[w] == errs1[w]);
    assert(errs1[w].name@ == k);
}

proof fn lemma_resolved_after_set(
    m0: Manifest,
    m1: Manifest,
    tents: EntrySeq,
    errs: Seq<UpdateError>,
    j0: int,
)
    requires
        kv_unique(tents),
        0 <= j0 < tents.len(),
        resolved_upto(m0, tents, errs, j0),
        m1.files_map() == m0.files_map().insert(tents[j0].0, tents[j0].1),
    ensures
        resolved_upto(m1, tents, errs, j0 + 1),
{
    assert forall|j: int| 0 <= j < j0 + 1 implies target_resolved_at(m1, tents, errs, j) by {
        if j < j0 {
            assert(target_resolved_at(m0, tents, errs, j));
            assert(tents[j].0 != tents[j0].0);
        } else {
            assert(m1.files_map()[tents[j0].0] == tents[j0].1);
        }
    }
}

proof fn lemma_resolved_after_push_error(
    m: Manifest,
    tents: EntrySeq,
    errs0: Seq<UpdateError>,
    errs1: Seq<UpdateError>,
    j0: int,
)
    requires
        0 <= j0 < tents.len(),
        resolved_upto(m, tents, errs0, j0),
        errs1.len() == errs0.len() + 1,
        errs1.take(errs0.len() as int) == errs0,
        errs1.last().name@ == tents[j0].0,
    ensures
        resolved_upto(m, tents, errs1, j0 + 1),
{
    assert forall|j: int| 0 <= j < j0 + 1 implies target_resolved_at(m, tents, errs1, j) by {
        if j < j0 {
            assert(target_resolved_at(m, tents, errs0, j));
            if has_error_for(errs0, tents[j].0) {
                lemma_error_prefix(errs0, errs1, tents[j].0);
            }
        } else {
            assert(errs1[errs1.len() - 1].name@ == tents[j0].0);
        }
    }
}

proof fn lemma_covered_after_remove(
    m0: Manifest,
    m1: Manifest,
    tents: EntrySeq,
    stale: Seq<Vec<u8>>,
    errs: Seq<UpdateError>,
    i0: int,
)
    requires
        kv_unique(tents),
        0 <= i0 < stale.len(),
        resolved_upto(m0, tents, errs, tents.len() as int),
        keys_covered_from(m0, tents, stale, errs, i0),
        stale_distinct_from(stale, i0),
        stale_ok_from(m0, tents, stale, i0),
        m1.files_map() == m0.files_map().remove(stale[i0]@),
    ensures
        resolved_upto(m1, tents, errs, tents.len() as int),
        keys_covered_from(m1, tents, stale, errs, i0 + 1),
        stale_distinct_from(stale, i0 + 1),
        stale_ok_from(m1, tents, stale, i0 + 1),
{
    let k0 = stale[i0]@;
    assert(!kv_map(tents).contains_key(k0));
    assert forall|j: int| 0 <= j < tents.len() implies target_resolved_at(m1, tents, errs, j) by {
        assert(target_resolved_at(m0, tents, errs, j));
        lemma_kv_map_index(tents, j);
        assert(kv_map(tents).contains_key(tents[j].0));
        assert(tents[j].0 != k0);
    }
    assert forall|i: int| i0 + 1 <= i < stale.len() implies m1.files_map().contains_key(
        (#[trigger] stale[i])@,
    ) && !kv_map(tents).contains_key(stale[i]@) by {
        assert(m0.files_map().contains_key(stale[i]@));
        assert(stale[i0]@ != stale[i]@);
    }
    assert forall|k: Seq<u8>| #[trigger] m1.files_map().contains_key(k) implies kv_map(
        tents,
    ).contains_key(k) || (exists|i: int|
        i0 + 1 <= i < stale.len() && (#[trigger] stale[i])@ == k) || has_error_for(errs, k) by {
        assert(m0.files_map().contains_key(k));
        assert(k != k0);
        if !kv_map(tents).contains_key(k) && !has_error_for(errs, k) {
            let i = choose|i: int| i0 <= i < stale.len() && (#[trigger] stale[i])@ == k;
            assert(i != i0);
        }
    }
}

proof fn lemma_covered_after_error(
    m: Manifest,
    tents: EntrySeq,
    stale: Seq<Vec<u8>>,
    errs0: Seq<UpdateError>,
    errs1: Seq<UpdateError>,
    i0: int,
)
    requires
        0 <= i0 < stale.len(),
        resolved_upto(m, tents, errs0, tents.len() as int),
        keys_covered_from(m, tents, stale, errs0, i0),
        stale_distinct_from(stale, i0),
        stale_ok_from(m, tents, stale, i0),
        errs1.len() == errs0.len() + 1,
        errs1.take(errs0.len() as int) == errs0,
        errs1.last().name@ == stale[i0]@,
    ensures
        resolved_upto(m, tents, errs1, tents.len() as int),
        keys_covered_from(m, tents, stale, errs1, i0 + 1),
        stale_distinct_from(stale, i0 + 1),
        stale_ok_from(m, tents, stale, i0 + 1),
{
    assert forall|j: int| 0 <= j < tents.len() implies target_resolved_at(m, tents, errs1, j) by {
        assert(target_resolved_at(m, tents, errs0, j));
        if has_error_for(errs0, tents[j].0) {
            lemma_error_prefix(errs0, errs1, tents[j].0);
        }
    }
    assert forall|k: Seq<u8>| #[trigger] m.files_map().contains_key(k) implies kv_map(
        tents,
    ).contains_key(k) || (exists|i: int|
        i0 + 1 <= i < stale.len() && (#[trigger] stale[i])@ == k) || has_error_for(errs1, k) by {
        if !kv_map(tents).contains_key(k) {
            if has_error_for(errs0, k) {
                lemma_error_prefix(errs0, errs1, k);
            } else {
                let i = choose|i: int| i0 <= i < stale.len() && (#[trigger] stale[i])@ == k;
                if i == i0 {
                    assert(errs1[errs1.len() - 1].name@ == k);
                }
            }
        }
    }
}

/// The names the manifest records that the target list no longer carries:
/// exactly those, each once.
#[verifier::rlimit(30)]
fn stale_names(manifest: &Manifest, targets: &Vec<TargetInfo>) -> (r: Vec<Vec<u8>>)
    requires
        manifest.wf(),
    ensures
        forall|q: int|
            0 <= q < r@.len() ==> manifest.files_map().contains_key((#[trigger] r@[q])@)
                && !targets_map(targets@).contains_key(r@[q]@),
        forall|k: Seq<u8>|
            #[trigger] manifest.files_map().contains_key(k) && !targets_map(targets@).contains_key(
                k,
            ) ==> exists|q: int| 0 <= q < r@.len() && (#[trigger] r@[q])@ == k,
        forall|q1: int, q2: int|
            0 <= q1 < q2 < r@.len() ==> (#[trigger] r@[q1])@ != (#[trigger] r@[q2])@,
{
    let files = manifest.files();
    let mut out: Vec<Vec<u8>> = Vec::new();
    let n = files.len();
    let mut i: usize = 0;
    while i < n
        invariant
            n == files@.len(),
            i <= n,
            entries_of(files@) == manifest.entries(),
            manifest.wf(),
            forall|q: int|
                0 <= q < out@.len() ==> !targets_map(targets@).contains_key((#[trigger] out@[q])@),
            forall|q: int|
                0 <= q < out@.len() ==> exists|j: int|
                    0 <= j < i && (#[trigger] manifest.entries()[j]).0 == (#[trigger] out@[q])@,
            forall|j: int|
                0 <= j < i && !targets_map(targets@).contains_key(
                    (#[trigger] manifest.entries()[j]).0,
                ) ==> exists|q: int| 0 <= q < out@.len() && (#[trigger] out@[q])@
                    == manifest.entries()[j].0,
            forall|q1: int, q2: int|
                0 <= q1 < q2 < out@.len() ==> (#[trigger] out@[q1])@ != (#[trigger] out@[q2])@,
        decreases n - i,
    {
        let name = &files[i].0;
        proof {
            assert(manifest.entries()[i as int].0 == name@);
        }
        match find_target(targets, name) {
            Some(idx) => {
                proof {
                    assert(targets_entries(targets@)[idx as int].0 == name@);
                    lemma_kv_map_dom(targets_entries(targets@), name@);
                    assert(targets_map(targets@).contains_key(name@));
                    assert forall|j: int|
                        0 <= j < i + 1 && !targets_map(targets@).contains_key(
                            (#[trigger] manifest.entries()[j]).0,
                        ) implies exists|q: int|
                        0 <= q < out@.len() && (#[trigger] out@[q])@
                            == manifest.entries()[j].0 by {
                        assert(j < i);
                    }
                }
            },
            None => {
                proof {
                    lemma_kv_map_dom(targets_entries(targets@), name@);
                    assert(!targets_map(targets@).contains_key(name@));
                    assert forall|q: int| 0 <= q < out@.len() implies (#[trigger] out@[q])@
                        != name@ by {
                        let j = choose|j: int|
                            0 <= j < i && (#[trigger] manifest.entries()[j]).0 == (out@[q])@;
                        assert(manifest.entries()[j].0 != manifest.entries()[i as int].0);
                    }
                }
                let ghost out0 = out@;
                out.push(clone_bytes(name));
                proof {
                    assert(out@[out0.len() as int]@ == manifest.entries()[i as int].0);
                    assert forall|q: int| 0 <= q < out0.len() implies out@[q] == out0[q] by {}
                    assert forall|j: int|
                        0 <= j < i + 1 && !targets_map(targets@).contains_key(
                            (#[trigger] manifest.entries()[j]).0,
                        ) implies exists|q: int|
                        0 <= q < out@.len() && (#[trigger] out@[q])@
                            == manifest.entries()[j].0 by {
                        if j < i {
                            let q = choose|q: int|
                                0 <= q < out0.len() && (#[trigger] out0[q])@
                                    == manifest.entries()[j].0;
                            assert(out@[q]@ == manifest.entries()[j].0);
                        } else {
                            assert(out@[out0.len() as int]@ == manifest.entries()[j].0);
                        }
                    }
                }
            },
        }
        i += 1;
    }
    proof {
        assert forall|q: int|
            0 <= q < out@.len() implies manifest.files_map().contains_key(
            (#[trigger] out@[q])@,
        ) by {
            let j = choose|j: int|
                0 <= j < i && (#[trigger] manifest.entries()[j]).0 == (out@[q])@;
            lemma_kv_map_index(manifest.entries(), j);
        }
        assert forall|k: Seq<u8>|
            #[trigger] manifest.files_map().contains_key(k) && !targets_map(targets@).contains_key(
                k,
            ) implies exists|q: int| 0 <= q < out@.len() && (#[trigger] out@[q])@ == k by {
            lemma_kv_map_dom(manifest.entries(), k);
        }
    }
    out
}

/// Looks a name up in a target list.
fn find_target(targets: &Vec<TargetInfo>, name: &Vec<u8>) -> (r: Option<usize>)
    ensures
        match r {
            Some(i) => i < targets@.len() && targets_entries(targets@)[i as int].0 == name@,
            None => forall|j: int|
                0 <= j < targets@.len() ==> (#[trigger] targets_entries(targets@)[j]).0 != name@,
        },
{
    let mut i: usize = 0;
    while i < targets.len()
        invariant
            i <= targets@.len(),
            forall|j: int|
                0 <= j < i ==> (#[trigger] targets_entries(targets@)[j]).0 != name@,
        decreases targets@.len() - i,
    {
        proof {
            assert(targets_entries(targets@)[i as int].0 == targets@[i as int].name@);
        }
        if bytes_eq(&targets[i].name, name) {
            return Some(i);
        }
        i += 1;
    }
    None
}

/// Whether all names of a target list are pairwise distinct; the pass
/// requires a well-formed target set.
pub fn targets_unique(targets: &Vec<TargetInfo>) -> (r: bool)
    ensures
        r == kv_unique(targets_entries(targets@)),
{
    let n = targets.len();
    let mut i: usize = 0;
    while i < n
        invariant
            n == targets@.len(),
            i <= n,
            forall|p: int, q: int|
                0 <= p < q < i ==> (#[trigger] targets_entries(targets@)[p]).0 != (
                #[trigger] targets_entries(targets@)[q]).0,
        decreases n - i,
    {
        let mut j: usize = 0;
        while j < i
            invariant
                i < n,
                n == targets@.len(),
                j <= i,
                forall|p: int, q: int|
                    0 <= p < q < i ==> (#[trigger] targets_entries(targets@)[p]).0 != (
                    #[trigger] targets_entries(targets@)[q]).0,
                forall|p: int|
                    0 <= p < j ==> (#[trigger] targets_entries(targets@)[p]).0 != targets_entries(
                        targets@,
                    )[i as int].0,
            decreases i - j,
        {
            proof {
                assert(targets_entries(targets@)[j as int].0 == targets@[j as int].name@);
                assert(targets_entries(targets@)[i as int].0 == targets@[i as int].name@);
            }
            if bytes_eq(&targets[j].name, &targets[i].name) {
                return false;
            }
            j += 1;
        }
        i += 1;
    }
    true
}

/// A pass that ends with no failures stamps the release version and clears
/// the completeness flag, so the manifest then answers `is_updated` for
/// that release; by `begin`'s contract the next pass against the same
/// release is born finished and performs no fetch and no deletion.
pub proof fn lemma_complete_pass_is_idempotent(m: Manifest, v: u64)
    requires
        m.spec_version() == v,
        !m.spec_incomplete(),
    ensures
        m.spec_is_updated(v),
{
}

} // verus!
