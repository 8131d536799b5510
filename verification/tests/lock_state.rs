use provider_sync::json;
use provider_sync::lock::{
    acquire_next, classify_lock, inspect_provider_sync_lock, is_lock_contention,
    is_locked_io_error, isolated_lock_name, judge_owned_lock, lock_owner_record, may_isolate_lock,
    release_owned_lock, AcquireEvent, AcquireStep, ProcessInstanceState,
    ProviderSyncLifecycleGuard, ProviderSyncLockOwner, ProviderSyncLockState, ReleaseStep,
    LEGACY_PID_REUSE_MIN_LOCK_AGE_SECS, LEGACY_PID_REUSE_TOLERANCE_SECS,
    LOCK_INTERRUPTED_GRACE_SECS,
};

fn owner(pid: u32) -> ProviderSyncLockOwner {
    ProviderSyncLockOwner {
        pid,
        started_at: 1234,
        process_started_at: Some(1200),
        process_birth_id: Some("birth-1200".to_string()),
        lock_id: Some("lock-1".to_string()),
    }
}

fn legacy(pid: u32) -> ProviderSyncLockOwner {
    ProviderSyncLockOwner {
        process_started_at: None,
        process_birth_id: None,
        lock_id: None,
        ..owner(pid)
    }
}

fn running(started_at_secs: Option<u64>) -> ProcessInstanceState {
    ProcessInstanceState::Running {
        started_at_secs,
        birth_id: started_at_secs.map(|started_at| format!("birth-{started_at}")),
    }
}

#[test]
fn live_owner_counts_as_held() {
    let state = classify_lock(Some(&owner(42)), Some(0), |_| running(Some(1200)));

    assert_eq!(
        state,
        ProviderSyncLockState::Held {
            pid: 42,
            started_at: 1234
        }
    );
}

#[test]
fn dead_owner_counts_as_stale() {
    let state = classify_lock(Some(&owner(42)), Some(0), |_| {
        ProcessInstanceState::NotRunning
    });

    assert_eq!(state, ProviderSyncLockState::Stale { pid: Some(42) });
}

#[test]
fn reused_pid_with_a_different_process_start_is_stale() {
    let state = classify_lock(Some(&owner(42)), Some(9_999), |_| running(Some(5000)));

    assert_eq!(state, ProviderSyncLockState::Stale { pid: Some(42) });
}

#[test]
fn matching_birth_id_tolerates_approximate_unix_start_time_drift() {
    let state = classify_lock(Some(&owner(42)), Some(0), |_| {
        ProcessInstanceState::Running {
            started_at_secs: Some(1201),
            birth_id: Some("birth-1200".to_string()),
        }
    });

    assert_eq!(
        state,
        ProviderSyncLockState::Held {
            pid: 42,
            started_at: 1234
        }
    );
}

#[test]
fn legacy_owner_with_a_much_newer_process_is_stale() {
    let legacy_owner = legacy(42);
    let state = classify_lock(
        Some(&legacy_owner),
        Some(LEGACY_PID_REUSE_MIN_LOCK_AGE_SECS),
        |_| {
            running(Some(
                legacy_owner.started_at + LEGACY_PID_REUSE_TOLERANCE_SECS + 1,
            ))
        },
    );

    assert_eq!(state, ProviderSyncLockState::Stale { pid: Some(42) });
}

#[test]
fn legacy_owner_keeps_a_process_started_before_the_lock() {
    let legacy_owner = legacy(42);
    let state = classify_lock(Some(&legacy_owner), Some(9_999), |_| {
        running(Some(legacy_owner.started_at - 1))
    });

    assert_eq!(
        state,
        ProviderSyncLockState::Held {
            pid: 42,
            started_at: 1234
        }
    );
}

#[test]
fn recent_legacy_lock_remains_held_even_if_wall_clock_evidence_looks_newer() {
    let legacy_owner = legacy(42);
    let state = classify_lock(
        Some(&legacy_owner),
        Some(LEGACY_PID_REUSE_MIN_LOCK_AGE_SECS - 1),
        |_| {
            running(Some(
                legacy_owner.started_at + LEGACY_PID_REUSE_TOLERANCE_SECS + 1,
            ))
        },
    );

    assert_eq!(
        state,
        ProviderSyncLockState::Held {
            pid: 42,
            started_at: 1234
        }
    );
}

#[test]
fn unknown_process_identity_is_treated_as_held_rather_than_stolen() {
    let state = classify_lock(Some(&owner(42)), Some(9_999), |_| {
        ProcessInstanceState::Unknown
    });

    assert_eq!(
        state,
        ProviderSyncLockState::Held {
            pid: 42,
            started_at: 1234
        }
    );
}

#[test]
fn aged_lock_without_owner_is_recoverable_interrupted_leftover() {
    let state = classify_lock(None, Some(LOCK_INTERRUPTED_GRACE_SECS), |_| {
        running(Some(1200))
    });

    assert_eq!(state, ProviderSyncLockState::Stale { pid: None });
}

#[test]
fn fresh_lock_without_owner_is_left_alone_for_the_process_still_creating_it() {
    let state = classify_lock(None, Some(LOCK_INTERRUPTED_GRACE_SECS - 1), |_| {
        running(Some(1200))
    });

    assert_eq!(state, ProviderSyncLockState::Indeterminate);
}

#[test]
fn unreadable_lock_age_is_left_alone() {
    let state = classify_lock(None, None, |_| running(Some(1200)));

    assert_eq!(state, ProviderSyncLockState::Indeterminate);
}

#[test]
fn absent_lock_is_free() {
    assert_eq!(
        inspect_provider_sync_lock(false, Some(&owner(42)), Some(0), |_| running(Some(1200))),
        ProviderSyncLockState::Free
    );
    assert_eq!(
        inspect_provider_sync_lock(true, Some(&owner(42)), Some(0), |_| {
            ProcessInstanceState::NotRunning
        }),
        ProviderSyncLockState::Stale { pid: Some(42) }
    );
}

#[test]
fn recorded_start_times_may_differ_by_a_few_seconds() {
    let recorded = ProviderSyncLockOwner {
        process_birth_id: None,
        ..owner(42)
    };
    let held = ProviderSyncLockState::Held {
        pid: 42,
        started_at: 1234,
    };
    assert_eq!(judge_owned_lock(&recorded, None, &running(Some(1205))), held);
    assert_eq!(judge_owned_lock(&recorded, None, &running(Some(1195))), held);
    assert_eq!(
        judge_owned_lock(&recorded, None, &running(Some(1206))),
        ProviderSyncLockState::Stale { pid: Some(42) }
    );
    assert_eq!(judge_owned_lock(&recorded, None, &running(None)), held);
}

#[test]
fn a_lock_is_released_by_its_owner_alone() {
    assert_eq!(
        release_owned_lock(true, &Some(owner(42)), "lock-1"),
        ReleaseStep::RemoveDirectory
    );
    assert_eq!(release_owned_lock(true, &Some(owner(42)), "not-the-owner"), ReleaseStep::Refuse);
    assert_eq!(release_owned_lock(true, &None, "lock-1"), ReleaseStep::Refuse);
    assert_eq!(release_owned_lock(false, &None, "lock-1"), ReleaseStep::Nothing);
    let mut guard = ProviderSyncLifecycleGuard::new("/tmp/lock".to_string(), "lock-1".to_string());
    assert_eq!(guard.release(true, &Some(owner(42))), ReleaseStep::RemoveDirectory);
    assert!(!guard.directory_released && !guard.file_unlocked);
    guard.note_directory_released();
    guard.note_file_unlocked();
    assert!(guard.directory_released && guard.file_unlocked);
}

#[test]
fn a_lock_is_granted_after_its_directory_was_made() {
    assert_eq!(
        acquire_next(AcquireStep::LockFile, AcquireEvent::Succeeded, true),
        AcquireStep::CreateDirectory
    );
    assert_eq!(
        acquire_next(AcquireStep::CreateDirectory, AcquireEvent::Succeeded, true),
        AcquireStep::Granted { recovered: false }
    );
    assert_eq!(
        acquire_next(AcquireStep::CreateDirectory, AcquireEvent::AlreadyExists, true),
        AcquireStep::IsolateDirectory
    );
    assert_eq!(
        acquire_next(AcquireStep::IsolateDirectory, AcquireEvent::Succeeded, true),
        AcquireStep::RecreateDirectory
    );
    assert_eq!(
        acquire_next(AcquireStep::RecreateDirectory, AcquireEvent::Succeeded, true),
        AcquireStep::Granted { recovered: true }
    );
    assert_eq!(
        acquire_next(AcquireStep::LockFile, AcquireEvent::Failed, false),
        AcquireStep::Refused {
            report_busy: false,
            remove_isolated: false
        }
    );
}

#[test]
fn contention_and_locked_files_are_told_by_their_errors() {
    assert!(is_lock_contention(true, None, false));
    assert!(is_lock_contention(false, Some(33), true));
    assert!(!is_lock_contention(false, Some(33), false));
    assert!(is_locked_io_error(true, false, None));
    assert!(is_locked_io_error(false, true, None));
    assert!(is_locked_io_error(false, false, Some(32)));
    assert!(!is_locked_io_error(false, false, Some(2)));
}

#[test]
fn a_lock_directory_of_the_new_protocol_may_be_set_aside() {
    let held = ProviderSyncLockState::Held {
        pid: 42,
        started_at: 1234,
    };
    assert!(may_isolate_lock(&Some(owner(42)), &held));
    assert!(!may_isolate_lock(&Some(legacy(42)), &held));
    assert!(may_isolate_lock(
        &Some(legacy(42)),
        &ProviderSyncLockState::Stale { pid: Some(42) }
    ));
    assert!(!may_isolate_lock(&None, &ProviderSyncLockState::Indeterminate));
    assert_eq!(
        isolated_lock_name("provider-sync.lock", &Some(owner(42)), "u1"),
        "provider-sync.lock.stale-42-u1"
    );
    assert_eq!(
        isolated_lock_name("provider-sync.lock", &None, "u1"),
        "provider-sync.lock.stale-interrupted-u1"
    );
}

#[test]
fn the_owner_record_names_process_and_lock() {
    let bytes = lock_owner_record(42, 1234, Some(1200), Some("birth-1200"), "lock-1");
    let record = json::parse(std::str::from_utf8(&bytes).unwrap()).unwrap();
    assert!(matches!(json::get(&record, "pid"), Some(json::Json::Unsigned(42))));
    assert!(matches!(json::get(&record, "startedAt"), Some(json::Json::Unsigned(1234))));
    assert!(matches!(json::get(&record, "processStartedAt"), Some(json::Json::Unsigned(1200))));
    assert_eq!(json::get_text(&record, "processBirthId"), Some("birth-1200".to_string()));
    assert_eq!(json::get_text(&record, "lockId"), Some("lock-1".to_string()));
    let bytes = lock_owner_record(42, 1234, None, None, "lock-1");
    let record = json::parse(std::str::from_utf8(&bytes).unwrap()).unwrap();
    assert!(matches!(json::get(&record, "processBirthId"), Some(json::Json::Null)));
}

/// A lock file and a lock directory, which holds the lock id of its owner.
struct Place {
    file_locked: bool,
    directory: Option<String>,
}

impl Place {
    fn owner(&self) -> Option<ProviderSyncLockOwner> {
        self.directory.as_ref().map(|lock_id| ProviderSyncLockOwner {
            lock_id: Some(lock_id.clone()),
            ..owner(42)
        })
    }

    fn create(&mut self, lock_id: &str) -> AcquireEvent {
        if self.directory.is_some() {
            return AcquireEvent::AlreadyExists;
        }
        self.directory = Some(lock_id.to_string());
        AcquireEvent::Succeeded
    }

    fn acquire(&mut self, lock_id: &str) -> Option<ProviderSyncLifecycleGuard> {
        let mut step = AcquireStep::LockFile;
        loop {
            let event = match step {
                AcquireStep::LockFile if self.file_locked => AcquireEvent::Failed,
                AcquireStep::LockFile => {
                    self.file_locked = true;
                    AcquireEvent::Succeeded
                }
                AcquireStep::CreateDirectory | AcquireStep::RecreateDirectory => {
                    self.create(lock_id)
                }
                AcquireStep::IsolateDirectory => {
                    let held = ProviderSyncLockState::Held {
                        pid: 42,
                        started_at: 1234,
                    };
                    if may_isolate_lock(&self.owner(), &held) {
                        self.directory = None;
                        AcquireEvent::Succeeded
                    } else {
                        AcquireEvent::Failed
                    }
                }
                AcquireStep::Granted { .. } => {
                    return Some(ProviderSyncLifecycleGuard::new(
                        "tmp/provider-sync.lock".to_string(),
                        lock_id.to_string(),
                    ))
                }
                AcquireStep::Refused { .. } => return None,
            };
            step = acquire_next(step, event, false);
        }
    }

    fn release(&mut self, guard: ProviderSyncLifecycleGuard) -> bool {
        let step = guard.release(self.directory.is_some(), &self.owner());
        if step == ReleaseStep::RemoveDirectory {
            self.directory = None;
        }
        self.file_locked = false;
        step != ReleaseStep::Refuse
    }
}

fn empty_place() -> Place {
    Place {
        file_locked: false,
        directory: None,
    }
}

#[test]
fn lifecycle_guard_serializes_and_releases_the_legacy_directory() {
    let mut place = empty_place();
    let first = place.acquire("first").unwrap();
    assert!(place.directory.is_some());
    assert!(place.acquire("other").is_none());
    assert!(place.release(first));
    assert!(place.directory.is_none());
    let second = place.acquire("second").unwrap();
    assert!(place.release(second));
    assert!(place.directory.is_none());
}

#[test]
fn a_guard_cannot_remove_a_directory_owned_by_another_lock_id() {
    let mut place = empty_place();
    let guard = place.acquire("guard").unwrap();
    assert_eq!(
        release_owned_lock(true, &place.owner(), "not-the-owner"),
        ReleaseStep::Refuse
    );
    assert!(place.directory.is_some());
    assert!(place.release(guard));
    assert!(place.directory.is_none());
}

#[test]
fn explicit_release_rejects_changed_directory_ownership() {
    let mut place = empty_place();
    let guard = place.acquire("guard").unwrap();
    place.directory = Some("replacement-owner".to_string());
    assert!(!place.release(guard));
    assert!(place.directory.is_some());
}

#[test]
fn os_lock_authoritatively_recovers_an_orphaned_new_protocol_directory() {
    let mut place = empty_place();
    let guard = place.acquire("guard").unwrap();
    place.directory = Some("orphaned-owner".to_string());
    assert!(!place.release(guard));
    assert!(place.directory.is_some());
    let recovered = place.acquire("recovered").unwrap();
    assert!(place.release(recovered));
    assert!(place.directory.is_none());
}

fn try_to_acquire(
    holder: &mut Option<String>,
    directory: &mut Option<ProviderSyncLockOwner>,
    lock_id: &str,
) -> AcquireStep {
    let mut step = AcquireStep::LockFile;
    loop {
        let event = match step {
            AcquireStep::LockFile if holder.is_none() => {
                *holder = Some(lock_id.to_string());
                AcquireEvent::Succeeded
            }
            AcquireStep::LockFile => AcquireEvent::Failed,
            AcquireStep::CreateDirectory | AcquireStep::RecreateDirectory => {
                if directory.is_some() {
                    AcquireEvent::AlreadyExists
                } else {
                    *directory = Some(ProviderSyncLockOwner {
                        lock_id: Some(lock_id.to_string()),
                        ..owner(42)
                    });
                    AcquireEvent::Succeeded
                }
            }
            AcquireStep::IsolateDirectory => {
                let state = ProviderSyncLockState::Indeterminate;
                if may_isolate_lock(directory, &state) {
                    *directory = None;
                    AcquireEvent::Succeeded
                } else {
                    AcquireEvent::Failed
                }
            }
            AcquireStep::Granted { .. } | AcquireStep::Refused { .. } => return step,
        };
        step = acquire_next(step, event, false);
    }
}

#[test]
fn a_guard_keeps_others_out_until_it_is_released() {
    let mut holder = None;
    let mut directory = None;
    assert_eq!(
        try_to_acquire(&mut holder, &mut directory, "lock-1"),
        AcquireStep::Granted { recovered: false }
    );
    for _ in 0..2 {
        assert_eq!(
            try_to_acquire(&mut holder, &mut directory, "lock-2"),
            AcquireStep::Refused {
                report_busy: false,
                remove_isolated: false
            }
        );
        assert_eq!(
            directory.as_ref().and_then(|o| o.lock_id.clone()),
            Some("lock-1".to_string())
        );
    }
    assert_eq!(release_owned_lock(true, &directory, "lock-2"), ReleaseStep::Refuse);
    assert_eq!(release_owned_lock(true, &directory, "lock-1"), ReleaseStep::RemoveDirectory);
    directory = None;
    holder = None;
    assert_eq!(
        try_to_acquire(&mut holder, &mut directory, "lock-2"),
        AcquireStep::Granted { recovered: false }
    );
    holder = None;
    assert_eq!(
        try_to_acquire(&mut holder, &mut directory, "lock-3"),
        AcquireStep::Granted { recovered: true }
    );
}
