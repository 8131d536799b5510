//! The lock that keeps two synchronisations apart: what it says about its owner,
//! when it may be taken over, and how it is acquired and released.

use crate::json;
use crate::json::{Json, JsonView};
use crate::text;
use vstd::prelude::*;

verus! {

// ---------------------------------------------------------------------------
// Owners
// ---------------------------------------------------------------------------
/// How long a lock without an owner is left to the process that may still be
/// creating it.
pub const LOCK_INTERRUPTED_GRACE_SECS: u64 = 60;

/// How much later than the lock a process may have been started and still be its
/// owner, where the owner did not record when it was started.
pub const LEGACY_PID_REUSE_TOLERANCE_SECS: u64 = 300;

/// How old a lock must be before the start of a process counts against it, where
/// the owner did not record when it was started.
pub const LEGACY_PID_REUSE_MIN_LOCK_AGE_SECS: u64 = 86400;

/// By how much two readings of the start of a process may differ.
pub const PROCESS_START_MATCH_TOLERANCE_SECS: u64 = 5;

/// What a lock records about its owner.
#[derive(Debug)]
pub struct ProviderSyncLockOwner {
    pub pid: u32,
    pub started_at: u64,
    pub process_started_at: Option<u64>,
    pub process_birth_id: Option<String>,
    pub lock_id: Option<String>,
}

/// What is known of a process.
#[derive(Debug)]
pub enum ProcessInstanceState {
    NotRunning,
    Running { started_at_secs: Option<u64>, birth_id: Option<String> },
    Unknown,
}

/// What state a lock is in.
#[allow(inconsistent_fields)]
#[derive(Clone, Copy, PartialEq, Eq, Structural, Debug)]
pub enum ProviderSyncLockState {
    /// There is no lock.
    Free,
    /// A running process holds the lock.
    Held { pid: u32, started_at: u64 },
    /// The owner of the lock is gone, or never got to name itself.
    Stale { pid: Option<u32> },
    /// It is too early to tell whether somebody is creating the lock.
    Indeterminate,
}

/// How far two times are apart.
pub open spec fn apart(a: u64, b: u64) -> int {
    if a < b {
        b - a
    } else {
        a - b
    }
}

/// Whether the running process was born as another one than the owner.
pub open spec fn born_otherwise(owner: ProviderSyncLockOwner, birth_id: Option<String>) -> bool {
    match (owner.process_birth_id, birth_id) {
        (Some(expected), Some(current)) => expected@ != current@,
        _ => false,
    }
}

/// Whether the running process was started at another time than the owner says.
pub open spec fn started_otherwise(
    owner: ProviderSyncLockOwner,
    started_at_secs: Option<u64>,
) -> bool {
    owner.process_birth_id is None && match (owner.process_started_at, started_at_secs) {
        (Some(expected), Some(current)) => apart(expected, current)
            > PROCESS_START_MATCH_TOLERANCE_SECS,
        _ => false,
    }
}

/// Whether the running process was started well after an old lock whose owner says
/// nothing about itself.
pub open spec fn pid_reused(
    owner: ProviderSyncLockOwner,
    age_secs: Option<u64>,
    started_at_secs: Option<u64>,
) -> bool {
    &&& owner.process_birth_id is None
    &&& owner.process_started_at is None
    &&& age_secs matches Some(age) && age >= LEGACY_PID_REUSE_MIN_LOCK_AGE_SECS
    &&& started_at_secs matches Some(current) && current > owner.started_at
        + LEGACY_PID_REUSE_TOLERANCE_SECS
}

/// Whether the process under the owner's number is not the owner for certain.
pub open spec fn owner_is_gone(
    owner: ProviderSyncLockOwner,
    age_secs: Option<u64>,
    process: ProcessInstanceState,
) -> bool {
    match process {
        ProcessInstanceState::NotRunning => true,
        ProcessInstanceState::Running { started_at_secs, birth_id } => born_otherwise(
            owner,
            birth_id,
        ) || started_otherwise(owner, started_at_secs) || pid_reused(
            owner,
            age_secs,
            started_at_secs,
        ),
        ProcessInstanceState::Unknown => false,
    }
}

/// The state of a lock with an owner.
pub open spec fn owned_lock_state(
    owner: ProviderSyncLockOwner,
    age_secs: Option<u64>,
    process: ProcessInstanceState,
) -> ProviderSyncLockState {
    if owner_is_gone(owner, age_secs, process) {
        ProviderSyncLockState::Stale { pid: Some(owner.pid) }
    } else {
        ProviderSyncLockState::Held { pid: owner.pid, started_at: owner.started_at }
    }
}

/// The state of a lock whose owner is not known.
pub open spec fn ownerless_lock_state(age_secs: Option<u64>) -> ProviderSyncLockState {
    if age_secs matches Some(age) && age >= LOCK_INTERRUPTED_GRACE_SECS {
        ProviderSyncLockState::Stale { pid: None }
    } else {
        ProviderSyncLockState::Indeterminate
    }
}

/// Judges a lock by its owner and by what is known of the process with the owner's
/// number.
pub fn judge_owned_lock(
    owner: &ProviderSyncLockOwner,
    age_secs: Option<u64>,
    process: &ProcessInstanceState,
) -> (r: ProviderSyncLockState)
    ensures
        r == owned_lock_state(*owner, age_secs, *process),
{
    let gone = match process {
        ProcessInstanceState::NotRunning => true,
        ProcessInstanceState::Running { started_at_secs, birth_id } => {
            let birth_mismatch = match (&owner.process_birth_id, birth_id) {
                (Some(expected), Some(current)) => !text::same_text(
                    expected.as_str(),
                    current.as_str(),
                ),
                _ => false,
            };
            let start_mismatch = owner.process_birth_id.is_none() && match (
                owner.process_started_at,
                *started_at_secs,
            ) {
                (Some(expected), Some(current)) => {
                    let difference: u64 = if expected < current {
                        current - expected
                    } else {
                        expected - current
                    };
                    difference > PROCESS_START_MATCH_TOLERANCE_SECS
                },
                _ => false,
            };
            let old = match age_secs {
                Some(age) => age >= LEGACY_PID_REUSE_MIN_LOCK_AGE_SECS,
                None => false,
            };
            let later = match *started_at_secs {
                Some(current) => current > owner.started_at.saturating_add(
                    LEGACY_PID_REUSE_TOLERANCE_SECS,
                ),
                None => false,
            };
            let reused = owner.process_birth_id.is_none() && owner.process_started_at.is_none()
                && old && later;
            birth_mismatch || start_mismatch || reused
        },
        ProcessInstanceState::Unknown => false,
    };
    if gone {
        ProviderSyncLockState::Stale { pid: Some(owner.pid) }
    } else {
        ProviderSyncLockState::Held { pid: owner.pid, started_at: owner.started_at }
    }
}

/// Judges a lock by its owner, its age and what is found out about the process with
/// the owner's number.
pub fn classify_lock(
    owner: Option<&ProviderSyncLockOwner>,
    age_secs: Option<u64>,
    inspect_process: impl Fn(u32) -> ProcessInstanceState,
) -> (r: ProviderSyncLockState)
    requires
        owner matches Some(o) ==> call_requires(inspect_process, (o.pid,)),
    ensures
        match owner {
            None => r == ownerless_lock_state(age_secs),
            Some(o) => exists|process: ProcessInstanceState| #[trigger]
                call_ensures(inspect_process, (o.pid,), process) && r == owned_lock_state(
                    *o,
                    age_secs,
                    process,
                ),
        },
{
    match owner {
        None => {
            let abandoned = match age_secs {
                Some(age) => age >= LOCK_INTERRUPTED_GRACE_SECS,
                None => false,
            };
            if abandoned {
                ProviderSyncLockState::Stale { pid: None }
            } else {
                ProviderSyncLockState::Indeterminate
            }
        },
        Some(owner) => {
            let process = inspect_process(owner.pid);
            judge_owned_lock(owner, age_secs, &process)
        },
    }
}

/// The state of the lock: free where there is none.
pub fn inspect_provider_sync_lock(
    lock_exists: bool,
    owner: Option<&ProviderSyncLockOwner>,
    age_secs: Option<u64>,
    inspect_process: impl Fn(u32) -> ProcessInstanceState,
) -> (r: ProviderSyncLockState)
    requires
        lock_exists ==> (owner matches Some(o) ==> call_requires(inspect_process, (o.pid,))),
    ensures
        !lock_exists ==> r == ProviderSyncLockState::Free,
        lock_exists ==> match owner {
            None => r == ownerless_lock_state(age_secs),
            Some(o) => exists|process: ProcessInstanceState| #[trigger]
                call_ensures(inspect_process, (o.pid,), process) && r == owned_lock_state(
                    *o,
                    age_secs,
                    process,
                ),
        },
{
    if !lock_exists {
        return ProviderSyncLockState::Free;
    }
    classify_lock(owner, age_secs, inspect_process)
}

/// A lock is never taken from a process of which nothing is known.
pub proof fn lemma_unknown_process_keeps_the_lock(
    owner: ProviderSyncLockOwner,
    age_secs: Option<u64>,
)
    ensures
        owned_lock_state(owner, age_secs, ProcessInstanceState::Unknown)
            == (ProviderSyncLockState::Held { pid: owner.pid, started_at: owner.started_at }),
{
}

/// A running process with the recorded birth id keeps the lock, whatever clocks say.
pub proof fn lemma_same_birth_keeps_the_lock(
    owner: ProviderSyncLockOwner,
    age_secs: Option<u64>,
    started_at_secs: Option<u64>,
    birth_id: Option<String>,
)
    requires
        owner.process_birth_id is Some,
        birth_id is Some,
        owner.process_birth_id->0@ == birth_id->0@,
    ensures
        owned_lock_state(
            owner,
            age_secs,
            ProcessInstanceState::Running { started_at_secs, birth_id },
        ) == (ProviderSyncLockState::Held { pid: owner.pid, started_at: owner.started_at }),
{
}

// ---------------------------------------------------------------------------
// Taking over a lock
// ---------------------------------------------------------------------------
/// Whether a lock directory may be set aside by a process that holds the lifecycle
/// lock of the operating system. An owner with a lock id uses that lock too, so its
/// directory is a leftover; any other owner must be gone.
pub open spec fn may_be_isolated(
    owner: Option<ProviderSyncLockOwner>,
    state: ProviderSyncLockState,
) -> bool {
    (owner matches Some(o) && o.lock_id is Some) || state is Stale
}

/// Whether a lock directory may be set aside by whoever holds the lock file.
pub fn may_isolate_lock(
    owner: &Option<ProviderSyncLockOwner>,
    state: &ProviderSyncLockState,
) -> (r: bool)
    ensures
        r == may_be_isolated(*owner, *state),
{
    let identified = match owner {
        Some(o) => o.lock_id.is_some(),
        None => false,
    };
    let stale = match state {
        ProviderSyncLockState::Stale { .. } => true,
        _ => false,
    };
    identified || stale
}

/// The name under which a lock directory is set aside.
pub open spec fn isolated_name(
    file_name: Seq<char>,
    owner: Option<ProviderSyncLockOwner>,
    unique: Seq<char>,
) -> Seq<char> {
    let tag = match owner {
        Some(o) => text::decimal(o.pid as nat),
        None => "interrupted"@,
    };
    file_name + ".stale-"@ + tag + "-"@ + unique
}

/// The name under which a lock directory is set aside.
pub fn isolated_lock_name(
    file_name: &str,
    owner: &Option<ProviderSyncLockOwner>,
    unique: &str,
) -> (r: String)
    ensures
        r@ == isolated_name(file_name@, *owner, unique@),
{
    let tag = match owner {
        Some(o) => text::decimal_text(o.pid as u64),
        None => text::copy_text("interrupted"),
    };
    let a = text::join_text(file_name, ".stale-");
    let b = text::join_text(a.as_str(), tag.as_str());
    let c = text::join_text(b.as_str(), "-");
    text::join_text(c.as_str(), unique)
}

/// What a lock says about its owner.
pub open spec fn owner_record(
    pid: u32,
    now: u64,
    process_started_at: Option<u64>,
    process_birth_id: Option<Seq<char>>,
    lock_id: Seq<char>,
) -> JsonView {
    JsonView::Object(
        Map::<Seq<char>, JsonView>::empty().insert("pid"@, JsonView::Unsigned(pid as u64)).insert(
            "startedAt"@,
            JsonView::Unsigned(now),
        ).insert(
            "processStartedAt"@,
            match process_started_at {
                Some(n) => JsonView::Unsigned(n),
                None => JsonView::Null,
            },
        ).insert(
            "processBirthId"@,
            match process_birth_id {
                Some(s) => JsonView::Text(s),
                None => JsonView::Null,
            },
        ).insert("lockId"@, JsonView::Text(lock_id)),
    )
}

proof fn lemma_owner_record_survives(
    pid: u32,
    now: u64,
    process_started_at: Option<u64>,
    process_birth_id: Option<Seq<char>>,
    lock_id: Seq<char>,
)
    ensures
        json::survives_text(
            owner_record(pid, now, process_started_at, process_birth_id, lock_id),
        ),
{
    let record = owner_record(pid, now, process_started_at, process_birth_id, lock_id);
    let m = record->Object_0;
    assert forall|k: Seq<char>| #[trigger] m.contains_key(k) implies json::nested_within(m[k], 126)
        && json::float_free(m[k], 126) by {}
    assert(json::fields_nested_within(m, 126));
    assert(json::fields_float_free(m, 126));
    assert(json::nested_within(record, 127));
    assert(json::float_free(record, 127));
}

/// Writes down who owns a lock, so that the same is read again.
pub fn lock_owner_record(
    pid: u32,
    now: u64,
    process_started_at: Option<u64>,
    process_birth_id: Option<&str>,
    lock_id: &str,
) -> (r: Vec<u8>)
    ensures
        r@ == vstd::utf8::encode_utf8(
            json::compact_json(
                owner_record(pid, now, process_started_at, text::str_of(process_birth_id), lock_id@),
            ),
        ),
        json::parsed_json(vstd::utf8::decode_utf8(r@)) == Some(
            owner_record(pid, now, process_started_at, text::str_of(process_birth_id), lock_id@),
        ),
{
    let mut fields: Vec<(String, Json)> = Vec::new();
    json::set_entry(&mut fields, "pid", Json::Unsigned(pid as u64));
    json::set_entry(&mut fields, "startedAt", Json::Unsigned(now));
    let started = match process_started_at {
        Some(n) => Json::Unsigned(n),
        None => Json::Null,
    };
    json::set_entry(&mut fields, "processStartedAt", started);
    let birth = match process_birth_id {
        Some(s) => Json::Text(text::copy_text(s)),
        None => Json::Null,
    };
    json::set_entry(&mut fields, "processBirthId", birth);
    json::set_entry(&mut fields, "lockId", Json::Text(text::copy_text(lock_id)));
    let record = Json::Object(fields);
    proof {
        lemma_owner_record_survives(
            pid,
            now,
            process_started_at,
            text::str_of(process_birth_id),
            lock_id@,
        );
        vstd::utf8::encode_utf8_decode_utf8(json::compact_json(record@));
    }
    json::to_compact(&record)
}

// ---------------------------------------------------------------------------
// Acquiring
// ---------------------------------------------------------------------------
/// Where the acquisition of the lock stands.
#[derive(Clone, Copy, PartialEq, Eq, Structural, Debug)]
pub enum AcquireStep {
    /// Take the lifecycle lock of the operating system.
    LockFile,
    /// Create the lock directory with its owner record.
    CreateDirectory,
    /// Set a lock directory aside that may be set aside.
    IsolateDirectory,
    /// Create the lock directory again.
    RecreateDirectory,
    /// The lock is held. A directory that was set aside is removed.
    Granted { recovered: bool },
    /// The lock is not held.
    Refused { report_busy: bool, remove_isolated: bool },
}

/// What came of a step.
#[derive(Clone, Copy, PartialEq, Eq, Structural, Debug)]
pub enum AcquireEvent {
    Succeeded,
    /// The directory exists already.
    AlreadyExists,
    Failed,
}

pub open spec fn acquire_outcome(
    step: AcquireStep,
    event: AcquireEvent,
    log_busy: bool,
) -> AcquireStep {
    match (step, event) {
        (AcquireStep::LockFile, AcquireEvent::Succeeded) => AcquireStep::CreateDirectory,
        (AcquireStep::LockFile, _) => AcquireStep::Refused {
            report_busy: log_busy,
            remove_isolated: false,
        },
        (AcquireStep::CreateDirectory, AcquireEvent::Succeeded) => AcquireStep::Granted {
            recovered: false,
        },
        (AcquireStep::CreateDirectory, AcquireEvent::AlreadyExists) => {
            AcquireStep::IsolateDirectory
        },
        (AcquireStep::CreateDirectory, AcquireEvent::Failed) => AcquireStep::Refused {
            report_busy: false,
            remove_isolated: false,
        },
        (AcquireStep::IsolateDirectory, AcquireEvent::Succeeded) => AcquireStep::RecreateDirectory,
        (AcquireStep::IsolateDirectory, _) => AcquireStep::Refused {
            report_busy: log_busy,
            remove_isolated: false,
        },
        (AcquireStep::RecreateDirectory, AcquireEvent::Succeeded) => AcquireStep::Granted {
            recovered: true,
        },
        (AcquireStep::RecreateDirectory, _) => AcquireStep::Refused {
            report_busy: false,
            remove_isolated: true,
        },
        _ => step,
    }
}

/// What follows on a step of the acquisition and what came of it.
pub fn acquire_next(step: AcquireStep, event: AcquireEvent, log_busy: bool) -> (r: AcquireStep)
    ensures
        r == acquire_outcome(step, event, log_busy),
{
    match (step, event) {
        (AcquireStep::LockFile, AcquireEvent::Succeeded) => AcquireStep::CreateDirectory,
        (AcquireStep::LockFile, _) => AcquireStep::Refused {
            report_busy: log_busy,
            remove_isolated: false,
        },
        (AcquireStep::CreateDirectory, AcquireEvent::Succeeded) => AcquireStep::Granted {
            recovered: false,
        },
        (AcquireStep::CreateDirectory, AcquireEvent::AlreadyExists) => {
            AcquireStep::IsolateDirectory
        },
        (AcquireStep::CreateDirectory, AcquireEvent::Failed) => AcquireStep::Refused {
            report_busy: false,
            remove_isolated: false,
        },
        (AcquireStep::IsolateDirectory, AcquireEvent::Succeeded) => AcquireStep::RecreateDirectory,
        (AcquireStep::IsolateDirectory, _) => AcquireStep::Refused {
            report_busy: log_busy,
            remove_isolated: false,
        },
        (AcquireStep::RecreateDirectory, AcquireEvent::Succeeded) => AcquireStep::Granted {
            recovered: true,
        },
        (AcquireStep::RecreateDirectory, _) => AcquireStep::Refused {
            report_busy: false,
            remove_isolated: true,
        },
        _ => step,
    }
}

/// The lock is granted only on the success of creating its directory, which is not
/// tried before the lifecycle lock is held.
pub proof fn lemma_grant_follows_creation(
    step: AcquireStep,
    event: AcquireEvent,
    log_busy: bool,
)
    ensures
        acquire_outcome(step, event, log_busy) is Granted && !(step is Granted) ==> event
            == AcquireEvent::Succeeded && (step == AcquireStep::CreateDirectory || step
            == AcquireStep::RecreateDirectory),
        acquire_outcome(step, event, log_busy) == AcquireStep::CreateDirectory ==> step
            == AcquireStep::LockFile && event == AcquireEvent::Succeeded || step
            == AcquireStep::CreateDirectory,
        acquire_outcome(step, event, log_busy) == AcquireStep::RecreateDirectory ==> step
            == AcquireStep::IsolateDirectory && event == AcquireEvent::Succeeded || step
            == AcquireStep::RecreateDirectory,
{
}

/// Whether the failure to take the lifecycle lock only says that somebody else
/// holds it, where `windows` tells the system and `raw_os_error` its error number.
pub fn is_lock_contention(would_block: bool, raw_os_error: Option<i32>, windows: bool) -> (r: bool)
    ensures
        r == (would_block || (windows && raw_os_error == Some(33i32))),
{
    would_block || (windows && match raw_os_error {
        Some(code) => code == 33,
        None => false,
    })
}

/// Whether an error of the operating system says that somebody else holds a file.
pub fn is_locked_io_error(
    permission_denied: bool,
    would_block: bool,
    raw_os_error: Option<i32>,
) -> (r: bool)
    ensures
        r == (permission_denied || would_block || raw_os_error == Some(32i32) || raw_os_error
            == Some(33i32)),
{
    permission_denied || would_block || match raw_os_error {
        Some(code) => code == 32 || code == 33,
        None => false,
    }
}

// ---------------------------------------------------------------------------
// Releasing
// ---------------------------------------------------------------------------
/// What is to be done with a lock directory that is to be released.
#[derive(Clone, Copy, PartialEq, Eq, Structural, Debug)]
pub enum ReleaseStep {
    /// It is gone.
    Nothing,
    RemoveDirectory,
    /// Somebody else owns it.
    Refuse,
}

pub open spec fn owns_directory(owner: Option<ProviderSyncLockOwner>, lock_id: Seq<char>) -> bool {
    owner matches Some(o) && text::text_of(o.lock_id) == Some(lock_id)
}

/// What is to be done to release the lock with this id.
pub open spec fn release_step(
    lock_exists: bool,
    owner: Option<ProviderSyncLockOwner>,
    lock_id: Seq<char>,
) -> ReleaseStep {
    if !lock_exists {
        ReleaseStep::Nothing
    } else if owns_directory(owner, lock_id) {
        ReleaseStep::RemoveDirectory
    } else {
        ReleaseStep::Refuse
    }
}

/// What is to be done to release the lock with this id.
pub fn release_owned_lock(
    lock_exists: bool,
    owner: &Option<ProviderSyncLockOwner>,
    lock_id: &str,
) -> (r: ReleaseStep)
    ensures
        r == release_step(lock_exists, *owner, lock_id@),
{
    if !lock_exists {
        return ReleaseStep::Nothing;
    }
    let owned = match owner {
        Some(o) => match &o.lock_id {
            Some(id) => text::same_text(id.as_str(), lock_id),
            None => false,
        },
        None => false,
    };
    if owned {
        ReleaseStep::RemoveDirectory
    } else {
        ReleaseStep::Refuse
    }
}

/// What is left to release of a lock that was granted.
#[derive(Debug)]
pub struct ProviderSyncLifecycleGuard {
    pub lock_dir: String,
    pub lock_id: String,
    pub directory_released: bool,
    pub file_unlocked: bool,
}

impl ProviderSyncLifecycleGuard {
    pub fn new(lock_dir: String, lock_id: String) -> (r: ProviderSyncLifecycleGuard)
        ensures
            r.lock_dir == lock_dir,
            r.lock_id == lock_id,
            !r.directory_released,
            !r.file_unlocked,
    {
        ProviderSyncLifecycleGuard {
            lock_dir,
            lock_id,
            directory_released: false,
            file_unlocked: false,
        }
    }

    /// What is to be done first to release the lock. A directory of somebody else is
    /// never removed.
    pub fn release(&self, lock_exists: bool, owner: &Option<ProviderSyncLockOwner>) -> (r:
        ReleaseStep)
        ensures
            r == release_step(lock_exists, *owner, self.lock_id@),
    {
        release_owned_lock(lock_exists, owner, self.lock_id.as_str())
    }

    /// Notes that the lock directory is gone.
    pub fn note_directory_released(&mut self)
        ensures
            *final(self) == (ProviderSyncLifecycleGuard {
                directory_released: true,
                ..*old(self)
            }),
    {
        self.directory_released = true;
    }

    /// Notes that the lifecycle lock is given back.
    pub fn note_file_unlocked(&mut self)
        ensures
            *final(self) == (ProviderSyncLifecycleGuard { file_unlocked: true, ..*old(self) }),
    {
        self.file_unlocked = true;
    }
}

// ---------------------------------------------------------------------------
// The lock over time
// ---------------------------------------------------------------------------
/// What stands where the lock is: who holds the lifecycle lock of the operating system,
/// by the lock id, and the lock directory with the owner that it names.
pub struct LockPlace {
    pub holder: Option<Seq<char>>,
    pub directory: Option<Option<ProviderSyncLockOwner>>,
}

/// One attempt to acquire the lock: by whom, and how the lock directory is judged.
pub struct Attempt {
    pub owner: ProviderSyncLockOwner,
    pub state: ProviderSyncLockState,
    pub log_busy: bool,
}

/// What comes of a step of an attempt, where files can be read and written. The
/// operating system grants its lock to one holder at a time, and a directory that
/// exists is not created.
pub open spec fn event_at(place: LockPlace, step: AcquireStep, a: Attempt) -> AcquireEvent {
    match step {
        AcquireStep::LockFile => if place.holder is None {
            AcquireEvent::Succeeded
        } else {
            AcquireEvent::Failed
        },
        AcquireStep::CreateDirectory | AcquireStep::RecreateDirectory => if place.directory is None {
            AcquireEvent::Succeeded
        } else {
            AcquireEvent::AlreadyExists
        },
        AcquireStep::IsolateDirectory => match place.directory {
            Some(owner) => if may_be_isolated(owner, a.state) {
                AcquireEvent::Succeeded
            } else {
                AcquireEvent::Failed
            },
            None => AcquireEvent::Failed,
        },
        _ => AcquireEvent::Failed,
    }
}

/// What stands there after a step of an attempt.
pub open spec fn place_after(place: LockPlace, step: AcquireStep, a: Attempt) -> LockPlace {
    match (step, event_at(place, step, a)) {
        (AcquireStep::LockFile, AcquireEvent::Succeeded) => LockPlace {
            holder: text::text_of(a.owner.lock_id),
            ..place
        },
        (
            AcquireStep::CreateDirectory | AcquireStep::RecreateDirectory,
            AcquireEvent::Succeeded,
        ) => LockPlace { directory: Some(Some(a.owner)), ..place },
        (AcquireStep::IsolateDirectory, AcquireEvent::Succeeded) => LockPlace {
            directory: None,
            ..place
        },
        _ => place,
    }
}

/// How many steps may follow on a step of an attempt.
pub open spec fn attempt_steps_left(step: AcquireStep) -> nat {
    match step {
        AcquireStep::LockFile => 4,
        AcquireStep::CreateDirectory => 3,
        AcquireStep::IsolateDirectory => 2,
        AcquireStep::RecreateDirectory => 1,
        _ => 0,
    }
}

/// How an attempt ends that has come to `step`, and what stands there then. Whoever
/// took the lifecycle lock and is refused gives it back.
pub open spec fn attempt_from(place: LockPlace, step: AcquireStep, a: Attempt) -> (
    AcquireStep,
    LockPlace,
)
    decreases attempt_steps_left(step),
{
    if attempt_steps_left(step) == 0 {
        (step, place)
    } else {
        let next = acquire_outcome(step, event_at(place, step, a), a.log_busy);
        if next is Refused && step != AcquireStep::LockFile {
            (next, LockPlace { holder: None, ..place_after(place, step, a) })
        } else {
            attempt_from(place_after(place, step, a), next, a)
        }
    }
}

/// How an attempt ends, and what stands there then.
pub open spec fn attempted(place: LockPlace, a: Attempt) -> (AcquireStep, LockPlace) {
    attempt_from(place, AcquireStep::LockFile, a)
}

/// What stands there after these attempts.
pub open spec fn after_attempts(place: LockPlace, attempts: Seq<Attempt>) -> LockPlace
    decreases attempts.len(),
{
    if attempts.len() == 0 {
        place
    } else {
        attempted(after_attempts(place, attempts.drop_last()), attempts.last()).1
    }
}

/// What stands there after the lock with this id was released.
pub open spec fn released(place: LockPlace, lock_id: Seq<char>) -> LockPlace {
    let owner = match place.directory {
        Some(owner) => owner,
        None => None,
    };
    LockPlace {
        holder: None,
        directory: if release_step(place.directory is Some, owner, lock_id)
            == ReleaseStep::RemoveDirectory {
            None
        } else {
            place.directory
        },
    }
}

/// Whether this owner holds the lock: the lifecycle lock is held under its lock id, and
/// the lock directory names it.
pub open spec fn holds_lock(place: LockPlace, owner: ProviderSyncLockOwner) -> bool {
    &&& owner.lock_id is Some
    &&& place.holder == text::text_of(owner.lock_id)
    &&& place.directory == Some(Some(owner))
}

/// When the lock is granted: nobody holds the lifecycle lock, and there is no lock
/// directory or it may be set aside. Whoever is granted the lock holds it, and a refusal
/// changes nothing.
pub proof fn lemma_attempt_ends(place: LockPlace, a: Attempt)
    requires
        a.owner.lock_id is Some,
    ensures
        ({
            let (end, after) = attempted(place, a);
            let free = place.holder is None && (place.directory matches Some(owner)
                ==> may_be_isolated(owner, a.state));
            &&& free ==> end == (AcquireStep::Granted { recovered: place.directory is Some })
            &&& free ==> holds_lock(after, a.owner)
            &&& !free ==> end == (AcquireStep::Refused {
                report_busy: a.log_busy,
                remove_isolated: false,
            })
            &&& !free ==> after == place
        }),
{
    reveal_with_fuel(attempt_from, 5);
}

/// While a guard lives nobody else is granted the lock, however often it is tried, and
/// the lock directory goes on to name the guard's owner.
pub proof fn lemma_guard_keeps_others_out(
    place: LockPlace,
    owner: ProviderSyncLockOwner,
    attempts: Seq<Attempt>,
    a: Attempt,
)
    requires
        holds_lock(place, owner),
        forall|i: int| 0 <= i < attempts.len() ==> (#[trigger] attempts[i]).owner.lock_id is Some,
        a.owner.lock_id is Some,
    ensures
        after_attempts(place, attempts) == place,
        attempted(after_attempts(place, attempts), a) == (
            AcquireStep::Refused { report_busy: a.log_busy, remove_isolated: false },
            place,
        ),
    decreases attempts.len(),
{
    if attempts.len() > 0 {
        let init = attempts.drop_last();
        assert forall|i: int| 0 <= i < init.len() implies (
        #[trigger] init[i]).owner.lock_id is Some by {
            assert(attempts[i].owner.lock_id is Some);
        }
        assert(attempts[attempts.len() - 1].owner.lock_id is Some);
        lemma_guard_keeps_others_out(place, owner, init, attempts.last());
    }
    lemma_attempt_ends(place, a);
}

/// After a guard was released the lock directory is gone and the lock is free: the next
/// attempt is granted it.
pub proof fn lemma_released_lock_is_free(
    place: LockPlace,
    owner: ProviderSyncLockOwner,
    a: Attempt,
)
    requires
        holds_lock(place, owner),
        a.owner.lock_id is Some,
    ensures
        ({
            let after = released(place, owner.lock_id->0@);
            let (end, next) = attempted(after, a);
            &&& after.holder is None
            &&& after.directory is None
            &&& end == (AcquireStep::Granted { recovered: false })
            &&& holds_lock(next, a.owner)
        }),
{
    lemma_attempt_ends(released(place, owner.lock_id->0@), a);
}

/// A guard never removes the directory of somebody else.
pub proof fn lemma_release_spares_other_directories(
    place: LockPlace,
    owner: ProviderSyncLockOwner,
    lock_id: Seq<char>,
)
    requires
        place.directory == Some(Some(owner)),
        text::text_of(owner.lock_id) != Some(lock_id),
    ensures
        released(place, lock_id).directory == place.directory,
{
}

// ---------------------------------------------------------------------------
// When a lock is given up for lost
// ---------------------------------------------------------------------------
/// A lock is given up for lost where its process does not run, or where the process that
/// runs under its number is another one: it was born otherwise; or, where the birth is not
/// on record, it started more than five seconds from the time on record; or, where neither
/// is, the lock is a day old and the process started more than five minutes after it. In
/// every other case its owner holds it.
pub proof fn lemma_when_a_lock_is_lost(
    owner: ProviderSyncLockOwner,
    age_secs: Option<u64>,
    started: Option<u64>,
    birth_id: Option<String>,
)
    ensures
        owned_lock_state(owner, age_secs, ProcessInstanceState::NotRunning)
            == (ProviderSyncLockState::Stale { pid: Some(owner.pid) }),
        owned_lock_state(owner, age_secs, ProcessInstanceState::Unknown)
            == (ProviderSyncLockState::Held { pid: owner.pid, started_at: owner.started_at }),
        ({
            let state = owned_lock_state(
                owner,
                age_secs,
                ProcessInstanceState::Running { started_at_secs: started, birth_id },
            );
            let other_birth = owner.process_birth_id matches Some(a) && (birth_id matches Some(b)
                && a@ != b@);
            let other_start = owner.process_birth_id is None && (
            owner.process_started_at matches Some(a) && (started matches Some(b) && (a + 5 < b || b
                + 5 < a)));
            let reused = owner.process_birth_id is None && owner.process_started_at is None && (
            age_secs matches Some(age) && age >= 86400) && (started matches Some(b) && b
                > owner.started_at + 300);
            let lost = other_birth || other_start || reused;
            &&& lost ==> state == (ProviderSyncLockState::Stale { pid: Some(owner.pid) })
            &&& !lost ==> state == (ProviderSyncLockState::Held {
                pid: owner.pid,
                started_at: owner.started_at,
            })
        }),
        ownerless_lock_state(age_secs) == if age_secs matches Some(age) && age >= 60 {
            ProviderSyncLockState::Stale { pid: None }
        } else {
            ProviderSyncLockState::Indeterminate
        },
{
}

/// A lock may be set aside where it is lost, or where its owner has marked it as one that
/// stands under the lifecycle lock; a lock that somebody may hold without that may not.
pub proof fn lemma_when_a_lock_may_be_set_aside(
    owner: Option<ProviderSyncLockOwner>,
    state: ProviderSyncLockState,
)
    ensures
        state is Stale ==> may_be_isolated(owner, state),
        owner matches Some(o) ==> o.lock_id is Some ==> may_be_isolated(owner, state),
        !(state is Stale) && (owner matches Some(o) ==> o.lock_id is None) ==> !may_be_isolated(
            owner,
            state,
        ),
{
}

/// The record of an owner holds what it was made of, each part under its own key, and
/// nothing else.
pub proof fn lemma_parts_of_an_owner_record(
    pid: u32,
    now: u64,
    process_started_at: Option<u64>,
    process_birth_id: Option<Seq<char>>,
    lock_id: Seq<char>,
)
    ensures
        owner_record(
            pid,
            now,
            process_started_at,
            process_birth_id,
            lock_id,
        ) matches JsonView::Object(m) && {
            &&& m.dom() == set![
                "pid"@,
                "startedAt"@,
                "processStartedAt"@,
                "processBirthId"@,
                "lockId"@,
            ]
            &&& m["pid"@] == JsonView::Unsigned(pid as u64)
            &&& m["startedAt"@] == JsonView::Unsigned(now)
            &&& m["processStartedAt"@] == match process_started_at {
                Some(n) => JsonView::Unsigned(n),
                None => JsonView::Null,
            }
            &&& m["processBirthId"@] == match process_birth_id {
                Some(s) => JsonView::Text(s),
                None => JsonView::Null,
            }
            &&& m["lockId"@] == JsonView::Text(lock_id)
        },
{
    reveal_strlit("pid");
    reveal_strlit("startedAt");
    reveal_strlit("processStartedAt");
    reveal_strlit("processBirthId");
    reveal_strlit("lockId");
    assert("pid"@.len() == 3);
    assert("startedAt"@.len() == 9);
    assert("processStartedAt"@.len() == 16);
    assert("processBirthId"@.len() == 14);
    assert("lockId"@.len() == 6);
    let m = owner_record(pid, now, process_started_at, process_birth_id, lock_id)->Object_0;
    assert(m.dom() =~= set![
        "pid"@,
        "startedAt"@,
        "processStartedAt"@,
        "processBirthId"@,
        "lockId"@,
    ]);
}

/// A lock that is set aside keeps its name and tells whose it was.
pub proof fn lemma_name_of_a_lock_set_aside(
    file_name: Seq<char>,
    owner: ProviderSyncLockOwner,
    unique: Seq<char>,
)
    ensures
        isolated_name(file_name, Some(owner), unique) == file_name + ".stale-"@ + text::decimal(
            owner.pid as nat,
        ) + "-"@ + unique,
        isolated_name(file_name, None, unique) == file_name + ".stale-interrupted-"@ + unique,
{
    reveal_strlit(".stale-");
    reveal_strlit("interrupted");
    reveal_strlit("-");
    reveal_strlit(".stale-interrupted-");
    assert(".stale-"@ + "interrupted"@ + "-"@ =~= ".stale-interrupted-"@);
    assert(isolated_name(file_name, None, unique) =~= file_name + (".stale-"@ + "interrupted"@
        + "-"@) + unique);
    assert(file_name + (".stale-"@ + "interrupted"@ + "-"@) + unique =~= file_name
        + ".stale-interrupted-"@ + unique);
}

/// Only the lock with the id of the one who releases it is removed: a lock of somebody
/// else, and one without an owner, is refused, and without a lock there is nothing to do.
pub proof fn lemma_what_a_release_removes(
    owner: Option<ProviderSyncLockOwner>,
    lock_id: Seq<char>,
)
    ensures
        release_step(false, owner, lock_id) is Nothing,
        release_step(true, owner, lock_id) is RemoveDirectory <==> (owner matches Some(o) && (
        o.lock_id matches Some(id) && id@ == lock_id)),
        !(release_step(true, owner, lock_id) is Nothing),
        release_step(true, None, lock_id) is Refuse,
{
}

} // verus!
