use ish::builtin::builtin_rehash;
use ish::eval::{env_pair, pipeline_code};
use ish::global::State as ShellState;
use ish::job::{Job, JobBuilder, JobSet, Proccess, State, WaitSnapshot};
use ish::search::SearchCache;

fn pair(a: &str, b: &str) -> (Vec<u8>, Vec<u8>) {
    (a.as_bytes().to_vec(), b.as_bytes().to_vec())
}

fn alive(pid: i32) -> Proccess {
    Proccess { pid, status: WaitSnapshot::StillAlive }
}

#[test]
fn snapshot_accessors() {
    let e = WaitSnapshot::Exited(7, 3);
    assert_eq!(e.get_pid(), Some(7));
    assert_eq!(e.state(), State::Terminated);
    assert_eq!(e.code(), 3);
    let s = WaitSnapshot::Signaled(8, 9, false);
    assert_eq!(s.state(), State::Terminated);
    assert_eq!(s.code(), 9);
    let st = WaitSnapshot::Stopped(9, 19);
    assert_eq!(st.state(), State::Stopped);
    assert_eq!(st.code(), 0);
    assert_eq!(WaitSnapshot::Continued(4).state(), State::Active);
    assert_eq!(WaitSnapshot::StillAlive.get_pid(), None);
    assert_eq!(WaitSnapshot::PtraceEvent(5, 5, 1).state(), State::Stopped);
}

#[test]
fn aggregate_state_is_minimum() {
    let active = Job {
        gid: 1,
        proccesses: vec![
            Proccess { pid: 1, status: WaitSnapshot::Exited(1, 0) },
            alive(2),
        ],
    };
    assert_eq!(active.state(), State::Active);
    let stopped = Job {
        gid: 1,
        proccesses: vec![
            Proccess { pid: 1, status: WaitSnapshot::Exited(1, 0) },
            Proccess { pid: 2, status: WaitSnapshot::Stopped(2, 19) },
        ],
    };
    assert_eq!(stopped.state(), State::Stopped);
    let done = Job {
        gid: 1,
        proccesses: vec![
            Proccess { pid: 1, status: WaitSnapshot::Exited(1, 0) },
            Proccess { pid: 2, status: WaitSnapshot::Signaled(2, 15, false) },
        ],
    };
    assert_eq!(done.state(), State::Terminated);
}

#[test]
fn builder_adopts_first_pid_and_reverses() {
    let mut b = JobBuilder::new(2);
    assert_eq!(b.current_gid(), 0);
    assert!(b.is_empty());
    let pg1 = b.push_child(10);
    assert_eq!(pg1, 10);
    assert_eq!(b.current_gid(), 10);
    let pg2 = b.push_child(11);
    assert_eq!(pg2, 10);
    assert_eq!(b.proccess_count(), 2);
    let job = b.build();
    assert_eq!(job.gid, 10);
    let pids: Vec<i32> = job.proccesses.iter().map(|p| p.pid).collect();
    assert_eq!(pids, vec![11, 10]);
}

#[test]
fn job_set_first_empty_slot_and_truncation() {
    let mut set = JobSet::new();
    let a = set.push(Job { gid: 1, proccesses: vec![alive(1)] });
    let b = set.push(Job { gid: 2, proccesses: vec![alive(2)] });
    assert_eq!(a.job_idx, 0);
    assert_eq!(b.job_idx, 1);
    assert_eq!(set.jobs.len(), 2);

    // Terminate and release the first job: its slot empties but the slot
    // of the survivor stays where it was.
    set.update_job_set(WaitSnapshot::Exited(1, 0));
    set.release(a);
    assert_eq!(set.jobs.len(), 2);
    assert!(set.jobs[0].is_none());
    assert!(set.jobs[1].is_some());

    // A new job takes the first empty slot.
    let c = set.push(Job { gid: 3, proccesses: vec![alive(3)] });
    assert_eq!(c.job_idx, 0);

    // Terminating and releasing the job in the last slot truncates it.
    set.update_job_set(WaitSnapshot::Exited(2, 0));
    set.release(b);
    assert_eq!(set.jobs.len(), 1);
    set.update_job_set(WaitSnapshot::Signaled(3, 9, false));
    set.release(c);
    assert_eq!(set.jobs.len(), 0);
}

#[test]
fn release_keeps_live_jobs() {
    let mut set = JobSet::new();
    let a = set.push(Job { gid: 5, proccesses: vec![alive(5)] });
    set.release(a);
    assert_eq!(set.jobs.len(), 1);
    assert!(set.jobs[0].is_some());
}

#[test]
fn update_records_transition_event() {
    let mut set = JobSet::new();
    set.push(Job { gid: 7, proccesses: vec![alive(7)] });
    assert!(set.events.is_empty());
    let idx = set.update_job_set(WaitSnapshot::Exited(7, 0));
    assert_eq!(idx, 0);
    // The single process left its prior state, so the transition is
    // explained by the snapshot just recorded.
    assert_eq!(set.events.len(), 1);
    assert_eq!(set.events[0].job_idx, 0);
    assert_eq!(set.events[0].status, WaitSnapshot::Exited(7, 0));
}

#[test]
fn update_keeps_state_quiet_while_one_child_lives() {
    let mut set = JobSet::new();
    set.push(Job { gid: 21, proccesses: vec![alive(21), alive(22)] });
    set.update_job_set(WaitSnapshot::Exited(21, 0));
    // One child still alive: aggregate state is unchanged, no event.
    assert!(set.events.is_empty());
    set.update_job_set(WaitSnapshot::Exited(22, 1));
    assert_eq!(set.events.len(), 1);
}

#[test]
fn wait_steps_until_the_job_changes_state() {
    let mut set = JobSet::new();
    let d = set.push(Job { gid: 31, proccesses: vec![alive(31), alive(32)] });
    let bystander = set.push(Job { gid: 41, proccesses: vec![alive(41)] });
    let entry = State::Active;

    // A snapshot for another job does not end the wait.
    assert!(!set.wait_update(&d, entry, WaitSnapshot::Exited(41, 0)));
    // The first child's exit leaves the job active: keep waiting.
    assert!(!set.wait_update(&d, entry, WaitSnapshot::Exited(31, 0)));
    // The last child's normal exit ends the wait, and the foreground
    // transition event is discarded again.
    assert!(set.wait_update(&d, entry, WaitSnapshot::Exited(32, 0)));
    // Only the bystander's own transition event remains.
    assert_eq!(set.events.len(), 1);
    assert_eq!(set.events[0].job_idx, bystander.job_idx);
    let code = pipeline_code(set.job(&d));
    assert_eq!(code, 0);
    set.release(d);
}

#[test]
fn wait_keeps_event_for_signal_death() {
    let mut set = JobSet::new();
    let d = set.push(Job { gid: 51, proccesses: vec![alive(51)] });
    assert!(set.wait_update(&d, State::Active, WaitSnapshot::Signaled(51, 9, false)));
    // A death by signal is reported, not discarded.
    assert_eq!(set.events.len(), 1);
    assert_eq!(set.events[0].status, WaitSnapshot::Signaled(51, 9, false));
    assert_eq!(pipeline_code(set.job(&d)), 9);
}

#[test]
fn terminated_job_stays_terminated() {
    let mut set = JobSet::new();
    set.push(Job { gid: 61, proccesses: vec![alive(61), alive(62)] });
    set.update_job_set(WaitSnapshot::Exited(61, 0));
    set.update_job_set(WaitSnapshot::Exited(62, 0));
    assert_eq!(set.jobs[0].as_ref().unwrap().state(), State::Terminated);
    let events_before = set.events.len();
    // A further terminated-state snapshot for a process of the job leaves
    // the aggregate state where it is and records no new transition.
    set.update_job_set(WaitSnapshot::Exited(61, 1));
    assert_eq!(set.jobs[0].as_ref().unwrap().state(), State::Terminated);
    assert_eq!(set.events.len(), events_before);
}

#[test]
fn pipeline_code_is_last_command() {
    let job = Job {
        gid: 1,
        proccesses: vec![
            Proccess { pid: 1, status: WaitSnapshot::Exited(1, 3) },
            Proccess { pid: 2, status: WaitSnapshot::Exited(2, 0) },
        ],
    };
    assert_eq!(pipeline_code(&job), 0);
}

#[test]
fn cache_earlier_path_entry_wins() {
    let mut cache = SearchCache::new();
    let entries = vec![
        pair("f", "/d1/f"),
        pair("g", "/d1/g"),
        pair("f", "/d2/f"),
    ];
    cache.rehash(&entries);
    assert_eq!(cache.lookup(b"f"), Some(&b"/d1/f".to_vec()));
    assert_eq!(cache.lookup(b"g"), Some(&b"/d1/g".to_vec()));
    assert_eq!(cache.lookup(b"h"), None);
}

#[test]
fn cache_skips_nul_entries_and_rebuilds() {
    let mut cache = SearchCache::new();
    cache.rehash(&vec![(b"h\0".to_vec(), b"/d/h".to_vec())]);
    assert_eq!(cache.lookup(b"h\0"), None);
    cache.rehash(&vec![pair("ls", "/bin/ls")]);
    assert_eq!(cache.lookup(b"ls"), Some(&b"/bin/ls".to_vec()));
    // rehash replaces everything that was there before.
    cache.rehash(&vec![pair("cp", "/bin/cp")]);
    assert_eq!(cache.lookup(b"ls"), None);
}

#[test]
fn rehash_builtin_rebuilds_the_cache() {
    let mut state = ShellState::new();
    assert_eq!(state.search_cache.lookup(b"echo"), None);
    let code = builtin_rehash(&mut state, &vec![pair("echo", "/bin/echo")]);
    assert_eq!(code, 0);
    assert_eq!(state.search_cache.lookup(b"echo"), Some(&b"/bin/echo".to_vec()));
}

#[test]
fn env_pair_joins_with_equals() {
    assert_eq!(env_pair(b"HOME", b"/tmp"), b"HOME=/tmp".to_vec());
    assert_eq!(env_pair(b"X", b""), b"X=".to_vec());
}
