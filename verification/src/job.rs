//! The job model: per-process wait snapshots, aggregate job state, the
//! builder that accumulates a job fork by fork, and the job set that tracks
//! every live job in stable slots and records state-transition events.

use vstd::prelude::*;
use vstd::std_specs::vec::vec_index_mut;

verus! {

/// Life-cycle stage of a process or a whole job, ordered
/// `Active < Stopped < Terminated`; a job's aggregate state is the minimum
/// over its processes.
#[derive(Clone, Copy, Debug, PartialEq, Eq, Structural)]
pub enum State {
    Active,
    Stopped,
    Terminated,
}

/// One observed wait outcome, as plain values: the pid it concerns and what
/// happened to that process. Mirrors the POSIX `waitpid` result family.
#[derive(Clone, Copy, Debug, PartialEq, Eq, Structural)]
pub enum WaitSnapshot {
    StillAlive,
    /// pid, exit code
    Exited(i32, i32),
    /// pid, signal number, core dumped
    Signaled(i32, i32, bool),
    /// pid, signal number
    Stopped(i32, i32),
    /// pid
    Continued(i32),
    /// pid, signal number, ptrace event
    PtraceEvent(i32, i32, i32),
}

/// The pid a snapshot speaks of; 0 for `StillAlive`, which carries none.
pub open spec fn spec_pid_val(w: WaitSnapshot) -> i32 {
    match w {
        WaitSnapshot::StillAlive => 0,
        WaitSnapshot::Exited(p, _) => p,
        WaitSnapshot::Signaled(p, _, _) => p,
        WaitSnapshot::Stopped(p, _) => p,
        WaitSnapshot::Continued(p) => p,
        WaitSnapshot::PtraceEvent(p, _, _) => p,
    }
}

pub open spec fn spec_pid_of(w: WaitSnapshot) -> Option<i32> {
    if w is StillAlive {
        None
    } else {
        Some(spec_pid_val(w))
    }
}

/// The life-cycle stage a snapshot puts its process in.
pub open spec fn spec_state_of(w: WaitSnapshot) -> State {
    match w {
        WaitSnapshot::Exited(..) => State::Terminated,
        WaitSnapshot::Signaled(..) => State::Terminated,
        WaitSnapshot::Stopped(..) => State::Stopped,
        WaitSnapshot::PtraceEvent(..) => State::Stopped,
        WaitSnapshot::Continued(..) => State::Active,
        WaitSnapshot::StillAlive => State::Active,
    }
}

/// The terminal code a snapshot reports: the exit code for a normal exit,
/// the signal number for a killed process, 0 otherwise.
pub open spec fn spec_code_of(w: WaitSnapshot) -> u8 {
    match w {
        WaitSnapshot::Exited(_, code) => code as u8,
        WaitSnapshot::Signaled(_, sig, _) => sig as u8,
        _ => 0,
    }
}

impl WaitSnapshot {
    pub fn get_pid(self) -> (r: Option<i32>)
        ensures
            r == spec_pid_of(self),
    {
        match self {
            WaitSnapshot::StillAlive => None,
            WaitSnapshot::Exited(p, _) => Some(p),
            WaitSnapshot::Signaled(p, _, _) => Some(p),
            WaitSnapshot::Stopped(p, _) => Some(p),
            WaitSnapshot::Continued(p) => Some(p),
            WaitSnapshot::PtraceEvent(p, _, _) => Some(p),
        }
    }

    pub fn state(self) -> (r: State)
        ensures
            r == spec_state_of(self),
    {
        match self {
            WaitSnapshot::Exited(..) => State::Terminated,
            WaitSnapshot::Signaled(..) => State::Terminated,
            WaitSnapshot::Stopped(..) => State::Stopped,
            WaitSnapshot::PtraceEvent(..) => State::Stopped,
            WaitSnapshot::Continued(..) => State::Active,
            WaitSnapshot::StillAlive => State::Active,
        }
    }

    pub fn code(self) -> (r: u8)
        ensures
            r == spec_code_of(self),
    {
        match self {
            WaitSnapshot::Exited(_, code) => #[verifier::truncate] (code as u8),
            WaitSnapshot::Signaled(_, sig, _) => #[verifier::truncate] (sig as u8),
            _ => 0,
        }
    }
}

/// One process of a job: its pid and the last wait snapshot seen for it.
#[derive(Clone, Copy, Debug, PartialEq, Eq, Structural)]
pub struct Proccess {
    pub pid: i32,
    pub status: WaitSnapshot,
}

/// A group of processes spawned from one pipeline, sharing process group
/// `gid` (0 until the first child is recorded). `proccesses` is ordered
/// left to right as the commands appeared in the pipeline.
#[derive(Clone, Debug, PartialEq, Eq)]
pub struct Job {
    pub gid: i32,
    pub proccesses: Vec<Proccess>,
}

/// Aggregate state: Active while any process is active, else Stopped while
/// any is stopped, else Terminated — the minimum over per-process states.
pub open spec fn spec_job_state(ps: Seq<Proccess>) -> State {
    if exists|k: int| 0 <= k < ps.len() && spec_state_of(ps[k].status) == State::Active {
        State::Active
    } else if exists|k: int| 0 <= k < ps.len() && spec_state_of(ps[k].status) == State::Stopped {
        State::Stopped
    } else {
        State::Terminated
    }
}

impl Job {
    /// The job's aggregate state.
    pub fn state(&self) -> (r: State)
        requires
            self.proccesses@.len() > 0,
        ensures
            r == spec_job_state(self.proccesses@),
    {
        let mut has_active = false;
        let mut has_stopped = false;
        let n = self.proccesses.len();
        let mut k: usize = 0;
        while k < n
            invariant
                k <= n,
                n == self.proccesses@.len(),
                has_active == exists|t: int|
                    0 <= t < k && spec_state_of(self.proccesses@[t].status) == State::Active,
                has_stopped == exists|t: int|
                    0 <= t < k && spec_state_of(self.proccesses@[t].status) == State::Stopped,
            decreases n - k,
        {
            let st = self.proccesses[k].status.state();
            match st {
                State::Active => {
                    has_active = true;
                },
                State::Stopped => {
                    has_stopped = true;
                },
                State::Terminated => {},
            }
            k = k + 1;
        }
        if has_active {
            State::Active
        } else if has_stopped {
            State::Stopped
        } else {
            State::Terminated
        }
    }
}

/// Accumulates a not-yet-published job while the evaluator forks the
/// pipeline's commands right to left.
pub struct JobBuilder {
    pub imp: Job,
}

impl JobBuilder {
    /// The leader discipline: before the first child the group is 0;
    /// afterwards it is the first recorded child's pid — the process
    /// whose pid equals the job's group id.
    pub open spec fn wf(&self) -> bool {
        &&& (self.imp.proccesses@.len() == 0 ==> self.imp.gid == 0)
        &&& (self.imp.proccesses@.len() > 0 ==> self.imp.gid == self.imp.proccesses@[0].pid
            && self.imp.gid > 0)
    }

    /// Nothing recorded yet: no group, no processes.
    pub fn new(size_hint: usize) -> (r: JobBuilder)
        ensures
            r.wf(),
            r.imp.gid == 0,
            r.imp.proccesses@.len() == 0,
    {
        JobBuilder { imp: Job { gid: 0, proccesses: Vec::with_capacity(size_hint) } }
    }

    /// The group id recorded so far; 0 before the first child.
    pub fn current_gid(&self) -> (g: i32)
        ensures
            g == self.imp.gid,
    {
        self.imp.gid
    }

    pub fn is_empty(&self) -> (r: bool)
        ensures
            r == (self.imp.proccesses@.len() == 0),
    {
        self.proccess_count() == 0
    }

    pub fn proccess_count(&self) -> (n: usize)
        ensures
            n == self.imp.proccesses@.len(),
    {
        self.imp.proccesses.len()
    }

    /// Record the parent's half of one fork: the first child's pid becomes
    /// the job's group id; every child is appended as still alive. Returns
    /// the process group the caller must move the child into.
    pub fn push_child(&mut self, pid: i32) -> (pgid: i32)
        requires
            old(self).wf(),
            pid > 0,
        ensures
            final(self).wf(),
            final(self).imp.proccesses@ == old(self).imp.proccesses@.push(
                Proccess { pid: pid, status: WaitSnapshot::StillAlive },
            ),
            old(self).imp.gid == 0 ==> final(self).imp.gid == pid && pgid == pid,
            old(self).imp.gid != 0 ==> final(self).imp.gid == old(self).imp.gid && pgid == old(
                self,
            ).imp.gid,
    {
        if self.imp.gid == 0 {
            self.imp.gid = pid;
        }
        self.imp.proccesses.push(Proccess { pid: pid, status: WaitSnapshot::StillAlive });
        self.imp.gid
    }

    /// Publish the job: the recorded processes are reversed so that they
    /// run left to right as the pipeline was written (the evaluator forks
    /// right to left).
    pub fn build(self) -> (job: Job)
        requires
            self.wf(),
            self.imp.proccesses@.len() > 0,
        ensures
            job.gid == self.imp.gid,
            job.proccesses@ == self.imp.proccesses@.reverse(),
            job.proccesses@.last().pid == job.gid,
    {
        let ps = &self.imp.proccesses;
        let n = ps.len();
        let mut rev: Vec<Proccess> = Vec::with_capacity(n);
        let mut k: usize = n;
        while k > 0
            invariant
                k <= n,
                n == ps@.len(),
                rev@.len() == n - k,
                forall|t: int| 0 <= t < rev@.len() ==> rev@[t] == ps@[n - 1 - t],
            decreases k,
        {
            k = k - 1;
            rev.push(ps[k]);
        }
        proof {
            assert(rev@ =~= self.imp.proccesses@.reverse());
        }
        Job { gid: self.imp.gid, proccesses: rev }
    }
}

/// A recorded state transition: the slot of the job that changed and the
/// wait snapshot that explains the change.
#[derive(Clone, Copy, Debug, PartialEq, Eq, Structural)]
pub struct JobEvent {
    pub job_idx: usize,
    pub status: WaitSnapshot,
}

/// Whether some process of `job` has the given pid.
pub open spec fn job_has_pid(job: Job, pid: i32) -> bool {
    exists|t: int| 0 <= t < job.proccesses@.len() && job.proccesses@[t].pid == pid
}

/// Whether any occupied slot holds a job with the given pid.
pub open spec fn set_has_pid(jobs: Seq<Option<Job>>, pid: i32) -> bool {
    exists|k: int| 0 <= k < jobs.len() && jobs[k] is Some && job_has_pid(jobs[k]->Some_0, pid)
}

/// The first slot whose job contains the pid (meaningful only when one
/// exists).
pub open spec fn first_slot_with_pid(jobs: Seq<Option<Job>>, pid: i32) -> int
    decreases jobs.len(),
{
    if jobs.len() == 0 {
        0
    } else if jobs[0] is Some && job_has_pid(jobs[0]->Some_0, pid) {
        0
    } else {
        1 + first_slot_with_pid(jobs.skip(1), pid)
    }
}

/// The first position in `ps` whose process has the pid (meaningful only
/// when one exists).
pub open spec fn first_pos_with_pid(ps: Seq<Proccess>, pid: i32) -> int
    decreases ps.len(),
{
    if ps.len() == 0 {
        0
    } else if ps[0].pid == pid {
        0
    } else {
        1 + first_pos_with_pid(ps.skip(1), pid)
    }
}

/// `ps` with the first process bearing `pid` overwritten by `status`.
pub open spec fn spec_update_processes(ps: Seq<Proccess>, pid: i32, status: WaitSnapshot) -> Seq<
    Proccess,
> {
    ps.update(first_pos_with_pid(ps, pid), Proccess { pid: pid, status: status })
}

/// The rightmost position whose process currently sits in state `st`, or
/// -1 when there is none.
pub open spec fn rightmost_pos_with_state(ps: Seq<Proccess>, st: State) -> int
    decreases ps.len(),
{
    if ps.len() == 0 {
        -1
    } else if spec_state_of(ps.last().status) == st {
        ps.len() - 1
    } else {
        rightmost_pos_with_state(ps.drop_last(), st)
    }
}

/// The snapshot a transition event reports: that of the rightmost process
/// still in the prior aggregate state — the last-started child that had
/// held the job there — or, when no process remains in that state, the
/// snapshot that was just recorded.
pub open spec fn spec_event_status(ps: Seq<Proccess>, prior: State, fallback: WaitSnapshot)
    -> WaitSnapshot {
    let t = rightmost_pos_with_state(ps, prior);
    if t >= 0 {
        ps[t].status
    } else {
        fallback
    }
}

/// The length of `jobs` once trailing empty slots are dropped: the index
/// of the highest occupied slot plus one.
pub open spec fn live_len(jobs: Seq<Option<Job>>) -> int
    decreases jobs.len(),
{
    if jobs.len() == 0 {
        0
    } else if jobs.last() is Some {
        jobs.len() as int
    } else {
        live_len(jobs.drop_last())
    }
}

/// All live jobs, in stable slots, plus the queue of state-transition
/// events in the order the kernel delivered the underlying wait results.
pub struct JobSet {
    pub jobs: Vec<Option<Job>>,
    pub events: Vec<JobEvent>,
}

impl JobSet {
    /// Slot discipline: the list never ends in an empty slot, and every
    /// occupied slot holds a non-empty job.
    pub open spec fn wf(&self) -> bool {
        &&& (self.jobs@.len() == 0 || self.jobs@.last() is Some)
        &&& forall|k: int|
            0 <= k < self.jobs@.len() && self.jobs@[k] is Some
                ==> (#[trigger] self.jobs@[k])->Some_0.proccesses@.len() > 0
    }

    pub fn new() -> (r: JobSet)
        ensures
            r.wf(),
            r.jobs@.len() == 0,
            r.events@.len() == 0,
    {
        JobSet { jobs: Vec::new(), events: Vec::new() }
    }
}

/// Scan `ps` for the first process bearing `pid`.
fn find_pid_pos(ps: &Vec<Proccess>, pid: i32) -> (r: Option<usize>)
    ensures
        match r {
            Some(p) => p < ps@.len() && ps@[p as int].pid == pid && p as int == first_pos_with_pid(
                ps@,
                pid,
            ),
            None => forall|t: int| 0 <= t < ps@.len() ==> ps@[t].pid != pid,
        },
{
    let n = ps.len();
    let mut p: usize = 0;
    while p < n
        invariant
            p <= n,
            n == ps@.len(),
            forall|t: int| 0 <= t < p ==> ps@[t].pid != pid,
        decreases n - p,
    {
        if ps[p].pid == pid {
            proof {
                lemma_first_pos_with_pid(ps@, pid, p as int);
            }
            return Some(p);
        }
        p = p + 1;
    }
    None
}

proof fn lemma_first_pos_with_pid(ps: Seq<Proccess>, pid: i32, p: int)
    requires
        0 <= p < ps.len(),
        ps[p].pid == pid,
        forall|t: int| 0 <= t < p ==> ps[t].pid != pid,
    ensures
        first_pos_with_pid(ps, pid) == p,
    decreases p,
{
    if p > 0 {
        assert forall|t: int| 0 <= t < p - 1 implies ps.skip(1)[t].pid != pid by {
            assert(ps.skip(1)[t] == ps[t + 1]);
        }
        assert(ps.skip(1)[p - 1] == ps[p]);
        lemma_first_pos_with_pid(ps.skip(1), pid, p - 1);
    }
}

/// Scan downward from `m` for the rightmost process whose current state is
/// `st`.
fn rightmost_from(ps: &Vec<Proccess>, st: State, m: usize) -> (r: Option<usize>)
    requires
        m <= ps@.len(),
    ensures
        ({
            let t = rightmost_pos_with_state(ps@.take(m as int), st);
            match r {
                Some(u) => u as int == t && u < ps@.len(),
                None => t == -1,
            }
        }),
    decreases m,
{
    if m == 0 {
        proof {
            assert(ps@.take(0).len() == 0);
        }
        None
    } else {
        proof {
            assert(ps@.take(m as int).last() == ps@[m - 1]);
            assert(ps@.take(m as int).drop_last() =~= ps@.take(m - 1));
        }
        let st2 = ps[m - 1].status.state();
        if st2 == st {
            Some(m - 1)
        } else {
            rightmost_from(ps, st, m - 1)
        }
    }
}

impl JobSet {
    /// Locate the pid: the first occupied slot whose job contains it, and
    /// the first position inside that job.
    fn locate_pid(jobs: &Vec<Option<Job>>, pid: i32, i: usize) -> (r: (usize, usize))
        requires
            i <= jobs@.len(),
            set_has_pid(jobs@.skip(i as int), pid),
        ensures
            ({
                let (slot, pos) = r;
                &&& i <= slot < jobs@.len()
                &&& jobs@[slot as int] is Some
                &&& pos < jobs@[slot as int]->Some_0.proccesses@.len()
                &&& jobs@[slot as int]->Some_0.proccesses@[pos as int].pid == pid
                &&& pos as int == first_pos_with_pid(
                    jobs@[slot as int]->Some_0.proccesses@,
                    pid,
                )
                &&& slot - i == first_slot_with_pid(jobs@.skip(i as int), pid)
                &&& forall|k: int|
                    i <= k < slot ==> !(jobs@[k] is Some && job_has_pid(
                        (#[trigger] jobs@[k])->Some_0,
                        pid,
                    ))
            }),
        decreases jobs@.len() - i,
    {
        let n = jobs.len();
        proof {
            assert(jobs@.skip(i as int).len() > 0);
            assert(i < n);
        }
        let checked: Option<usize> = match &jobs[i] {
            None => None,
            Some(job) => find_pid_pos(&job.proccesses, pid),
        };
        proof {
            assert(jobs@.skip(i as int)[0] == jobs@[i as int]);
        }
        match checked {
            Some(pos) => {
                proof {
                    assert(job_has_pid(jobs@[i as int]->Some_0, pid)) by {
                        assert(jobs@[i as int]->Some_0.proccesses@[pos as int].pid == pid);
                    }
                }
                (i, pos)
            },
            None => {
                proof {
                    assert(!(jobs@[i as int] is Some && job_has_pid(
                        jobs@[i as int]->Some_0,
                        pid,
                    )));
                    assert(jobs@.skip(i as int).skip(1) =~= jobs@.skip(i + 1));
                    let k = choose|k: int|
                        0 <= k < jobs@.skip(i as int).len() && jobs@.skip(i as int)[k] is Some
                            && job_has_pid(jobs@.skip(i as int)[k]->Some_0, pid);
                    assert(k != 0);
                    assert(jobs@.skip(i + 1)[k - 1] == jobs@.skip(i as int)[k]);
                    assert(set_has_pid(jobs@.skip(i + 1), pid));
                }
                let (slot, pos) = Self::locate_pid(jobs, pid, i + 1);
                proof {
                    assert forall|k: int|
                        i <= k < slot implies !(jobs@[k] is Some && job_has_pid(
                        (#[trigger] jobs@[k])->Some_0,
                        pid,
                    )) by {}
                }
                (slot, pos)
            },
        }
    }

    /// Route one wait snapshot into the set: overwrite the snapshot of the
    /// first process bearing its pid, and, when the owning job's aggregate
    /// state changed, record a transition event. Returns the slot touched.
    pub fn update_job_set(&mut self, status: WaitSnapshot) -> (idx: usize)
        requires
            old(self).wf(),
            !(status is StillAlive),
            set_has_pid(old(self).jobs@, spec_pid_val(status)),
        ensures
            ({
                let pid = spec_pid_val(status);
                let jobs0 = old(self).jobs@;
                let oldjob = jobs0[idx as int]->Some_0;
                let newps = spec_update_processes(oldjob.proccesses@, pid, status);
                let prior = spec_job_state(oldjob.proccesses@);
                let now = spec_job_state(newps);
                &&& final(self).wf()
                &&& idx < jobs0.len()
                &&& idx as int == first_slot_with_pid(jobs0, pid)
                &&& jobs0[idx as int] is Some
                &&& job_has_pid(oldjob, pid)
                &&& forall|k: int|
                    0 <= k < idx ==> !(jobs0[k] is Some && job_has_pid(
                        (#[trigger] jobs0[k])->Some_0,
                        pid,
                    ))
                &&& final(self).jobs@.len() == jobs0.len()
                &&& forall|k: int|
                    0 <= k < jobs0.len() && k != idx ==> final(self).jobs@[k] == jobs0[k]
                &&& final(self).jobs@[idx as int] is Some
                &&& final(self).jobs@[idx as int]->Some_0.gid == oldjob.gid
                &&& final(self).jobs@[idx as int]->Some_0.proccesses@ == newps
                &&& (prior != now ==> final(self).events@ == old(self).events@.push(
                    JobEvent { job_idx: idx, status: spec_event_status(newps, prior, status) },
                ))
                &&& (prior == now ==> final(self).events@ == old(self).events@)
            }),
    {
        let pid: i32 = match status.get_pid() {
            Some(p) => p,
            None => {
                proof {
                    assert(false);
                }
                0
            },
        };
        proof {
            assert(self.jobs@.skip(0) =~= self.jobs@);
        }
        let (slot, pos) = Self::locate_pid(&self.jobs, pid, 0);
        let prior = match &self.jobs[slot] {
            Some(job) => job.state(),
            None => vstd::pervasive::unreached(),
        };
        match vec_index_mut(&mut self.jobs, slot) {
            Some(job) => {
                let pr = vec_index_mut(&mut job.proccesses, pos);
                pr.status = status;
            },
            None => {
                proof {
                    assert(false);
                }
            },
        }
        let now = match &self.jobs[slot] {
            Some(job) => job.state(),
            None => vstd::pervasive::unreached(),
        };
        if now != prior {
            let ev_status = match &self.jobs[slot] {
                Some(job) => {
                    let m = job.proccesses.len();
                    proof {
                        assert(job.proccesses@.take(m as int) =~= job.proccesses@);
                    }
                    match rightmost_from(&job.proccesses, prior, m) {
                        Some(t) => job.proccesses[t].status,
                        None => status,
                    }
                },
                None => vstd::pervasive::unreached(),
            };
            self.events.push(JobEvent { job_idx: slot, status: ev_status });
        }
        slot
    }

    /// Place a job in the first empty slot, or append one; hand back the
    /// descriptor naming that slot.
    pub fn push(&mut self, job: Job) -> (d: JobDescriptor)
        requires
            old(self).wf(),
            job.proccesses@.len() > 0,
        ensures
            final(self).wf(),
            final(self).events@ == old(self).events@,
            d.job_idx <= old(self).jobs@.len(),
            d.job_idx < final(self).jobs@.len(),
            final(self).jobs@[d.job_idx as int] == Some(job),
            forall|k: int| 0 <= k < d.job_idx ==> old(self).jobs@[k] is Some,
            d.job_idx < old(self).jobs@.len() ==> old(self).jobs@[d.job_idx as int] is None
                && final(self).jobs@ == old(self).jobs@.update(d.job_idx as int, Some(job)),
            d.job_idx == old(self).jobs@.len() ==> final(self).jobs@ == old(self).jobs@.push(
                Some(job),
            ),
    {
        let n = self.jobs.len();
        let mut i: usize = 0;
        while i < n
            invariant
                i <= n,
                n == self.jobs@.len(),
                *self == *old(self),
                old(self).wf(),
                job.proccesses@.len() > 0,
                forall|k: int| 0 <= k < i ==> self.jobs@[k] is Some,
            decreases n - i,
        {
            let empty = self.jobs[i].is_none();
            if empty {
                let elem = vec_index_mut(&mut self.jobs, i);
                *elem = Some(job);
                return JobDescriptor { job_idx: i };
            }
            i = i + 1;
        }
        self.jobs.push(Some(job));
        JobDescriptor { job_idx: n }
    }

    /// The job a descriptor names.
    pub fn job(&self, d: &JobDescriptor) -> (j: &Job)
        requires
            d.job_idx < self.jobs@.len(),
            self.jobs@[d.job_idx as int] is Some,
        ensures
            *j == self.jobs@[d.job_idx as int]->Some_0,
    {
        match &self.jobs[d.job_idx] {
            Some(job) => job,
            None => vstd::pervasive::unreached(),
        }
    }

    /// Release a descriptor: when its job's aggregate state is Terminated,
    /// the slot is cleared and trailing empty slots are dropped, so the
    /// indices of surviving jobs stay stable.
    pub fn release(&mut self, d: JobDescriptor)
        requires
            old(self).wf(),
            d.job_idx < old(self).jobs@.len(),
            old(self).jobs@[d.job_idx as int] is Some,
        ensures
            final(self).wf(),
            final(self).events@ == old(self).events@,
            ({
                let st = spec_job_state(old(self).jobs@[d.job_idx as int]->Some_0.proccesses@);
                let cleared = old(self).jobs@.update(d.job_idx as int, None::<Job>);
                &&& (st != State::Terminated ==> final(self).jobs@ == old(self).jobs@)
                &&& (st == State::Terminated ==> final(self).jobs@ == cleared.take(
                    live_len(cleared),
                ))
            }),
    {
        let st = match &self.jobs[d.job_idx] {
            Some(job) => job.state(),
            None => vstd::pervasive::unreached(),
        };
        if !matches!(st, State::Terminated) {
            return ;
        }
        let elem = vec_index_mut(&mut self.jobs, d.job_idx);
        *elem = None;
        let ghost cleared = self.jobs@;
        proof {
            assert(cleared.take(cleared.len() as int) =~= cleared);
        }
        while self.jobs.len() > 0 && self.jobs[self.jobs.len() - 1].is_none()
            invariant
                self.jobs@.len() <= cleared.len(),
                self.jobs@ == cleared.take(self.jobs@.len() as int),
                live_len(cleared) == live_len(cleared.take(self.jobs@.len() as int)),
                self.events@ == old(self).events@,
                forall|k: int|
                    0 <= k < cleared.len() && cleared[k] is Some ==> (
                    #[trigger] cleared[k])->Some_0.proccesses@.len() > 0,
            decreases self.jobs@.len(),
        {
            let ghost m = self.jobs@.len() as int;
            proof {
                assert(cleared.take(m).drop_last() =~= cleared.take(m - 1));
                assert(cleared.take(m).last() == self.jobs@[m - 1]);
            }
            self.jobs.pop();
            proof {
                assert(self.jobs@ =~= cleared.take(m - 1));
            }
        }
        proof {
            let m = self.jobs@.len() as int;
            if m > 0 {
                assert(cleared.take(m).last() == self.jobs@[m - 1]);
                assert(live_len(cleared.take(m)) == m);
            }
        }
    }

    /// One step of waiting on a descriptor: route the snapshot through
    /// `update_job_set`; the wait is over when the touched slot is the
    /// descriptor's and its aggregate state moved away from `entry_state`.
    /// A foreground job that reached Terminated through a normal exit has
    /// its just-recorded transition event discarded: a normal foreground
    /// exit is not an asynchronous event the user needs reported.
    pub fn wait_update(
        &mut self,
        d: &JobDescriptor,
        entry_state: State,
        status: WaitSnapshot,
    ) -> (done: bool)
        requires
            old(self).wf(),
            !(status is StillAlive),
            set_has_pid(old(self).jobs@, spec_pid_val(status)),
        ensures
            ({
                let pid = spec_pid_val(status);
                let jobs0 = old(self).jobs@;
                let idx = first_slot_with_pid(jobs0, pid);
                let oldjob = jobs0[idx]->Some_0;
                let newps = spec_update_processes(oldjob.proccesses@, pid, status);
                let prior = spec_job_state(oldjob.proccesses@);
                let now = spec_job_state(newps);
                let evs1 = if prior != now {
                    old(self).events@.push(
                        JobEvent {
                            job_idx: idx as usize,
                            status: spec_event_status(newps, prior, status),
                        },
                    )
                } else {
                    old(self).events@
                };
                let discard = done && now == State::Terminated && newps.len() > 0 && newps.last().status
                    is Exited;
                &&& final(self).wf()
                &&& done == (idx == d.job_idx as int && now != entry_state)
                &&& final(self).jobs@.len() == jobs0.len()
                &&& forall|k: int| 0 <= k < jobs0.len() && k != idx ==> final(self).jobs@[k] == jobs0[k]
                &&& final(self).jobs@[idx] is Some
                &&& final(self).jobs@[idx]->Some_0.gid == oldjob.gid
                &&& final(self).jobs@[idx]->Some_0.proccesses@ == newps
                &&& (discard && evs1.len() > 0 ==> final(self).events@ == evs1.drop_last())
                &&& (discard && evs1.len() == 0 ==> final(self).events@ == evs1)
                &&& (!discard ==> final(self).events@ == evs1)
            }),
    {
        let idx = self.update_job_set(status);
        if idx != d.job_idx {
            return false;
        }
        let now = match &self.jobs[idx] {
            Some(job) => job.state(),
            None => vstd::pervasive::unreached(),
        };
        if now == entry_state {
            return false;
        }
        if matches!(now, State::Terminated) {
            let last_exited = match &self.jobs[idx] {
                Some(job) => {
                    let n = job.proccesses.len();
                    matches!(job.proccesses[n - 1].status, WaitSnapshot::Exited(..))
                },
                None => vstd::pervasive::unreached(),
            };
            if last_exited && self.events.len() > 0 {
                self.events.pop();
            }
        }
        true
    }
}

/// A plain handle naming one slot of a job set; the evaluator holds it
/// while the job runs and releases it on every exit path.
#[derive(Clone, Copy, Debug, PartialEq, Eq, Structural)]
pub struct JobDescriptor {
    pub job_idx: usize,
}

/// When some process bears the pid, `first_pos_with_pid` names the first
/// of them.
pub proof fn lemma_first_pos_props(ps: Seq<Proccess>, pid: i32)
    requires
        exists|t: int| 0 <= t < ps.len() && (#[trigger] ps[t]).pid == pid,
    ensures
        0 <= first_pos_with_pid(ps, pid) < ps.len(),
        ps[first_pos_with_pid(ps, pid)].pid == pid,
        forall|t: int| 0 <= t < first_pos_with_pid(ps, pid) ==> (#[trigger] ps[t]).pid != pid,
    decreases ps.len(),
{
    if ps.len() > 0 && ps[0].pid != pid {
        let t = choose|t: int| 0 <= t < ps.len() && (#[trigger] ps[t]).pid == pid;
        assert(ps.skip(1)[t - 1] == ps[t]);
        lemma_first_pos_props(ps.skip(1), pid);
        let f = first_pos_with_pid(ps.skip(1), pid);
        assert(ps[1 + f] == ps.skip(1)[f]);
        assert forall|u: int| 0 <= u < 1 + f implies (#[trigger] ps[u]).pid != pid by {
            if u > 0 {
                assert(ps.skip(1)[u - 1] == ps[u]);
            }
        }
    }
}

/// Law: a job every one of whose processes has terminated has aggregate
/// state Terminated, and a further snapshot that itself reports a
/// terminated process (a normal exit or a signal death, the only snapshots
/// a reaped foreground job can yield) leaves that aggregate state
/// unchanged.
pub proof fn lemma_job_terminated_stable(ps: Seq<Proccess>, pid: i32, status: WaitSnapshot)
    requires
        forall|t: int| 0 <= t < ps.len() ==> spec_state_of((#[trigger] ps[t]).status)
            == State::Terminated,
        spec_state_of(status) == State::Terminated,
        exists|t: int| 0 <= t < ps.len() && (#[trigger] ps[t]).pid == pid,
    ensures
        spec_job_state(ps) == State::Terminated,
        spec_job_state(spec_update_processes(ps, pid, status)) == State::Terminated,
{
    lemma_first_pos_props(ps, pid);
    let pos = first_pos_with_pid(ps, pid);
    let newps = spec_update_processes(ps, pid, status);
    assert forall|t: int| 0 <= t < newps.len() implies spec_state_of((#[trigger] newps[t]).status)
        == State::Terminated by {
        if t == pos {
            assert(newps[t].status == status);
        } else {
            assert(newps[t] == ps[t]);
        }
    }
}

/// Law: the aggregate state is Terminated exactly when every process has
/// terminated.
pub proof fn lemma_job_state_terminated_iff(ps: Seq<Proccess>)
    ensures
        spec_job_state(ps) == State::Terminated <==> forall|t: int|
            0 <= t < ps.len() ==> spec_state_of((#[trigger] ps[t]).status) == State::Terminated,
{
    if spec_job_state(ps) == State::Terminated {
        assert forall|t: int|
            0 <= t < ps.len() implies spec_state_of((#[trigger] ps[t]).status)
            == State::Terminated by {
            let st = spec_state_of(ps[t].status);
            if st == State::Active {
                assert(spec_job_state(ps) == State::Active);
            } else if st == State::Stopped {
                assert(spec_job_state(ps) != State::Terminated);
            }
        }
    }
}

/// Law: a well-formed job set never ends in an empty slot, so the length
/// of its job list is the index of the highest occupied slot plus one.
/// `push`, `update_job_set`, `wait_update` and `release` all keep this.
pub proof fn lemma_slot_stability(js: JobSet)
    requires
        js.wf(),
    ensures
        live_len(js.jobs@) == js.jobs@.len(),
        js.jobs@.len() > 0 ==> js.jobs@[js.jobs@.len() - 1] is Some,
{
}

} // verus!
