//! Shell job control: the job table (background and foreground jobs, their
//! states) and the `&` suffix that runs a command in the background.
use vstd::prelude::*;
use vstd::string::*;
use crate::text::{string_of, push_dec, dec, pad_right, push_padded, trimmed, trim_str};

verus! {

/// Jobs the shell tracks at once.
pub const MAX_JOBS: usize = 16;

/// The state of a job.
#[derive(PartialEq, Eq, Structural, Clone, Copy, Debug)]
pub enum JobState {
    Running,
    Stopped,
    Done,
}

/// A job: its number, its task, its command line, its state, and whether
/// it runs in the background.
pub struct Job {
    pub id: usize,
    pub pid: usize,
    pub command: String,
    pub state: JobState,
    pub background: bool,
}

/// A job as plain values.
pub struct JobModel {
    pub id: usize,
    pub pid: usize,
    pub command: Seq<char>,
    pub state: JobState,
    pub background: bool,
}

impl Job {
    pub open spec fn model(&self) -> JobModel {
        JobModel { id: self.id, pid: self.pid, command: self.command@, state: self.state, background: self.background }
    }
}

pub open spec fn slot_model(s: Option<Job>) -> Option<JobModel> {
    match s {
        Some(j) => Some(j.model()),
        None => None,
    }
}

/// The job table: `MAX_JOBS` slots and the next job number.
pub struct JobTable {
    pub jobs: Vec<Option<Job>>,
    pub next_id: usize,
}

/// Index of the first slot from `j` on that holds job `id` (the length
/// when none).
pub open spec fn slot_of_id(s: Seq<Option<JobModel>>, id: usize, j: int) -> int
    decreases s.len() - j,
{
    if j < 0 || j >= s.len() {
        s.len() as int
    } else if s[j] matches Some(m) && m.id == id {
        j
    } else {
        slot_of_id(s, id, j + 1)
    }
}

/// Index of the first slot from `j` on that holds a job of task `pid`.
pub open spec fn slot_of_pid(s: Seq<Option<JobModel>>, pid: usize, j: int) -> int
    decreases s.len() - j,
{
    if j < 0 || j >= s.len() {
        s.len() as int
    } else if s[j] matches Some(m) && m.pid == pid {
        j
    } else {
        slot_of_pid(s, pid, j + 1)
    }
}

/// Index of the first slot from `j` on that is empty or holds a finished
/// job.
pub open spec fn free_slot(s: Seq<Option<JobModel>>, j: int) -> int
    decreases s.len() - j,
{
    if j < 0 || j >= s.len() {
        s.len() as int
    } else if s[j] is None || (s[j] matches Some(m) && m.state == JobState::Done) {
        j
    } else {
        free_slot(s, j + 1)
    }
}

impl JobTable {
    pub open spec fn slots(&self) -> Seq<Option<JobModel>> {
        self.jobs@.map_values(|s: Option<Job>| slot_model(s))
    }

    pub open spec fn wf(&self) -> bool {
        self.jobs@.len() == MAX_JOBS
    }

    /// No jobs; numbering starts at 1.
    pub fn new() -> (t: Self)
        ensures
            t.wf(),
            t.next_id == 1,
            forall|i: int| 0 <= i < MAX_JOBS ==> (#[trigger] t.slots()[i]) is None,
    {
        let mut jobs: Vec<Option<Job>> = Vec::new();
        let mut i: usize = 0;
        while i < MAX_JOBS
            invariant
                i <= MAX_JOBS,
                jobs@.len() == i,
                forall|k: int| 0 <= k < i ==> jobs@[k] is None,
            decreases MAX_JOBS - i,
        {
            jobs.push(None);
            i = i + 1;
        }
        JobTable { jobs, next_id: 1 }
    }
}

fn find_slot(t: &JobTable, job_id: usize) -> (r: usize)
    ensures
        r == slot_of_id(t.slots(), job_id, 0),
        r <= t.jobs@.len(),
{
    proof {
        lemma_slot_of_id(t.slots(), job_id, 0);
    }
    let mut i: usize = 0;
    while i < t.jobs.len()
        invariant
            i <= t.jobs@.len(),
            slot_of_id(t.slots(), job_id, 0) == slot_of_id(t.slots(), job_id, i as int),
        decreases t.jobs@.len() - i,
    {
        assert(t.slots()[i as int] == slot_model(t.jobs@[i as int]));
        if let Some(j) = &t.jobs[i] {
            if j.id == job_id {
                return i;
            }
        }
        i = i + 1;
    }
    i
}

proof fn lemma_slot_of_id(s: Seq<Option<JobModel>>, id: usize, j: int)
    requires
        0 <= j <= s.len(),
    ensures
        j <= slot_of_id(s, id, j) <= s.len(),
        slot_of_id(s, id, j) < s.len() ==> (s[slot_of_id(s, id, j)] matches Some(m) && m.id == id),
    decreases s.len() - j,
{
    if j < s.len() && !(s[j] matches Some(m) && m.id == id) {
        lemma_slot_of_id(s, id, j + 1);
    }
}

proof fn lemma_slot_of_pid(s: Seq<Option<JobModel>>, pid: usize, j: int)
    requires
        0 <= j <= s.len(),
    ensures
        j <= slot_of_pid(s, pid, j) <= s.len(),
        slot_of_pid(s, pid, j) < s.len() ==> (s[slot_of_pid(s, pid, j)] matches Some(m) && m.pid == pid),
    decreases s.len() - j,
{
    if j < s.len() && !(s[j] matches Some(m) && m.pid == pid) {
        lemma_slot_of_pid(s, pid, j + 1);
    }
}

proof fn lemma_free_slot(s: Seq<Option<JobModel>>, j: int)
    requires
        0 <= j <= s.len(),
    ensures
        j <= free_slot(s, j) <= s.len(),
    decreases s.len() - j,
{
    if j < s.len() && !(s[j] is None || (s[j] matches Some(m) && m.state == JobState::Done)) {
        lemma_free_slot(s, j + 1);
    }
}

/// Replace the job in slot `i` (its number stays), for the updates below.
fn put_job(t: &mut JobTable, i: usize, j: Job)
    requires
        i < old(t).jobs@.len(),
    ensures
        final(t).slots() == old(t).slots().update(i as int, Some(j.model())),
        final(t).jobs@.len() == old(t).jobs@.len(),
        final(t).next_id == old(t).next_id,
{
    let ghost before = t.slots();
    t.jobs.set(i, Some(j));
    assert(t.slots() =~= before.update(i as int, Some(j.model())));
}

fn take_job(t: &mut JobTable, i: usize) -> (j: Job)
    requires
        i < old(t).jobs@.len(),
        old(t).jobs@[i as int] is Some,
    ensures
        Some(j.model()) == old(t).slots()[i as int],
        final(t).slots() == old(t).slots().update(i as int, None),
        final(t).jobs@.len() == old(t).jobs@.len(),
        final(t).next_id == old(t).next_id,
{
    let ghost before = t.slots();
    let mut s: Option<Job> = None;
    t.jobs.set_and_swap(i, &mut s);
    assert(t.slots() =~= before.update(i as int, None));
    match s {
        Some(j) => j,
        None => {
            assert(false);
            Job { id: 0, pid: 0, command: String::new(), state: JobState::Done, background: false }
        },
    }
}

/// Register a job for task `pid` running `command`: it takes the next
/// number and, running, the first slot that is empty or holds a finished
/// job; with no such slot it is not tracked. Returns the number.
pub fn add_job(t: &mut JobTable, pid: usize, command: String, background: bool) -> (id: usize)
    requires
        old(t).wf(),
        old(t).next_id < usize::MAX,
    ensures
        final(t).wf(),
        id == old(t).next_id,
        final(t).next_id == old(t).next_id + 1,
        ({
            let k = free_slot(old(t).slots(), 0);
            final(t).slots() == if k < MAX_JOBS {
                old(t).slots().update(k, Some(JobModel { id, pid, command: command@, state: JobState::Running,
                    background }))
            } else {
                old(t).slots()
            }
        }),
{
    let id = t.next_id;
    t.next_id = t.next_id + 1;
    proof {
        lemma_free_slot(t.slots(), 0);
    }
    let mut i: usize = 0;
    while i < t.jobs.len()
        invariant
            i <= t.jobs@.len(),
            t.jobs@.len() == MAX_JOBS,
            id == old(t).next_id,
            t.next_id == old(t).next_id + 1,
            t.slots() == old(t).slots(),
            free_slot(t.slots(), 0) == free_slot(t.slots(), i as int),
        decreases t.jobs@.len() - i,
    {
        assert(t.slots()[i as int] == slot_model(t.jobs@[i as int]));
        let free = match &t.jobs[i] {
            None => true,
            Some(j) => j.state == JobState::Done,
        };
        if free {
            put_job(t, i, Job { id, pid, command, state: JobState::Running, background });
            return id;
        }
        i = i + 1;
    }
    id
}

/// Bring job `job_id` to the foreground: a stopped job runs again. Refused
/// for an unknown job or a finished one. Returns the command line (which
/// the shell echoes before waiting for the job).
pub fn fg(t: &mut JobTable, job_id: usize) -> (r: Result<String, &'static str>)
    requires
        old(t).wf(),
    ensures
        final(t).wf(),
        final(t).next_id == old(t).next_id,
        ({
            let s = old(t).slots();
            let k = slot_of_id(s, job_id, 0);
            if k >= MAX_JOBS {
                r == Err::<String, &'static str>("no such job") && final(t).slots() == s
            } else {
                let m = s[k]->0;
                if m.state == JobState::Done {
                    r == Err::<String, &'static str>("job already finished") && final(t).slots() == s
                } else {
                    &&& r matches Ok(c) && c@ == m.command
                    &&& final(t).slots() == s.update(k, Some(JobModel { background: false, state: JobState::Running, ..m }))
                }
            }
        }),
{
    let k = find_slot(t, job_id);
    proof {
        lemma_slot_of_id(t.slots(), job_id, 0);
    }
    if k >= t.jobs.len() {
        return Err("no such job");
    }
    assert(t.slots()[k as int] == slot_model(t.jobs@[k as int]));
    let mut j = take_job(t, k);
    if j.state == JobState::Done {
        put_job(t, k, j);
        assert(t.slots() =~= old(t).slots());
        return Err("job already finished");
    }
    j.background = false;
    j.state = JobState::Running;
    let c = string_of(j.command.as_str());
    put_job(t, k, j);
    assert(t.slots() =~= old(t).slots().update(k as int, Some(j.model())));
    Ok(c)
}

/// Resume job `job_id` in the background. Refused for an unknown job, a
/// finished one, or one already running in the background. Returns the
/// notice `[id] command &`.
pub fn bg(t: &mut JobTable, job_id: usize) -> (r: Result<String, &'static str>)
    requires
        old(t).wf(),
    ensures
        final(t).wf(),
        final(t).next_id == old(t).next_id,
        ({
            let s = old(t).slots();
            let k = slot_of_id(s, job_id, 0);
            if k >= MAX_JOBS {
                r == Err::<String, &'static str>("no such job") && final(t).slots() == s
            } else {
                let m = s[k]->0;
                if m.state == JobState::Done {
                    r == Err::<String, &'static str>("job already finished") && final(t).slots() == s
                } else if m.state == JobState::Running && m.background {
                    r == Err::<String, &'static str>("job already running in background") && final(t).slots() == s
                } else {
                    &&& r matches Ok(c) && c@ == "["@ + dec(m.id as nat) + "] "@ + m.command + " &"@
                    &&& final(t).slots() == s.update(k, Some(JobModel { background: true, state: JobState::Running, ..m }))
                }
            }
        }),
{
    let k = find_slot(t, job_id);
    proof {
        lemma_slot_of_id(t.slots(), job_id, 0);
    }
    if k >= t.jobs.len() {
        return Err("no such job");
    }
    assert(t.slots()[k as int] == slot_model(t.jobs@[k as int]));
    let mut j = take_job(t, k);
    if j.state == JobState::Done {
        put_job(t, k, j);
        assert(t.slots() =~= old(t).slots());
        return Err("job already finished");
    }
    if j.state == JobState::Running && j.background {
        put_job(t, k, j);
        assert(t.slots() =~= old(t).slots());
        return Err("job already running in background");
    }
    j.state = JobState::Running;
    j.background = true;
    let mut out = string_of("[");
    push_dec(&mut out, j.id as u64);
    out.append("] ");
    out.append(j.command.as_str());
    out.append(" &");
    put_job(t, k, j);
    assert(t.slots() =~= old(t).slots().update(k as int, Some(j.model())));
    Ok(out)
}

/// The notice printed when a background job finishes.
pub open spec fn done_notice(m: JobModel) -> Seq<char> {
    "\n["@ + dec(m.id as nat) + "]+  Done  "@ + m.command
}

fn notice(j: &Job) -> (s: String)
    ensures
        s@ == done_notice(j.model()),
{
    let mut out = string_of("\n[");
    push_dec(&mut out, j.id as u64);
    out.append("]+  Done  ");
    out.append(j.command.as_str());
    out
}

/// Mark the job of task `pid` (the first such) finished. Returns the
/// notice to print when it was a background job that was not finished
/// yet.
pub fn mark_done(t: &mut JobTable, pid: usize) -> (r: Option<String>)
    requires
        old(t).wf(),
    ensures
        final(t).wf(),
        final(t).next_id == old(t).next_id,
        ({
            let s = old(t).slots();
            let k = slot_of_pid(s, pid, 0);
            if k >= MAX_JOBS || s[k]->0.state == JobState::Done {
                r is None && final(t).slots() == s
            } else {
                let m = s[k]->0;
                &&& final(t).slots() == s.update(k, Some(JobModel { state: JobState::Done, ..m }))
                &&& (if m.background { r matches Some(n) && n@ == done_notice(m) } else { r is None })
            }
        }),
{
    proof {
        lemma_slot_of_pid(t.slots(), pid, 0);
    }
    let mut i: usize = 0;
    while i < t.jobs.len()
        invariant
            i <= t.jobs@.len(),
            t.jobs@.len() == MAX_JOBS,
            *t == *old(t),
            slot_of_pid(t.slots(), pid, 0) == slot_of_pid(t.slots(), pid, i as int),
        decreases t.jobs@.len() - i,
    {
        assert(t.slots()[i as int] == slot_model(t.jobs@[i as int]));
        let hit = match &t.jobs[i] {
            Some(j) => j.pid == pid,
            None => false,
        };
        if hit {
            let mut j = take_job(t, i);
            if j.state == JobState::Done {
                put_job(t, i, j);
                assert(t.slots() =~= old(t).slots());
                return None;
            }
            j.state = JobState::Done;
            let n = if j.background { Some(notice(&j)) } else { None };
            put_job(t, i, j);
            assert(t.slots() =~= old(t).slots().update(i as int, Some(j.model())));
            return n;
        }
        i = i + 1;
    }
    None
}

/// Whether job `job_id` is finished or gone (what waiting for it ends on).
pub fn job_finished(t: &JobTable, job_id: usize) -> (r: bool)
    ensures
        r == ({
            let k = slot_of_id(t.slots(), job_id, 0);
            k >= t.slots().len() || t.slots()[k]->0.state == JobState::Done
        }),
{
    let k = find_slot(t, job_id);
    proof {
        lemma_slot_of_id(t.slots(), job_id, 0);
    }
    if k >= t.jobs.len() {
        return true;
    }
    assert(t.slots()[k as int] == slot_model(t.jobs@[k as int]));
    match &t.jobs[k] {
        Some(j) => j.state == JobState::Done,
        None => true,
    }
}

/// The slots after the running jobs whose task is not among `alive` are
/// marked finished.
pub open spec fn reaped(s: Seq<Option<JobModel>>, alive: Seq<usize>) -> Seq<Option<JobModel>> {
    s.map_values(|o: Option<JobModel>| match o {
        Some(m) => if m.state == JobState::Running && !alive.contains(m.pid) {
            Some(JobModel { state: JobState::Done, ..m })
        } else {
            o
        },
        None => o,
    })
}

/// The notices of the background jobs among the first `k` slots that
/// reaping finishes.
pub open spec fn reap_notices(s: Seq<Option<JobModel>>, alive: Seq<usize>, k: int) -> Seq<Seq<char>>
    decreases k,
{
    if k <= 0 || k > s.len() {
        Seq::empty()
    } else {
        let prev = reap_notices(s, alive, k - 1);
        match s[k - 1] {
            Some(m) => if m.state == JobState::Running && !alive.contains(m.pid) && m.background {
                prev.push(done_notice(m))
            } else {
                prev
            },
            None => prev,
        }
    }
}

fn contains_pid(alive: &[usize], pid: usize) -> (r: bool)
    ensures
        r == alive@.contains(pid),
{
    let mut i: usize = 0;
    while i < alive.len()
        invariant
            i <= alive@.len(),
            forall|k: int| 0 <= k < i ==> alive@[k] != pid,
        decreases alive@.len() - i,
    {
        if alive[i] == pid {
            assert(alive@[i as int] == pid);
            return true;
        }
        i = i + 1;
    }
    false
}

/// Mark finished the running jobs whose task is no longer among `alive`;
/// returns the notices for those that ran in the background.
pub fn reap_finished(t: &mut JobTable, alive: &[usize]) -> (r: Vec<String>)
    requires
        old(t).wf(),
    ensures
        final(t).wf(),
        final(t).next_id == old(t).next_id,
        final(t).slots() == reaped(old(t).slots(), alive@),
        r@.map_values(|s: String| s@) == reap_notices(old(t).slots(), alive@, MAX_JOBS as int),
{
    let ghost s0 = t.slots();
    let mut out: Vec<String> = Vec::new();
    let mut i: usize = 0;
    while i < t.jobs.len()
        invariant
            i <= t.jobs@.len(),
            t.jobs@.len() == MAX_JOBS,
            t.next_id == old(t).next_id,
            s0 == old(t).slots(),
            s0.len() == MAX_JOBS,
            t.slots().len() == MAX_JOBS,
            forall|k: int| 0 <= k < i ==> #[trigger] t.slots()[k] == reaped(s0, alive@)[k],
            forall|k: int| i <= k < MAX_JOBS ==> #[trigger] t.slots()[k] == s0[k],
            out@.map_values(|s: String| s@) == reap_notices(s0, alive@, i as int),
        decreases t.jobs@.len() - i,
    {
        assert(t.slots()[i as int] == slot_model(t.jobs@[i as int]));
        assert(t.slots()[i as int] == s0[i as int]);
        let running = match &t.jobs[i] {
            Some(j) => j.state == JobState::Running && !contains_pid(alive, j.pid),
            None => false,
        };
        let ghost before = t.slots();
        let ghost out_before = out@.map_values(|s: String| s@);
        let ghost want = reaped(s0, alive@)[i as int];
        assert(reap_notices(s0, alive@, i + 1) == out_before + (match s0[i as int] {
            Some(m) => if m.state == JobState::Running && !alive@.contains(m.pid) && m.background {
                seq![done_notice(m)]
            } else {
                Seq::<Seq<char>>::empty()
            },
            None => Seq::<Seq<char>>::empty(),
        })) by {
            assert(s0.len() == MAX_JOBS);
            match s0[i as int] {
                Some(m) => {
                    if m.state == JobState::Running && !alive@.contains(m.pid) && m.background {
                        assert(reap_notices(s0, alive@, i + 1) == out_before.push(done_notice(m)));
                        assert(out_before.push(done_notice(m)) =~= out_before + seq![done_notice(m)]);
                    } else {
                        assert(reap_notices(s0, alive@, i + 1) == out_before);
                        assert(out_before + Seq::<Seq<char>>::empty() =~= out_before);
                    }
                },
                None => {
                    assert(reap_notices(s0, alive@, i + 1) == out_before);
                    assert(out_before + Seq::<Seq<char>>::empty() =~= out_before);
                },
            }
        }
        assert(running == (s0[i as int] matches Some(m) && m.state == JobState::Running
            && !alive@.contains(m.pid)));
        if running {
            let mut j = take_job(t, i);
            let ghost m0 = j.model();
            assert(s0[i as int] == Some(m0));
            j.state = JobState::Done;
            assert(j.model() == JobModel { state: JobState::Done, ..m0 });
            assert(want == Some(JobModel { state: JobState::Done, ..m0 }));
            if j.background {
                let n = notice(&j);
                out.push(n);
                assert(out@.map_values(|s: String| s@) =~= out_before + seq![n@]);
            } else {
                assert(out@.map_values(|s: String| s@) =~= out_before + Seq::<Seq<char>>::empty());
            }
            put_job(t, i, j);
            assert(t.slots() =~= before.update(i as int, Some(j.model())));
            assert(t.slots()[i as int] == want);
        } else {
            assert(out@.map_values(|s: String| s@) =~= out_before + Seq::<Seq<char>>::empty());
            assert(t.slots()[i as int] == want);
        }
        i = i + 1;
    }
    assert(t.slots() =~= reaped(s0, alive@));
    out
}

/// One line of the job listing.
pub open spec fn job_line(m: JobModel) -> Seq<char> {
    let st = match m.state {
        JobState::Running => "Running"@,
        JobState::Stopped => "Stopped"@,
        JobState::Done => "Done"@,
    };
    "["@ + dec(m.id as nat) + "]  "@ + pad_right(st, 8) + "  pid "@ + dec(m.pid as nat) + "  "@ + m.command
        + (if m.background { " &"@ } else { Seq::empty() }) + "\n"@
}

pub open spec fn job_lines(s: Seq<Option<JobModel>>) -> Seq<char>
    decreases s.len(),
{
    if s.len() == 0 {
        Seq::empty()
    } else {
        job_lines(s.drop_last()) + match s.last() {
            Some(m) => job_line(m),
            None => Seq::empty(),
        }
    }
}

/// The job listing of the slots: a line per job, or `No jobs.`.
pub open spec fn jobs_text(s: Seq<Option<JobModel>>) -> Seq<char> {
    if exists|i: int| 0 <= i < s.len() && (#[trigger] s[i]) is Some { job_lines(s) } else { "No jobs.\n"@ }
}

fn push_job_line(out: &mut String, j: &Job)
    ensures
        final(out)@ == old(out)@ + job_line(j.model()),
{
    out.append("[");
    push_dec(out, j.id as u64);
    out.append("]  ");
    match j.state {
        JobState::Running => push_padded(out, "Running", 8),
        JobState::Stopped => push_padded(out, "Stopped", 8),
        JobState::Done => push_padded(out, "Done", 8),
    }
    out.append("  pid ");
    push_dec(out, j.pid as u64);
    out.append("  ");
    out.append(j.command.as_str());
    if j.background {
        out.append(" &");
    }
    out.append("\n");
}

/// The `jobs` built-in: finished tasks (not among `alive`) are reaped
/// first, then every job is listed. Returns the reaping notices and the
/// listing.
pub fn list_jobs(t: &mut JobTable, alive: &[usize]) -> (r: (Vec<String>, String))
    requires
        old(t).wf(),
    ensures
        final(t).wf(),
        final(t).next_id == old(t).next_id,
        final(t).slots() == reaped(old(t).slots(), alive@),
        r.0@.map_values(|s: String| s@) == reap_notices(old(t).slots(), alive@, MAX_JOBS as int),
        r.1@ == jobs_text(final(t).slots()),
{
    let notices = reap_finished(t, alive);
    let ghost s = t.slots();
    let mut out = String::new();
    let mut found = false;
    let mut i: usize = 0;
    while i < t.jobs.len()
        invariant
            i <= t.jobs@.len(),
            s == t.slots(),
            out@ == job_lines(s.subrange(0, i as int)),
            found <==> exists|k: int| 0 <= k < i && (#[trigger] s[k]) is Some,
        decreases t.jobs@.len() - i,
    {
        let ghost pre = s.subrange(0, i + 1);
        assert(pre.drop_last() =~= s.subrange(0, i as int));
        assert(pre.last() == slot_model(t.jobs@[i as int]));
        if let Some(j) = &t.jobs[i] {
            push_job_line(&mut out, j);
            found = true;
        }
        i = i + 1;
    }
    assert(s.subrange(0, s.len() as int) =~= s);
    if !found {
        return (notices, string_of("No jobs.\n"));
    }
    (notices, out)
}

fn ends_with_amp(s: &str) -> (r: bool)
    ensures
        r == (s@.len() > 0 && s@.last() == '&'),
{
    let n = s.unicode_len();
    n > 0 && s.get_char(n - 1) == '&'
}

/// Split a trailing `&` off a command line: `(command, true)` with the
/// `&` and the whitespace around it removed, or the trimmed line and
/// `false`.
pub fn parse_background(input: &str) -> (r: (&str, bool))
    ensures
        ({
            let t = trimmed(input@);
            if t.len() > 0 && t.last() == '&' {
                r.0@ == trimmed(t.drop_last()) && r.1
            } else {
                r.0@ == t && !r.1
            }
        }),
{
    let t = trim_str(input);
    if ends_with_amp(t) {
        let body = t.substring_char(0, t.unicode_len() - 1);
        assert(body@ =~= t@.drop_last());
        (trim_str(body), true)
    } else {
        (t, false)
    }
}

/// A job registered by `add_job` in a free slot is found under its number
/// and runs; `fg` on it then gives its command, and after `mark_done` it is
/// finished.
pub proof fn law_add_then_finish(s: Seq<Option<JobModel>>, id: usize, pid: usize, command: Seq<char>, bgd: bool)
    requires
        s.len() == MAX_JOBS,
        free_slot(s, 0) < MAX_JOBS,
        forall|i: int| 0 <= i < s.len() ==> !(#[trigger] s[i] matches Some(m) && (m.id == id || m.pid == pid)),
    ensures
        ({
            let k = free_slot(s, 0);
            let s1 = s.update(k, Some(JobModel { id, pid, command, state: JobState::Running, background: bgd }));
            &&& slot_of_id(s1, id, 0) == k
            &&& slot_of_pid(s1, pid, 0) == k
            &&& s1[k]->0.state == JobState::Running
        }),
{
    lemma_free_slot(s, 0);
    let k = free_slot(s, 0);
    let s1 = s.update(k, Some(JobModel { id, pid, command, state: JobState::Running, background: bgd }));
    lemma_slot_to(s1, id, 0, k);
    lemma_pid_to(s1, pid, 0, k);
}

proof fn lemma_slot_to(s: Seq<Option<JobModel>>, id: usize, j: int, k: int)
    requires
        0 <= j <= k < s.len(),
        s[k] matches Some(m) && m.id == id,
        forall|i: int| j <= i < k ==> !(#[trigger] s[i] matches Some(m) && m.id == id),
    ensures
        slot_of_id(s, id, j) == k,
    decreases k - j,
{
    if j < k {
        lemma_slot_to(s, id, j + 1, k);
    }
}

proof fn lemma_pid_to(s: Seq<Option<JobModel>>, pid: usize, j: int, k: int)
    requires
        0 <= j <= k < s.len(),
        s[k] matches Some(m) && m.pid == pid,
        forall|i: int| j <= i < k ==> !(#[trigger] s[i] matches Some(m) && m.pid == pid),
    ensures
        slot_of_pid(s, pid, j) == k,
    decreases k - j,
{
    if j < k {
        lemma_pid_to(s, pid, j + 1, k);
    }
}

} // verus!
