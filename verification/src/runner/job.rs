//! Background jobs, their table, and how the table follows what the
//! system reports about the jobs' processes.

use crate::runner::report::{completion_line, completion_text, launch_line, launch_text, texts};
use nix::sys::wait::{waitpid, WaitPidFlag, WaitStatus};
use nix::unistd::Pid;
use vstd::prelude::*;

verus! {

/// How far a job has come.
#[derive(Debug, Clone, Copy, PartialEq, Eq, Structural)]
pub enum JobStatus {
    Running,
    Stopped,
    /// Ended, with this exit code.
    Done(i32),
}

/// What the system reports about a child process.
#[derive(Debug, Clone, Copy, PartialEq, Eq, Structural)]
pub enum WaitOutcome {
    /// The process has exited with this code.
    Exited(i32),
    /// The process was ended by the signal of this number.
    Signaled(i32),
    /// The process was stopped.
    Stopped,
    /// The process runs again after a stop.
    Continued,
    /// Nothing has changed.
    StillAlive,
    /// The process stopped for a tracer.
    Traced,
    /// The system could not answer.
    Failed,
}

impl WaitOutcome {
    /// The exit code that stands for the outcome fits an `i32`.
    pub open spec fn exit_code_fits(self) -> bool {
        self matches WaitOutcome::Signaled(signal) ==> signal <= i32::MAX - 128
    }

    /// The exit code of a process that has ended: its own code, or 128 and
    /// the number of the signal that ended it. `None` while it lives.
    pub open spec fn exit_code(self) -> Option<i32> {
        match self {
            WaitOutcome::Exited(code) => Some(code),
            WaitOutcome::Signaled(signal) => Some((128 + signal) as i32),
            _ => None,
        }
    }

    /// The process has ended, or nothing more can be learnt of it: there is
    /// nothing left to wait for.
    pub open spec fn terminal(self) -> bool {
        self is Exited || self is Signaled || self is Failed
    }

    /// Whether a shell that waits in the foreground for the process is done
    /// waiting. A stop or a restart is no end.
    pub fn is_terminal(&self) -> (b: bool)
        ensures
            b == self.terminal(),
    {
        match self {
            WaitOutcome::Exited(_) | WaitOutcome::Signaled(_) | WaitOutcome::Failed => true,
            _ => false,
        }
    }
}

impl JobStatus {
    /// The status of a job that has not ended, once `outcome` is known of
    /// its process.
    pub open spec fn after_spec(self, outcome: WaitOutcome) -> JobStatus {
        match outcome.exit_code() {
            Some(code) => JobStatus::Done(code),
            None => match outcome {
                WaitOutcome::Stopped => JobStatus::Stopped,
                WaitOutcome::Continued => JobStatus::Running,
                _ => self,
            },
        }
    }

    /// The status of a job that has not ended, once `outcome` is known of
    /// its process: an exit or a signal ends it, a stop stops it, a restart
    /// makes it run, and anything else leaves it as it is.
    pub fn after(self, outcome: WaitOutcome) -> (status: JobStatus)
        requires
            outcome.exit_code_fits(),
        ensures
            status == self.after_spec(outcome),
    {
        match outcome {
            WaitOutcome::Exited(code) => JobStatus::Done(code),
            WaitOutcome::Signaled(signal) => JobStatus::Done(128 + signal),
            WaitOutcome::Stopped => JobStatus::Stopped,
            WaitOutcome::Continued => JobStatus::Running,
            _ => self,
        }
    }
}

/// A command line that runs in the background.
#[derive(Debug)]
pub struct Job {
    pub id: u32,
    pub process_group_id: i32,
    pub command: String,
    pub status: JobStatus,
    pub is_foreground: bool,
}

/// A job as a mathematical value.
pub struct JobView {
    pub id: u32,
    pub process_group_id: i32,
    pub command: Seq<char>,
    pub status: JobStatus,
    pub is_foreground: bool,
}

impl View for Job {
    type V = JobView;

    open spec fn view(&self) -> JobView {
        JobView {
            id: self.id,
            process_group_id: self.process_group_id,
            command: self.command@,
            status: self.status,
            is_foreground: self.is_foreground,
        }
    }
}

impl JobView {
    /// The job once `outcome` is known of its process. A job that has ended
    /// stays as it is.
    pub open spec fn observed(self, outcome: WaitOutcome) -> JobView {
        if self.status is Done {
            self
        } else {
            JobView { status: self.status.after_spec(outcome), ..self }
        }
    }

    /// The line to print when the job goes from `self` to `later`: one for a
    /// job that has just ended, none otherwise.
    pub open spec fn completion(self, later: JobView) -> Option<Seq<char>> {
        match later.status {
            JobStatus::Done(code) if !(self.status is Done) => Some(
                completion_text(self.id, code, self.command),
            ),
            _ => None,
        }
    }
}

impl Clone for Job {
    fn clone(&self) -> (copy: Self)
        ensures
            copy@ == self@,
    {
        Job {
            id: self.id,
            process_group_id: self.process_group_id,
            command: self.command.clone(),
            status: self.status,
            is_foreground: self.is_foreground,
        }
    }
}

impl Job {
    /// A job that has just been started.
    pub fn new(job_id: u32, process_group_id: i32, command: String, is_foreground: bool) -> (job:
        Self)
        ensures
            job@ == (JobView {
                id: job_id,
                process_group_id,
                command: command@,
                status: JobStatus::Running,
                is_foreground,
            }),
    {
        Self { id: job_id, process_group_id, command, status: JobStatus::Running, is_foreground }
    }

    /// Takes note of what the system reports about the job's process and
    /// returns the line that tells the user of a job that has just ended.
    pub fn observe(&mut self, outcome: WaitOutcome) -> (line: Option<String>)
        requires
            outcome.exit_code_fits(),
        ensures
            final(self)@ == old(self)@.observed(outcome),
            match line {
                Some(text) => old(self)@.completion(final(self)@) == Some(text@),
                None => old(self)@.completion(final(self)@) is None,
            },
    {
        if let JobStatus::Done(_) = self.status {
            return None;
        }
        self.status = self.status.after(outcome);
        match self.status {
            JobStatus::Done(code) => Some(completion_line(self.id, code, self.command.as_str())),
            _ => None,
        }
    }
}

/// The jobs that the shell has sent to the background, in the order in
/// which they were started, and the number that the next job will get.
/// A job is never taken out: one that has ended stays, as `Done`.
#[derive(Debug)]
pub struct JobTable {
    jobs: Vec<Job>,
    next_id: u32,
}

/// A job table as a mathematical value.
pub struct JobTableView {
    pub jobs: Seq<JobView>,
    pub next_id: u32,
}

impl JobTableView {
    /// Job numbers start at 1 and grow along the table, and each is below
    /// the next number to be handed out: no two jobs share a number, and no
    /// number that was handed out comes again.
    pub open spec fn wf(self) -> bool {
        &&& 1 <= self.next_id
        &&& forall|i: int, j: int|
            0 <= i < j < self.jobs.len() ==> (#[trigger] self.jobs[i]).id < (
            #[trigger] self.jobs[j]).id
        &&& forall|i: int| 0 <= i < self.jobs.len() ==> (#[trigger] self.jobs[i]).id < self.next_id
    }

    /// A job with the number `id` can be entered: the number was handed out
    /// and is above every number in the table. The first number is 1.
    pub open spec fn accepts(self, id: u32) -> bool {
        &&& 1 <= id < self.next_id
        &&& forall|i: int| 0 <= i < self.jobs.len() ==> (#[trigger] self.jobs[i]).id < id
    }

    /// The table after the next number was handed out.
    pub open spec fn allocated(self) -> JobTableView {
        JobTableView { next_id: (self.next_id + 1) as u32, ..self }
    }

    /// The table after `job` was entered.
    pub open spec fn inserted(self, job: JobView) -> JobTableView {
        JobTableView { jobs: self.jobs.push(job), ..self }
    }

    /// The table after `outcome` was learnt of the job at `index`.
    pub open spec fn observed(self, index: int, outcome: WaitOutcome) -> JobTableView {
        JobTableView { jobs: self.jobs.update(index, self.jobs[index].observed(outcome)), ..self }
    }

    /// `later` is this table after a look at the jobs' processes, whatever
    /// the system said of them: the same jobs in the same order, each as it
    /// was but for its status, and those that had ended as they were.
    pub open spec fn reconciles_to(self, later: JobTableView) -> bool {
        &&& later.next_id == self.next_id
        &&& later.jobs.len() == self.jobs.len()
        &&& forall|i: int|
            0 <= i < self.jobs.len() ==> {
                &&& (#[trigger] later.jobs[i]) == (JobView {
                    status: later.jobs[i].status,
                    ..self.jobs[i]
                })
                &&& self.jobs[i].status is Done ==> later.jobs[i].status == self.jobs[i].status
            }
    }

    /// The lines for the first `upto` jobs that have ended between this
    /// table and `later`, in the order of the table.
    pub open spec fn completions(self, later: JobTableView, upto: int) -> Seq<Seq<char>>
        decreases upto,
    {
        if upto <= 0 {
            Seq::empty()
        } else {
            let before = self.completions(later, upto - 1);
            match self.jobs[upto - 1].completion(later.jobs[upto - 1]) {
                Some(line) => before.push(line),
                None => before,
            }
        }
    }
}

impl View for JobTable {
    type V = JobTableView;

    closed spec fn view(&self) -> JobTableView {
        JobTableView { jobs: Seq::new(self.jobs@.len(), |i: int| self.jobs@[i]@), next_id: self.next_id }
    }
}

impl JobTable {
    /// An empty table. The first job will be job 1.
    pub fn new() -> (table: Self)
        ensures
            table@.jobs.len() == 0,
            table@.next_id == 1,
            table@.wf(),
    {
        Self { jobs: Vec::new(), next_id: 1 }
    }

    /// The number that the next job will get.
    pub fn next_id(&self) -> (id: u32)
        ensures
            id == self@.next_id,
    {
        self.next_id
    }

    /// How many jobs the table holds.
    pub fn len(&self) -> (n: usize)
        ensures
            n == self@.jobs.len(),
    {
        self.jobs.len()
    }

    /// The job at `index`, counted in the order of the starts.
    pub fn get(&self, index: usize) -> (job: Option<&Job>)
        ensures
            match job {
                Some(found) => index < self@.jobs.len() && found@ == self@.jobs[index as int],
                None => index >= self@.jobs.len(),
            },
    {
        if index < self.jobs.len() {
            Some(&self.jobs[index])
        } else {
            None
        }
    }

    /// The job with the number `id`, if the table holds one.
    pub fn find(&self, id: u32) -> (job: Option<&Job>)
        ensures
            match job {
                Some(found) => found.id == id && exists|i: int|
                    0 <= i < self@.jobs.len() && #[trigger] self@.jobs[i] == found@,
                None => forall|i: int| 0 <= i < self@.jobs.len() ==> (#[trigger] self@.jobs[i]).id != id,
            },
    {
        let mut index: usize = 0;
        while index < self.jobs.len()
            invariant
                index <= self.jobs@.len(),
                forall|i: int| 0 <= i < index ==> (#[trigger] self@.jobs[i]).id != id,
            decreases self.jobs@.len() - index,
        {
            if self.jobs[index].id == id {
                assert(self@.jobs[index as int] == self.jobs[index as int]@);
                return Some(&self.jobs[index]);
            }
            index += 1;
        }
        None
    }

    /// Hands out the number for the next job. Numbers grow by one and are
    /// never handed out twice.
    pub fn allocate_id(&mut self) -> (id: u32)
        requires
            old(self)@.next_id < u32::MAX,
        ensures
            id == old(self)@.next_id,
            final(self)@ == old(self)@.allocated(),
            old(self)@.wf() ==> final(self)@.wf() && final(self)@.accepts(id),
    {
        let id = self.next_id;
        self.next_id += 1;
        id
    }

    /// Whether a job with the number `id` can be entered.
    pub fn accepts(&self, id: u32) -> (b: bool)
        ensures
            b == self@.accepts(id),
    {
        if id < 1 || id >= self.next_id {
            return false;
        }
        let mut i: usize = 0;
        while i < self.jobs.len()
            invariant
                i <= self.jobs@.len(),
                forall|k: int| 0 <= k < i ==> (#[trigger] self@.jobs[k]).id < id,
            decreases self.jobs@.len() - i,
        {
            if self.jobs[i].id >= id {
                assert(self@.jobs[i as int].id >= id);
                return false;
            }
            i += 1;
        }
        true
    }

    /// Enters a job that was started under a number from `allocate_id`.
    pub fn insert(&mut self, job: Job)
        requires
            old(self)@.accepts(job.id),
        ensures
            final(self)@ == old(self)@.inserted(job@),
            old(self)@.wf() ==> final(self)@.wf(),
    {
        self.jobs.push(job);
        proof {
            assert(final(self)@.jobs =~= old(self)@.jobs.push(job@));
        }
    }

    /// Enters the job that the process `pid` leads under the number `id`,
    /// as running in the background, and returns the line that tells the
    /// user of it.
    pub fn start(&mut self, id: u32, pid: i32, command: String) -> (line: String)
        requires
            old(self)@.accepts(id),
        ensures
            final(self)@ == old(self)@.inserted(
                JobView {
                    id,
                    process_group_id: pid,
                    command: command@,
                    status: JobStatus::Running,
                    is_foreground: false,
                },
            ),
            old(self)@.wf() ==> final(self)@.wf(),
            line@ == launch_text(id, pid),
    {
        self.insert(Job::new(id, pid, command, false));
        launch_line(id, pid)
    }

    /// Takes note of what the system reports about the process of the job
    /// at `index`, and returns the line for a job that has just ended.
    pub fn observe(&mut self, index: usize, outcome: WaitOutcome) -> (line: Option<String>)
        requires
            index < old(self)@.jobs.len(),
            outcome.exit_code_fits(),
        ensures
            final(self)@ == old(self)@.observed(index as int, outcome),
            old(self)@.reconciles_to(final(self)@),
            old(self)@.wf() ==> final(self)@.wf(),
            match line {
                Some(text) => old(self)@.jobs[index as int].completion(
                    final(self)@.jobs[index as int],
                ) == Some(text@),
                None => old(self)@.jobs[index as int].completion(final(self)@.jobs[index as int])
                    is None,
            },
    {
        let line = self.jobs[index].observe(outcome);
        proof {
            assert(final(self)@.jobs =~= old(self)@.jobs.update(
                index as int,
                old(self)@.jobs[index as int].observed(outcome),
            ));
        }
        line
    }
}

/// Asks the system, without waiting, what has become of the child process
/// `pid`. This is `nix::sys::wait::waitpid` with the options `WNOHANG` and
/// `WUNTRACED`, its answer told apart by kind; a failure of the call is the
/// answer `Failed`.
///
/// Nothing is claimed about which answer comes. The one thing taken on trust
/// is the range of the number of a signal that ended the process: `waitpid`
/// reads that number off the wait status with `WTERMSIG`, which keeps the low
/// seven bits of the status, so it lies between 0 and 127.
#[verifier::external_body]
fn poll_child(pid: i32) -> (outcome: WaitOutcome)
    ensures
        outcome matches WaitOutcome::Signaled(signal) ==> 0 <= signal <= 127,
{
    let options = WaitPidFlag::WNOHANG | WaitPidFlag::WUNTRACED;
    match waitpid(Some(Pid::from_raw(pid)), Some(options)) {
        Ok(WaitStatus::Exited(_, code)) => WaitOutcome::Exited(code),
        Ok(WaitStatus::Signaled(_, signal, _)) => WaitOutcome::Signaled(signal as i32),
        Ok(WaitStatus::Stopped(_, _)) => WaitOutcome::Stopped,
        Ok(WaitStatus::Continued(_)) => WaitOutcome::Continued,
        Ok(WaitStatus::StillAlive) => WaitOutcome::StillAlive,
        Ok(_) => WaitOutcome::Traced,
        Err(_) => WaitOutcome::Failed,
    }
}

/// Brings the table up to date with the jobs' processes, if the system has
/// notified the shell of a change since the last time, and returns the lines
/// to print: one for each job that has ended, in the order of the table.
///
/// Without a notification nothing is asked and nothing changes. With one,
/// each job that has not ended is asked about once, without waiting. A job
/// that had ended is not asked about again.
pub fn update_job_statuses(table: &mut JobTable, notified: bool) -> (lines: Vec<String>)
    ensures
        !notified ==> final(table)@ == old(table)@ && lines@.len() == 0,
        old(table)@.reconciles_to(final(table)@),
        texts(lines@) == old(table)@.completions(final(table)@, old(table)@.jobs.len() as int),
        old(table)@.wf() ==> final(table)@.wf(),
{
    let mut lines: Vec<String> = Vec::new();
    if !notified {
        proof {
            lemma_no_completions(table@, table@, table@.jobs.len() as int);
            assert(texts(lines@) =~= Seq::empty());
        }
        return lines;
    }
    let count = table.len();
    let mut index: usize = 0;
    while index < count
        invariant
            count == old(table)@.jobs.len(),
            index <= count,
            old(table)@.reconciles_to(table@),
            old(table)@.wf() ==> table@.wf(),
            forall|i: int| index <= i < count ==> table@.jobs[i] == old(table)@.jobs[i],
            texts(lines@) == old(table)@.completions(table@, index as int),
        decreases count - index,
    {
        let ghost before = table@;
        let ghost printed = texts(lines@);
        let waiting = match table.get(index) {
            Some(job) => match job.status {
                JobStatus::Done(_) => None,
                _ => Some(job.process_group_id),
            },
            None => None,
        };
        if let Some(pid) = waiting {
            let outcome = poll_child(pid);
            if let Some(line) = table.observe(index, outcome) {
                lines.push(line);
            }
        }
        proof {
            lemma_completions_depend_on_prefix(old(table)@, before, table@, index as int);
            let entry = old(table)@.jobs[index as int].completion(table@.jobs[index as int]);
            assert(texts(lines@) =~= match entry {
                Some(line) => printed.push(line),
                None => printed,
            });
        }
        index += 1;
    }
    lines
}

/// Job numbers are never used twice. In a table whose numbers are in order
/// no two jobs share a number; the number that is handed out next is above
/// the number of every job in the table, and the number handed out after it
/// is greater still.
pub proof fn lemma_job_ids_never_reused(table: JobTableView)
    requires
        table.wf(),
        table.next_id < u32::MAX,
    ensures
        forall|i: int, j: int|
            0 <= i < table.jobs.len() && 0 <= j < table.jobs.len() && i != j ==> (
            #[trigger] table.jobs[i]).id != (#[trigger] table.jobs[j]).id,
        forall|i: int| 0 <= i < table.jobs.len() ==> (#[trigger] table.jobs[i]).id < table.next_id,
        table.allocated().wf(),
        table.allocated().accepts(table.next_id),
        table.allocated().next_id > table.next_id,
{
    assert forall|i: int, j: int|
        0 <= i < table.jobs.len() && 0 <= j < table.jobs.len() && i != j implies (
    #[trigger] table.jobs[i]).id != (#[trigger] table.jobs[j]).id by {
        if i < j {
            assert(table.jobs[i].id < table.jobs[j].id);
        } else {
            assert(table.jobs[j].id < table.jobs[i].id);
        }
    }
}

/// A job that is entered under a number that the table accepts leaves the
/// numbers in order.
pub proof fn lemma_insert_keeps_order(table: JobTableView, job: JobView)
    requires
        table.wf(),
        table.accepts(job.id),
    ensures
        table.inserted(job).wf(),
{
}

/// A look at the jobs' processes changes no number: the numbers stay in
/// order.
pub proof fn lemma_reconcile_keeps_order(table: JobTableView, later: JobTableView)
    requires
        table.wf(),
        table.reconciles_to(later),
    ensures
        later.wf(),
{
    assert forall|i: int, j: int| 0 <= i < j < later.jobs.len() implies (#[trigger] later.jobs[i]).id
        < (#[trigger] later.jobs[j]).id by {
        assert(table.jobs[i].id < table.jobs[j].id);
    }
    assert forall|i: int| 0 <= i < later.jobs.len() implies (#[trigger] later.jobs[i]).id
        < later.next_id by {
        assert(table.jobs[i].id < table.next_id);
    }
}

/// Where no job has ended between two tables there is no line to print: a
/// job that had ended before, or has not ended yet, gives none.
pub proof fn lemma_no_completions(table: JobTableView, later: JobTableView, upto: int)
    requires
        upto <= table.jobs.len(),
        upto <= later.jobs.len(),
        forall|i: int|
            0 <= i < upto ==> (#[trigger] table.jobs[i]).status is Done || !(later.jobs[i].status
                is Done),
    ensures
        table.completions(later, upto) == Seq::<Seq<char>>::empty(),
    decreases upto,
{
    if upto > 0 {
        lemma_no_completions(table, later, upto - 1);
        assert(table.jobs[upto - 1].status is Done || !(later.jobs[upto - 1].status is Done));
    }
}

/// The lines for the first `upto` jobs depend on those jobs alone.
proof fn lemma_completions_depend_on_prefix(
    start: JobTableView,
    first: JobTableView,
    second: JobTableView,
    upto: int,
)
    requires
        0 <= upto <= first.jobs.len(),
        first.jobs.len() == second.jobs.len(),
        forall|i: int| 0 <= i < upto ==> first.jobs[i] == second.jobs[i],
    ensures
        start.completions(first, upto) == start.completions(second, upto),
    decreases upto,
{
    if upto > 0 {
        lemma_completions_depend_on_prefix(start, first, second, upto - 1);
    }
}

} // verus!
