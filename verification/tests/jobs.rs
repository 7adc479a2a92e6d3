use rush::runner::{update_job_statuses, Job, JobStatus, JobTable, WaitOutcome};

fn running(id: u32, pid: i32, command: &str) -> Job {
    Job::new(id, pid, command.to_string(), false)
}

#[test]
fn new_job_is_running() {
    let job = Job::new(3, 4711, "sleep 2".to_string(), false);
    assert_eq!(job.id, 3);
    assert_eq!(job.process_group_id, 4711);
    assert_eq!(job.command, "sleep 2");
    assert_eq!(job.status, JobStatus::Running);
    assert!(!job.is_foreground);
    let job = Job::new(4, 1, String::new(), true);
    assert!(job.is_foreground);
}

#[test]
fn status_follows_the_outcome() {
    assert_eq!(JobStatus::Running.after(WaitOutcome::Exited(0)), JobStatus::Done(0));
    assert_eq!(JobStatus::Running.after(WaitOutcome::Exited(3)), JobStatus::Done(3));
    assert_eq!(JobStatus::Running.after(WaitOutcome::Signaled(9)), JobStatus::Done(137));
    assert_eq!(JobStatus::Stopped.after(WaitOutcome::Signaled(15)), JobStatus::Done(143));
    assert_eq!(JobStatus::Running.after(WaitOutcome::Stopped), JobStatus::Stopped);
    assert_eq!(JobStatus::Stopped.after(WaitOutcome::Continued), JobStatus::Running);
    assert_eq!(JobStatus::Stopped.after(WaitOutcome::StillAlive), JobStatus::Stopped);
    assert_eq!(JobStatus::Running.after(WaitOutcome::Traced), JobStatus::Running);
    assert_eq!(JobStatus::Stopped.after(WaitOutcome::Failed), JobStatus::Stopped);
}

#[test]
fn terminal_outcomes_end_the_wait() {
    assert!(WaitOutcome::Exited(0).is_terminal());
    assert!(WaitOutcome::Signaled(2).is_terminal());
    assert!(WaitOutcome::Failed.is_terminal());
    assert!(!WaitOutcome::Stopped.is_terminal());
    assert!(!WaitOutcome::Continued.is_terminal());
    assert!(!WaitOutcome::StillAlive.is_terminal());
    assert!(!WaitOutcome::Traced.is_terminal());
}

#[test]
fn job_that_exits_with_zero_is_done() {
    let mut job = running(1, 100, "sleep 2");
    let line = job.observe(WaitOutcome::Exited(0));
    assert_eq!(job.status, JobStatus::Done(0));
    assert_eq!(line.as_deref(), Some("[1] Done                    sleep 2"));
}

#[test]
fn job_that_exits_with_a_code_reports_it() {
    let mut job = running(12, 100, "false");
    let line = job.observe(WaitOutcome::Exited(1));
    assert_eq!(job.status, JobStatus::Done(1));
    assert_eq!(line.as_deref(), Some("[12] Exit 1                false"));
}

#[test]
fn job_that_is_killed_reports_128_and_the_signal() {
    let mut job = running(2, 100, "sleep 99");
    let line = job.observe(WaitOutcome::Signaled(9));
    assert_eq!(job.status, JobStatus::Done(137));
    assert_eq!(line.as_deref(), Some("[2] Exit 137                sleep 99"));
}

#[test]
fn stop_and_restart_give_no_line() {
    let mut job = running(2, 100, "vi");
    assert_eq!(job.observe(WaitOutcome::Stopped), None);
    assert_eq!(job.status, JobStatus::Stopped);
    assert_eq!(job.observe(WaitOutcome::StillAlive), None);
    assert_eq!(job.status, JobStatus::Stopped);
    assert_eq!(job.observe(WaitOutcome::Continued), None);
    assert_eq!(job.status, JobStatus::Running);
    assert_eq!(job.observe(WaitOutcome::Failed), None);
    assert_eq!(job.status, JobStatus::Running);
}

#[test]
fn done_job_stays_done() {
    let mut job = running(2, 100, "true");
    assert!(job.observe(WaitOutcome::Exited(0)).is_some());
    assert_eq!(job.observe(WaitOutcome::Exited(5)), None);
    assert_eq!(job.status, JobStatus::Done(0));
    assert_eq!(job.observe(WaitOutcome::Stopped), None);
    assert_eq!(job.status, JobStatus::Done(0));
}

#[test]
fn table_starts_empty_with_job_one() {
    let table = JobTable::new();
    assert_eq!(table.len(), 0);
    assert_eq!(table.next_id(), 1);
    assert!(table.get(0).is_none());
}

#[test]
fn job_ids_grow_and_are_not_reused() {
    let mut table = JobTable::new();
    let mut last = 0;
    for round in 0..50 {
        let id = table.allocate_id();
        assert!(id > last);
        assert_eq!(id, round + 1);
        assert!(table.accepts(id));
        if round % 3 != 0 {
            table.insert(running(id, 1000 + id as i32, "job"));
            assert!(!table.accepts(id));
        }
        last = id;
    }
    let mut seen = vec![];
    for index in 0..table.len() {
        let id = table.get(index).unwrap().id;
        assert!(!seen.contains(&id));
        assert!(seen.last().map_or(true, |before| *before < id));
        assert!(id < table.next_id());
        seen.push(id);
    }
}

#[test]
fn table_refuses_numbers_that_were_not_handed_out() {
    let mut table = JobTable::new();
    assert!(!table.accepts(1));
    assert!(!table.accepts(0));
    let id = table.allocate_id();
    assert!(table.accepts(id));
    assert!(!table.accepts(0));
    assert!(!table.accepts(id + 1));
}

#[test]
fn background_launch_enters_one_running_job() {
    let mut table = JobTable::new();
    let id = table.allocate_id();
    let line = table.start(id, 4242, "sleep 2".to_string());
    assert_eq!(line, "[1] 4242");
    assert_eq!(table.len(), 1);
    let job = table.get(0).unwrap();
    assert_eq!(job.id, 1);
    assert_eq!(job.process_group_id, 4242);
    assert_eq!(job.command, "sleep 2");
    assert_eq!(job.status, JobStatus::Running);
    assert!(!job.is_foreground);

    // the child has exited: one line, and the job stays in the table
    let line = table.observe(0, WaitOutcome::Exited(0));
    assert_eq!(line.as_deref(), Some("[1] Done                    sleep 2"));
    assert_eq!(table.len(), 1);
    assert_eq!(table.get(0).unwrap().status, JobStatus::Done(0));
    assert_eq!(table.observe(0, WaitOutcome::Exited(0)), None);
}

#[test]
fn without_notification_nothing_is_asked() {
    let mut table = JobTable::new();
    let id = table.allocate_id();
    table.insert(running(id, 1, "job"));
    let lines = update_job_statuses(&mut table, false);
    assert!(lines.is_empty());
    assert_eq!(table.len(), 1);
    assert_eq!(table.get(0).unwrap().status, JobStatus::Running);
}

#[test]
fn process_that_is_no_child_changes_nothing() {
    let mut table = JobTable::new();
    let id = table.allocate_id();
    table.insert(running(id, 1, "not ours"));
    let id = table.allocate_id();
    let mut done = running(id, 1, "done");
    done.status = JobStatus::Done(4);
    table.insert(done);
    let lines = update_job_statuses(&mut table, true);
    assert!(lines.is_empty());
    assert_eq!(table.len(), 2);
    assert_eq!(table.get(0).unwrap().status, JobStatus::Running);
    assert_eq!(table.get(1).unwrap().status, JobStatus::Done(4));
    assert_eq!(table.next_id(), 3);
}

const EXIT_3: usize = 0;
const EXIT_0: usize = 1;
const KILL_SELF: usize = 2;
const SLEEP: usize = 3;

fn spawn_shell(script: usize) -> i32 {
    let scripts = [c"exit 3", c"exit 0", c"kill -9 $$", c"sleep 30"];
    let actions = nix::spawn::PosixSpawnFileActions::init().unwrap();
    let attr = nix::spawn::PosixSpawnAttr::init().unwrap();
    let args = [c"sh", c"-c", scripts[script]];
    let env = [c"PATH=/usr/local/bin:/usr/bin:/bin"];
    nix::spawn::posix_spawnp(c"sh", &actions, &attr, &args, &env).unwrap().as_raw()
}

fn poll_until_reported(table: &mut JobTable) -> Vec<String> {
    let started = std::time::Instant::now();
    loop {
        let lines = update_job_statuses(table, true);
        if !lines.is_empty() || started.elapsed().as_secs() >= 10 {
            return lines;
        }
        std::hint::spin_loop();
    }
}

#[test]
fn child_that_has_exited_is_reported_once() {
    let pid = spawn_shell(EXIT_3);
    let mut table = JobTable::new();
    let id = table.allocate_id();
    table.start(id, pid, "sh -c exit".to_string());

    let lines = poll_until_reported(&mut table);
    assert_eq!(lines, vec!["[1] Exit 3                sh -c exit".to_string()]);
    assert_eq!(table.get(0).unwrap().status, JobStatus::Done(3));
    assert!(update_job_statuses(&mut table, true).is_empty());
    assert_eq!(table.get(0).unwrap().status, JobStatus::Done(3));
}

#[test]
fn child_that_exits_with_zero_is_done() {
    let pid = spawn_shell(EXIT_0);
    let mut table = JobTable::new();
    let id = table.allocate_id();
    table.start(id, pid, "true".to_string());

    let lines = poll_until_reported(&mut table);
    assert_eq!(lines, vec!["[1] Done                    true".to_string()]);
    assert_eq!(table.get(0).unwrap().status, JobStatus::Done(0));
}

#[test]
fn child_that_is_killed_is_reported_with_its_signal() {
    let pid = spawn_shell(KILL_SELF);
    let mut table = JobTable::new();
    let id = table.allocate_id();
    table.start(id, pid, "doomed".to_string());

    let lines = poll_until_reported(&mut table);
    assert_eq!(lines, vec!["[1] Exit 137                doomed".to_string()]);
    assert_eq!(table.get(0).unwrap().status, JobStatus::Done(137));
}

#[test]
fn child_that_still_runs_stays_running() {
    let pid = spawn_shell(SLEEP);
    let mut table = JobTable::new();
    let id = table.allocate_id();
    table.start(id, pid, "sleep 30".to_string());
    assert!(update_job_statuses(&mut table, true).is_empty());
    assert_eq!(table.get(0).unwrap().status, JobStatus::Running);
    let _ = nix::sys::signal::kill(nix::unistd::Pid::from_raw(pid), nix::sys::signal::Signal::SIGKILL);
    let lines = poll_until_reported(&mut table);
    assert_eq!(lines, vec!["[1] Exit 137                sleep 30".to_string()]);
}

#[test]
fn jobs_are_found_by_number() {
    let mut table = JobTable::new();
    let first = table.allocate_id();
    table.insert(running(first, 10, "one"));
    let skipped = table.allocate_id();
    let third = table.allocate_id();
    table.insert(running(third, 30, "three"));
    assert_eq!(table.find(first).unwrap().command, "one");
    assert_eq!(table.find(third).unwrap().process_group_id, 30);
    assert!(table.find(skipped).is_none());
    assert!(table.find(0).is_none());
    assert!(table.find(99).is_none());
    let copy = table.find(third).unwrap().clone();
    assert_eq!(copy.id, third);
    assert_eq!(copy.command, "three");
}
