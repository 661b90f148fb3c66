use std::collections::{BTreeMap, BTreeSet};

use fuckport::killer::{backoff_intervals, KillAction, KillEvent, KillOptions, KillRun};

/// A simulated machine: which processes run, what a termination request
/// and a kill do to them.
struct Machine {
    running: BTreeMap<u32, String>,
    obeys_term: BTreeSet<u32>,
    term_sendable: BTreeSet<u32>,
    kill_sendable: BTreeSet<u32>,
    dies_on_kill: BTreeSet<u32>,
}

impl Machine {
    fn new() -> Self {
        Machine {
            running: BTreeMap::new(),
            obeys_term: BTreeSet::new(),
            term_sendable: BTreeSet::new(),
            kill_sendable: BTreeSet::new(),
            dies_on_kill: BTreeSet::new(),
        }
    }

    fn add(&mut self, pid: u32, name: &str, obeys_term: bool, dies_on_kill: bool) {
        self.running.insert(pid, name.to_string());
        if obeys_term {
            self.obeys_term.insert(pid);
        }
        if dies_on_kill {
            self.dies_on_kill.insert(pid);
        }
        self.term_sendable.insert(pid);
        self.kill_sendable.insert(pid);
    }

    fn perform(&mut self, action: &KillAction, log: &mut Vec<String>) -> KillEvent {
        match action {
            KillAction::Lookup(pid) => match self.running.get(pid) {
                Some(name) => KillEvent::Found(name.clone()),
                None => KillEvent::Gone,
            },
            KillAction::Terminate(pid) => {
                log.push(format!("term {pid}"));
                let sent = self.term_sendable.contains(pid);
                if sent && self.obeys_term.contains(pid) {
                    self.running.remove(pid);
                }
                KillEvent::Sent(sent)
            }
            KillAction::ForceKill(pid) => {
                log.push(format!("kill {pid}"));
                if !self.running.contains_key(pid) {
                    return KillEvent::Gone;
                }
                let sent = self.kill_sendable.contains(pid);
                if sent && self.dies_on_kill.contains(pid) {
                    self.running.remove(pid);
                }
                KillEvent::Sent(sent)
            }
            KillAction::Sleep(ms) => {
                log.push(format!("sleep {ms}"));
                KillEvent::Done
            }
            KillAction::Print(line) => {
                log.push(format!("out {line}"));
                KillEvent::Done
            }
            KillAction::Finish(_) => KillEvent::Done,
        }
    }
}

fn options(force: bool, silent: bool) -> KillOptions {
    KillOptions { force, silent, force_after_timeout: 1500, wait_for_exit: 5000 }
}

fn run(machine: &mut Machine, pids: &[u32], options: &KillOptions, current: u32) -> (Result<(), String>, Vec<String>) {
    let set: BTreeSet<u32> = pids.iter().copied().collect();
    let (mut run, mut action) = KillRun::start(&set, options, current);
    let mut log = Vec::new();
    let mut steps = 0;
    loop {
        if let KillAction::Finish(result) = action {
            return (result, log);
        }
        let event = machine.perform(&action, &mut log);
        assert!(run.accepts_event(&event));
        action = run.step(event);
        steps += 1;
        assert!(steps < 10_000);
    }
}

fn sleeps(timeout: u64) -> Vec<String> {
    backoff_intervals(timeout).iter().map(|ms| format!("sleep {ms}")).collect()
}

#[test]
fn empty_set_is_an_error() {
    let mut m = Machine::new();
    let (result, log) = run(&mut m, &[], &options(false, false), 1);
    assert_eq!(result, Err("no matching processes found".to_string()));
    assert!(log.is_empty());
}

#[test]
fn graceful_termination_succeeds() {
    let mut m = Machine::new();
    m.add(10, "node", true, true);
    let (result, log) = run(&mut m, &[10], &options(false, false), 1);
    assert_eq!(result, Ok(()));
    assert_eq!(log, vec!["term 10".to_string(), "out Killed 10 (node) via graceful".to_string()]);
}

#[test]
fn force_mode_kills_at_once() {
    let mut m = Machine::new();
    m.add(10, "node", true, true);
    let (result, log) = run(&mut m, &[10], &options(true, false), 1);
    assert_eq!(result, Ok(()));
    assert_eq!(log, vec!["kill 10".to_string(), "out Killed 10 (node) via force".to_string()]);
}

#[test]
fn escalates_after_the_timeout() {
    let mut m = Machine::new();
    m.add(10, "stubborn", false, true);
    let (result, log) = run(&mut m, &[10], &options(false, false), 1);
    assert_eq!(result, Ok(()));
    let mut expected = vec!["term 10".to_string()];
    expected.extend(sleeps(1500));
    expected.push("kill 10".to_string());
    expected.push("out Killed 10 (stubborn) via graceful".to_string());
    assert_eq!(log, expected);
}

#[test]
fn unsendable_termination_falls_back_to_kill() {
    let mut m = Machine::new();
    m.add(10, "node", true, true);
    m.term_sendable.clear();
    let (result, log) = run(&mut m, &[10], &options(false, false), 1);
    assert_eq!(result, Ok(()));
    assert_eq!(log, vec!["term 10".to_string(), "kill 10".to_string(), "out Killed 10 (node) via force".to_string()]);
}

#[test]
fn unconfirmed_exit_is_a_failure() {
    let mut m = Machine::new();
    m.add(10, "zombie", false, false);
    let (result, log) = run(&mut m, &[10], &options(true, false), 1);
    assert_eq!(
        result,
        Err("failed to kill: 10 (zombie, kill sent but exit was not confirmed in time)".to_string())
    );
    let mut expected = vec!["kill 10".to_string()];
    expected.extend(sleeps(5000));
    assert_eq!(log, expected);
}

#[test]
fn unconfirmed_exit_stays_a_failure_after_later_successes() {
    let mut m = Machine::new();
    m.add(10, "zombie", false, false);
    m.add(20, "node", true, true);
    let opts = KillOptions { force: false, silent: false, force_after_timeout: 0, wait_for_exit: 0 };
    let (result, log) = run(&mut m, &[10, 20], &opts, 1);
    assert_eq!(
        result,
        Err("failed to kill: 10 (zombie, kill sent but exit was not confirmed in time)".to_string())
    );
    assert_eq!(
        log,
        vec![
            "term 10".to_string(),
            "kill 10".to_string(),
            "term 20".to_string(),
            "out Killed 20 (node) via graceful".to_string(),
        ]
    );
}

#[test]
fn failed_kill_is_an_error() {
    let mut m = Machine::new();
    m.add(10, "locked", false, false);
    m.kill_sendable.clear();
    let (result, log) = run(&mut m, &[10], &options(true, false), 1);
    assert_eq!(result, Err("failed to kill: 10 (locked, failed to send kill)".to_string()));
    assert_eq!(log, vec!["kill 10".to_string()]);
}

#[test]
fn refuses_the_current_process() {
    let mut m = Machine::new();
    m.add(7, "self", true, true);
    m.add(8, "other", true, true);
    let (result, log) = run(&mut m, &[7, 8], &options(false, false), 7);
    assert_eq!(result, Err("failed to kill: 7 (refusing to kill current process)".to_string()));
    assert_eq!(log, vec!["term 8".to_string(), "out Killed 8 (other) via graceful".to_string()]);
    assert!(m.running.contains_key(&7));
}

#[test]
fn vanished_process_is_skipped() {
    let mut m = Machine::new();
    let (result, log) = run(&mut m, &[42], &options(false, false), 1);
    assert_eq!(result, Ok(()));
    assert_eq!(log, vec!["out No processes were terminated.".to_string()]);
}

#[test]
fn silent_run_prints_nothing() {
    let mut m = Machine::new();
    m.add(10, "node", true, true);
    m.add(11, "zombie", false, false);
    let opts = KillOptions { force: true, silent: true, force_after_timeout: 0, wait_for_exit: 0 };
    let (result, log) = run(&mut m, &[10, 11, 12], &opts, 1);
    assert_eq!(
        result,
        Err("failed to kill: 11 (zombie, kill sent but exit was not confirmed in time)".to_string())
    );
    assert_eq!(log, vec!["kill 10".to_string(), "kill 11".to_string()]);
}

#[test]
fn several_processes_in_increasing_order() {
    let mut m = Machine::new();
    m.add(30, "c", true, true);
    m.add(10, "a", true, true);
    m.add(20, "b", false, false);
    m.kill_sendable.remove(&20);
    let (result, log) = run(&mut m, &[30, 10, 20], &options(false, false), 1);
    assert_eq!(result, Err("failed to kill: 20 (b, failed to send kill)".to_string()));
    let mut expected = vec!["term 10".to_string(), "out Killed 10 (a) via graceful".to_string(), "term 20".to_string()];
    expected.extend(sleeps(1500));
    expected.push("kill 20".to_string());
    expected.push("term 30".to_string());
    expected.push("out Killed 30 (c) via graceful".to_string());
    assert_eq!(log, expected);
}

#[test]
fn process_gone_before_the_kill_counts_as_killed() {
    let mut m = Machine::new();
    m.add(10, "brief", false, true);
    // The termination is ignored, but the process ends on its own while the
    // run waits, right before the kill.
    let set: BTreeSet<u32> = [10].into_iter().collect();
    let opts = KillOptions { force: false, silent: false, force_after_timeout: 0, wait_for_exit: 0 };
    let (mut run, action) = KillRun::start(&set, &opts, 1);
    assert!(matches!(action, KillAction::Lookup(10)));
    let action = run.step(KillEvent::Found("brief".to_string()));
    assert!(matches!(action, KillAction::Terminate(10)));
    let action = run.step(KillEvent::Sent(true));
    assert!(matches!(action, KillAction::Lookup(10)));
    let action = run.step(KillEvent::Found("brief".to_string()));
    assert!(matches!(action, KillAction::ForceKill(10)));
    let action = run.step(KillEvent::Gone);
    assert!(matches!(action, KillAction::Lookup(10)));
    let action = run.step(KillEvent::Gone);
    assert!(matches!(action, KillAction::Print(ref line) if line == "Killed 10 (brief) via graceful"));
    assert!(!run.accepts_event(&KillEvent::Gone));
    let action = run.step(KillEvent::Done);
    assert!(matches!(action, KillAction::Finish(Ok(()))));
    assert!(!run.accepts_event(&KillEvent::Done));
}

fn machine_for_silence() -> Machine {
    let mut m = Machine::new();
    m.add(10, "a", true, true);
    m.add(20, "b", false, true);
    m.add(30, "c", false, false);
    m.add(40, "d", false, false);
    m.kill_sendable.remove(&40);
    m
}

#[test]
fn silent_changes_only_the_output() {
    let loud = KillOptions { force: false, silent: false, force_after_timeout: 300, wait_for_exit: 200 };
    let quiet = KillOptions { force: false, silent: true, force_after_timeout: 300, wait_for_exit: 200 };
    let (loud_result, loud_log) = run(&mut machine_for_silence(), &[10, 20, 30, 40, 50], &loud, 1);
    let (quiet_result, quiet_log) = run(&mut machine_for_silence(), &[10, 20, 30, 40, 50], &quiet, 1);
    assert_eq!(loud_result, quiet_result);
    let effects: Vec<String> = loud_log
        .iter()
        .filter(|line| !line.starts_with("out "))
        .cloned()
        .collect();
    assert_eq!(effects, quiet_log);
    assert!(loud_log.iter().any(|line| line.starts_with("out ")));
    assert!(quiet_log.iter().all(|line| !line.starts_with("out ")));
}

#[test]
fn silent_unconfirmed_run_fails_without_lines() {
    let mut m = Machine::new();
    m.add(10, "zombie", false, false);
    let quiet = KillOptions { force: true, silent: true, force_after_timeout: 0, wait_for_exit: 100 };
    let (result, log) = run(&mut m, &[10], &quiet, 1);
    assert_eq!(
        result,
        Err("failed to kill: 10 (zombie, kill sent but exit was not confirmed in time)".to_string())
    );
    let mut expected = vec!["kill 10".to_string()];
    expected.extend(sleeps(100));
    assert_eq!(log, expected);
}
