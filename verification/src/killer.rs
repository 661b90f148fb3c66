//! The kill procedure: the backoff schedule of the waits, and the decisions
//! of a kill run as a state machine. The caller performs each action (look a
//! process up, send a signal, sleep, print) and hands back what happened.

use std::collections::BTreeSet;
use vstd::prelude::*;
use vstd::std_specs::cmp::OrdSpec;
use vstd::std_specs::iter::IteratorSpec;

use crate::text::{decimal, join, join_strings, push_decimal, push_str, string_of, views};

verus! {

broadcast use vstd::std_specs::btree::group_btree_axioms;

/// The options of a kill run.
pub struct KillOptions {
    /// Kill at once, without a graceful termination first.
    pub force: bool,
    /// Suppress the per-process success lines and the summary lines.
    pub silent: bool,
    /// Milliseconds to wait after a graceful termination before escalating.
    pub force_after_timeout: u64,
    /// Milliseconds to wait for a killed process to disappear.
    pub wait_for_exit: u64,
}

/// The smaller of two numbers.
pub open spec fn min_nat(a: nat, b: nat) -> nat {
    if a <= b { a } else { b }
}

/// The longest single sleep of a wait, in milliseconds.
pub open spec fn max_interval() -> nat {
    1000
}

/// The step after `step`: twice as long, but no longer than the cap.
pub open spec fn next_step(step: nat) -> nat {
    min_nat(2 * step, max_interval())
}

/// The full step length after `i` doublings from the first step of 50 ms.
pub open spec fn step_after(i: nat) -> nat
    decreases i,
{
    if i == 0 {
        50
    } else {
        next_step(step_after((i - 1) as nat))
    }
}

/// The sleeps that cover `remaining` milliseconds when the next sleep would be
/// `step` long: each sleep is the step, cut short where it would pass the end.
pub open spec fn schedule(step: nat, remaining: nat) -> Seq<u64>
    decreases remaining,
{
    if remaining == 0 || step == 0 {
        Seq::empty()
    } else {
        let next = min_nat(step, remaining);
        seq![next as u64] + schedule(next_step(step), (remaining - next) as nat)
    }
}

/// The sleeps of a wait of `timeout_ms` milliseconds.
pub open spec fn backoff(timeout_ms: nat) -> Seq<u64> {
    schedule(50, timeout_ms)
}

/// The sum of a list of durations.
pub open spec fn total(s: Seq<u64>) -> nat
    decreases s.len(),
{
    if s.len() == 0 {
        0
    } else {
        s[0] as nat + total(s.drop_first())
    }
}

proof fn lemma_step_bounds(i: nat)
    ensures
        50 <= step_after(i) <= max_interval(),
    decreases i,
{
    if i > 0 {
        lemma_step_bounds((i - 1) as nat);
    }
}

proof fn lemma_schedule(i: nat, remaining: nat)
    ensures
        total(schedule(step_after(i), remaining)) == remaining,
        forall|k: int|
            0 <= k < schedule(step_after(i), remaining).len() ==> 0 < #[trigger] schedule(
                step_after(i),
                remaining,
            )[k] <= step_after((i + k) as nat),
        forall|k: int|
            0 <= k < schedule(step_after(i), remaining).len() - 1 ==> #[trigger] schedule(
                step_after(i),
                remaining,
            )[k] == step_after((i + k) as nat),
    decreases remaining,
{
    lemma_step_bounds(i);
    let s = schedule(step_after(i), remaining);
    if remaining > 0 {
        let next = min_nat(step_after(i), remaining);
        assert(step_after(i + 1) == next_step(step_after(i)));
        lemma_schedule(i + 1, (remaining - next) as nat);
        let rest = schedule(step_after(i + 1), (remaining - next) as nat);
        assert(s == seq![next as u64] + rest);
        assert(s.drop_first() == rest);
        assert forall|k: int| 0 <= k < s.len() implies 0 < #[trigger] s[k] <= step_after(
            (i + k) as nat,
        ) by {
            if k > 0 {
                assert(s[k] == rest[k - 1]);
                assert((i + 1 + (k - 1)) as nat == (i + k) as nat);
            }
        }
        assert forall|k: int| 0 <= k < s.len() - 1 implies #[trigger] s[k] == step_after(
            (i + k) as nat,
        ) by {
            if k > 0 {
                assert(s[k] == rest[k - 1]);
                assert((i + 1 + (k - 1)) as nat == (i + k) as nat);
            } else {
                assert(rest.len() > 0);
                assert(remaining - next > 0);
            }
        }
    }
}

/// The schedule of a wait: its sleeps add up to the timeout, each is at
/// least 1 ms and at most 1000 ms, and every sleep but the last is the full
/// step (50 ms, doubled each time, capped at 1000 ms).
pub proof fn lemma_backoff(timeout_ms: nat)
    ensures
        total(backoff(timeout_ms)) == timeout_ms,
        forall|k: int|
            0 <= k < backoff(timeout_ms).len() ==> 0 < #[trigger] backoff(timeout_ms)[k]
                <= max_interval(),
        forall|k: int|
            0 <= k < backoff(timeout_ms).len() ==> #[trigger] backoff(timeout_ms)[k]
                <= step_after(k as nat),
        forall|k: int|
            0 <= k < backoff(timeout_ms).len() - 1 ==> #[trigger] backoff(timeout_ms)[k]
                == step_after(k as nat),
{
    assert(step_after(0) == 50);
    lemma_schedule(0, timeout_ms);
    assert forall|k: int| 0 <= k < backoff(timeout_ms).len() implies #[trigger] backoff(
        timeout_ms,
    )[k] <= max_interval() by {
        lemma_step_bounds(k as nat);
        assert((0 + k) as nat == k as nat);
    }
    assert forall|k: int| 0 <= k < backoff(timeout_ms).len() implies #[trigger] backoff(
        timeout_ms,
    )[k] <= step_after(k as nat) by {
        assert((0 + k) as nat == k as nat);
    }
    assert forall|k: int| 0 <= k < backoff(timeout_ms).len() - 1 implies #[trigger] backoff(
        timeout_ms,
    )[k] == step_after(k as nat) by {
        assert((0 + k) as nat == k as nat);
    }
}

/// The sleeps between the checks of a wait of `timeout_ms` milliseconds:
/// 50 ms, then doubling up to 1000 ms, the last cut so that they add up to
/// the timeout exactly. A timeout of zero gives no sleeps.
pub fn backoff_intervals(timeout_ms: u64) -> (r: Vec<u64>)
    ensures
        r@ == backoff(timeout_ms as nat),
        total(r@) == timeout_ms,
        forall|k: int| 0 <= k < r@.len() ==> 0 < #[trigger] r@[k] <= max_interval(),
        forall|k: int| 0 <= k < r@.len() - 1 ==> #[trigger] r@[k] == step_after(k as nat),
        r@.len() > 0 ==> r@[r@.len() - 1] <= step_after((r@.len() - 1) as nat),
{
    proof {
        lemma_backoff(timeout_ms as nat);
    }
    if timeout_ms == 0 {
        return Vec::new();
    }
    let mut intervals: Vec<u64> = Vec::new();
    let mut elapsed: u64 = 0;
    let mut current: u64 = 50;
    let ghost mut doublings: nat = 0;
    assert(step_after(0) == 50);
    while elapsed < timeout_ms
        invariant
            elapsed <= timeout_ms,
            current == step_after(doublings),
            intervals@ + schedule(current as nat, (timeout_ms - elapsed) as nat) == backoff(
                timeout_ms as nat,
            ),
        decreases timeout_ms - elapsed,
    {
        proof {
            lemma_step_bounds(doublings);
        }
        let next = if current <= timeout_ms - elapsed {
            current
        } else {
            timeout_ms - elapsed
        };
        let ghost before = intervals@;
        intervals.push(next);
        elapsed = elapsed + next;
        let doubled = current * 2;
        current = if doubled <= 1000 {
            doubled
        } else {
            1000
        };
        proof {
            doublings = doublings + 1;
            assert(current == step_after(doublings));
            let rem = (timeout_ms - (elapsed - next)) as nat;
            assert(schedule(step_after((doublings - 1) as nat) as nat, rem) == seq![next]
                + schedule(current as nat, (timeout_ms - elapsed) as nat));
            assert(intervals@ + schedule(current as nat, (timeout_ms - elapsed) as nat) =~= before
                + (seq![next] + schedule(current as nat, (timeout_ms - elapsed) as nat)));
        }
    }
    assert(intervals@ =~= intervals@ + schedule(current as nat, 0));
    intervals
}


/// What the caller reports after it performed an action.
pub enum KillEvent {
    /// The process that was looked up is running; its name.
    Found(String),
    /// The process that was looked up, or to be killed, is not running.
    Gone,
    /// Whether the signal could be sent.
    Sent(bool),
    /// A sleep, or the printing of a line, is done.
    Done,
}

/// What the caller is to do next.
pub enum KillAction {
    /// Refresh the process table and look the process up: `Found` or `Gone`.
    Lookup(u32),
    /// Ask the process to terminate (a graceful signal): `Sent`.
    Terminate(u32),
    /// Refresh the process table and kill the process if it is still
    /// there: `Sent`, or `Gone` when it is not.
    ForceKill(u32),
    /// Sleep this many milliseconds: `Done`.
    Sleep(u64),
    /// Print the line on standard output: `Done`.
    Print(String),
    /// The run is over, with this result.
    Finish(Result<(), String>),
}

/// What a wait is for.
#[derive(PartialEq, Eq, Structural, Clone, Copy)]
pub enum WaitGoal {
    /// After a graceful termination, before escalating to a kill.
    Escalate,
    /// After a kill, to confirm that the process is gone.
    Confirm,
}

/// Where a run stands.
pub enum Phase {
    /// Looking the current process up.
    Lookup,
    /// A graceful termination was requested.
    Terminate { name: String },
    /// A kill was requested; `graceful` tells whether the termination
    /// request before it was sent.
    ForceKill { name: String, graceful: bool },
    /// Waiting for the process to go: `slept` sleeps of `intervals` are over,
    /// and `sleeping` tells whether one is under way (else a check is).
    Wait {
        name: String,
        graceful: bool,
        goal: WaitGoal,
        intervals: Vec<u64>,
        slept: usize,
        sleeping: bool,
    },
    /// The success line of the current process is being printed.
    Reported,
    /// The line that nothing was terminated is being printed.
    Summarised,
    /// The run is over.
    Finished,
}

/// A kill run over a set of process ids, in increasing order.
pub struct KillRun {
    pub pids: Vec<u32>,
    pub options: KillOptions,
    pub current_pid: u32,
    /// The position in `pids` of the process at hand.
    pub index: usize,
    pub phase: Phase,
    /// One entry per process that could not be killed.
    pub failed: Vec<String>,
    /// Whether some process was killed and seen to exit.
    pub killed_any: bool,
}

pub open spec fn no_matches_message() -> Seq<char> {
    "no matching processes found"@
}

pub open spec fn nothing_killed_message() -> Seq<char> {
    "No processes were terminated."@
}

pub open spec fn refused_message(pid: u32) -> Seq<char> {
    decimal(pid as nat) + " (refusing to kill current process)"@
}

pub open spec fn send_failed_message(pid: u32, name: Seq<char>) -> Seq<char> {
    decimal(pid as nat) + " ("@ + name + ", failed to send kill)"@
}

pub open spec fn unconfirmed_message(pid: u32, name: Seq<char>) -> Seq<char> {
    decimal(pid as nat) + " ("@ + name + ", kill sent but exit was not confirmed in time)"@
}

/// The success line; `graceful` tells whether a termination request was sent
/// first (the mode that the line names, even when a kill followed it).
pub open spec fn killed_message(pid: u32, name: Seq<char>, graceful: bool) -> Seq<char> {
    "Killed "@ + decimal(pid as nat) + " ("@ + name + ") via "@ + (if graceful {
        "graceful"@
    } else {
        "force"@
    })
}

pub open spec fn failure_message(failed: Seq<Seq<char>>) -> Seq<char> {
    "failed to kill: "@ + join(failed, ", "@)
}

/// The length of a wait for the given goal.
pub open spec fn timeout_of(options: KillOptions, goal: WaitGoal) -> nat {
    match goal {
        WaitGoal::Escalate => options.force_after_timeout as nat,
        WaitGoal::Confirm => options.wait_for_exit as nat,
    }
}

/// A lexicographic order on triples, by which every step of a run decreases
/// its rank.
pub open spec fn precedes(a: (nat, nat, nat), b: (nat, nat, nat)) -> bool {
    a.0 < b.0 || (a.0 == b.0 && (a.1 < b.1 || (a.1 == b.1 && a.2 < b.2)))
}

impl KillRun {
    /// The process at hand.
    pub open spec fn target(&self) -> u32 {
        self.pids@[self.index as int]
    }

    /// The run is at a process that is not the current one.
    pub open spec fn on_target(&self) -> bool {
        self.index < self.pids@.len() && self.target() != self.current_pid
    }

    /// What holds in every phase: the ids are distinct, the position is in
    /// range, and passing the current process was recorded as a failure.
    pub open spec fn ready(&self) -> bool {
        &&& self.pids@.no_duplicates()
        &&& self.index <= self.pids@.len()
        &&& forall|k: int|
            0 <= k < self.index && self.pids@[k] == self.current_pid ==> self.failed@.len() > 0
    }

    /// The invariant of a run.
    pub open spec fn wf(&self) -> bool {
        &&& self.ready()
        &&& match self.phase {
            Phase::Lookup => self.on_target(),
            Phase::Reported => self.on_target(),
            Phase::Terminate { .. } => self.on_target() && !self.options.force,
            Phase::ForceKill { graceful, .. } => self.on_target() && (graceful
                ==> !self.options.force),
            Phase::Wait { graceful, goal, intervals, slept, sleeping, .. } => {
                &&& self.on_target()
                &&& graceful ==> !self.options.force
                &&& goal == WaitGoal::Escalate ==> graceful
                &&& intervals@ == backoff(timeout_of(self.options, goal))
                &&& slept <= intervals@.len()
                &&& sleeping ==> slept < intervals@.len()
            },
            Phase::Summarised => {
                &&& self.index == self.pids@.len()
                &&& self.failed@.len() == 0
                &&& !self.killed_any
                &&& !self.options.silent
            },
            Phase::Finished => self.index == self.pids@.len(),
        }
    }

    /// The events that the run expects in its phase.
    pub open spec fn accepts(&self, event: KillEvent) -> bool {
        match self.phase {
            Phase::Lookup => event is Found || event is Gone,
            Phase::Terminate { .. } => event is Sent,
            Phase::ForceKill { .. } => event is Sent || event is Gone,
            Phase::Wait { sleeping, .. } => if sleeping {
                event is Done
            } else {
                event is Found || event is Gone
            },
            Phase::Reported => event is Done,
            Phase::Summarised => event is Done,
            Phase::Finished => false,
        }
    }

    /// How far the run is from its end: processes left, the stage within
    /// the process (or the closing stage), and the checks and sleeps left in
    /// a wait.
    pub open spec fn rank(&self) -> (nat, nat, nat) {
        let left = (self.pids@.len() - self.index) as nat;
        match self.phase {
            Phase::Lookup => (left, 6, 0),
            Phase::Terminate { .. } => (left, 5, 0),
            Phase::ForceKill { .. } => (left, 3, 0),
            Phase::Wait { goal, intervals, slept, sleeping, .. } => (
                left,
                if goal == WaitGoal::Escalate {
                    4
                } else {
                    2
                },
                (2 * (intervals@.len() - slept) + if sleeping {
                    0int
                } else {
                    1int
                }) as nat,
            ),
            Phase::Reported => (left, 1, 0),
            Phase::Summarised => (0, 2, 0),
            Phase::Finished => (0, 1, 0),
        }
    }

    /// The ids, the options and the current process are those of `other`.
    pub open spec fn same_run(&self, other: KillRun) -> bool {
        &&& self.pids@ == other.pids@
        &&& self.options == other.options
        &&& self.current_pid == other.current_pid
    }

    /// Besides the phase, nothing changed from `other`.
    pub open spec fn kept(&self, other: KillRun) -> bool {
        &&& self.same_run(other)
        &&& self.index == other.index
        &&& views(self.failed@) == views(other.failed@)
        &&& self.killed_any == other.killed_any
    }

    /// The run looks up the process at its position, or closes when no
    /// process is left.
    pub open spec fn opened(&self, action: KillAction) -> bool {
        if self.index < self.pids@.len() {
            self.phase is Lookup && action == KillAction::Lookup(self.target())
        } else {
            self.closed(action)
        }
    }

    /// The closing of a run: an error that lists the failures, if any;
    /// else the summary.
    pub open spec fn closed(&self, action: KillAction) -> bool {
        let failed = views(self.failed@);
        if failed.len() > 0 {
            &&& self.phase is Finished
            &&& action matches KillAction::Finish(Err(m)) && m@ == failure_message(failed)
        } else {
            self.summed_up(action)
        }
    }

    /// The end of a run without failures: the line that nothing was
    /// terminated (unless some process was, or the run is silent), then `Ok`.
    pub open spec fn summed_up(&self, action: KillAction) -> bool {
        if !self.killed_any && !self.options.silent {
            &&& self.phase is Summarised
            &&& action matches KillAction::Print(m) && m@ == nothing_killed_message()
        } else {
            &&& self.phase is Finished
            &&& action == KillAction::Finish(Ok(()))
        }
    }

    /// The run goes on from position `from` with the given failures and flag:
    /// the current process, if it stands there, is passed over and recorded
    /// as a failure; then the run opens the next process.
    pub open spec fn resumed(
        &self,
        pre: KillRun,
        from: nat,
        failed: Seq<Seq<char>>,
        killed_any: bool,
        action: KillAction,
    ) -> bool {
        let skip = from < pre.pids@.len() && pre.pids@[from as int] == pre.current_pid;
        &&& self.same_run(pre)
        &&& self.index == (if skip {
            from + 1
        } else {
            from
        })
        &&& views(self.failed@) == (if skip {
            failed.push(refused_message(pre.current_pid))
        } else {
            failed
        })
        &&& self.killed_any == killed_any
        &&& self.opened(action)
    }

    /// The run waits for its process to go, from the first check on.
    pub open spec fn waiting(
        &self,
        name: Seq<char>,
        graceful: bool,
        goal: WaitGoal,
        action: KillAction,
    ) -> bool {
        &&& self.phase matches Phase::Wait { name: n, graceful: g, goal: w, intervals, slept, sleeping }
            && n@ == name && g == graceful && w == goal && intervals@ == backoff(
            timeout_of(self.options, goal),
        ) && slept == 0 && !sleeping
        &&& action == KillAction::Lookup(self.target())
    }

    /// The run asks for a kill of its process.
    pub open spec fn killing(&self, name: Seq<char>, graceful: bool, action: KillAction) -> bool {
        &&& self.phase matches Phase::ForceKill { name: n, graceful: g } && n@ == name && g
            == graceful
        &&& action == KillAction::ForceKill(self.target())
    }

    /// The process of `pre` is done with: killed and seen to exit (a success,
    /// printed unless silent); killed but not seen to exit within the wait
    /// (a failure); or not killed (a failure). Then the run goes on with the
    /// next process.
    pub open spec fn concluded(
        &self,
        pre: KillRun,
        name: Seq<char>,
        graceful: bool,
        killed: bool,
        exited: bool,
        action: KillAction,
    ) -> bool {
        let pid = pre.target();
        let failed = views(pre.failed@);
        if exited {
            if !pre.options.silent {
                &&& self.same_run(pre)
                &&& self.index == pre.index
                &&& views(self.failed@) == failed
                &&& self.killed_any
                &&& self.phase is Reported
                &&& action matches KillAction::Print(m) && m@ == killed_message(
                    pid,
                    name,
                    graceful && !pre.options.force,
                )
            } else {
                self.resumed(pre, (pre.index + 1) as nat, failed, true, action)
            }
        } else if killed {
            self.resumed(
                pre,
                (pre.index + 1) as nat,
                failed.push(unconfirmed_message(pid, name)),
                pre.killed_any,
                action,
            )
        } else {
            self.resumed(
                pre,
                (pre.index + 1) as nat,
                failed.push(send_failed_message(pid, name)),
                pre.killed_any,
                action,
            )
        }
    }

    /// The end of a wait: `gone` tells whether the process went in time.
    /// After a graceful termination the run goes on to confirm the exit, or
    /// escalates to a kill; after a kill the process is done with.
    pub open spec fn waited(
        &self,
        pre: KillRun,
        name: Seq<char>,
        graceful: bool,
        goal: WaitGoal,
        gone: bool,
        action: KillAction,
    ) -> bool {
        match goal {
            WaitGoal::Escalate => self.kept(pre) && if gone {
                self.waiting(name, graceful, WaitGoal::Confirm, action)
            } else {
                self.killing(name, graceful, action)
            },
            WaitGoal::Confirm => self.concluded(pre, name, graceful, true, gone, action),
        }
    }

    /// One step of a run: from `pre`, on `event`, to `self` with `action`.
    pub open spec fn stepped(&self, pre: KillRun, event: KillEvent, action: KillAction) -> bool {
        let failed = views(pre.failed@);
        match pre.phase {
            Phase::Lookup => match event {
                KillEvent::Found(name) => self.kept(pre) && if pre.options.force {
                    self.killing(name@, false, action)
                } else {
                    &&& self.phase matches Phase::Terminate { name: n } && n@ == name@
                    &&& action == KillAction::Terminate(pre.target())
                },
                _ => self.resumed(pre, (pre.index + 1) as nat, failed, pre.killed_any, action),
            },
            Phase::Terminate { name } => self.kept(pre) && if event == KillEvent::Sent(true) {
                self.waiting(name@, true, WaitGoal::Escalate, action)
            } else {
                self.killing(name@, false, action)
            },
            Phase::ForceKill { name, graceful } => if event == KillEvent::Sent(false) {
                self.concluded(pre, name@, graceful, false, false, action)
            } else {
                self.kept(pre) && self.waiting(name@, graceful, WaitGoal::Confirm, action)
            },
            Phase::Wait { name, graceful, goal, intervals, slept, sleeping } => if sleeping {
                &&& self.kept(pre)
                &&& self.phase matches Phase::Wait {
                    name: n,
                    graceful: g,
                    goal: w,
                    intervals: v,
                    slept: k,
                    sleeping: z,
                } && n@ == name@ && g == graceful && w == goal && v@ == intervals@ && k == slept
                    + 1 && !z
                &&& action == KillAction::Lookup(pre.target())
            } else if event is Found && slept < intervals@.len() {
                &&& self.kept(pre)
                &&& self.phase matches Phase::Wait {
                    name: n,
                    graceful: g,
                    goal: w,
                    intervals: v,
                    slept: k,
                    sleeping: z,
                } && n@ == name@ && g == graceful && w == goal && v@ == intervals@ && k == slept
                    && z
                &&& action == KillAction::Sleep(intervals@[slept as int])
            } else {
                self.waited(pre, name@, graceful, goal, event is Gone, action)
            },
            Phase::Reported => self.resumed(
                pre,
                (pre.index + 1) as nat,
                failed,
                pre.killed_any,
                action,
            ),
            Phase::Summarised => self.kept(pre) && self.phase is Finished && action
                == KillAction::Finish(Ok(())),
            Phase::Finished => false,
        }
    }
}


fn refused_text(pid: u32) -> (r: String)
    ensures
        r@ == refused_message(pid),
{
    let mut r = String::new();
    push_decimal(&mut r, pid as u64);
    push_str(&mut r, " (refusing to kill current process)");
    assert(r@ =~= refused_message(pid));
    r
}

fn send_failed_text(pid: u32, name: &String) -> (r: String)
    ensures
        r@ == send_failed_message(pid, name@),
{
    let mut r = String::new();
    push_decimal(&mut r, pid as u64);
    push_str(&mut r, " (");
    push_str(&mut r, name.as_str());
    push_str(&mut r, ", failed to send kill)");
    assert(r@ =~= send_failed_message(pid, name@));
    r
}

fn unconfirmed_text(pid: u32, name: &String) -> (r: String)
    ensures
        r@ == unconfirmed_message(pid, name@),
{
    let mut r = String::new();
    push_decimal(&mut r, pid as u64);
    push_str(&mut r, " (");
    push_str(&mut r, name.as_str());
    push_str(&mut r, ", kill sent but exit was not confirmed in time)");
    assert(r@ =~= unconfirmed_message(pid, name@));
    r
}

fn killed_text(pid: u32, name: &String, graceful: bool) -> (r: String)
    ensures
        r@ == killed_message(pid, name@, graceful),
{
    let mut r = String::new();
    push_str(&mut r, "Killed ");
    push_decimal(&mut r, pid as u64);
    push_str(&mut r, " (");
    push_str(&mut r, name.as_str());
    push_str(&mut r, ") via ");
    if graceful {
        push_str(&mut r, "graceful");
    } else {
        push_str(&mut r, "force");
    }
    assert(r@ =~= killed_message(pid, name@, graceful));
    r
}

fn listed_text(head: &str, items: &Vec<String>) -> (r: String)
    ensures
        r@ == head@ + join(views(items@), ", "@),
{
    let mut r = String::new();
    push_str(&mut r, head);
    let joined = join_strings(items, ", ");
    push_str(&mut r, joined.as_str());
    assert(r@ =~= head@ + join(views(items@), ", "@));
    r
}

proof fn lemma_views_push(v: Seq<String>, s: String)
    ensures
        views(v.push(s)) == views(v).push(s@),
{
    assert(views(v.push(s)) =~= views(v).push(s@));
}

/// The keys of a set, as its iterator yields them, are increasing.
proof fn lemma_set_keys(pids: &BTreeSet<u32>)
    ensures
        ({
            let keys = vstd::std_specs::btree::spec_btree_keys_iter(pids).remaining().unref();
            &&& keys.to_set() == pids@
            &&& keys.no_duplicates()
            &&& forall|i: int, j: int| 0 <= i < j < keys.len() ==> keys[i] < keys[j]
        }),
{
    let raw = vstd::std_specs::btree::spec_btree_keys_iter(pids).remaining();
    let keys = raw.unref();
    assert(raw.unref().to_set() == pids@);
    assert(vstd::std_specs::btree::increasing_seq(raw));
    assert(vstd::laws_cmp::obeys_cmp::<u32>());
    assert(vstd::laws_cmp::obeys_cmp::<&u32>());
    vstd::std_specs::btree::axiom_increasing_seq_meaning::<&u32>(raw);
    assert forall|i: int, j: int| 0 <= i < j < keys.len() implies keys[i] < keys[j] by {
        assert(OrdSpec::cmp_spec(&raw[i], &raw[j]) is Less);
    }
    assert forall|i: int, j: int| 0 <= i < keys.len() && 0 <= j < keys.len() && i != j implies keys[i]
        != keys[j] by {
        assert(raw[i] != raw[j]);
    }
}

impl KillRun {
    /// Whether the run expects `event` now.
    pub fn accepts_event(&self, event: &KillEvent) -> (r: bool)
        ensures
            r == self.accepts(*event),
    {
        match &self.phase {
            Phase::Lookup => matches!(event, KillEvent::Found(_) | KillEvent::Gone),
            Phase::Terminate { .. } => matches!(event, KillEvent::Sent(_)),
            Phase::ForceKill { .. } => matches!(event, KillEvent::Sent(_) | KillEvent::Gone),
            Phase::Wait { sleeping, .. } => if *sleeping {
                matches!(event, KillEvent::Done)
            } else {
                matches!(event, KillEvent::Found(_) | KillEvent::Gone)
            },
            Phase::Reported => matches!(event, KillEvent::Done),
            Phase::Summarised => matches!(event, KillEvent::Done),
            Phase::Finished => false,
        }
    }

    fn sum_up(&mut self) -> (action: KillAction)
        requires
            old(self).ready(),
            old(self).index == old(self).pids@.len(),
            old(self).failed@.len() == 0,
        ensures
            final(self).kept(*old(self)),
            final(self).summed_up(action),
            final(self).wf(),
    {
        if !self.killed_any && !self.options.silent {
            self.phase = Phase::Summarised;
            KillAction::Print(string_of("No processes were terminated."))
        } else {
            self.phase = Phase::Finished;
            KillAction::Finish(Ok(()))
        }
    }

    fn close(&mut self) -> (action: KillAction)
        requires
            old(self).ready(),
            old(self).index == old(self).pids@.len(),
        ensures
            final(self).kept(*old(self)),
            final(self).closed(action),
            final(self).wf(),
    {
        if self.failed.len() > 0 {
            self.phase = Phase::Finished;
            KillAction::Finish(Err(listed_text("failed to kill: ", &self.failed)))
        } else {
            self.sum_up()
        }
    }

    fn resume(&mut self, from: usize) -> (action: KillAction)
        requires
            old(self).pids@.no_duplicates(),
            from <= old(self).pids@.len(),
            forall|k: int|
                0 <= k < from && old(self).pids@[k] == old(self).current_pid ==> old(
                    self,
                ).failed@.len() > 0,
        ensures
            final(self).resumed(
                *old(self),
                from as nat,
                views(old(self).failed@),
                old(self).killed_any,
                action,
            ),
            final(self).wf(),
    {
        let mut i = from;
        if i < self.pids.len() && self.pids[i] == self.current_pid {
            let m = refused_text(self.current_pid);
            proof {
                lemma_views_push(self.failed@, m);
            }
            self.failed.push(m);
            i = i + 1;
        }
        self.index = i;
        if i < self.pids.len() {
            assert(self.pids@[i as int] != self.current_pid);
            self.phase = Phase::Lookup;
            KillAction::Lookup(self.pids[i])
        } else {
            self.close()
        }
    }

    fn begin_wait(&mut self, name: String, graceful: bool, goal: WaitGoal) -> (action: KillAction)
        requires
            old(self).ready(),
            old(self).on_target(),
            graceful ==> !old(self).options.force,
            goal == WaitGoal::Escalate ==> graceful,
        ensures
            final(self).kept(*old(self)),
            final(self).waiting(name@, graceful, goal, action),
            final(self).wf(),
    {
        let timeout = match goal {
            WaitGoal::Escalate => self.options.force_after_timeout,
            WaitGoal::Confirm => self.options.wait_for_exit,
        };
        let intervals = backoff_intervals(timeout);
        self.phase = Phase::Wait { name, graceful, goal, intervals, slept: 0, sleeping: false };
        KillAction::Lookup(self.pids[self.index])
    }

    fn begin_kill(&mut self, name: String, graceful: bool) -> (action: KillAction)
        requires
            old(self).ready(),
            old(self).on_target(),
            graceful ==> !old(self).options.force,
        ensures
            final(self).kept(*old(self)),
            final(self).killing(name@, graceful, action),
            final(self).wf(),
    {
        self.phase = Phase::ForceKill { name, graceful };
        KillAction::ForceKill(self.pids[self.index])
    }

    fn conclude(&mut self, name: String, graceful: bool, killed: bool, exited: bool) -> (action:
        KillAction)
        requires
            old(self).ready(),
            old(self).on_target(),
        ensures
            final(self).concluded(*old(self), name@, graceful, killed, exited, action),
            final(self).wf(),
    {
        let pid = self.pids[self.index];
        let n = self.pids.len();
        assert(self.index < n);
        let next = self.index + 1;
        if exited {
            self.killed_any = true;
            if !self.options.silent {
                let line = killed_text(pid, &name, graceful && !self.options.force);
                self.phase = Phase::Reported;
                return KillAction::Print(line);
            }
            self.resume(next)
        } else if killed {
            let m = unconfirmed_text(pid, &name);
            proof {
                lemma_views_push(self.failed@, m);
            }
            self.failed.push(m);
            self.resume(next)
        } else {
            let m = send_failed_text(pid, &name);
            proof {
                lemma_views_push(self.failed@, m);
            }
            self.failed.push(m);
            self.resume(next)
        }
    }

    fn end_wait(&mut self, name: String, graceful: bool, goal: WaitGoal, gone: bool) -> (action:
        KillAction)
        requires
            old(self).ready(),
            old(self).on_target(),
            graceful ==> !old(self).options.force,
            goal == WaitGoal::Escalate ==> graceful,
        ensures
            final(self).waited(*old(self), name@, graceful, goal, gone, action),
            final(self).wf(),
    {
        match goal {
            WaitGoal::Escalate => if gone {
                self.begin_wait(name, graceful, WaitGoal::Confirm)
            } else {
                self.begin_kill(name, graceful)
            },
            WaitGoal::Confirm => self.conclude(name, graceful, true, gone),
        }
    }

    /// Starts a run over `pids` (in increasing order), with `current_pid` the
    /// id of this process, which is never signalled. With no pids the run is
    /// over at once, with an error.
    pub fn start(pids: &BTreeSet<u32>, options: &KillOptions, current_pid: u32) -> (r: (
        KillRun,
        KillAction,
    ))
        ensures
            r.0.wf(),
            r.0.pids@.to_set() == pids@,
            forall|i: int, j: int| 0 <= i < j < r.0.pids@.len() ==> r.0.pids@[i] < r.0.pids@[j],
            r.0.options == *options,
            r.0.current_pid == current_pid,
            pids@.is_empty() ==> {
                &&& r.0.phase is Finished
                &&& r.1 matches KillAction::Finish(Err(m)) && m@ == no_matches_message()
            },
            !pids@.is_empty() ==> r.0.resumed(r.0, 0, Seq::empty(), false, r.1),
            r.1 matches KillAction::Lookup(p) ==> p != current_pid && pids@.contains(p),
            !(r.1 is Terminate) && !(r.1 is ForceKill) && !(r.1 is Sleep),
    {
        let ghost raw = vstd::std_specs::btree::spec_btree_keys_iter(pids).remaining();
        let ghost keys: Seq<u32> = raw.unref();
        proof {
            lemma_set_keys(pids);
        }
        let mut list: Vec<u32> = Vec::new();
        for p in it: pids.iter()
            invariant
                it.seq() == raw,
                keys == raw.unref(),
                list@ == keys.take(it.index()),
        {
            list.push(*p);
            assert(keys.take(it.index() + 1) =~= keys.take(it.index()).push(*p));
        }
        assert(list@ =~= keys);
        let options = KillOptions {
            force: options.force,
            silent: options.silent,
            force_after_timeout: options.force_after_timeout,
            wait_for_exit: options.wait_for_exit,
        };
        let empty = list.len() == 0;
        let mut run = KillRun {
            pids: list,
            options,
            current_pid,
            index: 0,
            phase: Phase::Finished,
            failed: Vec::new(),
            killed_any: false,
        };
        if empty {
            return (run, KillAction::Finish(Err(string_of("no matching processes found"))));
        }
        assert(views(run.failed@) =~= Seq::empty());
        let action = run.resume(0);
        (run, action)
    }

    /// Hands the run what came of its last action; returns the next action.
    pub fn step(&mut self, event: KillEvent) -> (action: KillAction)
        requires
            old(self).wf(),
            old(self).accepts(event),
        ensures
            final(self).wf(),
            final(self).stepped(*old(self), event, action),
    {
        let mut phase = Phase::Finished;
        std::mem::swap(&mut phase, &mut self.phase);
        match phase {
            Phase::Lookup => match event {
                KillEvent::Found(name) => if self.options.force {
                    self.begin_kill(name, false)
                } else {
                    self.phase = Phase::Terminate { name };
                    KillAction::Terminate(self.pids[self.index])
                },
                _ => {
                    let n = self.pids.len();
                    assert(self.index < n);
                    let next = self.index + 1;
                    self.resume(next)
                },
            },
            Phase::Terminate { name } => match event {
                KillEvent::Sent(true) => self.begin_wait(name, true, WaitGoal::Escalate),
                _ => self.begin_kill(name, false),
            },
            Phase::ForceKill { name, graceful } => match event {
                KillEvent::Sent(false) => self.conclude(name, graceful, false, false),
                _ => self.begin_wait(name, graceful, WaitGoal::Confirm),
            },
            Phase::Wait { name, graceful, goal, intervals, slept, sleeping } => {
                if sleeping {
                    let pid = self.pids[self.index];
                    let count = intervals.len();
                    assert(slept < count);
                    self.phase = Phase::Wait {
                        name,
                        graceful,
                        goal,
                        intervals,
                        slept: slept + 1,
                        sleeping: false,
                    };
                    KillAction::Lookup(pid)
                } else {
                    let found = matches!(event, KillEvent::Found(_));
                    if found && slept < intervals.len() {
                        let ms = intervals[slept];
                        self.phase = Phase::Wait {
                            name,
                            graceful,
                            goal,
                            intervals,
                            slept,
                            sleeping: true,
                        };
                        KillAction::Sleep(ms)
                    } else {
                        let gone = matches!(event, KillEvent::Gone);
                        self.end_wait(name, graceful, goal, gone)
                    }
                }
            },
            Phase::Reported => {
                let n = self.pids.len();
                assert(self.index < n);
                let next = self.index + 1;
                self.resume(next)
            },
            Phase::Summarised => {
                self.phase = Phase::Finished;
                KillAction::Finish(Ok(()))
            },
            Phase::Finished => KillAction::Finish(Ok(())),
        }
    }
}


/// A run only ever looks up, terminates or kills a process of its set, and
/// never the current process.
pub proof fn lemma_step_targets(pre: KillRun, event: KillEvent, post: KillRun, action: KillAction)
    requires
        pre.wf(),
        pre.accepts(event),
        post.wf(),
        post.stepped(pre, event, action),
    ensures
        action matches KillAction::Lookup(p) ==> p != pre.current_pid && pre.pids@.contains(p),
        action matches KillAction::Terminate(p) ==> p != pre.current_pid && pre.pids@.contains(p),
        action matches KillAction::ForceKill(p) ==> p != pre.current_pid && pre.pids@.contains(p),
{
    assert(pre.on_target() ==> pre.pids@.contains(pre.target()));
    assert(post.on_target() ==> post.pids@.contains(post.target()));
}

/// Every step brings a run closer to its end: its rank decreases in the
/// lexicographic order, so a run ends after finitely many steps whatever
/// the events.
pub proof fn lemma_step_progress(pre: KillRun, event: KillEvent, post: KillRun, action: KillAction)
    requires
        pre.wf(),
        pre.accepts(event),
        post.wf(),
        post.stepped(pre, event, action),
    ensures
        precedes(post.rank(), pre.rank()),
{
}

/// Graceful first: with `force` no termination request is ever sent;
/// without it, a kill follows only a termination request that could not be
/// sent or a process that outlived the wait after it.
pub proof fn lemma_graceful_first(
    pre: KillRun,
    event: KillEvent,
    post: KillRun,
    action: KillAction,
)
    requires
        pre.wf(),
        pre.accepts(event),
        post.wf(),
        post.stepped(pre, event, action),
    ensures
        pre.options.force ==> !(action is Terminate),
        action is ForceKill && !pre.options.force ==> {
            ||| pre.phase is Terminate && event == KillEvent::Sent(false)
            ||| pre.phase matches Phase::Wait { goal, .. } && goal == WaitGoal::Escalate
        },
{
}

/// No sleep of a run is longer than a second.
pub proof fn lemma_sleeps_bounded(pre: KillRun, event: KillEvent, post: KillRun, action: KillAction)
    requires
        pre.wf(),
        pre.accepts(event),
        post.stepped(pre, event, action),
    ensures
        action matches KillAction::Sleep(ms) ==> 0 < ms <= max_interval(),
{
    if let Phase::Wait { goal, intervals, slept, .. } = pre.phase {
        lemma_backoff(timeout_of(pre.options, goal));
        if action is Sleep {
            assert(intervals@[slept as int] == backoff(timeout_of(pre.options, goal))[slept as int]);
        }
    }
}

/// A run that ends well spared the current process: it was not in the set.
/// (When it is, the run ends with an error.)
pub proof fn lemma_ok_spares_current(
    pre: KillRun,
    event: KillEvent,
    post: KillRun,
    action: KillAction,
)
    requires
        pre.wf(),
        pre.accepts(event),
        post.wf(),
        post.stepped(pre, event, action),
        action == KillAction::Finish(Ok(())),
    ensures
        !pre.pids@.contains(pre.current_pid),
{
    assert(post.failed@.len() == views(post.failed@).len());
    if pre.pids@.contains(pre.current_pid) {
        let k = choose|k: int| 0 <= k < pre.pids@.len() && pre.pids@[k] == pre.current_pid;
        assert(post.pids@[k] == post.current_pid);
    }
}


/// The action writes a line (as opposed to acting on the machine or ending
/// the run).
pub open spec fn writes(x: KillAction) -> bool {
    x is Print
}

/// Two actions are the same, their messages compared by their text.
pub open spec fn same_action(x: KillAction, y: KillAction) -> bool {
    match x {
        KillAction::Lookup(p) => y == KillAction::Lookup(p),
        KillAction::Terminate(p) => y == KillAction::Terminate(p),
        KillAction::ForceKill(p) => y == KillAction::ForceKill(p),
        KillAction::Sleep(ms) => y == KillAction::Sleep(ms),
        KillAction::Print(m) => y matches KillAction::Print(n) && n@ == m@,
        KillAction::Finish(r) => match r {
            Ok(_) => y matches KillAction::Finish(Ok(_)),
            Err(m) => y matches KillAction::Finish(Err(n)) && n@ == m@,
        },
    }
}

/// Two phases are the same, names compared by their text.
pub open spec fn same_phase(p: Phase, q: Phase) -> bool {
    match p {
        Phase::Lookup => q is Lookup,
        Phase::Terminate { name } => q matches Phase::Terminate { name: m } && m@ == name@,
        Phase::ForceKill { name, graceful } => q matches Phase::ForceKill { name: m, graceful: h }
            && m@ == name@ && h == graceful,
        Phase::Wait { name, graceful, goal, intervals, slept, sleeping } => q matches Phase::Wait {
            name: m,
            graceful: h,
            goal: w,
            intervals: v,
            slept: k,
            sleeping: z,
        } && m@ == name@ && h == graceful && w == goal && v@ == intervals@ && k == slept && z
            == sleeping,
        Phase::Finished => q is Finished,
        _ => false,
    }
}

/// `b` is the silent twin of the run `a`: the same ids, the same options
/// but for `silent`, and the same state.
pub open spec fn quiet_twin(a: KillRun, b: KillRun) -> bool {
    &&& a.pids@ == b.pids@
    &&& a.current_pid == b.current_pid
    &&& a.options.force == b.options.force
    &&& a.options.force_after_timeout == b.options.force_after_timeout
    &&& a.options.wait_for_exit == b.options.wait_for_exit
    &&& !a.options.silent
    &&& b.options.silent
    &&& a.index == b.index
    &&& views(a.failed@) == views(b.failed@)
    &&& a.killed_any == b.killed_any
    &&& same_phase(a.phase, b.phase)
}

/// After `a1` took `x1` and its silent twin `b1` took `y1`: when `x1` acts
/// on the machine or ends the run, it is `y1` and the runs are twins again;
/// when it prints a line, `a1`, once it has that taken with `Done`, takes
/// `y1` and is the twin of `b1` again.
pub open spec fn catches_up(a1: KillRun, x1: KillAction, b1: KillRun, y1: KillAction) -> bool {
    &&& !writes(x1) ==> same_action(x1, y1) && quiet_twin(a1, b1)
    &&& writes(x1) ==> a1.phase is Reported || a1.phase is Summarised
    &&& writes(x1) ==> forall|a2: KillRun, x2: KillAction|
        #[trigger] a2.stepped(a1, KillEvent::Done, x2) ==> !writes(x2) && same_action(x2, y1)
            && quiet_twin(a2, b1)
}

/// `--silent` changes nothing but the output. A run and its silent twin,
/// handed the same event, go on to the same action on the machine (the same
/// look-ups, signals and sleeps to the same processes) or the same end, the
/// loud one perhaps after printing a line; the silent one never prints.
#[verifier::rlimit(60)]
pub proof fn lemma_silent_twin(
    a: KillRun,
    b: KillRun,
    event: KillEvent,
    a1: KillRun,
    x1: KillAction,
    b1: KillRun,
    y1: KillAction,
)
    requires
        a.wf(),
        b.wf(),
        quiet_twin(a, b),
        a.accepts(event),
        a1.stepped(a, event, x1),
        b1.stepped(b, event, y1),
    ensures
        b.accepts(event),
        !writes(y1),
        catches_up(a1, x1, b1, y1),
{
}

/// The first actions of a run and of its silent twin over the same
/// non-empty set of processes (see `catches_up`).
#[verifier::rlimit(60)]
pub proof fn lemma_silent_start(a: KillRun, x: KillAction, b: KillRun, y: KillAction)
    requires
        a.pids@ == b.pids@,
        a.current_pid == b.current_pid,
        a.options.force == b.options.force,
        a.options.force_after_timeout == b.options.force_after_timeout,
        a.options.wait_for_exit == b.options.wait_for_exit,
        !a.options.silent,
        b.options.silent,
        a.resumed(a, 0, Seq::empty(), false, x),
        b.resumed(b, 0, Seq::empty(), false, y),
    ensures
        !writes(y),
        catches_up(a, x, b, y),
{
}


/// A silent run never prints.
pub proof fn lemma_silent_prints_nothing(
    pre: KillRun,
    event: KillEvent,
    post: KillRun,
    action: KillAction,
)
    requires
        pre.wf(),
        pre.accepts(event),
        pre.options.silent,
        post.stepped(pre, event, action),
    ensures
        !writes(action),
{
}

/// A run of `events.len()` steps: `states[0]` with `actions[0]` is where it
/// starts; step `i` hands `events[i]` (the answer to `actions[i]`) to
/// `states[i]`, which becomes `states[i + 1]` with `actions[i + 1]`.
pub open spec fn is_trace(
    states: Seq<KillRun>,
    events: Seq<KillEvent>,
    actions: Seq<KillAction>,
) -> bool {
    &&& states.len() == events.len() + 1
    &&& actions.len() == events.len() + 1
    &&& forall|i: int|
        #![trigger events[i]]
        0 <= i < events.len() ==> {
            &&& states[i].wf()
            &&& states[i].accepts(events[i])
            &&& states[i + 1].stepped(states[i], events[i], actions[i + 1])
        }
}

/// The number of actions among the first `i` that do not print.
pub open spec fn effect_count(actions: Seq<KillAction>, i: int) -> nat
    decreases i,
{
    if i <= 0 {
        0
    } else {
        effect_count(actions, i - 1) + if writes(actions[i - 1]) {
            0nat
        } else {
            1nat
        }
    }
}

/// Two runs that started as twins (see `lemma_silent_start`), a loud one
/// (`a`, `e`, `x`) and a silent one (`b`, `f`, `y`), where the silent one
/// got the same answer to each action that the loud one got to the same
/// action on the machine.
pub open spec fn twin_runs(
    a: Seq<KillRun>,
    e: Seq<KillEvent>,
    x: Seq<KillAction>,
    b: Seq<KillRun>,
    f: Seq<KillEvent>,
    y: Seq<KillAction>,
) -> bool {
    &&& is_trace(a, e, x)
    &&& is_trace(b, f, y)
    &&& a[0].pids@ == b[0].pids@
    &&& a[0].current_pid == b[0].current_pid
    &&& a[0].options.force == b[0].options.force
    &&& a[0].options.force_after_timeout == b[0].options.force_after_timeout
    &&& a[0].options.wait_for_exit == b[0].options.wait_for_exit
    &&& !a[0].options.silent
    &&& b[0].options.silent
    &&& a[0].resumed(a[0], 0, Seq::empty(), false, x[0])
    &&& b[0].resumed(b[0], 0, Seq::empty(), false, y[0])
    &&& forall|i: int|
        0 <= i < e.len() && !writes(x[i]) && effect_count(x, i) < f.len() ==> e[i] == f[(
        effect_count(x, i) as int)]
}

proof fn lemma_trace_options(
    states: Seq<KillRun>,
    events: Seq<KillEvent>,
    actions: Seq<KillAction>,
    k: int,
)
    requires
        is_trace(states, events, actions),
        0 <= k < states.len(),
    ensures
        states[k].options == states[0].options,
    decreases k,
{
    if k > 0 {
        lemma_trace_options(states, events, actions, k - 1);
        assert(states[k].stepped(states[k - 1], events[k - 1], actions[k]));
    }
}

proof fn lemma_twin_runs_upto(
    a: Seq<KillRun>,
    e: Seq<KillEvent>,
    x: Seq<KillAction>,
    b: Seq<KillRun>,
    f: Seq<KillEvent>,
    y: Seq<KillAction>,
    i: int,
)
    requires
        twin_runs(a, e, x, b, f, y),
        0 <= i <= e.len(),
        effect_count(x, i) < y.len(),
    ensures
        catches_up(a[i], x[i], b[effect_count(x, i) as int], y[effect_count(x, i) as int]),
    decreases i,
{
    if i == 0 {
        lemma_silent_start(a[0], x[0], b[0], y[0]);
    } else {
        let c: int = effect_count(x, i - 1) as int;
        lemma_twin_runs_upto(a, e, x, b, f, y, i - 1);
        assert(a[i].stepped(a[i - 1], e[i - 1], x[i]));
        if !writes(x[i - 1]) {
            assert(e[i - 1] == f[c]);
            assert(b[c + 1].stepped(b[c], f[c], y[c + 1]));
            lemma_silent_twin(a[i - 1], b[c], e[i - 1], a[i], x[i], b[c + 1], y[c + 1]);
        } else {
            assert(a[i - 1].accepts(e[i - 1]));
        }
    }
}

/// `--silent` changes nothing but the output, over whole runs: of a loud run
/// and its silent twin that get the same answers, the `k`-th action of the
/// loud run that does not print (a look-up, a signal, a sleep, or the end
/// with its result) is the `k`-th action of the silent run, and the silent
/// run never prints.
pub proof fn lemma_silent_run(
    a: Seq<KillRun>,
    e: Seq<KillEvent>,
    x: Seq<KillAction>,
    b: Seq<KillRun>,
    f: Seq<KillEvent>,
    y: Seq<KillAction>,
)
    requires
        twin_runs(a, e, x, b, f, y),
    ensures
        forall|i: int|
            0 <= i <= e.len() && !writes(x[i]) && effect_count(x, i) < y.len() ==> same_action(
                #[trigger] x[i],
                y[effect_count(x, i) as int],
            ),
        forall|k: int| 0 <= k < y.len() ==> !writes(#[trigger] y[k]),
{
    assert forall|i: int|
        0 <= i <= e.len() && !writes(x[i]) && effect_count(x, i) < y.len() implies same_action(
        #[trigger] x[i],
        y[effect_count(x, i) as int],
    ) by {
        lemma_twin_runs_upto(a, e, x, b, f, y, i);
    }
    assert forall|k: int| 0 <= k < y.len() implies !writes(#[trigger] y[k]) by {
        if k == 0 {
            lemma_silent_start(a[0], x[0], b[0], y[0]);
        } else {
            assert(b[k].stepped(b[k - 1], f[k - 1], y[k]));
            lemma_trace_options(b, f, y, k - 1);
            lemma_silent_prints_nothing(b[k - 1], f[k - 1], b[k], y[k]);
        }
    }
}

} // verus!
