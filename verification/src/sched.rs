//! The cooperative scheduler: a single-threaded, non-preemptive dispatcher.
//!
//! Each task is a unit of cooperative execution, spawned once with exactly one
//! bundle and a program of operations; an `Await` operation is a suspension
//! point, where the task voluntarily yields until its timer deadline passes.
//! A task runs uninterrupted between suspension points; ready tasks are
//! dispatched in the order their wake events were satisfied, ties resolved in
//! spawn order. Every state transition is recorded in an interleaving log, and
//! non-preemption is an invariant of that log.

use vstd::prelude::*;
use crate::partition::Bundle;

verus! {

/// One operation of a task's program. `Await` is the only suspension point;
/// every other operation runs without yielding control.
#[derive(Clone, Copy, PartialEq, Eq, Structural, Debug)]
pub enum Op {
    /// Drive a digital-output pin high.
    SetHigh { pin: u32 },
    /// Drive a digital-output pin low.
    SetLow { pin: u32 },
    /// Emit a diagnostic log line.
    Note { code: u32 },
    /// Clear the display to a packed 16-bit color.
    ClearDisplay { color: u16 },
    /// Suspend until `ticks` clock ticks have elapsed.
    Await { ticks: u64 },
}

/// The scheduling state of a task descriptor.
#[derive(Clone, Copy, PartialEq, Eq, Structural, Debug)]
pub enum TaskState {
    Ready,
    Running,
    Suspended { wake_at: u64 },
    Terminated,
}

/// What one log entry records: an executed operation, or the boundary where
/// the task gave up control.
#[derive(Clone, Copy, PartialEq, Eq, Structural, Debug)]
pub enum EntryKind {
    Work { op: Op },
    Suspended,
    Terminated,
}

/// One entry of the interleaving log: which task did what.
#[derive(Clone, Copy, PartialEq, Eq, Structural, Debug)]
pub struct LogEntry {
    pub task: usize,
    pub kind: EntryKind,
}

/// A boundary entry: the task suspended or terminated there, so control may
/// pass to another task immediately after it.
pub open spec fn is_boundary(k: EntryKind) -> bool {
    k is Suspended || k is Terminated
}

/// Non-preemption: the running task changes only across a boundary. Between
/// two consecutive suspension points of a task, no other task's code executes.
pub open spec fn non_preemptive(log: Seq<LogEntry>) -> bool {
    forall|i: int|
        0 < i < log.len() && log[i - 1].task != (#[trigger] log[i]).task ==> is_boundary(
            log[i - 1].kind,
        )
}

/// The wake deadline of a suspended task.
pub open spec fn wake_of(s: TaskState) -> u64 {
    match s {
        TaskState::Suspended { wake_at } => wake_at,
        _ => 0,
    }
}

/// Some task is suspended.
pub open spec fn has_suspended(states: Seq<TaskState>) -> bool {
    exists|t: int| 0 <= t < states.len() && states[t] is Suspended
}

/// The earliest wake deadline among suspended tasks (`u64::MAX` if none).
pub open spec fn min_wake(states: Seq<TaskState>) -> u64
    decreases states.len(),
{
    if states.len() == 0 {
        u64::MAX
    } else {
        let rest = min_wake(states.drop_last());
        match states.last() {
            TaskState::Suspended { wake_at } => if wake_at < rest {
                wake_at
            } else {
                rest
            },
            _ => rest,
        }
    }
}

/// The tasks whose wake deadline is exactly `m`, in spawn order: the order in
/// which they are put back on the ready queue when the clock reaches `m`.
pub open spec fn woken_ids(states: Seq<TaskState>, m: u64) -> Seq<usize>
    decreases states.len(),
{
    if states.len() == 0 {
        Seq::empty()
    } else {
        let pre = woken_ids(states.drop_last(), m);
        if states.last() is Suspended && wake_of(states.last()) == m {
            pre.push((states.len() - 1) as usize)
        } else {
            pre
        }
    }
}

/// No identifier of `a` occurs in `b`.
pub open spec fn ids_disjoint(a: Seq<u32>, b: Seq<u32>) -> bool {
    forall|x: u32| a.contains(x) ==> !b.contains(x)
}

/// The operation is legal for the bundle: driving a pin takes a handle for
/// that pin whose capability tag is digital output.
pub open spec fn op_allowed(op: Op, b: Bundle) -> bool {
    match op {
        Op::SetHigh { pin } => b.owns_output(pin),
        Op::SetLow { pin } => b.owns_output(pin),
        _ => true,
    }
}

/// Every operation of the program is legal for the bundle it owns.
pub open spec fn prog_confined(prog: Seq<Op>, b: Bundle) -> bool {
    forall|i: int| 0 <= i < prog.len() ==> op_allowed(#[trigger] prog[i], b)
}

/// The log entry kind that executing one operation produces: a work entry
/// for the operation itself, or a suspension boundary for an `Await`.
pub open spec fn step_kind(op: Op) -> EntryKind {
    if op is Await {
        EntryKind::Suspended
    } else {
        EntryKind::Work { op }
    }
}

/// The kinds of the entries task `t` has contributed to the log, in order,
/// termination boundaries aside.
pub open spec fn task_kinds(log: Seq<LogEntry>, t: int) -> Seq<EntryKind>
    decreases log.len(),
{
    if log.len() == 0 {
        Seq::empty()
    } else {
        let rest = task_kinds(log.drop_last(), t);
        let e = log.last();
        if e.task as int == t && !(e.kind is Terminated) {
            rest.push(e.kind)
        } else {
            rest
        }
    }
}

/// Task `t`'s entries in the log are exactly its program unrolled from the
/// top up to its current program counter: the `i`-th thing the task ever did
/// is its program's operation at position `i` (modulo the program length,
/// for a repeating program), and the counter sits right after the last one.
pub open spec fn task_trace_ok(
    log: Seq<LogEntry>,
    t: int,
    prog: Seq<Op>,
    repeats: bool,
    pc: int,
) -> bool {
    let ks = task_kinds(log, t);
    &&& (!repeats ==> ks.len() == pc)
    &&& (repeats ==> exists|rounds: nat| ks.len() == #[trigger] (rounds * prog.len()) + pc)
    &&& forall|i: int|
        0 <= i < ks.len() ==> ks[i] == step_kind(prog[i % (prog.len() as int)])
}

/// Appending an entry extends exactly its own task's trace.
pub proof fn lemma_task_kinds_push(log: Seq<LogEntry>, e: LogEntry, t: int)
    ensures
        task_kinds(log.push(e), t) == (if e.task as int == t && !(e.kind is Terminated) {
            task_kinds(log, t).push(e.kind)
        } else {
            task_kinds(log, t)
        }),
{
    assert(log.push(e).drop_last() =~= log);
    assert(log.push(e).last() == e);
}

/// A task that appears nowhere in the log has an empty trace.
pub proof fn lemma_task_kinds_absent(log: Seq<LogEntry>, t: int)
    requires
        forall|i: int| 0 <= i < log.len() ==> (#[trigger] log[i]).task as int != t,
    ensures
        task_kinds(log, t) == Seq::<EntryKind>::empty(),
    decreases log.len(),
{
    if log.len() > 0 {
        assert(log.last() == log[log.len() - 1]);
        lemma_task_kinds_absent(log.drop_last(), t);
    }
}

/// Executing one operation extends the task's trace by exactly that
/// operation's log kind, and moves the counter as the scheduler does.
pub proof fn lemma_trace_after_op(
    log0: Seq<LogEntry>,
    e: LogEntry,
    prog: Seq<Op>,
    repeats: bool,
    pc0: int,
    npc: int,
)
    requires
        task_trace_ok(log0, e.task as int, prog, repeats, pc0),
        0 <= pc0 < prog.len(),
        e.kind == step_kind(prog[pc0]),
        npc == next_pc(prog.len() as int, pc0, repeats),
    ensures
        task_trace_ok(log0.push(e), e.task as int, prog, repeats, npc),
{
    let t = e.task as int;
    lemma_task_kinds_push(log0, e, t);
    let ks0 = task_kinds(log0, t);
    let ks1 = task_kinds(log0.push(e), t);
    assert(!(e.kind is Terminated));
    assert(ks1 == ks0.push(e.kind));
    let m = prog.len() as int;
    if repeats {
        let rounds = choose|rounds: nat| ks0.len() == #[trigger] (rounds * prog.len()) + pc0;
        if pc0 + 1 == prog.len() {
            assert((rounds + 1) * prog.len() == rounds * prog.len() + prog.len())
                by (nonlinear_arith);
            assert(ks1.len() == #[trigger] (((rounds + 1) as nat) * prog.len()) + npc);
        } else {
            assert(ks1.len() == #[trigger] (rounds * prog.len()) + npc);
        }
    }
    assert forall|i: int| 0 <= i < ks1.len() implies ks1[i] == step_kind(
        prog[i % (prog.len() as int)],
    ) by {
        if i < ks0.len() {
            assert(ks1[i] == ks0[i]);
        } else {
            assert(ks1[i] == e.kind);
            assert(i == ks0.len());
            if repeats {
                let rounds = choose|rounds: nat|
                    ks0.len() == #[trigger] (rounds * prog.len()) + pc0;
                assert(m * (rounds as int) == (rounds as int) * m) by (nonlinear_arith);
                vstd::arithmetic::div_mod::lemma_mod_multiples_vanish(rounds as int, pc0, m);
                assert((m * (rounds as int) + pc0) % m == pc0 % m);
                vstd::arithmetic::div_mod::lemma_small_mod(pc0 as nat, m as nat);
                assert(i % m == pc0);
            } else {
                assert(ks0.len() == pc0);
                vstd::arithmetic::div_mod::lemma_small_mod(pc0 as nat, m as nat);
                assert(i % m == pc0);
            }
        }
    }
}

/// The process-wide dispatcher. Task `t`'s descriptor is spread across the
/// vectors at index `t`: its program, program counter, whether the program
/// repeats forever, its scheduling state and its bundle. `queue` is the ready
/// queue (front runs next), `running` the task currently holding the core,
/// and `log` the interleaving log of everything that has executed.
pub struct Scheduler {
    pub programs: Vec<Vec<Op>>,
    pub pcs: Vec<usize>,
    pub repeats: Vec<bool>,
    pub states: Vec<TaskState>,
    pub bundles: Vec<Bundle>,
    pub queue: Vec<usize>,
    pub running: Option<usize>,
    pub clock: u64,
    pub log: Vec<LogEntry>,
}

impl Scheduler {
    /// How many tasks have been spawned.
    pub open spec fn n_tasks(self) -> int {
        self.programs@.len() as int
    }

    /// Scheduler well-formedness: descriptor vectors aligned, program counters
    /// in range, the ready queue holding exactly the ready tasks without
    /// duplicates, exactly the `running` task in state `Running`, suspended
    /// deadlines never in the past, bundles pairwise disjoint, every program
    /// confined to its own bundle, and the log non-preemptive with the
    /// running task owning its open (unterminated) tail segment.
    pub open spec fn wf(self) -> bool {
        let n = self.n_tasks();
        &&& self.pcs@.len() == n
        &&& self.repeats@.len() == n
        &&& self.states@.len() == n
        &&& self.bundles@.len() == n
        &&& forall|t: int| 0 <= t < n ==> (#[trigger] self.pcs@[t]) <= self.programs@[t]@.len()
        &&& forall|t: int|
            0 <= t < n && (#[trigger] self.repeats@[t]) ==> 0 < self.programs@[t]@.len()
                && self.pcs@[t] < self.programs@[t]@.len()
        &&& forall|q: int|
            0 <= q < self.queue@.len() ==> (#[trigger] self.queue@[q]) < n
                && self.states@[self.queue@[q] as int] is Ready
        &&& forall|p: int, q: int|
            0 <= p < q < self.queue@.len() ==> self.queue@[p] != self.queue@[q]
        &&& forall|t: int|
            0 <= t < n && (#[trigger] self.states@[t]) is Ready ==> self.queue@.contains(
                t as usize,
            )
        &&& match self.running {
            Some(c) => c < n && self.states@[c as int] is Running,
            None => true,
        }
        &&& forall|t: int|
            0 <= t < n && (#[trigger] self.states@[t]) is Running ==> (self.running matches Some(r)
                && r as int == t)
        &&& forall|t: int|
            0 <= t < n && (#[trigger] self.states@[t]) is Suspended ==> wake_of(self.states@[t])
                >= self.clock
        &&& match self.running {
            Some(c) => self.log@.len() == 0 || is_boundary(self.log@.last().kind)
                || self.log@.last().task == c,
            None => self.log@.len() == 0 || is_boundary(self.log@.last().kind),
        }
        &&& non_preemptive(self.log@)
        &&& forall|i: int| 0 <= i < self.log@.len() ==> (#[trigger] self.log@[i]).task < n
        &&& forall|t: int|
            0 <= t < n ==> task_trace_ok(
                self.log@,
                t,
                (#[trigger] self.programs@[t])@,
                self.repeats@[t],
                self.pcs@[t] as int,
            )
        &&& forall|i: int, j: int|
            0 <= i < j < n ==> ids_disjoint(
                (#[trigger] self.bundles@[i]).spec_ids(),
                (#[trigger] self.bundles@[j]).spec_ids(),
            )
        &&& forall|t: int|
            0 <= t < n ==> prog_confined((#[trigger] self.programs@[t])@, self.bundles@[t])
    }

    /// A scheduler with no tasks, an idle core, and an empty log.
    pub fn new() -> (s: Scheduler)
        ensures
            s.wf(),
            s.n_tasks() == 0,
            s.queue@ == Seq::<usize>::empty(),
            s.running is None,
            s.clock == 0,
            s.log@ == Seq::<LogEntry>::empty(),
    {
        Scheduler {
            programs: Vec::new(),
            pcs: Vec::new(),
            repeats: Vec::new(),
            states: Vec::new(),
            bundles: Vec::new(),
            queue: Vec::new(),
            running: None,
            clock: 0,
            log: Vec::new(),
        }
    }

    /// Spawn a task: transfer ownership of one bundle, once and forever, to a
    /// new descriptor, mark it ready and put it at the back of the ready
    /// queue. The program must stay within the bundle it owns, and the bundle
    /// must be disjoint from every bundle already handed out; the partitioner
    /// produces exactly such bundles.
    pub fn spawn(&mut self, program: Vec<Op>, repeats: bool, bundle: Bundle) -> (id: usize)
        requires
            old(self).wf(),
            repeats ==> program@.len() > 0,
            prog_confined(program@, bundle),
            forall|i: int|
                0 <= i < old(self).n_tasks() ==> ids_disjoint(
                    bundle.spec_ids(),
                    (#[trigger] old(self).bundles@[i]).spec_ids(),
                ),
        ensures
            final(self).wf(),
            id == old(self).n_tasks(),
            final(self).programs@ == old(self).programs@.push(program),
            final(self).pcs@ == old(self).pcs@.push(0usize),
            final(self).repeats@ == old(self).repeats@.push(repeats),
            final(self).states@ == old(self).states@.push(TaskState::Ready),
            final(self).bundles@ == old(self).bundles@.push(bundle),
            final(self).queue@ == old(self).queue@.push(id),
            final(self).running == old(self).running,
            final(self).clock == old(self).clock,
            final(self).log@ == old(self).log@,
    {
        let id = self.programs.len();
        let ghost b0 = bundle;
        self.programs.push(program);
        self.pcs.push(0);
        self.repeats.push(repeats);
        self.states.push(TaskState::Ready);
        self.bundles.push(bundle);
        self.queue.push(id);
        proof {
            let n = self.n_tasks();
            assert(self.queue@.last() == id);
            assert forall|t: int|
                0 <= t < n implies task_trace_ok(
                self.log@,
                t,
                (#[trigger] self.programs@[t])@,
                self.repeats@[t],
                self.pcs@[t] as int,
            ) by {
                if t < n - 1 {
                    assert(self.programs@[t] == old(self).programs@[t]);
                    assert(task_trace_ok(
                        self.log@,
                        t,
                        old(self).programs@[t]@,
                        old(self).repeats@[t],
                        old(self).pcs@[t] as int,
                    ));
                } else {
                    lemma_task_kinds_absent(self.log@, t);
                    if self.repeats@[t] {
                        assert((0 as nat) * self.programs@[t]@.len() == 0) by (nonlinear_arith);
                        assert(task_kinds(self.log@, t).len() == #[trigger] ((0 as nat)
                            * self.programs@[t]@.len()) + 0);
                    }
                }
            }
            assert forall|t: int|
                0 <= t < n && (#[trigger] self.states@[t]) is Ready implies self.queue@.contains(
                t as usize,
            ) by {
                if t < n - 1 {
                    assert(old(self).states@[t] is Ready);
                    let q = choose|q: int|
                        0 <= q < old(self).queue@.len() && old(self).queue@[q] == t as usize;
                    assert(self.queue@[q] == t as usize);
                } else {
                    assert(self.queue@[self.queue@.len() - 1] == t as usize);
                }
            }
            assert forall|i: int, j: int| 0 <= i < j < n implies ids_disjoint(
                (#[trigger] self.bundles@[i]).spec_ids(),
                (#[trigger] self.bundles@[j]).spec_ids(),
            ) by {
                if j == n - 1 {
                    assert(ids_disjoint(b0.spec_ids(), old(self).bundles@[i].spec_ids()));
                    assert forall|x: u32| self.bundles@[i].spec_ids().contains(x) implies !self.bundles@[
                        j
                    ].spec_ids().contains(x) by {
                        if self.bundles@[j].spec_ids().contains(x) {
                            assert(!old(self).bundles@[i].spec_ids().contains(x));
                        }
                    }
                }
            }
        }
        id
    }
}


/// The program counter after executing the operation at `pc`: wraps to the
/// top for a repeating program, otherwise moves one past the end at most.
pub open spec fn next_pc(len: int, pc: int, repeats: bool) -> int {
    if pc + 1 == len && repeats {
        0
    } else {
        pc + 1
    }
}

/// Clock plus ticks, saturating at the largest representable instant.
pub open spec fn sat_add(clock: u64, d: u64) -> u64 {
    if clock + d <= u64::MAX {
        (clock + d) as u64
    } else {
        u64::MAX
    }
}

/// What one execution step of the running task does: run the operation at its
/// program counter uninterrupted, append exactly one log entry for it, and
/// give up the core exactly at a suspension point or at termination.
pub open spec fn exec_rel(pre: Scheduler, post: Scheduler) -> bool {
    &&& pre.running is Some
    &&& {
        let c = pre.running.unwrap() as int;
        let prog = pre.programs@[c]@;
        let pc = pre.pcs@[c] as int;
        let npc = next_pc(prog.len() as int, pc, pre.repeats@[c]);
        &&& post.programs@ == pre.programs@
        &&& post.repeats@ == pre.repeats@
        &&& post.bundles@ == pre.bundles@
        &&& post.queue@ == pre.queue@
        &&& post.clock == pre.clock
        &&& if pc == prog.len() {
            &&& post.states@ == pre.states@.update(c, TaskState::Terminated)
            &&& post.pcs@ == pre.pcs@
            &&& post.running is None
            &&& post.log@ == pre.log@.push(
                LogEntry { task: c as usize, kind: EntryKind::Terminated },
            )
        } else {
            match prog[pc] {
                Op::Await { ticks } => {
                    &&& post.states@ == pre.states@.update(
                        c,
                        TaskState::Suspended { wake_at: sat_add(pre.clock, ticks) },
                    )
                    &&& post.pcs@ == pre.pcs@.update(c, npc as usize)
                    &&& post.running is None
                    &&& post.log@ == pre.log@.push(
                        LogEntry { task: c as usize, kind: EntryKind::Suspended },
                    )
                },
                op => {
                    &&& post.states@ == pre.states@
                    &&& post.pcs@ == pre.pcs@.update(c, npc as usize)
                    &&& post.running == pre.running
                    &&& post.log@ == pre.log@.push(
                        LogEntry { task: c as usize, kind: EntryKind::Work { op } },
                    )
                },
            }
        }
    }
}

impl Scheduler {
    /// Run the task that holds the core for one operation. The task keeps the
    /// core unless the operation is a suspension point or its program ends:
    /// only there may another task run next, which is non-preemption.
    #[verifier::rlimit(80)]
    pub fn exec_current(&mut self)
        requires
            old(self).wf(),
            old(self).running is Some,
        ensures
            final(self).wf(),
            exec_rel(*old(self), *final(self)),
    {
        let c = if let Some(c) = self.running {
            c
        } else {
            assert(false);
            0
        };
        let prog_len = self.programs[c].len();
        let pc = self.pcs[c];
        if pc == prog_len {
            self.states.set(c, TaskState::Terminated);
            self.running = None;
            self.log.push(LogEntry { task: c, kind: EntryKind::Terminated });
            proof {
                lemma_log_extension_wf(*old(self), *self);
                assert forall|t: int|
                    0 <= t < self.n_tasks() implies !((#[trigger] self.states@[t]) is Running) by {
                    if t != c as int && self.states@[t] is Running {
                        assert(old(self).states@[t] is Running);
                        assert(old(self).running matches Some(r) && r as int == t);
                        assert(old(self).running == Some(c));
                    }
                }
                assert forall|t: int|
                    0 <= t < self.n_tasks() implies task_trace_ok(
                    self.log@,
                    t,
                    (#[trigger] self.programs@[t])@,
                    self.repeats@[t],
                    self.pcs@[t] as int,
                ) by {
                    lemma_task_kinds_push(
                        old(self).log@,
                        LogEntry { task: c, kind: EntryKind::Terminated },
                        t,
                    );
                }
            }
        } else {
            let op = self.programs[c][pc];
            let npc = if pc + 1 == prog_len && self.repeats[c] {
                0
            } else {
                pc + 1
            };
            match op {
                Op::Await { ticks } => {
                    let wake = if ticks <= u64::MAX - self.clock {
                        self.clock + ticks
                    } else {
                        u64::MAX
                    };
                    self.pcs.set(c, npc);
                    self.states.set(c, TaskState::Suspended { wake_at: wake });
                    self.running = None;
                    self.log.push(LogEntry { task: c, kind: EntryKind::Suspended });
                    proof {
                        lemma_log_extension_wf(*old(self), *self);
                        assert forall|t: int|
                            0 <= t < self.n_tasks() implies !((#[trigger] self.states@[t])
                            is Running) by {
                            if t != c as int && self.states@[t] is Running {
                                assert(old(self).states@[t] is Running);
                                assert(old(self).running matches Some(r) && r as int == t);
                                assert(old(self).running == Some(c));
                            }
                        }
                        assert forall|t: int|
                            0 <= t < self.n_tasks() implies task_trace_ok(
                            self.log@,
                            t,
                            (#[trigger] self.programs@[t])@,
                            self.repeats@[t],
                            self.pcs@[t] as int,
                        ) by {
                            let e = LogEntry { task: c, kind: EntryKind::Suspended };
                            if t == c as int {
                                assert(e.kind == step_kind(
                                    old(self).programs@[t]@[old(self).pcs@[t] as int],
                                ));
                                lemma_trace_after_op(
                                    old(self).log@,
                                    e,
                                    old(self).programs@[t]@,
                                    old(self).repeats@[t],
                                    old(self).pcs@[t] as int,
                                    npc as int,
                                );
                            } else {
                                lemma_task_kinds_push(old(self).log@, e, t);
                            }
                        }
                    }
                },
                _ => {
                    self.pcs.set(c, npc);
                    self.log.push(LogEntry { task: c, kind: EntryKind::Work { op } });
                    proof {
                        lemma_log_extension_wf(*old(self), *self);
                        assert forall|t: int|
                            0 <= t < self.n_tasks() implies task_trace_ok(
                            self.log@,
                            t,
                            (#[trigger] self.programs@[t])@,
                            self.repeats@[t],
                            self.pcs@[t] as int,
                        ) by {
                            let e = LogEntry { task: c, kind: EntryKind::Work { op } };
                            if t == c as int {
                                assert(e.kind == step_kind(
                                    old(self).programs@[t]@[old(self).pcs@[t] as int],
                                ));
                                lemma_trace_after_op(
                                    old(self).log@,
                                    e,
                                    old(self).programs@[t]@,
                                    old(self).repeats@[t],
                                    old(self).pcs@[t] as int,
                                    npc as int,
                                );
                            } else {
                                lemma_task_kinds_push(old(self).log@, e, t);
                            }
                        }
                    }
                },
            }
        }
    }
}

/// Helper for the step functions: pushing one entry for the running task
/// keeps the log non-preemptive, and the task-change conditions keep holding.
proof fn lemma_log_extension_wf(pre: Scheduler, post: Scheduler)
    requires
        pre.wf(),
        pre.running is Some,
        post.log@ == pre.log@.push(
            LogEntry { task: pre.running.unwrap(), kind: post.log@.last().kind },
        ),
    ensures
        non_preemptive(post.log@),
{
    let c = pre.running.unwrap();
    assert forall|i: int|
        0 < i < post.log@.len() && post.log@[i - 1].task != (#[trigger] post.log@[i]).task
            implies is_boundary(post.log@[i - 1].kind) by {
        if i < post.log@.len() - 1 {
            assert(post.log@[i] == pre.log@[i]);
        } else {
            assert(post.log@[i].task == c);
            assert(post.log@[i - 1] == pre.log@.last());
        }
    }
}


/// What dispatching does: the task at the front of the ready queue (the one
/// whose wake event was satisfied first, ties in spawn order) takes the core.
pub open spec fn dispatch_rel(pre: Scheduler, post: Scheduler) -> bool {
    &&& pre.queue@.len() > 0
    &&& {
        let c = pre.queue@[0];
        &&& post.running == Some(c)
        &&& post.queue@ == pre.queue@.drop_first()
        &&& post.states@ == pre.states@.update(c as int, TaskState::Running)
        &&& post.programs@ == pre.programs@
        &&& post.pcs@ == pre.pcs@
        &&& post.repeats@ == pre.repeats@
        &&& post.bundles@ == pre.bundles@
        &&& post.clock == pre.clock
        &&& post.log@ == pre.log@
    }
}

/// What advancing the clock does: the clock moves to the earliest pending
/// wake deadline, and exactly the tasks with that deadline become ready, put
/// on the queue in spawn order.
pub open spec fn advance_rel(pre: Scheduler, post: Scheduler) -> bool {
    let m = min_wake(pre.states@);
    &&& post.clock == m
    &&& post.queue@ == pre.queue@ + woken_ids(pre.states@, m)
    &&& post.states@.len() == pre.states@.len()
    &&& forall|t: int|
        0 <= t < pre.states@.len() ==> (#[trigger] post.states@[t]) == (
        if pre.states@[t] is Suspended && wake_of(pre.states@[t]) == m {
            TaskState::Ready
        } else {
            pre.states@[t]
        })
    &&& post.running == pre.running
    &&& post.programs@ == pre.programs@
    &&& post.pcs@ == pre.pcs@
    &&& post.repeats@ == pre.repeats@
    &&& post.bundles@ == pre.bundles@
    &&& post.log@ == pre.log@
}

/// Every woken id is a task index below `n`, was suspended with deadline `m`,
/// the list is strictly increasing (spawn order), and it covers every such
/// task.
pub proof fn lemma_woken_ids(states: Seq<TaskState>, m: u64)
    requires
        states.len() <= usize::MAX,
    ensures
        forall|q: int|
            0 <= q < woken_ids(states, m).len() ==> ({
                let id = (#[trigger] woken_ids(states, m)[q]) as int;
                id < states.len() && states[id] is Suspended && wake_of(states[id]) == m
            }),
        forall|p: int, q: int|
            0 <= p < q < woken_ids(states, m).len() ==> woken_ids(states, m)[p] < woken_ids(
                states,
                m,
            )[q],
        forall|t: int|
            0 <= t < states.len() && (#[trigger] states[t]) is Suspended && wake_of(states[t]) == m
                ==> woken_ids(states, m).contains(t as usize),
    decreases states.len(),
{
    if states.len() > 0 {
        lemma_woken_ids(states.drop_last(), m);
        let pre = woken_ids(states.drop_last(), m);
        let w = woken_ids(states, m);
        let last = states.len() - 1;
        assert forall|q: int| 0 <= q < w.len() implies ({
            let id = (#[trigger] w[q]) as int;
            id < states.len() && states[id] is Suspended && wake_of(states[id]) == m
        }) by {
            if q < pre.len() {
                assert(w[q] == pre[q]);
                let id = pre[q] as int;
                assert(id < states.drop_last().len());
                assert(states[id] == states.drop_last()[id]);
            } else {
                assert(w[q] == last as usize);
                assert(states[last] is Suspended && wake_of(states[last]) == m);
            }
        }
        assert forall|p: int, q: int| 0 <= p < q < w.len() implies w[p] < w[q] by {
            if q < pre.len() {
                assert(w[p] == pre[p] && w[q] == pre[q]);
            } else {
                assert(w[q] == last as usize);
                assert(w[p] == pre[p]);
                assert((pre[p] as int) < states.drop_last().len());
            }
        }
        assert forall|t: int|
            0 <= t < states.len() && (#[trigger] states[t]) is Suspended && wake_of(states[t])
                == m implies woken_ids(states, m).contains(t as usize) by {
            if t < states.len() - 1 {
                assert(states.drop_last()[t] == states[t]);
                let q = choose|q: int| 0 <= q < pre.len() && pre[q] == t as usize;
                assert(woken_ids(states, m)[q] == t as usize);
            } else {
                assert(woken_ids(states, m).last() == t as usize);
            }
        }
    }
}

/// The minimum wake deadline is a lower bound on all suspended deadlines and
/// is attained by some suspended task (when any task is suspended).
pub proof fn lemma_min_wake(states: Seq<TaskState>)
    ensures
        forall|t: int|
            0 <= t < states.len() && (#[trigger] states[t]) is Suspended ==> wake_of(states[t])
                >= min_wake(states),
        has_suspended(states) ==> exists|t: int|
            0 <= t < states.len() && (#[trigger] states[t]) is Suspended && wake_of(states[t])
                == min_wake(states),
        !has_suspended(states) ==> min_wake(states) == u64::MAX,
    decreases states.len(),
{
    if states.len() > 0 {
        lemma_min_wake(states.drop_last());
        let rest = min_wake(states.drop_last());
        let m = min_wake(states);
        let last = states.len() - 1;
        assert forall|t: int|
            0 <= t < states.len() && (#[trigger] states[t]) is Suspended implies wake_of(
            states[t],
        ) >= m by {
            if t < last {
                assert(states.drop_last()[t] == states[t]);
            }
        }
        if !has_suspended(states) {
            assert(!has_suspended(states.drop_last())) by {
                if has_suspended(states.drop_last()) {
                    let t = choose|t: int|
                        0 <= t < states.drop_last().len() && states.drop_last()[t] is Suspended;
                    assert(states[t] is Suspended);
                }
            }
            assert(!(states[last] is Suspended));
            assert(m == rest);
        }
        if has_suspended(states) {
            if states[last] is Suspended && wake_of(states[last]) <= rest {
                assert(states[last] is Suspended && wake_of(states[last]) == m);
            } else {
                assert(m == rest);
                assert(has_suspended(states.drop_last())) by {
                    if states[last] is Suspended {
                        assert(wake_of(states[last]) > rest);
                        assert(rest < u64::MAX);
                        if !has_suspended(states.drop_last()) {
                            assert(rest == u64::MAX);
                        }
                    } else {
                        let t = choose|t: int| 0 <= t < states.len() && states[t] is Suspended;
                        assert(t < last);
                        assert(states.drop_last()[t] == states[t]);
                        assert(states.drop_last()[t] is Suspended);
                    }
                }
                let t2 = choose|t2: int|
                    0 <= t2 < states.drop_last().len() && (#[trigger] states.drop_last()[t2])
                        is Suspended && wake_of(states.drop_last()[t2]) == rest;
                assert(states[t2] == states.drop_last()[t2]);
                assert(states[t2] is Suspended && wake_of(states[t2]) == m);
            }
        }
    }
}

impl Scheduler {
    /// Whether some task is suspended awaiting a deadline.
    pub fn has_suspended_task(&self) -> (r: bool)
        ensures
            r == has_suspended(self.states@),
    {
        let n = self.states.len();
        let mut t: usize = 0;
        while t < n
            invariant
                t <= n,
                n == self.states@.len(),
                forall|j: int| 0 <= j < t ==> !((#[trigger] self.states@[j]) is Suspended),
            decreases n - t,
        {
            if let TaskState::Suspended { wake_at: _ } = self.states[t] {
                assert(self.states@[t as int] is Suspended);
                return true;
            }
            t += 1;
        }
        false
    }

    /// Hand the core to the task at the front of the ready queue.
    #[verifier::rlimit(80)]
    pub fn dispatch(&mut self)
        requires
            old(self).wf(),
            old(self).running is None,
            old(self).queue@.len() > 0,
        ensures
            final(self).wf(),
            dispatch_rel(*old(self), *final(self)),
    {
        let nn = self.programs.len();
        let c = self.queue.remove(0);
        self.states.set(c, TaskState::Running);
        self.running = Some(c);
        proof {
            assert(nn as int == self.n_tasks());
            assert(self.queue@ =~= old(self).queue@.drop_first());
            assert forall|t: int|
                0 <= t < self.n_tasks() && (#[trigger] self.states@[t]) is Ready implies self.queue@.contains(
                t as usize,
            ) by {
                assert(t < nn as int);
                assert((t as usize) as int == t);
                assert(t != c as int);
                assert(old(self).states@[t] is Ready);
                let q = choose|q: int|
                    0 <= q < old(self).queue@.len() && old(self).queue@[q] == t as usize;
                assert(q != 0);
                assert(self.queue@[q - 1] == t as usize);
            }
            assert forall|q: int|
                0 <= q < self.queue@.len() implies (#[trigger] self.queue@[q]) < self.n_tasks()
                    && self.states@[self.queue@[q] as int] is Ready by {
                assert(old(self).queue@[q + 1] == self.queue@[q]);
                assert(old(self).queue@[0] != old(self).queue@[q + 1]);
            }
        }
    }

    /// Advance the clock to the earliest pending wake deadline and mark every
    /// task with that deadline ready, in spawn order. This realizes the
    /// wake-ordering guarantee: tasks become ready in deadline order, ties
    /// resolved in spawn order.
    #[verifier::rlimit(80)]
    pub fn advance_clock(&mut self)
        requires
            old(self).wf(),
            old(self).running is None,
            old(self).queue@.len() == 0,
            has_suspended(old(self).states@),
        ensures
            final(self).wf(),
            advance_rel(*old(self), *final(self)),
            final(self).clock >= old(self).clock,
    {
        let ghost states0 = self.states@;
        let n = self.states.len();
        proof {
            lemma_min_wake(old(self).states@);
            lemma_woken_ids(old(self).states@, min_wake(old(self).states@));
        }
        let mut m: u64 = u64::MAX;
        let mut t: usize = 0;
        while t < n
            invariant
                t <= n,
                n == self.states@.len(),
                *self == *old(self),
                states0 == self.states@,
                m == min_wake(states0.take(t as int)),
            decreases n - t,
        {
            proof {
                assert(states0.take(t as int + 1).drop_last() =~= states0.take(t as int));
                assert(states0.take(t as int + 1).last() == states0[t as int]);
            }
            if let TaskState::Suspended { wake_at } = self.states[t] {
                if wake_at < m {
                    m = wake_at;
                }
            }
            t += 1;
        }
        proof {
            assert(states0.take(n as int) =~= states0);
            assert(m == min_wake(states0));
        }
        let mut t: usize = 0;
        while t < n
            invariant
                t <= n,
                n == states0.len(),
                n == self.states@.len(),
                m == min_wake(states0),
                has_suspended(states0),
                self.programs@ == old(self).programs@,
                self.pcs@ == old(self).pcs@,
                self.repeats@ == old(self).repeats@,
                self.bundles@ == old(self).bundles@,
                self.log@ == old(self).log@,
                self.clock == old(self).clock,
                self.running == old(self).running,
                old(self).wf(),
                states0 == old(self).states@,
                old(self).running is None,
                old(self).queue@.len() == 0,
                self.queue@ == woken_ids(states0.take(t as int), m),
                forall|j: int|
                    0 <= j < t ==> (#[trigger] self.states@[j]) == (if states0[j] is Suspended
                        && wake_of(states0[j]) == m {
                        TaskState::Ready
                    } else {
                        states0[j]
                    }),
                forall|j: int| t <= j < n ==> (#[trigger] self.states@[j]) == states0[j],
                forall|q: int| 0 <= q < self.queue@.len() ==> (#[trigger] self.queue@[q]) < t,
            decreases n - t,
        {
            proof {
                assert(states0.take(t as int + 1).drop_last() =~= states0.take(t as int));
                assert(states0.take(t as int + 1).last() == states0[t as int]);
            }
            let st = self.states[t];
            if let TaskState::Suspended { wake_at } = st {
                if wake_at == m {
                    self.states.set(t, TaskState::Ready);
                    self.queue.push(t);
                }
            }
            t += 1;
        }
        self.clock = m;
        proof {
            assert(states0.take(n as int) =~= states0);
            assert(self.queue@ == woken_ids(states0, m));
            assert(old(self).queue@ + woken_ids(states0, m) =~= woken_ids(states0, m));
            let nn = self.n_tasks();
            assert forall|tt: int|
                0 <= tt < nn && (#[trigger] self.states@[tt]) is Ready implies self.queue@.contains(
                tt as usize,
            ) by {
                if states0[tt] is Suspended && wake_of(states0[tt]) == m {
                    assert(woken_ids(states0, m).contains(tt as usize));
                } else {
                    assert(states0[tt] is Ready);
                    assert(old(self).queue@.contains(tt as usize));
                }
            }
            assert forall|q: int|
                0 <= q < self.queue@.len() implies (#[trigger] self.queue@[q]) < nn
                    && self.states@[self.queue@[q] as int] is Ready by {
                assert(woken_ids(states0, m)[q] == self.queue@[q]);
            }
            assert forall|tt: int|
                0 <= tt < nn && (#[trigger] self.states@[tt]) is Suspended implies wake_of(
                self.states@[tt],
            ) >= self.clock by {
                assert(self.states@[tt] == states0[tt]);
            }
        }
    }
}


/// `longer` extends `shorter`: nothing already logged is ever rewritten.
pub open spec fn log_extends(longer: Seq<LogEntry>, shorter: Seq<LogEntry>) -> bool {
    longer.len() >= shorter.len() && forall|i: int|
        0 <= i < shorter.len() ==> longer[i] == #[trigger] shorter[i]
}

/// One scheduler pass, as a relation: execute the running task's next
/// operation; else dispatch the first ready task; else advance the clock to
/// the earliest deadline; else (nothing runnable or suspended) change
/// nothing.
pub open spec fn pass_rel(pre: Scheduler, post: Scheduler) -> bool {
    if pre.running is Some {
        exec_rel(pre, post)
    } else if pre.queue@.len() > 0 {
        dispatch_rel(pre, post)
    } else if has_suspended(pre.states@) {
        advance_rel(pre, post)
    } else {
        post == pre
    }
}

/// `n` scheduler passes in sequence: the n-fold composition of [`pass_rel`].
pub open spec fn passes(pre: Scheduler, post: Scheduler, n: nat) -> bool
    decreases n,
{
    if n == 0 {
        post == pre
    } else {
        exists|mid: Scheduler| passes(pre, mid, (n - 1) as nat) && #[trigger] pass_rel(mid, post)
    }
}

/// Composing `n` passes with one more gives `n + 1` passes.
pub proof fn lemma_passes_snoc(a: Scheduler, b: Scheduler, c: Scheduler, n: nat)
    requires
        passes(a, b, n),
        pass_rel(b, c),
    ensures
        passes(a, c, (n + 1) as nat),
{
    let k = (((n + 1) as nat) - 1) as nat;
    assert(k == n);
    assert(passes(a, b, k) && pass_rel(b, c));
}

impl Scheduler {
    /// One scheduler pass: if a task holds the core, run it for one
    /// operation; otherwise hand the core to the first ready task; otherwise
    /// advance the clock to the earliest pending deadline. With no runnable
    /// or suspended task left, the pass changes nothing.
    pub fn step(&mut self)
        requires
            old(self).wf(),
        ensures
            final(self).wf(),
            old(self).running is Some ==> exec_rel(*old(self), *final(self)),
            old(self).running is None && old(self).queue@.len() > 0 ==> dispatch_rel(
                *old(self),
                *final(self),
            ),
            old(self).running is None && old(self).queue@.len() == 0 && has_suspended(
                old(self).states@,
            ) ==> advance_rel(*old(self), *final(self)),
            old(self).running is None && old(self).queue@.len() == 0 && !has_suspended(
                old(self).states@,
            ) ==> *final(self) == *old(self),
            pass_rel(*old(self), *final(self)),
            log_extends(final(self).log@, old(self).log@),
            final(self).clock >= old(self).clock,
    {
        if self.running.is_some() {
            self.exec_current();
        } else if self.queue.len() > 0 {
            self.dispatch();
        } else if self.has_suspended_task() {
            self.advance_clock();
        }
    }

    /// Report an unrecoverable steady-state fault of the running task's
    /// current operation (a failed transfer, a failed directory open). The
    /// policy is fail-fast per task: exactly that task terminates — its loop
    /// ends with a terminal boundary in the log, with no retry and no
    /// supervisor restart — while every other descriptor, the ready queue,
    /// the clock and all bundles are untouched, so by bundle disjointness
    /// the remaining tasks continue unaffected.
    #[verifier::rlimit(80)]
    pub fn fail_current(&mut self)
        requires
            old(self).wf(),
            old(self).running is Some,
        ensures
            final(self).wf(),
            ({
                let c = old(self).running.unwrap() as int;
                &&& final(self).states@ == old(self).states@.update(c, TaskState::Terminated)
                &&& final(self).log@ == old(self).log@.push(
                    LogEntry { task: c as usize, kind: EntryKind::Terminated },
                )
            }),
            final(self).running is None,
            final(self).pcs@ == old(self).pcs@,
            final(self).programs@ == old(self).programs@,
            final(self).repeats@ == old(self).repeats@,
            final(self).bundles@ == old(self).bundles@,
            final(self).queue@ == old(self).queue@,
            final(self).clock == old(self).clock,
    {
        let c = if let Some(c) = self.running {
            c
        } else {
            assert(false);
            0
        };
        self.states.set(c, TaskState::Terminated);
        self.running = None;
        self.log.push(LogEntry { task: c, kind: EntryKind::Terminated });
        proof {
            lemma_log_extension_wf(*old(self), *self);
            assert forall|t: int|
                0 <= t < self.n_tasks() implies !((#[trigger] self.states@[t]) is Running) by {
                if t != c as int && self.states@[t] is Running {
                    assert(old(self).states@[t] is Running);
                    assert(old(self).running matches Some(r) && r as int == t);
                    assert(old(self).running == Some(c));
                }
            }
            assert forall|t: int|
                0 <= t < self.n_tasks() implies task_trace_ok(
                self.log@,
                t,
                (#[trigger] self.programs@[t])@,
                self.repeats@[t],
                self.pcs@[t] as int,
            ) by {
                lemma_task_kinds_push(
                    old(self).log@,
                    LogEntry { task: c, kind: EntryKind::Terminated },
                    t,
                );
            }
        }
    }

    /// Drive the scheduler for `steps` passes. Tasks written as endless loops
    /// never finish; the caller decides how long the system runs.
    pub fn run(&mut self, steps: usize)
        requires
            old(self).wf(),
        ensures
            final(self).wf(),
            passes(*old(self), *final(self), steps as nat),
            log_extends(final(self).log@, old(self).log@),
            final(self).clock >= old(self).clock,
    {
        let mut i: usize = 0;
        proof {
            assert(passes(*old(self), *self, 0));
        }
        while i < steps
            invariant
                i <= steps,
                self.wf(),
                passes(*old(self), *self, i as nat),
                log_extends(self.log@, old(self).log@),
                self.clock >= old(self).clock,
            decreases steps - i,
        {
            let ghost mid = *self;
            self.step();
            proof {
                lemma_passes_snoc(*old(self), mid, *self, i as nat);
            }
            i += 1;
        }
    }
}

/// Program order: the `i`-th thing a task ever did (work entry or
/// suspension, in log order) is exactly operation `i` of its program,
/// unrolled from the top — modulo the program length for a repeating
/// program. A task's observable behavior follows its program, in order,
/// across all its suspensions.
pub proof fn lemma_task_follows_program(s: Scheduler, t: int, i: int)
    requires
        s.wf(),
        0 <= t < s.n_tasks(),
        0 <= i < task_kinds(s.log@, t).len(),
    ensures
        s.programs@[t]@.len() > 0,
        task_kinds(s.log@, t)[i] == step_kind(
            s.programs@[t]@[i % (s.programs@[t]@.len() as int)],
        ),
{
    assert(task_trace_ok(s.log@, t, s.programs@[t]@, s.repeats@[t], s.pcs@[t] as int));
}

/// Non-preemption of every reachable scheduler state: the interleaving log
/// never shows the running task changing anywhere but at a boundary.
pub proof fn lemma_log_non_preemptive(s: Scheduler)
    requires
        s.wf(),
    ensures
        non_preemptive(s.log@),
{
}

/// Non-preemption over a whole stretch of the log: if entries `i` and `j`
/// belong to task `t` and no boundary (suspension or termination) lies
/// between them, then every entry in between belongs to task `t` as well —
/// between two consecutive suspension points of a task, no other task's code
/// executes.
pub proof fn lemma_segment_uninterrupted(log: Seq<LogEntry>, i: int, k: int, j: int)
    requires
        non_preemptive(log),
        0 <= i <= k <= j < log.len(),
        log[i].task == log[j].task,
        forall|m: int| i <= m < j ==> !is_boundary((#[trigger] log[m]).kind),
    ensures
        log[k].task == log[i].task,
    decreases k - i,
{
    if k > i {
        lemma_segment_uninterrupted(log, i, k - 1, j);
        assert(!is_boundary(log[k - 1].kind));
        if log[k - 1].task != log[k].task {
            assert(is_boundary(log[k - 1].kind));
        }
    }
}


/// Exclusive ownership: a resource owned by one task's bundle is owned by no
/// other task's bundle, so no two tasks can ever touch the same pin, bus or
/// timer. The partition is the concurrency-safety mechanism; no locking is
/// needed.
pub proof fn lemma_exclusive_ownership(s: Scheduler, i: int, j: int, x: u32)
    requires
        s.wf(),
        0 <= i < s.n_tasks(),
        0 <= j < s.n_tasks(),
        i != j,
        s.bundles@[i].spec_ids().contains(x),
    ensures
        !s.bundles@[j].spec_ids().contains(x),
{
    if i < j {
        assert(ids_disjoint(s.bundles@[i].spec_ids(), s.bundles@[j].spec_ids()));
    } else {
        assert(ids_disjoint(s.bundles@[j].spec_ids(), s.bundles@[i].spec_ids()));
        if s.bundles@[j].spec_ids().contains(x) {
            assert(!s.bundles@[i].spec_ids().contains(x));
        }
    }
}

} // verus!
