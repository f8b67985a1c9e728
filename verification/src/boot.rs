//! Startup sequencing: acquire the registry, partition it, configure the
//! clock, distribute the bundles to freshly spawned tasks, then run forever.
//!
//! The transitions are strictly ordered and single-direction; each is
//! infallible-or-fatal. A configuration fault (a plan the partitioner
//! rejects) moves the boot to `Failed` before any task exists, so a bad plan
//! can never reach a running system.

use vstd::prelude::*;
use crate::partition::{
    bundles_match_plan, partition, partition_fault, Bundle, PartitionFault, Plan,
    lemma_bundles_disjoint, lemma_fault_none_iff_plan_wf, plan_wf,
};
use crate::resources::Registry;
use crate::sched::{ids_disjoint, log_extends, passes, prog_confined, Op, Scheduler, TaskState};

verus! {

/// Where startup stands. `Running` is non-terminal by design: the process
/// never exits it under normal operation. `Failed` is the fatal end of a
/// startup that hit a configuration fault; nothing runs there.
#[derive(Clone, Copy, PartialEq, Eq, Structural, Debug)]
pub enum BootPhase {
    RegistryAcquired,
    Partitioned,
    Clocked,
    BundlesDistributed,
    TasksSpawned,
    Running,
    Failed,
}

/// The bundles not yet handed to a task are disjoint among themselves and
/// from every bundle a spawned task already owns.
pub open spec fn pending_wf(pending: Seq<Bundle>, owned: Seq<Bundle>) -> bool {
    &&& forall|i: int, j: int|
        0 <= i < j < pending.len() ==> ids_disjoint(
            (#[trigger] pending[i]).spec_ids(),
            (#[trigger] pending[j]).spec_ids(),
        )
    &&& forall|i: int, j: int|
        0 <= i < pending.len() && 0 <= j < owned.len() ==> ids_disjoint(
            (#[trigger] pending[i]).spec_ids(),
            (#[trigger] owned[j]).spec_ids(),
        )
}

/// The whole startup-time state: the phase, the registry until it is
/// consumed, the bundles not yet handed out (front is next), and the
/// scheduler that will own the tasks.
pub struct Boot {
    pub phase: BootPhase,
    pub registry: Option<Registry>,
    pub pending: Vec<Bundle>,
    pub sched: Scheduler,
}

impl Boot {
    /// Phase-dependent well-formedness. In particular: before the bundles
    /// are distributed (and forever after a failure) no task exists at all.
    pub open spec fn wf(self) -> bool {
        &&& self.sched.wf()
        &&& match self.phase {
            BootPhase::RegistryAcquired => (self.registry matches Some(r) && r.wf())
                && self.pending@.len() == 0 && self.sched.n_tasks() == 0,
            BootPhase::Failed => self.registry is None && self.pending@.len() == 0
                && self.sched.n_tasks() == 0,
            BootPhase::Partitioned | BootPhase::Clocked => self.registry is None
                && self.sched.n_tasks() == 0 && pending_wf(self.pending@, self.sched.bundles@),
            BootPhase::BundlesDistributed => self.registry is None && pending_wf(
                self.pending@,
                self.sched.bundles@,
            ),
            BootPhase::TasksSpawned | BootPhase::Running => self.registry is None
                && self.pending@.len() == 0,
        }
    }

    /// First transition target: the full registry acquired, nothing else
    /// done. The registry exists exactly once, for the process lifetime.
    pub fn acquire(registry: Registry) -> (b: Boot)
        requires
            registry.wf(),
        ensures
            b.wf(),
            b.phase is RegistryAcquired,
            b.registry == Some(registry),
            b.sched.n_tasks() == 0,
            b.sched.log@ == Seq::<crate::sched::LogEntry>::empty(),
            b.sched.clock == 0,
    {
        Boot {
            phase: BootPhase::RegistryAcquired,
            registry: Some(registry),
            pending: Vec::new(),
            sched: Scheduler::new(),
        }
    }

    /// Partition the registry according to the plan. On success the boot
    /// holds one bundle per plan entry, in plan order, ready to distribute.
    /// On a configuration fault the boot is `Failed`, with no task spawned
    /// and none ever spawnable: startup aborts rather than running a partial
    /// system.
    pub fn apply_plan(&mut self, plan: &Plan) -> (r: Result<(), PartitionFault>)
        requires
            old(self).wf(),
            old(self).phase is RegistryAcquired,
        ensures
            final(self).wf(),
            final(self).sched == old(self).sched,
            ({
                let reg = old(self).registry.unwrap();
                &&& (r is Ok <==> partition_fault(plan.entries@, reg.ids()) is None)
                &&& (partition_fault(plan.entries@, reg.ids()) matches Some(f) ==> r == Err::<
                    (),
                    PartitionFault,
                >(f))
                &&& (r is Ok ==> final(self).phase is Partitioned && bundles_match_plan(
                    final(self).pending@,
                    plan.entries@,
                ))
                &&& (r is Err ==> final(self).phase is Failed && final(self).pending@.len() == 0)
            }),
    {
        let reg = match self.registry.take() {
            Some(reg) => reg,
            None => {
                assert(false);
                return Err(PartitionFault::MissingResource { id: 0 });
            },
        };
        let ghost reg0 = reg;
        match partition(reg, plan) {
            Ok(bs) => {
                proof {
                    lemma_fault_none_iff_plan_wf(plan.entries@, reg0.ids());
                    assert(plan_wf(plan.entries@, reg0.ids()));
                    assert forall|i: int, j: int| 0 <= i < j < bs@.len() implies ids_disjoint(
                        (#[trigger] bs@[i]).spec_ids(),
                        (#[trigger] bs@[j]).spec_ids(),
                    ) by {
                        lemma_bundles_disjoint(bs@, plan.entries@, i, j);
                    }
                }
                self.pending = bs;
                self.phase = BootPhase::Partitioned;
                Ok(())
            },
            Err(f) => {
                self.phase = BootPhase::Failed;
                Err(f)
            },
        }
    }

    /// Configure the system timers. Infallible-or-fatal; nothing of the
    /// partition changes.
    pub fn configure_clock(&mut self)
        requires
            old(self).wf(),
            old(self).phase is Partitioned,
        ensures
            final(self).wf(),
            final(self).phase is Clocked,
            final(self).pending@ == old(self).pending@,
            final(self).sched == old(self).sched,
    {
        self.phase = BootPhase::Clocked;
    }

    /// Begin handing bundles to tasks.
    pub fn distribute(&mut self)
        requires
            old(self).wf(),
            old(self).phase is Clocked,
        ensures
            final(self).wf(),
            final(self).phase is BundlesDistributed,
            final(self).pending@ == old(self).pending@,
            final(self).sched == old(self).sched,
    {
        self.phase = BootPhase::BundlesDistributed;
    }

    /// Spawn the next task: it receives the bundle at the front of the
    /// pending list — exactly one bundle, never another — together with its
    /// program, and is queued ready in spawn order.
    pub fn spawn_next(&mut self, program: Vec<Op>, repeats: bool) -> (id: usize)
        requires
            old(self).wf(),
            old(self).phase is BundlesDistributed,
            old(self).pending@.len() > 0,
            repeats ==> program@.len() > 0,
            prog_confined(program@, old(self).pending@[0]),
        ensures
            final(self).wf(),
            final(self).phase is BundlesDistributed,
            id == old(self).sched.n_tasks(),
            final(self).pending@ == old(self).pending@.drop_first(),
            final(self).sched.programs@ == old(self).sched.programs@.push(program),
            final(self).sched.pcs@ == old(self).sched.pcs@.push(0usize),
            final(self).sched.repeats@ == old(self).sched.repeats@.push(repeats),
            final(self).sched.states@ == old(self).sched.states@.push(TaskState::Ready),
            final(self).sched.bundles@ == old(self).sched.bundles@.push(old(self).pending@[0]),
            final(self).sched.queue@ == old(self).sched.queue@.push(id),
            final(self).sched.running == old(self).sched.running,
            final(self).sched.clock == old(self).sched.clock,
            final(self).sched.log@ == old(self).sched.log@,
    {
        let b = self.pending.remove(0);
        proof {
            assert(self.pending@ =~= old(self).pending@.drop_first());
        }
        let id = self.sched.spawn(program, repeats, b);
        proof {
            let owned = self.sched.bundles@;
            let pend = self.pending@;
            assert forall|i: int, j: int|
                0 <= i < pend.len() && 0 <= j < owned.len() implies ids_disjoint(
                (#[trigger] pend[i]).spec_ids(),
                (#[trigger] owned[j]).spec_ids(),
            ) by {
                assert(pend[i] == old(self).pending@[i + 1]);
                if j < owned.len() - 1 {
                    assert(ids_disjoint(
                        old(self).pending@[i + 1].spec_ids(),
                        old(self).sched.bundles@[j].spec_ids(),
                    ));
                } else {
                    assert(owned[j] == old(self).pending@[0]);
                    assert(ids_disjoint(
                        old(self).pending@[0].spec_ids(),
                        old(self).pending@[i + 1].spec_ids(),
                    ));
                    assert forall|x: u32| pend[i].spec_ids().contains(x) implies !owned[
                        j
                    ].spec_ids().contains(x) by {
                        if owned[j].spec_ids().contains(x) {
                            assert(!old(self).pending@[i + 1].spec_ids().contains(x));
                        }
                    }
                }
            }
            assert forall|i: int, j: int| 0 <= i < j < pend.len() implies ids_disjoint(
                (#[trigger] pend[i]).spec_ids(),
                (#[trigger] pend[j]).spec_ids(),
            ) by {
                assert(pend[i] == old(self).pending@[i + 1]);
                assert(pend[j] == old(self).pending@[j + 1]);
            }
        }
        id
    }

    /// All bundles handed out: the task set is complete and fixed.
    pub fn finish_spawning(&mut self)
        requires
            old(self).wf(),
            old(self).phase is BundlesDistributed,
            old(self).pending@.len() == 0,
        ensures
            final(self).wf(),
            final(self).phase is TasksSpawned,
            final(self).sched == old(self).sched,
    {
        self.phase = BootPhase::TasksSpawned;
    }

    /// Enter steady-state operation.
    pub fn start(&mut self)
        requires
            old(self).wf(),
            old(self).phase is TasksSpawned,
        ensures
            final(self).wf(),
            final(self).phase is Running,
            final(self).sched == old(self).sched,
    {
        self.phase = BootPhase::Running;
    }

    /// Drive the running system for a number of scheduler passes.
    pub fn run_steps(&mut self, steps: usize)
        requires
            old(self).wf(),
            old(self).phase is Running,
        ensures
            final(self).wf(),
            final(self).phase is Running,
            passes(old(self).sched, final(self).sched, steps as nat),
            log_extends(final(self).sched.log@, old(self).sched.log@),
            final(self).phase == old(self).phase,
            final(self).pending@ == old(self).pending@,
            final(self).registry == old(self).registry,
    {
        self.sched.run(steps);
    }
}

/// Before the bundles are distributed — and forever after a configuration
/// fault — no task exists: a rejected plan fails startup before any task is
/// spawned, so no task of a misconfigured system ever runs.
pub proof fn lemma_no_task_before_distribution(b: Boot)
    requires
        b.wf(),
        b.phase is RegistryAcquired || b.phase is Partitioned || b.phase is Clocked || b.phase
            is Failed,
    ensures
        b.sched.n_tasks() == 0,
{
}

} // verus!
