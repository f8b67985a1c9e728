//! A single-core embedded controller core: a fixed set of peripheral
//! singletons is partitioned once, at startup, into disjoint bundles, one per
//! task role, and the tasks then run under a single-threaded cooperative
//! scheduler with explicit suspension points and no preemption. The
//! type-level partition is the concurrency-safety mechanism: bundles are
//! disjoint by construction, so tasks share no mutable hardware state.
//!
//! - [`resources`]: move-only peripheral handles and the boot-time registry.
//! - [`partition`]: the partitioner that consumes the registry and realizes
//!   the build-time plan, with its disjointness, completeness and rejection
//!   laws.
//! - [`sched`]: the cooperative scheduler, its interleaving log, and the
//!   non-preemption law.
//! - [`boot`]: the strictly ordered startup state machine.
//! - [`bringup`]: the timing-sensitive display bring-up order.
//! - [`tasks`]: the steady-state task programs.
//! - [`fswalk`]: the depth-first directory traversal of the storage role.

pub mod boot;
pub mod bringup;
pub mod fswalk;
pub mod partition;
pub mod resources;
pub mod sched;
pub mod tasks;
