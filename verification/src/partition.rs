//! The resource partitioner: a one-time transformation that consumes the
//! boot-time registry and carves it into disjoint, independently owned
//! bundles, one per task role, according to a build-time partition plan.

use vstd::prelude::*;
use crate::resources::{distinct_ids, handle_ids, Capability, Handle, Registry};

verus! {

broadcast use vstd::seq_lib::lemma_seq_contains_after_push;

/// One entry of the partition plan: a bundle name and the identifiers of the
/// physical resources that the bundle claims.
pub struct PlanEntry {
    pub name: String,
    pub ids: Vec<u32>,
}

/// The build-time partition plan: which physical resources belong to which
/// bundle.
pub struct Plan {
    pub entries: Vec<PlanEntry>,
}

/// A named, disjoint aggregate of handles, exclusively owned by exactly one
/// task for that task's entire lifetime. Created only by [`partition`]; never
/// mutated afterwards.
#[derive(Debug)]
pub struct Bundle {
    name: String,
    handles: Vec<Handle>,
}

impl Bundle {
    pub closed spec fn spec_name(self) -> Seq<char> {
        self.name@
    }

    pub closed spec fn handles_spec(self) -> Seq<Handle> {
        self.handles@
    }

    /// The identifiers of the resources this bundle owns, in claim order.
    pub open spec fn spec_ids(self) -> Seq<u32> {
        handle_ids(self.handles_spec())
    }

    pub fn name(&self) -> (r: &String)
        ensures
            r@ == self.spec_name(),
    {
        &self.name
    }

    pub fn len(&self) -> (n: usize)
        ensures
            n == self.spec_ids().len(),
    {
        self.handles.len()
    }

    pub fn id_at(&self, j: usize) -> (r: u32)
        requires
            j < self.spec_ids().len(),
        ensures
            r == self.spec_ids()[j as int],
    {
        self.handles[j].resource_id()
    }

    /// The bundle holds a handle for `pin` whose capability is digital
    /// output: driving that pin high or low is legal for the bundle's owner.
    pub open spec fn owns_output(self, pin: u32) -> bool {
        exists|k: int|
            0 <= k < self.handles_spec().len() && (#[trigger] self.handles_spec()[k]).id() == pin
                && self.handles_spec()[k].capability() == Capability::DigitalOutput
    }

    /// Whether driving `pin` as a digital output is legal for this bundle's
    /// owner.
    pub fn has_output(&self, pin: u32) -> (r: bool)
        ensures
            r == self.owns_output(pin),
    {
        let n = self.handles.len();
        let mut i: usize = 0;
        while i < n
            invariant
                i <= n,
                n == self.handles_spec().len(),
                forall|j: int|
                    0 <= j < i ==> !((#[trigger] self.handles_spec()[j]).id() == pin
                        && self.handles_spec()[j].capability() == Capability::DigitalOutput),
            decreases n - i,
        {
            let h = &self.handles[i];
            if h.resource_id() == pin {
                match h.cap() {
                    Capability::DigitalOutput => {
                        assert(self.handles_spec()[i as int].id() == pin);
                        return true;
                    },
                    _ => {},
                }
            }
            i += 1;
        }
        false
    }

    /// Whether this bundle owns the resource `id`.
    pub fn contains_id(&self, id: u32) -> (r: bool)
        ensures
            r == self.spec_ids().contains(id),
    {
        let n = self.handles.len();
        let mut i: usize = 0;
        while i < n
            invariant
                i <= n,
                n == self.handles_spec().len(),
                forall|j: int| 0 <= j < i ==> self.handles_spec()[j].id() != id,
            decreases n - i,
        {
            if self.handles[i].resource_id() == id {
                assert(self.spec_ids()[i as int] == id);
                return true;
            }
            i += 1;
        }
        assert forall|k: int| 0 <= k < self.spec_ids().len() implies self.spec_ids()[k] != id by {
            assert(self.handles_spec()[k].id() != id);
        }
        false
    }
}

/// A configuration fault: the plan cannot be realized against the registry.
/// Detected before any task is spawned; startup never proceeds past it.
#[derive(Clone, Copy, PartialEq, Eq, Structural, Debug)]
pub enum PartitionFault {
    /// The identifier is claimed by two plan positions.
    DuplicateClaim { id: u32 },
    /// The identifier is claimed but no handle for it exists in the registry.
    MissingResource { id: u32 },
}

/// All identifiers the plan claims, flattened in plan order.
pub open spec fn flat_ids(entries: Seq<PlanEntry>) -> Seq<u32>
    decreases entries.len(),
{
    if entries.len() == 0 {
        Seq::empty()
    } else {
        entries[0].ids@ + flat_ids(entries.drop_first())
    }
}

/// The first fault found when checking the claimed identifiers in order,
/// starting at position `k`: a duplicate of an earlier claim, or an
/// identifier with no registered handle.
pub open spec fn first_fault_from(ids: Seq<u32>, reg: Seq<u32>, k: int) -> Option<PartitionFault>
    decreases ids.len() - k,
{
    if k < 0 || k >= ids.len() {
        None
    } else if ids.take(k).contains(ids[k]) {
        Some(PartitionFault::DuplicateClaim { id: ids[k] })
    } else if !reg.contains(ids[k]) {
        Some(PartitionFault::MissingResource { id: ids[k] })
    } else {
        first_fault_from(ids, reg, k + 1)
    }
}

/// The fault a plan has against a registry, if any.
pub open spec fn partition_fault(entries: Seq<PlanEntry>, reg: Seq<u32>) -> Option<PartitionFault> {
    first_fault_from(flat_ids(entries), reg, 0)
}

/// A plan is well-formed against a registry when no identifier is claimed
/// twice and every claimed identifier has a registered handle.
pub open spec fn plan_wf(entries: Seq<PlanEntry>, reg: Seq<u32>) -> bool {
    distinct_ids(flat_ids(entries)) && forall|p: int|
        0 <= p < flat_ids(entries).len() ==> reg.contains(#[trigger] flat_ids(entries)[p])
}

/// The bundles realize the plan: one bundle per entry, with that entry's name
/// and exactly its claimed identifiers, in claim order.
pub open spec fn bundles_match_plan(bs: Seq<Bundle>, entries: Seq<PlanEntry>) -> bool {
    bs.len() == entries.len() && forall|b: int|
        0 <= b < bs.len() ==> (#[trigger] bs[b]).spec_name() == entries[b].name@ && bs[b].spec_ids()
            == entries[b].ids@
}

/// Every handle held by any of the bundles is one of the given handles.
pub open spec fn bundles_drawn_from(bs: Seq<Bundle>, hs: Seq<Handle>) -> bool {
    forall|b: int, j: int|
        0 <= b < bs.len() && 0 <= j < bs[b].handles_spec().len() ==> hs.contains(
            #[trigger] bs[b].handles_spec()[j],
        )
}

fn vec_contains_u32(v: &Vec<u32>, x: u32) -> (r: bool)
    ensures
        r == v@.contains(x),
{
    let n = v.len();
    let mut i: usize = 0;
    while i < n
        invariant
            i <= n,
            n == v@.len(),
            forall|j: int| 0 <= j < i ==> v@[j] != x,
        decreases n - i,
    {
        if v[i] == x {
            return true;
        }
        i += 1;
    }
    false
}

/// Consume the registry and produce one bundle per plan entry.
///
/// Succeeds exactly when the plan is realizable: no identifier claimed twice,
/// and every claimed identifier registered. On success each bundle holds
/// precisely the handles for its entry's identifiers, moved out of the
/// registry for good; the registry itself is consumed either way, so any
/// unclaimed resource is unreachable for the rest of the process lifetime.
/// On failure the reported fault is the first one in plan order.
pub fn partition(registry: Registry, plan: &Plan) -> (r: Result<Vec<Bundle>, PartitionFault>)
    requires
        registry.wf(),
    ensures
        r is Ok <==> partition_fault(plan.entries@, registry.ids()) is None,
        partition_fault(plan.entries@, registry.ids()) matches Some(f) ==> r == Err::<
            Vec<Bundle>,
            PartitionFault,
        >(f),
        r matches Ok(bs) ==> bundles_match_plan(bs@, plan.entries@) && bundles_drawn_from(
            bs@,
            registry.handles_spec(),
        ),
{
    let ghost entries0 = plan.entries@;
    let ghost reg0 = registry.ids();
    let ghost rh0 = registry.handles_spec();
    let ghost all = flat_ids(entries0);

    let mut reg = registry;
    let mut claimed: Vec<u32> = Vec::new();
    let mut bundles: Vec<Bundle> = Vec::new();
    let n = plan.entries.len();
    let mut b: usize = 0;
    proof {
        assert(entries0.skip(0) =~= entries0);
        assert(all =~= claimed@ + flat_ids(entries0.skip(0)));
        assert(entries0.take(0) =~= Seq::<PlanEntry>::empty());
    }
    while b < n
        invariant
            b <= n,
            n == entries0.len(),
            plan.entries@ == entries0,
            all == flat_ids(entries0),
            reg0 == registry.ids(),
            rh0 == registry.handles_spec(),
            reg0 == handle_ids(rh0),
            reg.wf(),
            all =~= claimed@ + flat_ids(entries0.skip(b as int)),
            first_fault_from(all, reg0, claimed@.len() as int) == first_fault_from(all, reg0, 0),
            forall|x: u32| reg.ids().contains(x) <==> (reg0.contains(x) && !claimed@.contains(x)),
            forall|g: Handle| reg.handles_spec().contains(g) ==> rh0.contains(g),
            bundles@.len() == b,
            bundles_match_plan(bundles@, entries0.take(b as int)),
            bundles_drawn_from(bundles@, rh0),
        decreases n - b,
    {
        let m = plan.entries[b].ids.len();
        let mut handles: Vec<Handle> = Vec::new();
        let mut k: usize = 0;
        proof {
            assert(entries0.skip(b as int)[0] == entries0[b as int]);
            assert(entries0.skip(b as int).drop_first() =~= entries0.skip(b as int + 1));
            assert(flat_ids(entries0.skip(b as int)) == entries0[b as int].ids@ + flat_ids(
                entries0.skip(b as int + 1),
            ));
        }
        while k < m
            invariant
                k <= m,
                b < n,
                n == entries0.len(),
                m == entries0[b as int].ids@.len(),
                plan.entries@ == entries0,
                all == flat_ids(entries0),
                reg0 == registry.ids(),
                rh0 == registry.handles_spec(),
                reg0 == handle_ids(rh0),
                reg.wf(),
                all =~= claimed@ + entries0[b as int].ids@.skip(k as int) + flat_ids(
                    entries0.skip(b as int + 1),
                ),
                first_fault_from(all, reg0, claimed@.len() as int) == first_fault_from(
                    all,
                    reg0,
                    0,
                ),
                forall|x: u32|
                    #[trigger] reg.ids().contains(x) <==> (reg0.contains(x)
                        && !claimed@.contains(x)),
                forall|g: Handle| reg.handles_spec().contains(g) ==> rh0.contains(g),
                handles@.len() == k,
                forall|j: int|
                    0 <= j < k ==> (#[trigger] handles@[j]).id() == entries0[b as int].ids@[j]
                        && rh0.contains(handles@[j]),
                bundles@.len() == b,
                bundles_match_plan(bundles@, entries0.take(b as int)),
                bundles_drawn_from(bundles@, rh0),
            decreases m - k,
        {
            let id = plan.entries[b].ids[k];
            let ghost p = claimed@.len() as int;
            proof {
                assert(entries0[b as int].ids@.skip(k as int)[0] == id);
                assert(all[p] == id);
                assert(all.take(p) =~= claimed@);
            }
            let ghost regpre = reg;
            match reg.take(id) {
                Some(h) => {
                    proof {
                        assert(regpre.ids().contains(id));
                        assert(regpre.ids().contains(id) <==> (reg0.contains(id)
                            && !claimed@.contains(id)));
                        assert(reg0.contains(id) && !claimed@.contains(id));
                        assert(first_fault_from(all, reg0, p) == first_fault_from(all, reg0, p + 1));
                    }
                    let ghost claimedpre = claimed@;
                    claimed.push(id);
                    handles.push(h);
                    proof {
                        assert(entries0[b as int].ids@.skip(k as int) =~= seq![id] + entries0[
                            b as int
                        ].ids@.skip(k as int + 1));
                        assert(all =~= claimed@ + entries0[b as int].ids@.skip(k as int + 1)
                            + flat_ids(entries0.skip(b as int + 1)));
                        assert forall|x: u32|
                            #[trigger] reg.ids().contains(x) <==> (reg0.contains(x)
                                && !claimed@.contains(x)) by {
                            assert(regpre.ids().contains(x) <==> (reg0.contains(x)
                                && !claimedpre.contains(x)));
                            assert(claimed@ == claimedpre.push(id));
                        }
                    }
                },
                None => {
                    proof {
                        assert(!regpre.ids().contains(id));
                    }
                    if vec_contains_u32(&claimed, id) {
                        proof {
                            assert(all.take(p).contains(id));
                            assert(first_fault_from(all, reg0, p) == Some(
                                PartitionFault::DuplicateClaim { id },
                            ));
                        }
                        return Err(PartitionFault::DuplicateClaim { id });
                    } else {
                        proof {
                            assert(!all.take(p).contains(id));
                            assert(!reg0.contains(id));
                            assert(first_fault_from(all, reg0, p) == Some(
                                PartitionFault::MissingResource { id },
                            ));
                        }
                        return Err(PartitionFault::MissingResource { id });
                    }
                },
            }
            k += 1;
        }
        proof {
            assert(handle_ids(handles@) =~= entries0[b as int].ids@);
            assert(entries0[b as int].ids@.skip(m as int) =~= Seq::<u32>::empty());
            assert(all =~= claimed@ + flat_ids(entries0.skip(b as int + 1)));
        }
        let bd = Bundle { name: plan.entries[b].name.clone(), handles };
        bundles.push(bd);
        proof {
            assert(entries0.take(b as int + 1).drop_last() =~= entries0.take(b as int));
            assert forall|bb: int| 0 <= bb < bundles@.len() implies (#[trigger] bundles@[bb]).spec_name()
                == entries0.take(b as int + 1)[bb].name@ && bundles@[bb].spec_ids() == entries0.take(
                b as int + 1,
            )[bb].ids@ by {}
        }
        b += 1;
    }
    proof {
        assert(entries0.skip(n as int) =~= Seq::<PlanEntry>::empty());
        assert(all =~= claimed@);
        assert(first_fault_from(all, reg0, claimed@.len() as int) is None);
        assert(bundles_match_plan(bundles@, entries0)) by {
            assert(entries0.take(n as int) =~= entries0);
        }
    }
    Ok(bundles)
}


/// If an identifier is claimed by some plan entry, it occurs in the flattened
/// claim sequence.
pub proof fn lemma_flat_contains(entries: Seq<PlanEntry>, b: int, x: u32)
    requires
        0 <= b < entries.len(),
        entries[b].ids@.contains(x),
    ensures
        flat_ids(entries).contains(x),
    decreases b,
{
    if b == 0 {
        let k = choose|k: int| 0 <= k < entries[0].ids@.len() && entries[0].ids@[k] == x;
        assert(flat_ids(entries)[k] == x);
    } else {
        lemma_flat_contains(entries.drop_first(), b - 1, x);
        let k = choose|k: int|
            0 <= k < flat_ids(entries.drop_first()).len() && flat_ids(entries.drop_first())[k] == x;
        assert(flat_ids(entries)[entries[0].ids@.len() + k] == x);
    }
}

/// If two distinct plan entries both claim an identifier, the flattened claim
/// sequence holds a duplicate.
proof fn lemma_flat_dup(entries: Seq<PlanEntry>, i: int, j: int, x: u32)
    requires
        0 <= i < j < entries.len(),
        entries[i].ids@.contains(x),
        entries[j].ids@.contains(x),
    ensures
        !distinct_ids(flat_ids(entries)),
    decreases i,
{
    if i == 0 {
        let p1 = choose|p: int| 0 <= p < entries[0].ids@.len() && entries[0].ids@[p] == x;
        lemma_flat_contains(entries.drop_first(), j - 1, x);
        let rest = flat_ids(entries.drop_first());
        let p2 = choose|p: int| 0 <= p < rest.len() && rest[p] == x;
        assert(flat_ids(entries)[p1] == x);
        assert(flat_ids(entries)[entries[0].ids@.len() + p2] == x);
        assert(!distinct_ids(flat_ids(entries))) by {
            let q1 = p1;
            let q2 = entries[0].ids@.len() + p2;
            assert(0 <= q1 < q2 < flat_ids(entries).len());
            assert(flat_ids(entries)[q1] == flat_ids(entries)[q2]);
        }
    } else {
        lemma_flat_dup(entries.drop_first(), i - 1, j - 1, x);
        let rest = flat_ids(entries.drop_first());
        let (q1, q2) = choose|q1: int, q2: int| 0 <= q1 < q2 < rest.len() && rest[q1] == rest[q2];
        let w = entries[0].ids@.len();
        assert(flat_ids(entries)[w + q1] == rest[q1]);
        assert(flat_ids(entries)[w + q2] == rest[q2]);
        assert(0 <= w + q1 < w + q2 < flat_ids(entries).len());
    }
}

/// Disjointness: two different bundles produced from a plan with no duplicate
/// claims never share a resource identifier.
pub proof fn lemma_bundles_disjoint(bs: Seq<Bundle>, entries: Seq<PlanEntry>, i: int, j: int)
    requires
        bundles_match_plan(bs, entries),
        distinct_ids(flat_ids(entries)),
        0 <= i < bs.len(),
        0 <= j < bs.len(),
        i != j,
    ensures
        forall|id: u32| bs[i].spec_ids().contains(id) ==> !bs[j].spec_ids().contains(id),
{
    assert forall|id: u32| bs[i].spec_ids().contains(id) implies !bs[j].spec_ids().contains(
        id,
    ) by {
        if bs[j].spec_ids().contains(id) {
            if i < j {
                lemma_flat_dup(entries, i, j, id);
            } else {
                lemma_flat_dup(entries, j, i, id);
            }
        }
    }
}

/// Completeness: every identifier the plan claims ends up in exactly one
/// bundle, namely the bundle of the entry that claims it.
pub proof fn lemma_partition_complete(bs: Seq<Bundle>, entries: Seq<PlanEntry>, b: int, k: int)
    requires
        bundles_match_plan(bs, entries),
        distinct_ids(flat_ids(entries)),
        0 <= b < entries.len(),
        0 <= k < entries[b].ids@.len(),
    ensures
        bs[b].spec_ids().contains(entries[b].ids@[k]),
        forall|j: int|
            0 <= j < bs.len() && j != b ==> !(#[trigger] bs[j].spec_ids()).contains(
                entries[b].ids@[k],
            ),
{
    let id = entries[b].ids@[k];
    assert(bs[b].spec_ids().contains(id)) by {
        assert(bs[b].spec_ids()[k] == id);
    }
    assert forall|j: int|
        0 <= j < bs.len() && j != b implies !(#[trigger] bs[j].spec_ids()).contains(id) by {
        lemma_bundles_disjoint(bs, entries, b, j);
    }
}

proof fn lemma_first_fault_none(ids: Seq<u32>, reg: Seq<u32>, k: int)
    requires
        0 <= k <= ids.len(),
    ensures
        first_fault_from(ids, reg, k) is None <==> forall|m: int|
            k <= m < ids.len() ==> (!(#[trigger] ids.take(m)).contains(ids[m]) && reg.contains(
                ids[m],
            )),
    decreases ids.len() - k,
{
    if k < ids.len() {
        lemma_first_fault_none(ids, reg, k + 1);
        let ok_k = !ids.take(k).contains(ids[k]) && reg.contains(ids[k]);
        if ok_k {
            assert(first_fault_from(ids, reg, k) == first_fault_from(ids, reg, k + 1));
            if first_fault_from(ids, reg, k) is None {
                assert forall|m: int|
                    k <= m < ids.len() implies (!(#[trigger] ids.take(m)).contains(ids[m])
                        && reg.contains(ids[m])) by {
                    if m == k {
                        assert(ok_k);
                    }
                }
            } else {
                let m0 = choose|m: int|
                    k + 1 <= m < ids.len() && !(!(#[trigger] ids.take(m)).contains(ids[m])
                        && reg.contains(ids[m]));
                assert(k <= m0 < ids.len());
                assert(!(!(ids.take(m0)).contains(ids[m0]) && reg.contains(ids[m0])));
            }
        } else {
            assert(first_fault_from(ids, reg, k) is Some);
            assert(k <= k < ids.len() && !(!(ids.take(k)).contains(ids[k]) && reg.contains(
                ids[k],
            )));
        }
    }
}

/// Rejection: the partitioner finds a fault exactly when the plan is not a
/// realizable partition of registered resources, i.e. some identifier is
/// claimed twice or some claimed identifier has no registered handle. With
/// [`partition`]'s contract this says a bad plan always fails, and it fails
/// at partitioning time, before any task exists to receive a bundle.
pub proof fn lemma_fault_none_iff_plan_wf(entries: Seq<PlanEntry>, reg: Seq<u32>)
    ensures
        partition_fault(entries, reg) is None <==> plan_wf(entries, reg),
{
    let ids = flat_ids(entries);
    lemma_first_fault_none(ids, reg, 0);
    if partition_fault(entries, reg) is None {
        assert forall|p: int, q: int| 0 <= p < q < ids.len() implies ids[p] != ids[q] by {
            assert(!ids.take(q).contains(ids[q]) && reg.contains(ids[q]));
            if ids[p] == ids[q] {
                assert(ids.take(q)[p] == ids[p]);
                assert(ids.take(q).contains(ids[q]));
            }
        }
        assert forall|m: int| 0 <= m < ids.len() implies reg.contains(#[trigger] ids[m]) by {
            assert(!ids.take(m).contains(ids[m]) && reg.contains(ids[m]));
        }
        assert(plan_wf(entries, reg));
    }
    if plan_wf(entries, reg) {
        assert forall|m: int|
            0 <= m < ids.len() implies (!(#[trigger] ids.take(m)).contains(ids[m]) && reg.contains(
            ids[m],
        )) by {
            assert(reg.contains(ids[m]));
            if ids.take(m).contains(ids[m]) {
                let p = choose|p: int| 0 <= p < m && ids.take(m)[p] == ids[m];
                assert(ids[p] == ids[m]);
                assert(false);
            }
        }
        assert(first_fault_from(ids, reg, 0) is None);
    }
}

} // verus!
