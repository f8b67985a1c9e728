//! Peripheral handles and the boot-time resource registry.
//!
//! A `Handle` is a move-only capability for one physical resource (a pin, a
//! bus, a timer, a DMA channel). The `Registry` is the flat set of all handles
//! that exist at boot; it is consumed, once, by the partitioner.

use vstd::prelude::*;

verus! {

/// What operations a peripheral supports.
#[derive(Clone, Copy, PartialEq, Eq, Structural, Debug)]
pub enum Capability {
    DigitalOutput,
    BusController,
    Timer,
    DmaChannel,
}

/// A move-only capability granting exclusive operational access to one
/// physical resource. It cannot be cloned, and it cannot be forged: the only
/// way to obtain one is to register the resource at boot and later claim it
/// through the partitioner.
#[derive(Debug)]
pub struct Handle {
    rid: u32,
    cap: Capability,
}

/// The handle that registering `(id, cap)` creates.
pub closed spec fn handle_for(id: u32, cap: Capability) -> Handle {
    Handle { rid: id, cap }
}

impl Handle {
    /// The identifier of the physical resource this handle denotes.
    pub closed spec fn id(self) -> u32 {
        self.rid
    }

    /// The capability tag: which operations are legal through this handle.
    pub closed spec fn capability(self) -> Capability {
        self.cap
    }

    pub fn resource_id(&self) -> (r: u32)
        ensures
            r == self.id(),
    {
        self.rid
    }

    pub fn cap(&self) -> (r: Capability)
        ensures
            r == self.capability(),
    {
        self.cap
    }
}

/// The identifiers of a sequence of handles, in order.
pub open spec fn handle_ids(hs: Seq<Handle>) -> Seq<u32> {
    hs.map_values(|h: Handle| h.id())
}

/// No identifier occurs twice.
pub open spec fn distinct_ids(ids: Seq<u32>) -> bool {
    forall|i: int, j: int| 0 <= i < j < ids.len() ==> ids[i] != ids[j]
}

/// The flat set of all peripheral handles available at boot. Exists once, is
/// built before any task runs, and is fully consumed by the partitioner.
pub struct Registry {
    handles: Vec<Handle>,
}

impl Registry {
    /// All handles currently held by the registry.
    pub closed spec fn handles_spec(self) -> Seq<Handle> {
        self.handles@
    }

    /// The identifiers of all handles currently held, in registration order.
    pub open spec fn ids(self) -> Seq<u32> {
        handle_ids(self.handles_spec())
    }

    /// At most one live handle exists per physical resource.
    pub open spec fn wf(self) -> bool {
        distinct_ids(self.ids())
    }

    pub fn new() -> (r: Registry)
        ensures
            r.wf(),
            r.handles_spec() == Seq::<Handle>::empty(),
    {
        Registry { handles: Vec::new() }
    }

    /// Add the handle for one physical resource. Fails (and changes nothing)
    /// exactly when a handle for `id` is already registered, so no resource
    /// can ever have two live handles.
    pub fn register(&mut self, id: u32, cap: Capability) -> (ok: bool)
        requires
            old(self).wf(),
        ensures
            final(self).wf(),
            ok == !old(self).ids().contains(id),
            ok ==> final(self).handles_spec() == old(self).handles_spec().push(
                handle_for(id, cap),
            ),
            ok ==> final(self).ids() == old(self).ids().push(id),
            ok ==> final(self).handles_spec().last().id() == id
                && final(self).handles_spec().last().capability() == cap,
            !ok ==> *final(self) == *old(self),
    {
        if self.contains(id) {
            false
        } else {
            self.handles.push(Handle { rid: id, cap });
            proof {
                assert(self.ids() =~= old(self).ids().push(id));
            }
            true
        }
    }

    /// Whether a handle for `id` is currently registered.
    pub fn contains(&self, id: u32) -> (r: bool)
        ensures
            r == self.ids().contains(id),
    {
        let n = self.handles.len();
        let mut i: usize = 0;
        while i < n
            invariant
                i <= n,
                n == self.handles_spec().len(),
                forall|j: int| 0 <= j < i ==> self.handles_spec()[j].id() != id,
            decreases n - i,
        {
            if self.handles[i].resource_id() == id {
                assert(self.ids()[i as int] == id);
                return true;
            }
            i += 1;
        }
        assert forall|k: int| 0 <= k < self.ids().len() implies self.ids()[k] != id by {
            assert(self.handles_spec()[k].id() != id);
        }
        false
    }

    /// Move the handle for `id` out of the registry, if it is present.
    /// Afterwards no handle for `id` remains: the resource is claimed for good.
    pub fn take(&mut self, id: u32) -> (r: Option<Handle>)
        requires
            old(self).wf(),
        ensures
            final(self).wf(),
            r is Some <==> old(self).ids().contains(id),
            r is None ==> *final(self) == *old(self),
            r matches Some(h) ==> h.id() == id && old(self).handles_spec().contains(h) && (forall|
                x: u32,
            |
                final(self).ids().contains(x) <==> (old(self).ids().contains(x) && x != id)) && (
            forall|g: Handle|
                final(self).handles_spec().contains(g) ==> old(self).handles_spec().contains(g)),
    {
        let n = self.handles.len();
        let mut i: usize = 0;
        while i < n
            invariant
                i <= n,
                n == self.handles_spec().len(),
                *self == *old(self),
                self.wf(),
                forall|j: int| 0 <= j < i ==> self.handles_spec()[j].id() != id,
            decreases n - i,
        {
            if self.handles[i].resource_id() == id {
                proof {
                    assert(self.ids()[i as int] == id);
                }
                let ghost pre = self.handles@;
                let h = self.handles.remove(i);
                proof {
                    lemma_ids_remove(pre, i as int);
                    lemma_distinct_remove(handle_ids(pre), i as int);
                    assert(pre.contains(h)) by {
                        assert(pre[i as int] == h);
                    }
                    assert forall|x: u32|
                        self.ids().contains(x) <==> (old(self).ids().contains(
                            x,
                        ) && x != id) by {
                        lemma_distinct_remove_contains(handle_ids(pre), i as int, x);
                    }
                    assert forall|g: Handle|
                        self.handles_spec().contains(g) implies old(self).handles_spec().contains(
                        g,
                    ) by {
                        let k = choose|k: int|
                            0 <= k < self.handles_spec().len() && self.handles_spec()[k] == g;
                        if k < i {
                            assert(pre[k] == g);
                        } else {
                            assert(pre[k + 1] == g);
                        }
                    }
                }
                return Some(h);
            }
            i += 1;
        }
        assert forall|k: int| 0 <= k < self.ids().len() implies self.ids()[k] != id by {
            assert(self.handles_spec()[k].id() != id);
        }
        None
    }
}

/// Removing a handle removes exactly its identifier from the id sequence.
pub proof fn lemma_ids_remove(hs: Seq<Handle>, i: int)
    requires
        0 <= i < hs.len(),
    ensures
        handle_ids(hs.remove(i)) =~= handle_ids(hs).remove(i),
{
    hs.remove_ensures(i);
    handle_ids(hs).remove_ensures(i);
}

/// Removing an element keeps the remaining identifiers distinct.
pub proof fn lemma_distinct_remove(ids: Seq<u32>, i: int)
    requires
        distinct_ids(ids),
        0 <= i < ids.len(),
    ensures
        distinct_ids(ids.remove(i)),
{
    ids.remove_ensures(i);
    assert forall|p: int, q: int|
        0 <= p < q < ids.remove(i).len() implies ids.remove(i)[p] != ids.remove(i)[q] by {
        let p0 = if p < i {
            p
        } else {
            p + 1
        };
        let q0 = if q < i {
            q
        } else {
            q + 1
        };
        assert(ids.remove(i)[p] == ids[p0]);
        assert(ids.remove(i)[q] == ids[q0]);
    }
}

/// In a distinct sequence, removing position `i` removes exactly the value at
/// that position from membership.
pub proof fn lemma_distinct_remove_contains(ids: Seq<u32>, i: int, x: u32)
    requires
        distinct_ids(ids),
        0 <= i < ids.len(),
    ensures
        ids.remove(i).contains(x) <==> (ids.contains(x) && x != ids[i]),
{
    ids.remove_ensures(i);
    if ids.remove(i).contains(x) {
        let k = choose|k: int| 0 <= k < ids.remove(i).len() && ids.remove(i)[k] == x;
        let k0 = if k < i {
            k
        } else {
            k + 1
        };
        assert(ids[k0] == x);
        assert(x != ids[i]);
    }
    if ids.contains(x) && x != ids[i] {
        let k = choose|k: int| 0 <= k < ids.len() && ids[k] == x;
        if k < i {
            assert(ids.remove(i)[k] == x);
        } else {
            assert(ids.remove(i)[k - 1] == x);
        }
    }
}

} // verus!
