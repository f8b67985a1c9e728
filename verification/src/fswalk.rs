//! Storage-side logic: a directory tree model, the depth-first traversal the
//! storage task drives, and by-name lookup within one directory.
//!
//! The filesystem adapter enumerates each directory's entries lazily, in
//! on-disk order. The traversal's obligation is depth-first order: on
//! encountering a subdirectory entry, recurse into it before continuing with
//! the current directory's remaining entries. Because embedded call-stack
//! budgets are small, the traversal uses an explicit stack of directory
//! positions instead of call-stack recursion.

use vstd::prelude::*;

verus! {

/// One directory entry as the filesystem enumerates it. For a subdirectory
/// entry, `subdir` is the index of that directory's node in the tree.
pub struct DirEntry {
    pub name: String,
    pub is_dir: bool,
    pub subdir: usize,
}

/// One directory: its entries in on-disk enumeration order.
pub struct DirNode {
    pub entries: Vec<DirEntry>,
}

/// A directory tree as an arena of nodes; index 0 is the root directory.
/// Subdirectory links only point forward, so the tree has no cycles.
pub struct DirTree {
    pub dirs: Vec<DirNode>,
}

impl DirTree {
    /// Every subdirectory link points to a node strictly later in the arena
    /// (which rules out cycles) and within bounds, and no two entries link
    /// to the same node: each directory has one parent, so this is a tree,
    /// not a directed acyclic graph, and a traversal meets each node once.
    pub open spec fn wf(self) -> bool {
        &&& forall|d: int, e: int|
            0 <= d < self.dirs@.len() && 0 <= e < self.dirs@[d].entries@.len() && (
            #[trigger] self.dirs@[d].entries@[e]).is_dir ==> d < self.dirs@[d].entries@[e].subdir
                < self.dirs@.len()
        &&& forall|d1: int, e1: int, d2: int, e2: int|
            0 <= d1 < self.dirs@.len() && 0 <= e1 < self.dirs@[d1].entries@.len() && 0 <= d2
                < self.dirs@.len() && 0 <= e2 < self.dirs@[d2].entries@.len() && (
            #[trigger] self.dirs@[d1].entries@[e1]).is_dir && (#[trigger] self.dirs@[
                d2
            ].entries@[e2]).is_dir && !(d1 == d2 && e1 == e2)
                ==> self.dirs@[d1].entries@[e1].subdir != self.dirs@[d2].entries@[e2].subdir
    }
}

/// What the traversal reports for one visited entry.
pub struct EntryRecord {
    pub name: String,
    pub is_dir: bool,
}

/// The mathematical view of a visited entry: its name and whether it is a
/// directory.
pub open spec fn entry_view(e: DirEntry) -> (Seq<char>, bool) {
    (e.name@, e.is_dir)
}

/// The views of a sequence of visit records.
pub open spec fn record_views(rs: Seq<EntryRecord>) -> Seq<(Seq<char>, bool)> {
    rs.map_values(|r: EntryRecord| (r.name@, r.is_dir))
}

/// Depth-first traversal order, starting inside directory `d` at entry `i`:
/// each entry is visited in on-disk order, and a subdirectory is expanded in
/// place, before the current directory's remaining entries.
pub open spec fn dfs_from(dirs: Seq<DirNode>, d: int, i: int) -> Seq<(Seq<char>, bool)>
    decreases
            dirs.len() - d,
            (if 0 <= d < dirs.len() {
                dirs[d].entries@.len() - i
            } else {
                0
            }),
{
    if !(0 <= d < dirs.len()) || !(0 <= i < dirs[d].entries@.len()) {
        Seq::empty()
    } else {
        let e = dirs[d].entries@[i];
        if e.is_dir && d < e.subdir < dirs.len() {
            seq![entry_view(e)] + dfs_from(dirs, e.subdir as int, 0) + dfs_from(dirs, d, i + 1)
        } else {
            seq![entry_view(e)] + dfs_from(dirs, d, i + 1)
        }
    }
}

/// The full depth-first visit order of directory `d`.
pub open spec fn dfs_entries(dirs: Seq<DirNode>, d: int) -> Seq<(Seq<char>, bool)> {
    dfs_from(dirs, d, 0)
}

/// One saved position of the traversal: a directory and the next entry to
/// visit in it.
#[derive(Clone, Copy, PartialEq, Eq, Structural, Debug)]
pub struct WalkFrame {
    pub dir: usize,
    pub next: usize,
}

/// Everything the traversal still has to emit, given its stack: the rest of
/// the top frame's directory first, then the rest of each frame below it.
pub open spec fn pending(dirs: Seq<DirNode>, stack: Seq<WalkFrame>) -> Seq<(Seq<char>, bool)>
    decreases stack.len(),
{
    if stack.len() == 0 {
        Seq::empty()
    } else {
        dfs_from(dirs, stack.last().dir as int, stack.last().next as int) + pending(
            dirs,
            stack.drop_last(),
        )
    }
}

/// Traverse the tree depth-first from the root, reporting every entry in
/// visit order: exactly the order `dfs_entries` defines.
pub fn walk(tree: &DirTree) -> (r: Vec<EntryRecord>)
    requires
        tree.wf(),
        tree.dirs@.len() > 0,
    ensures
        record_views(r@) == dfs_entries(tree.dirs@, 0),
{
    let ghost dirs = tree.dirs@;
    let mut out: Vec<EntryRecord> = Vec::new();
    let mut stack: Vec<WalkFrame> = Vec::new();
    stack.push(WalkFrame { dir: 0, next: 0 });
    proof {
        assert(stack@.drop_last() =~= Seq::<WalkFrame>::empty());
        assert(pending(dirs, Seq::<WalkFrame>::empty()) == Seq::<(Seq<char>, bool)>::empty());
        assert(stack@.last() == (WalkFrame { dir: 0, next: 0 }));
        assert(pending(dirs, stack@) =~= dfs_entries(dirs, 0) + Seq::<(Seq<char>, bool)>::empty());
        assert(record_views(out@) + pending(dirs, stack@) =~= dfs_entries(dirs, 0));
    }
    while stack.len() > 0
        invariant
            tree.wf(),
            dirs == tree.dirs@,
            forall|f: int|
                0 <= f < stack@.len() ==> (#[trigger] stack@[f]).dir < dirs.len()
                    && stack@[f].next <= dirs[stack@[f].dir as int].entries@.len(),
            record_views(out@) + pending(dirs, stack@) =~= dfs_entries(dirs, 0),
        decreases pending(dirs, stack@).len(), stack@.len(),
    {
        let ghost stack0 = stack@;
        let ghost out0 = out@;
        let top = stack.len() - 1;
        let f = stack[top];
        let dir_len = tree.dirs[f.dir].entries.len();
        if f.next >= dir_len {
            let _ = stack.pop();
            proof {
                assert(stack@ =~= stack0.drop_last());
                assert(dfs_from(dirs, f.dir as int, f.next as int) =~= Seq::<
                    (Seq<char>, bool),
                >::empty());
                assert(pending(dirs, stack@) =~= pending(dirs, stack0));
            }
        } else {
            let e_is_dir = tree.dirs[f.dir].entries[f.next].is_dir;
            let e_sub = tree.dirs[f.dir].entries[f.next].subdir;
            let name = tree.dirs[f.dir].entries[f.next].name.clone();
            let ghost ev = entry_view(dirs[f.dir as int].entries@[f.next as int]);
            out.push(EntryRecord { name, is_dir: e_is_dir });
            proof {
                assert(record_views(out@) =~= record_views(out0).push(ev));
            }
            stack.set(top, WalkFrame { dir: f.dir, next: f.next + 1 });
            if e_is_dir {
                stack.push(WalkFrame { dir: e_sub, next: 0 });
                proof {
                    let stack1 = stack0.update(top as int, WalkFrame { dir: f.dir, next: (f.next + 1) as usize });
                    assert(stack@ =~= stack1.push(WalkFrame { dir: e_sub, next: 0 }));
                    assert(stack1.drop_last() =~= stack0.drop_last());
                    assert(stack1.last() == (WalkFrame { dir: f.dir, next: (f.next + 1) as usize }));
                    assert(stack@.drop_last() =~= stack1);
                    assert(pending(dirs, stack1) =~= dfs_from(dirs, f.dir as int, f.next as int + 1)
                        + pending(dirs, stack0.drop_last()));
                    assert(pending(dirs, stack@) =~= dfs_from(dirs, e_sub as int, 0) + dfs_from(
                        dirs,
                        f.dir as int,
                        f.next as int + 1,
                    ) + pending(dirs, stack0.drop_last()));
                    assert(dfs_from(dirs, f.dir as int, f.next as int) =~= seq![ev] + dfs_from(
                        dirs,
                        e_sub as int,
                        0,
                    ) + dfs_from(dirs, f.dir as int, f.next as int + 1));
                    assert(record_views(out@) + pending(dirs, stack@) =~= dfs_entries(dirs, 0));
                }
            } else {
                proof {
                    assert(stack@ =~= stack0.update(
                        top as int,
                        WalkFrame { dir: f.dir, next: (f.next + 1) as usize },
                    ));
                    assert(stack@.drop_last() =~= stack0.drop_last());
                    assert(stack@.last() == (WalkFrame { dir: f.dir, next: (f.next + 1) as usize }));
                    assert(pending(dirs, stack@) =~= dfs_from(dirs, f.dir as int, f.next as int + 1)
                        + pending(dirs, stack0.drop_last()));
                    assert(dfs_from(dirs, f.dir as int, f.next as int) =~= seq![ev] + dfs_from(
                        dirs,
                        f.dir as int,
                        f.next as int + 1,
                    ));
                    assert(record_views(out@) + pending(dirs, stack@) =~= dfs_entries(dirs, 0));
                }
            }
        }
    }
    proof {
        assert(pending(dirs, stack@) =~= Seq::<(Seq<char>, bool)>::empty());
        assert(record_views(out@) =~= dfs_entries(dirs, 0));
    }
    out
}

/// Find the first entry with the given name in one directory: the by-name
/// lookup an already-open directory supports. Returns the entry's position;
/// `None` exactly when no entry of the directory has that name.
pub fn find_entry(tree: &DirTree, dir: usize, name: &String) -> (r: Option<usize>)
    requires
        dir < tree.dirs@.len(),
    ensures
        r matches Some(k) ==> k < tree.dirs@[dir as int].entries@.len()
            && tree.dirs@[dir as int].entries@[k as int].name@ == name@ && (forall|j: int|
            0 <= j < k ==> (#[trigger] tree.dirs@[dir as int].entries@[j]).name@ != name@),
        r is None <==> forall|j: int|
            0 <= j < tree.dirs@[dir as int].entries@.len() ==> (#[trigger] tree.dirs@[
                dir as int
            ].entries@[j]).name@ != name@,
{
    let n = tree.dirs[dir].entries.len();
    let mut k: usize = 0;
    while k < n
        invariant
            k <= n,
            dir < tree.dirs@.len(),
            n == tree.dirs@[dir as int].entries@.len(),
            forall|j: int|
                0 <= j < k ==> (#[trigger] tree.dirs@[dir as int].entries@[j]).name@ != name@,
        decreases n - k,
    {
        if tree.dirs[dir].entries[k].name.eq(name) {
            return Some(k);
        }
        k += 1;
    }
    None
}

/// A filesystem timestamp. The storage adapter requires a time source; this
/// controller has no clock worth trusting, so it always reports the epoch.
#[derive(Clone, Copy, PartialEq, Eq, Structural, Debug)]
pub struct Timestamp {
    pub year_since_1970: u8,
    pub zero_indexed_month: u8,
    pub zero_indexed_day: u8,
    pub hours: u8,
    pub minutes: u8,
    pub seconds: u8,
}

/// The fixed timestamp the dummy time source hands to the storage adapter.
pub fn epoch_timestamp() -> (t: Timestamp)
    ensures
        t == (Timestamp {
            year_since_1970: 0,
            zero_indexed_month: 0,
            zero_indexed_day: 0,
            hours: 0,
            minutes: 0,
            seconds: 0,
        }),
{
    Timestamp {
        year_since_1970: 0,
        zero_indexed_month: 0,
        zero_indexed_day: 0,
        hours: 0,
        minutes: 0,
        seconds: 0,
    }
}

} // verus!
