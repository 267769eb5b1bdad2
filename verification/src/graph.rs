//! The dependency graph over task ids.
//!
//! An edge `(task, depends_on)` means `task` waits for `depends_on`.
//! One deduplicated edge list backs both directions, so the forward view
//! (`spec_deps`) and the reverse view (`spec_waiters`) can never disagree;
//! [`lemma_edges_symmetric`] states that symmetry.

use vstd::prelude::*;

use crate::ids::TaskId;

verus! {

/// The sources of the edges pointing at `depends_on`, in list order.
pub closed spec fn waiters_of_pairs(pairs: Seq<(TaskId, TaskId)>, depends_on: TaskId) -> Seq<
    TaskId,
> {
    pairs.filter(|p: (TaskId, TaskId)| p.1 == depends_on).map_values(|p: (TaskId, TaskId)| p.0)
}

/// The members of `src` whose only outgoing edge in `g` points at `t`.
pub open spec fn sole_waiters_of(g: DependencyGraph, t: TaskId, src: Seq<TaskId>) -> Seq<TaskId> {
    src.filter(|w: TaskId| forall|d: TaskId| g.spec_edge(w, d) ==> d == t)
}

/// The waiters of `t` (in edge-insertion order) that wait for nothing
/// else: resolving `t` frees exactly these.
pub open spec fn sole_waiters(g: DependencyGraph, t: TaskId) -> Seq<TaskId> {
    sole_waiters_of(g, t, g.waiters_seq(t))
}

/// Dependency graph: who waits for whom.
#[derive(Debug)]
pub struct DependencyGraph {
    /// Edges `(task, depends_on)`, each at most once.
    pairs: Vec<(TaskId, TaskId)>,
}

impl DependencyGraph {
    /// The edges as a sequence of `(task, depends_on)` pairs.
    pub closed spec fn edge_seq(self) -> Seq<(TaskId, TaskId)> {
        self.pairs@
    }

    /// Whether `task` waits for `depends_on`.
    pub open spec fn spec_edge(self, task: TaskId, depends_on: TaskId) -> bool {
        self.edge_seq().contains((task, depends_on))
    }

    /// Forward view: everything `task` waits for.
    pub open spec fn spec_deps(self, task: TaskId) -> Set<TaskId> {
        Set::new(|d: TaskId| self.spec_edge(task, d))
    }

    /// Reverse view: everything waiting for `depends_on`.
    pub open spec fn spec_waiters(self, depends_on: TaskId) -> Set<TaskId> {
        Set::new(|t: TaskId| self.spec_edge(t, depends_on))
    }

    /// Everything waiting for `depends_on`, in edge-insertion order.
    pub closed spec fn waiters_seq(self, depends_on: TaskId) -> Seq<TaskId> {
        waiters_of_pairs(self.pairs@, depends_on)
    }

    /// Whether `task` waits for anything.
    pub open spec fn spec_has_deps(self, task: TaskId) -> bool {
        exists|d: TaskId| self.spec_edge(task, d)
    }

    /// Well-formed: no edge is listed twice.
    pub open spec fn wf(self) -> bool {
        forall|i: int, j: int|
            0 <= i < j < self.edge_seq().len() ==> self.edge_seq()[i] != self.edge_seq()[j]
    }

    /// An empty dependency graph.
    pub fn new() -> (r: Self)
        ensures
            r.wf(),
            forall|a: TaskId, b: TaskId| !r.spec_edge(a, b),
    {
        let r = DependencyGraph { pairs: Vec::new() };
        proof {
            assert(forall|a: TaskId, b: TaskId| !r.edge_seq().contains((a, b)));
        }
        r
    }

    /// The index of edge `(task, depends_on)` in the list, if present.
    fn find_pair(&self, task: TaskId, depends_on: TaskId) -> (r: Option<usize>)
        ensures
            match r {
                Some(i) => i < self.edge_seq().len() && self.edge_seq()[i as int] == (
                task,
                depends_on,
                ),
                None => !self.spec_edge(task, depends_on),
            },
    {
        let mut i: usize = 0;
        while i < self.pairs.len()
            invariant
                i <= self.pairs.len(),
                forall|j: int| 0 <= j < i ==> self.pairs@[j] != (task, depends_on),
            decreases self.pairs.len() - i,
        {
            if self.pairs[i].0 == task && self.pairs[i].1 == depends_on {
                return Some(i);
            }
            i = i + 1;
        }
        proof {
            assert(!self.edge_seq().contains((task, depends_on)));
        }
        None
    }

    /// Records that `task` depends on `depends_on`. Adding an edge that
    /// is already present changes nothing; no other edge is touched.
    pub fn add_dependency(&mut self, task: TaskId, depends_on: TaskId)
        requires
            old(self).wf(),
        ensures
            final(self).wf(),
            forall|a: TaskId, b: TaskId|
                final(self).spec_edge(a, b) <==> (old(self).spec_edge(a, b) || (a == task && b
                    == depends_on)),
    {
        let present = matches!(self.find_pair(task, depends_on), Some(_));
        if !present {
            self.pairs.push((task, depends_on));
        }
        proof {
            assert forall|a: TaskId, b: TaskId|
                self.spec_edge(a, b) <==> (old(self).spec_edge(a, b) || (a == task && b
                    == depends_on)) by {
                if self.edge_seq().contains((a, b)) {
                    let i = choose|i: int|
                        0 <= i < self.edge_seq().len() && self.edge_seq()[i] == (a, b);
                    if i < old(self).edge_seq().len() {
                        assert(old(self).edge_seq().contains((a, b)));
                    }
                }
                if old(self).spec_edge(a, b) {
                    let i = choose|i: int|
                        0 <= i < old(self).edge_seq().len() && old(self).edge_seq()[i] == (a, b);
                    assert(self.edge_seq()[i] == (a, b));
                }
                if a == task && b == depends_on && !present {
                    assert(self.edge_seq()[self.edge_seq().len() - 1] == (a, b));
                }
            }
        }
    }

    /// Forgets that `task` depends on `depends_on` (the depended-on task
    /// completed). Removing an absent edge changes nothing.
    pub fn remove_dependency(&mut self, task: TaskId, depends_on: TaskId)
        requires
            old(self).wf(),
        ensures
            final(self).wf(),
            forall|a: TaskId, b: TaskId|
                final(self).spec_edge(a, b) <==> (old(self).spec_edge(a, b) && !(a == task && b
                    == depends_on)),
    {
        let found = self.find_pair(task, depends_on);
        if let Some(i) = found {
            self.pairs.remove(i);
            proof {
                let oldseq = old(self).edge_seq();
                let i = i as int;
                assert forall|a: TaskId, b: TaskId|
                    self.spec_edge(a, b) <==> (old(self).spec_edge(a, b) && !(a == task && b
                        == depends_on)) by {
                    if self.edge_seq().contains((a, b)) {
                        let j = choose|j: int|
                            0 <= j < self.edge_seq().len() && self.edge_seq()[j] == (a, b);
                        if j < i {
                            assert(oldseq[j] == (a, b));
                        } else {
                            assert(oldseq[j + 1] == (a, b));
                        }
                        assert(old(self).spec_edge(a, b));
                        assert(!(a == task && b == depends_on));
                    }
                    if old(self).spec_edge(a, b) && !(a == task && b == depends_on) {
                        let j = choose|j: int| 0 <= j < oldseq.len() && oldseq[j] == (a, b);
                        if j < i {
                            assert(self.edge_seq()[j] == (a, b));
                        } else {
                            assert(j != i);
                            assert(self.edge_seq()[j - 1] == (a, b));
                        }
                    }
                }
            }
        }
    }

    /// Everything waiting for `completed_task`, in edge-insertion order.
    /// Callers must still check the waiters' remaining dependencies.
    pub fn get_waiting_tasks(&self, completed_task: TaskId) -> (r: Vec<TaskId>)
        requires
            self.wf(),
        ensures
            r@ == self.waiters_seq(completed_task),
            forall|t: TaskId| r@.contains(t) <==> self.spec_edge(t, completed_task),
            r@.no_duplicates(),
    {
        let mut r: Vec<TaskId> = Vec::new();
        let mut i: usize = 0;
        proof {
            reveal_with_fuel(Seq::<(TaskId, TaskId)>::filter, 2);
            assert(self.pairs@.subrange(0, 0).len() == 0);
            assert(r@ =~= waiters_of_pairs(self.pairs@.subrange(0, 0), completed_task));
        }
        while i < self.pairs.len()
            invariant
                self.wf(),
                i <= self.pairs.len(),
                r@ == waiters_of_pairs(self.pairs@.subrange(0, i as int), completed_task),
                forall|t: TaskId|
                    r@.contains(t) <==> (exists|j: int|
                        0 <= j < i && self.edge_seq()[j] == (t, completed_task)),
                forall|k: int, l: int| 0 <= k < l < r@.len() ==> r@[k] != r@[l],
            decreases self.pairs.len() - i,
        {
            proof {
                reveal_with_fuel(Seq::<(TaskId, TaskId)>::filter, 2);
                let pre2 = self.pairs@.subrange(0, i as int);
                let post2 = self.pairs@.subrange(0, i as int + 1);
                assert(post2.drop_last() =~= pre2);
                assert(post2.last() == self.pairs@[i as int]);
                if self.pairs@[i as int].1 == completed_task {
                    assert(waiters_of_pairs(post2, completed_task) =~= waiters_of_pairs(
                        pre2,
                        completed_task,
                    ).push(self.pairs@[i as int].0));
                } else {
                    assert(waiters_of_pairs(post2, completed_task) =~= waiters_of_pairs(
                        pre2,
                        completed_task,
                    ));
                }
            }
            let ghost r0 = r@;
            if self.pairs[i].1 == completed_task {
                let t = self.pairs[i].0;
                proof {
                    if r0.contains(t) {
                        let j = choose|j: int|
                            0 <= j < i && self.edge_seq()[j] == (t, completed_task);
                        assert(self.edge_seq()[j] == self.edge_seq()[i as int]);
                        assert(false);
                    }
                }
                r.push(t);
                proof {
                    assert forall|t2: TaskId|
                        r@.contains(t2) <==> (exists|j: int|
                            0 <= j < i + 1 && self.edge_seq()[j] == (t2, completed_task)) by {
                        if r@.contains(t2) {
                            let k = choose|k: int| 0 <= k < r@.len() && r@[k] == t2;
                            if k < r0.len() {
                                assert(r0[k] == t2);
                                assert(r0.contains(t2));
                            } else {
                                assert(t2 == t);
                                assert(self.edge_seq()[i as int] == (t2, completed_task));
                            }
                        }
                        if exists|j: int| 0 <= j < i + 1 && self.edge_seq()[j] == (t2, completed_task) {
                            let j = choose|j: int|
                                0 <= j < i + 1 && self.edge_seq()[j] == (t2, completed_task);
                            if j < i {
                                assert(r0.contains(t2));
                                let k = choose|k: int| 0 <= k < r0.len() && r0[k] == t2;
                                assert(r@[k] == t2);
                            } else {
                                assert(t2 == t);
                                assert(r@[r0.len() as int] == t2);
                            }
                        }
                    }
                }
            } else {
                proof {
                    assert forall|t2: TaskId|
                        r@.contains(t2) <==> (exists|j: int|
                            0 <= j < i + 1 && self.edge_seq()[j] == (t2, completed_task)) by {
                        if exists|j: int| 0 <= j < i + 1 && self.edge_seq()[j] == (t2, completed_task) {
                            let j = choose|j: int|
                                0 <= j < i + 1 && self.edge_seq()[j] == (t2, completed_task);
                            assert(j < i);
                        }
                    }
                }
            }
            i = i + 1;
        }
        proof {
            assert(self.pairs@.subrange(0, self.pairs@.len() as int) =~= self.pairs@);
            assert forall|t: TaskId| r@.contains(t) <==> self.spec_edge(t, completed_task) by {
                if self.spec_edge(t, completed_task) {
                    let j = choose|j: int|
                        0 <= j < self.edge_seq().len() && self.edge_seq()[j] == (t, completed_task);
                    assert(exists|k: int|
                        0 <= k < self.pairs.len() && self.edge_seq()[k] == (t, completed_task));
                }
            }
        }
        r
    }

    /// Whether `task` still waits for anything.
    pub fn has_dependencies(&self, task: TaskId) -> (r: bool)
        ensures
            r == self.spec_has_deps(task),
    {
        let mut i: usize = 0;
        while i < self.pairs.len()
            invariant
                i <= self.pairs.len(),
                forall|j: int| 0 <= j < i ==> self.pairs@[j].0 != task,
            decreases self.pairs.len() - i,
        {
            if self.pairs[i].0 == task {
                proof {
                    assert(self.spec_edge(task, self.pairs@[i as int].1));
                }
                return true;
            }
            i = i + 1;
        }
        proof {
            if self.spec_has_deps(task) {
                let d = choose|d: TaskId| self.spec_edge(task, d);
                let j = choose|j: int|
                    0 <= j < self.edge_seq().len() && self.edge_seq()[j] == (task, d);
                assert(false);
            }
        }
        false
    }

    /// Everything `task` waits for, in edge-insertion order.
    pub fn get_dependencies(&self, task: TaskId) -> (r: Vec<TaskId>)
        requires
            self.wf(),
        ensures
            forall|d: TaskId| r@.contains(d) <==> self.spec_edge(task, d),
            r@.no_duplicates(),
    {
        let mut r: Vec<TaskId> = Vec::new();
        let mut i: usize = 0;
        while i < self.pairs.len()
            invariant
                self.wf(),
                i <= self.pairs.len(),
                forall|d: TaskId|
                    r@.contains(d) <==> (exists|j: int| 0 <= j < i && self.edge_seq()[j] == (
                    task,
                    d,
                    )),
                forall|k: int, l: int| 0 <= k < l < r@.len() ==> r@[k] != r@[l],
            decreases self.pairs.len() - i,
        {
            let ghost r0 = r@;
            if self.pairs[i].0 == task {
                let d = self.pairs[i].1;
                proof {
                    if r0.contains(d) {
                        let j = choose|j: int| 0 <= j < i && self.edge_seq()[j] == (task, d);
                        assert(self.edge_seq()[j] == self.edge_seq()[i as int]);
                        assert(false);
                    }
                }
                r.push(d);
                proof {
                    assert forall|d2: TaskId|
                        r@.contains(d2) <==> (exists|j: int|
                            0 <= j < i + 1 && self.edge_seq()[j] == (task, d2)) by {
                        if r@.contains(d2) {
                            let k = choose|k: int| 0 <= k < r@.len() && r@[k] == d2;
                            if k < r0.len() {
                                assert(r0[k] == d2);
                                assert(r0.contains(d2));
                            } else {
                                assert(d2 == d);
                                assert(self.edge_seq()[i as int] == (task, d2));
                            }
                        }
                        if exists|j: int| 0 <= j < i + 1 && self.edge_seq()[j] == (task, d2) {
                            let j = choose|j: int|
                                0 <= j < i + 1 && self.edge_seq()[j] == (task, d2);
                            if j < i {
                                assert(r0.contains(d2));
                                let k = choose|k: int| 0 <= k < r0.len() && r0[k] == d2;
                                assert(r@[k] == d2);
                            } else {
                                assert(d2 == d);
                                assert(r@[r0.len() as int] == d2);
                            }
                        }
                    }
                }
            } else {
                proof {
                    assert forall|d2: TaskId|
                        r@.contains(d2) <==> (exists|j: int|
                            0 <= j < i + 1 && self.edge_seq()[j] == (task, d2)) by {
                        if exists|j: int| 0 <= j < i + 1 && self.edge_seq()[j] == (task, d2) {
                            let j = choose|j: int|
                                0 <= j < i + 1 && self.edge_seq()[j] == (task, d2);
                            assert(j < i);
                        }
                    }
                }
            }
            i = i + 1;
        }
        proof {
            assert forall|d: TaskId| r@.contains(d) <==> self.spec_edge(task, d) by {
                if self.spec_edge(task, d) {
                    let j = choose|j: int|
                        0 <= j < self.edge_seq().len() && self.edge_seq()[j] == (task, d);
                    assert(exists|k: int|
                        0 <= k < self.pairs.len() && self.edge_seq()[k] == (task, d));
                }
            }
        }
        r
    }
}

impl Default for DependencyGraph {
    /// Same as [`DependencyGraph::new`].
    fn default() -> (r: Self)
        ensures
            r.wf(),
            forall|a: TaskId, b: TaskId| !r.spec_edge(a, b),
    {
        Self::new()
    }
}

/// Forward and reverse dependency views are symmetric: `task` waits for
/// `depends_on` exactly when `task` is among the waiters of `depends_on`.
/// Both views read the same edge list, so no mutation can break this.
pub proof fn lemma_edges_symmetric(g: DependencyGraph, task: TaskId, depends_on: TaskId)
    ensures
        g.spec_deps(task).contains(depends_on) <==> g.spec_waiters(depends_on).contains(task),
{
}


/// Whether `t` occurs as either end of some edge.
pub open spec fn is_node(g: DependencyGraph, t: TaskId) -> bool {
    exists|i: int|
        0 <= i < g.edge_seq().len() && (g.edge_seq()[i].0 == t || g.edge_seq()[i].1 == t)
}

/// Every consecutive pair of `path` is an edge of `g`.
pub open spec fn is_chain(g: DependencyGraph, path: Seq<TaskId>) -> bool {
    forall|i: int| 0 <= i < path.len() - 1 ==> g.spec_edge(#[trigger] path[i], path[i + 1])
}

/// A dependency cycle: a chain of at least one edge that ends where it
/// started.
pub open spec fn is_cycle(g: DependencyGraph, path: Seq<TaskId>) -> bool {
    path.len() >= 2 && path.first() == path.last() && is_chain(g, path)
}

/// Whether `g` contains any dependency cycle.
pub open spec fn has_cycle(g: DependencyGraph) -> bool {
    exists|p: Seq<TaskId>| is_cycle(g, p)
}

/// Finished nodes are listed after everything they depend on.
pub open spec fn black_closed(g: DependencyGraph, black: Seq<TaskId>) -> bool {
    forall|i: int, d: TaskId|
        0 <= i < black.len() && g.spec_edge(black[i], d) ==> exists|j: int|
            0 <= j < i && black[j] == d
}

/// Whether `v` holds `x`.
fn vec_holds(v: &Vec<TaskId>, x: TaskId) -> (r: bool)
    ensures
        r == v@.contains(x),
{
    let mut i: usize = 0;
    while i < v.len()
        invariant
            i <= v.len(),
            forall|j: int| 0 <= j < i ==> v@[j] != x,
        decreases v.len() - i,
    {
        if v[i] == x {
            return true;
        }
        i = i + 1;
    }
    false
}

/// The first position of `x` in `v`.
fn vec_position(v: &Vec<TaskId>, x: TaskId) -> (r: usize)
    requires
        v@.contains(x),
    ensures
        r < v@.len(),
        v@[r as int] == x,
{
    let mut i: usize = 0;
    while i < v.len()
        invariant
            i <= v.len(),
            forall|j: int| 0 <= j < i ==> v@[j] != x,
            v@.contains(x),
        decreases v.len() - i,
    {
        if v[i] == x {
            return i;
        }
        i = i + 1;
    }
    proof {
        let j = choose|j: int| 0 <= j < v@.len() && v@[j] == x;
        assert(false);
    }
    0
}

/// Two disjoint duplicate-free lists of universe members, plus one more
/// member outside both, never outnumber the universe.
proof fn lemma_disjoint_bound(
    universe: Seq<TaskId>,
    a: Seq<TaskId>,
    b: Seq<TaskId>,
    x: TaskId,
)
    requires
        universe.no_duplicates(),
        a.no_duplicates(),
        b.no_duplicates(),
        forall|t: TaskId| a.contains(t) ==> !b.contains(t),
        forall|t: TaskId| a.contains(t) ==> universe.contains(t),
        forall|t: TaskId| b.contains(t) ==> universe.contains(t),
        universe.contains(x),
        !a.contains(x),
        !b.contains(x),
    ensures
        a.len() + b.len() + 1 <= universe.len(),
{
    broadcast use vstd::seq_lib::seq_to_set_is_finite;

    let c = a + b + seq![x];
    assert forall|i: int, j: int| 0 <= i < j < c.len() implies c[i] != c[j] by {
        if i < a.len() {
            assert(c[i] == a[i]);
            assert(a.contains(a[i]));
        } else if i < a.len() + b.len() {
            assert(c[i] == b[i - a.len()]);
            assert(b.contains(b[i - a.len()]));
        }
        if j < a.len() {
            assert(c[j] == a[j]);
        } else if j < a.len() + b.len() {
            assert(c[j] == b[j - a.len()]);
            assert(b.contains(b[j - a.len()]));
        } else {
            assert(c[j] == x);
        }
    }
    assert(c.no_duplicates());
    c.unique_seq_to_set();
    universe.unique_seq_to_set();
    assert forall|t: TaskId| c.to_set().contains(t) implies universe.to_set().contains(t) by {
        assert(c.contains(t));
        let i = choose|i: int| 0 <= i < c.len() && c[i] == t;
        if i < a.len() {
            assert(a.contains(c[i]));
        } else if i < a.len() + b.len() {
            assert(b.contains(c[i]));
        } else {
            assert(c[i] == x);
        }
        assert(universe.contains(t));
    }
    vstd::set_lib::lemma_len_subset(c.to_set(), universe.to_set());
}

/// Walking a chain from a finished node only moves backwards through the
/// finished list; returns the position where the chain ends.
proof fn lemma_chain_descends(
    g: DependencyGraph,
    black: Seq<TaskId>,
    p: Seq<TaskId>,
    i0: int,
) -> (il: int)
    requires
        black_closed(g, black),
        black.no_duplicates(),
        is_chain(g, p),
        p.len() >= 1,
        0 <= i0 < black.len(),
        black[i0] == p[0],
    ensures
        0 <= il < black.len(),
        black[il] == p.last(),
        p.len() >= 2 ==> il < i0,
    decreases p.len(),
{
    if p.len() == 1 {
        i0
    } else {
        assert(g.spec_edge(p[0], p[1]));
        let j = choose|j: int| 0 <= j < i0 && black[j] == p[1];
        let q = p.subrange(1, p.len() as int);
        assert forall|i: int| 0 <= i < q.len() - 1 implies #[trigger] g.spec_edge(q[i], q[i + 1]) by {
            assert(q[i] == p[i + 1]);
            assert(q[i + 1] == p[i + 2]);
        }
        assert(q[0] == p[1]);
        assert(q.last() == p.last());
        let il = lemma_chain_descends(g, black, q, j);
        il
    }
}

impl DependencyGraph {

    /// Closes the loop found when `d`, already on the current path at
    /// `idx`, turned up again as a dependency of the path's last node.
    fn build_cycle(&self, path: &Vec<TaskId>, idx: usize, d: TaskId) -> (r: Vec<TaskId>)
        requires
            self.wf(),
            is_chain(*self, path@),
            idx < path@.len(),
            path@[idx as int] == d,
            self.spec_edge(path@.last(), d),
        ensures
            is_cycle(*self, r@),
    {
        let mut cyc: Vec<TaskId> = Vec::new();
        let mut j: usize = idx;
        while j < path.len()
            invariant
                idx <= j <= path.len(),
                cyc@ == path@.subrange(idx as int, j as int),
            decreases path.len() - j,
        {
            cyc.push(path[j]);
            proof {
                assert(cyc@ =~= path@.subrange(idx as int, j as int + 1));
            }
            j = j + 1;
        }
        cyc.push(d);
        proof {
            let n = path@.len() as int;
            assert(cyc@.len() >= 2);
            assert(cyc@.first() == path@[idx as int]);
            assert(cyc@.last() == d);
            assert forall|i: int| 0 <= i < cyc@.len() - 1 implies #[trigger] self.spec_edge(
                cyc@[i],
                cyc@[i + 1],
            ) by {
                if i < cyc@.len() - 2 {
                    assert(cyc@[i] == path@[idx + i]);
                    assert(cyc@[i + 1] == path@[idx + i + 1]);
                    assert(self.spec_edge(path@[idx + i], path@[idx + i + 1]));
                } else {
                    assert(cyc@[i] == path@[n - 1]);
                    assert(cyc@[i + 1] == d);
                }
            }
            assert(is_cycle(*self, cyc@));
        }
        cyc
    }

    /// Depth-first visit of `node`: either returns a genuine cycle, or
    /// finishes `node` (and everything reachable from it) onto `black`.
    #[verifier::rlimit(100)]
    fn dfs_visit(
        &self,
        node: TaskId,
        path: &mut Vec<TaskId>,
        black: &mut Vec<TaskId>,
        Ghost(universe): Ghost<Seq<TaskId>>,
        Ghost(fuel): Ghost<int>,
    ) -> (r: Option<Vec<TaskId>>)
        requires
            fuel == universe.len() - old(path)@.len() - old(black)@.len(),
            self.wf(),
            universe.no_duplicates(),
            forall|t: TaskId| is_node(*self, t) ==> universe.contains(t),
            old(path)@.no_duplicates(),
            old(black)@.no_duplicates(),
            forall|t: TaskId| old(path)@.contains(t) ==> !old(black)@.contains(t),
            forall|t: TaskId| old(path)@.contains(t) ==> universe.contains(t),
            forall|t: TaskId| old(black)@.contains(t) ==> universe.contains(t),
            black_closed(*self, old(black)@),
            is_chain(*self, old(path)@.push(node)),
            !old(path)@.contains(node),
            !old(black)@.contains(node),
            is_node(*self, node),
        ensures
            match r {
                Some(c) => is_cycle(*self, c@),
                None => {
                    &&& final(path)@ == old(path)@
                    &&& final(black)@.no_duplicates()
                    &&& black_closed(*self, final(black)@)
                    &&& old(black)@.is_prefix_of(final(black)@)
                    &&& final(black)@.contains(node)
                    &&& (forall|t: TaskId|
                        final(black)@.contains(t) ==> universe.contains(t))
                    &&& (forall|t: TaskId|
                        final(path)@.contains(t) ==> !final(black)@.contains(t))
                },
            },
        decreases fuel,
    {
        proof {
            lemma_disjoint_bound(universe, path@, black@, node);
        }
        let ghost path0 = path@;
        let ghost black0 = black@;
        path.push(node);
        let deps = self.get_dependencies(node);
        let mut k: usize = 0;
        while k < deps.len()
            invariant
                self.wf(),
                universe.no_duplicates(),
                forall|t: TaskId| is_node(*self, t) ==> universe.contains(t),
                path@ == path0.push(node),
                fuel == universe.len() - path0.len() - black0.len(),
                black0.len() <= black@.len(),
                path@.no_duplicates(),
                black@.no_duplicates(),
                forall|t: TaskId| path@.contains(t) ==> !black@.contains(t),
                forall|t: TaskId| path@.contains(t) ==> universe.contains(t),
                forall|t: TaskId| black@.contains(t) ==> universe.contains(t),
                black_closed(*self, black@),
                black0.is_prefix_of(black@),
                is_chain(*self, path@),
                k <= deps.len(),
                forall|d: TaskId| deps@.contains(d) <==> self.spec_edge(node, d),
                forall|j: int| 0 <= j < k ==> black@.contains(deps@[j]),
            decreases deps.len() - k,
        {
            let d = deps[k];
            proof {
                assert(deps@.contains(d));
                assert(self.spec_edge(node, d));
            }
            if vec_holds(path, d) {
                let idx = vec_position(path, d);
                return Some(self.build_cycle(path, idx, d));
            }
            if !vec_holds(black, d) {
                proof {
                    assert(is_node(*self, d)) by {
                        let e = choose|e: int|
                            0 <= e < self.edge_seq().len() && self.edge_seq()[e] == (node, d);
                        assert(self.edge_seq()[e].1 == d);
                    }
                }
                let ghost black_before = black@;
                proof {
                    lemma_disjoint_bound(universe, path@, black@, d);
                }
                let ghost f2 = universe.len() - path@.len() - black@.len();
                proof {
                    assert(1 <= f2);
                    assert(path@.len() == path0.len() + 1);
                    assert(black0.len() <= black@.len());
                    assert(fuel == universe.len() - path0.len() - black0.len());
                    assert(f2 < fuel);
                }
                let found = self.dfs_visit(d, path, black, Ghost(universe), Ghost(f2));
                if let Some(c) = found {
                    return Some(c);
                }
                proof {
                    assert forall|j: int| 0 <= j < k + 1 implies black@.contains(deps@[j]) by {
                        if j < k {
                            assert(black_before.contains(deps@[j]));
                            let jj = choose|jj: int|
                                0 <= jj < black_before.len() && black_before[jj] == deps@[j];
                            assert(black@[jj] == deps@[j]);
                        }
                    }
                    assert(black0.is_prefix_of(black@)) by {
                        assert(black0.is_prefix_of(black_before));
                        assert(black_before.is_prefix_of(black@));
                        assert forall|i: int| 0 <= i < black0.len() implies black0[i] == black@[i]
                            by {
                            assert(black0[i] == black_before[i]);
                        }
                    }
                }
            } else {
                proof {
                    assert forall|j: int| 0 <= j < k + 1 implies black@.contains(deps@[j]) by {}
                }
            }
            k = k + 1;
        }
        path.pop();
        proof {
            assert(path@ =~= path0);
        }
        let ghost black1 = black@;
        black.push(node);
        proof {
            assert(black@.no_duplicates()) by {
                assert(forall|i: int| 0 <= i < black1.len() ==> black@[i] == black1[i]);
                assert(black@[black1.len() as int] == node);
                assert(!black1.contains(node)) by {
                    if black1.contains(node) {
                        assert(path0.push(node).contains(node)) by {
                            assert(path0.push(node)[path0.len() as int] == node);
                        }
                    }
                }
                assert forall|i: int, j: int| 0 <= i < j < black@.len() implies black@[i]
                    != black@[j] by {
                    if j < black1.len() {
                    } else {
                        assert(black@[j] == node);
                        if black@[i] == node {
                            assert(black1[i] == node);
                            assert(black1.contains(node));
                        }
                    }
                }
            }
            assert(black_closed(*self, black@)) by {
                assert forall|i: int, d: TaskId|
                    0 <= i < black@.len() && self.spec_edge(black@[i], d) implies exists|j: int|
                    0 <= j < i && black@[j] == d by {
                    if i < black1.len() {
                        assert(black1[i] == black@[i]);
                        let j = choose|j: int| 0 <= j < i && black1[j] == d;
                        assert(black@[j] == d);
                    } else {
                        assert(black@[i] == node);
                        assert(deps@.contains(d));
                        let j = choose|j: int| 0 <= j < deps@.len() && deps@[j] == d;
                        assert(black1.contains(d));
                        let jj = choose|jj: int| 0 <= jj < black1.len() && black1[jj] == d;
                        assert(black@[jj] == d);
                    }
                }
            }
            assert(black0.is_prefix_of(black@)) by {
                assert forall|i: int| 0 <= i < black0.len() implies black0[i] == black@[i] by {
                    assert(black0[i] == black1[i]);
                }
            }
            assert(black@.contains(node)) by {
                assert(black@[black1.len() as int] == node);
            }
            assert forall|t: TaskId| black@.contains(t) implies universe.contains(t) by {
                let i = choose|i: int| 0 <= i < black@.len() && black@[i] == t;
                if i < black1.len() {
                    assert(black1.contains(t));
                } else {
                    assert(t == node);
                }
            }
            assert forall|t: TaskId| path@.contains(t) implies !black@.contains(t) by {
                if black@.contains(t) {
                    let i = choose|i: int| 0 <= i < black@.len() && black@[i] == t;
                    if i < black1.len() {
                        assert(black1.contains(t));
                        assert(path0.push(node).contains(t)) by {
                            let j = choose|j: int| 0 <= j < path0.len() && path0[j] == t;
                            assert(path0.push(node)[j] == t);
                        }
                    } else {
                        assert(t == node);
                        assert(path0.push(node).contains(t)) by {
                            assert(path0.push(node)[path0.len() as int] == t);
                        }
                    }
                }
            }
        }
        None
    }

    /// Looks for a dependency cycle. Returns a path that starts and ends
    /// at the same task and follows dependency edges, or nothing exactly
    /// when the graph is acyclic.
    pub fn detect_cycle(&self) -> (r: Option<Vec<TaskId>>)
        requires
            self.wf(),
        ensures
            match r {
                Some(p) => is_cycle(*self, p@),
                None => !has_cycle(*self),
            },
    {
        let mut universe: Vec<TaskId> = Vec::new();
        let mut i: usize = 0;
        while i < self.pairs.len()
            invariant
                i <= self.pairs.len(),
                universe@.no_duplicates(),
                forall|t: TaskId|
                    universe@.contains(t) <==> (exists|e: int|
                        0 <= e < i && (self.edge_seq()[e].0 == t || self.edge_seq()[e].1 == t)),
            decreases self.pairs.len() - i,
        {
            let ghost u0 = universe@;
            let a = self.pairs[i].0;
            let b = self.pairs[i].1;
            if !vec_holds(&universe, a) {
                universe.push(a);
            }
            let ghost u1 = universe@;
            if !vec_holds(&universe, b) {
                universe.push(b);
            }
            proof {
                assert(u0.is_prefix_of(universe@));
                assert(universe@.no_duplicates()) by {
                    assert forall|x: int, y: int| 0 <= x < y < universe@.len() implies universe@[x]
                        != universe@[y] by {
                        if y < u1.len() {
                            if y < u0.len() {
                            } else {
                                assert(universe@[y] == a);
                                if universe@[x] == a {
                                    assert(u0[x] == a);
                                    assert(u0.contains(a));
                                }
                            }
                        } else {
                            assert(universe@[y] == b);
                            if universe@[x] == b {
                                assert(u1[x] == b);
                                assert(u1.contains(b));
                            }
                        }
                    }
                }
                assert forall|t: TaskId|
                    universe@.contains(t) <==> (exists|e: int|
                        0 <= e < i + 1 && (self.edge_seq()[e].0 == t || self.edge_seq()[e].1
                            == t)) by {
                    if universe@.contains(t) {
                        let x = choose|x: int| 0 <= x < universe@.len() && universe@[x] == t;
                        if x < u0.len() {
                            assert(u0.contains(t));
                        } else if x < u1.len() {
                            assert(t == a);
                            assert(self.edge_seq()[i as int].0 == t);
                        } else {
                            assert(t == b);
                            assert(self.edge_seq()[i as int].1 == t);
                        }
                    }
                    if exists|e: int|
                        0 <= e < i + 1 && (self.edge_seq()[e].0 == t || self.edge_seq()[e].1 == t) {
                        let e = choose|e: int|
                            0 <= e < i + 1 && (self.edge_seq()[e].0 == t || self.edge_seq()[e].1
                                == t);
                        if e < i {
                            assert(u0.contains(t));
                            let x = choose|x: int| 0 <= x < u0.len() && u0[x] == t;
                            assert(universe@[x] == t);
                        } else {
                            if self.edge_seq()[e].0 == t {
                                assert(u1.contains(t)) by {
                                    if u0.contains(t) {
                                        let x = choose|x: int| 0 <= x < u0.len() && u0[x] == t;
                                        assert(u1[x] == t);
                                    } else {
                                        assert(u1[u0.len() as int] == t);
                                    }
                                }
                                let x = choose|x: int| 0 <= x < u1.len() && u1[x] == t;
                                assert(universe@[x] == t);
                            } else {
                                assert(universe@.contains(t)) by {
                                    if u1.contains(t) {
                                        let x = choose|x: int| 0 <= x < u1.len() && u1[x] == t;
                                        assert(universe@[x] == t);
                                    } else {
                                        assert(universe@[u1.len() as int] == t);
                                    }
                                }
                            }
                        }
                    }
                }
            }
            i = i + 1;
        }
        proof {
            assert(forall|t: TaskId| is_node(*self, t) ==> universe@.contains(t));
            assert(forall|t: TaskId| universe@.contains(t) ==> is_node(*self, t));
        }
        let mut black: Vec<TaskId> = Vec::new();
        let mut path: Vec<TaskId> = Vec::new();
        let mut s: usize = 0;
        while s < universe.len()
            invariant
                self.wf(),
                universe@.no_duplicates(),
                forall|t: TaskId| is_node(*self, t) ==> universe@.contains(t),
                forall|t: TaskId| universe@.contains(t) ==> is_node(*self, t),
                path@.len() == 0,
                black@.no_duplicates(),
                black_closed(*self, black@),
                forall|t: TaskId| black@.contains(t) ==> universe@.contains(t),
                s <= universe.len(),
                forall|j: int| 0 <= j < s ==> black@.contains(universe@[j]),
            decreases universe.len() - s,
        {
            let n = universe[s];
            if !vec_holds(&black, n) {
                proof {
                    assert(is_chain(*self, path@.push(n))) by {
                        assert(path@.push(n).len() == 1);
                    }
                }
                let ghost black_before = black@;
                let ghost f0 = universe@.len() - path@.len() - black@.len();
                let found = self.dfs_visit(n, &mut path, &mut black, Ghost(universe@), Ghost(f0));
                if let Some(c) = found {
                    return Some(c);
                }
                proof {
                    assert forall|j: int| 0 <= j < s + 1 implies black@.contains(universe@[j]) by {
                        if j < s {
                            assert(black_before.contains(universe@[j]));
                            let x = choose|x: int|
                                0 <= x < black_before.len() && black_before[x] == universe@[j];
                            assert(black@[x] == universe@[j]);
                        }
                    }
                }
            }
            s = s + 1;
        }
        proof {
            if has_cycle(*self) {
                let p = choose|p: Seq<TaskId>| is_cycle(*self, p);
                assert(self.spec_edge(p[0], p[1]));
                assert(is_node(*self, p[0])) by {
                    let e = choose|e: int|
                        0 <= e < self.edge_seq().len() && self.edge_seq()[e] == (p[0], p[1]);
                    assert(self.edge_seq()[e].0 == p[0]);
                }
                assert(universe@.contains(p[0]));
                let u = choose|u: int| 0 <= u < universe@.len() && universe@[u] == p[0];
                assert(black@.contains(p[0]));
                let i0 = choose|i0: int| 0 <= i0 < black@.len() && black@[i0] == p[0];
                let il = lemma_chain_descends(*self, black@, p, i0);
                assert(black@[il] == p.last());
                assert(p.last() == p[0]);
                assert(il < i0);
                assert(black@[il] == black@[i0]);
                assert(false);
            }
        }
        None
    }
}

} // verus!
