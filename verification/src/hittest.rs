//! The arena of the hit-test tree: nodes are allocated in a vector, freed nodes
//! are kept in a set and reused smallest first, and every node knows its parent
//! and its children. What a node covers on screen is its `data`.
use vstd::prelude::*;
use std::collections::BTreeSet;
use crate::quad_tree::lemma_filter_keeps_all;

verus! {

broadcast use vstd::std_specs::btree::group_btree_axioms, vstd::laws_cmp::group_laws_cmp;

/// Calls `BTreeSet::pop_first`, which removes and returns the smallest element of
/// the set, or returns `None` and leaves the set as it is when it is empty.
#[verifier::external_body]
fn btree_set_pop_first(s: &mut BTreeSet<usize>) -> (r: Option<usize>)
    ensures
        match r {
            None => old(s)@ == Set::<usize>::empty() && final(s)@ == old(s)@,
            Some(k) => {
                &&& old(s)@.contains(k)
                &&& final(s)@ == old(s)@.remove(k)
                &&& forall|x: usize| old(s)@.contains(x) ==> k <= x
            },
        },
{
    s.pop_first()
}

/// A node of the hit-test tree, by its slot in the arena.
#[derive(Clone, Copy, Debug, PartialEq, Eq, Structural)]
pub struct HitTestTreeRef(usize);

impl HitTestTreeRef {
    /// The slot of the node.
    pub closed spec fn id(self) -> usize {
        self.0
    }

    /// The slot of the node.
    pub fn index(self) -> (r: usize)
        ensures
            r == self.id(),
    {
        self.0
    }
}

/// A node: its parent, its children (later ones lie on top) and what it covers.
pub struct HitTestTreeData<D> {
    pub parent: Option<HitTestTreeRef>,
    pub children: Vec<HitTestTreeRef>,
    pub data: D,
}

/// The arena of nodes, with the set of freed slots.
pub struct HitTestTreeManager<D> {
    pub entities: Vec<HitTestTreeData<D>>,
    pub free: BTreeSet<usize>,
}

/// Every freed slot exists.
pub open spec fn free_in_range<D>(entities: Seq<HitTestTreeData<D>>, free: Set<usize>) -> bool {
    forall|f: usize| free.contains(f) ==> f < entities.len()
}

/// `c` is the slot of a child of the node in slot `parent`.
pub open spec fn is_child_of<D>(entities: Seq<HitTestTreeData<D>>, parent: usize, c: usize) -> bool {
    &&& parent < entities.len()
    &&& exists|k: int|
        0 <= k < entities[parent as int].children@.len()
            && #[trigger] entities[parent as int].children@[k].id() == c
}

/// `p` is a nonempty sequence of slots, each after the first a child of the one before.
pub open spec fn is_child_path<D>(entities: Seq<HitTestTreeData<D>>, p: Seq<usize>) -> bool {
    &&& p.len() >= 1
    &&& forall|i: int| #![trigger p[i]] 0 <= i < p.len() - 1 ==> is_child_of(entities, p[i], p[i + 1])
}

/// The node in slot `to` is the node in slot `from` or lies below it.
pub open spec fn reaches<D>(entities: Seq<HitTestTreeData<D>>, from: usize, to: usize) -> bool {
    exists|p: Seq<usize>| #[trigger] is_child_path(entities, p) && p[0] == from && p.last() == to
}

/// The slots of the node `from` and of every node below it.
pub open spec fn subtree<D>(entities: Seq<HitTestTreeData<D>>, from: usize) -> Set<usize> {
    Set::new(|n: usize| reaches(entities, from, n))
}

/// Every node at or below the node in slot `from` has an existing slot.
pub open spec fn subtree_in_range<D>(entities: Seq<HitTestTreeData<D>>, from: usize) -> bool {
    forall|n: usize| #[trigger] reaches(entities, from, n) ==> n < entities.len()
}

/// A rank that every child of a node at or below `from` is below.
pub open spec fn subtree_ranked_by<D>(
    entities: Seq<HitTestTreeData<D>>,
    from: usize,
    rank: spec_fn(usize) -> nat,
) -> bool {
    forall|n: usize, k: int|
        #![trigger reaches(entities, from, n), entities[n as int].children@[k]]
        reaches(entities, from, n) && n < entities.len() && 0 <= k < entities[n as int].children@.len()
            ==> rank(entities[n as int].children@[k].id()) < rank(n)
}

/// The child links below the node in slot `from` have no cycle.
pub open spec fn subtree_acyclic<D>(entities: Seq<HitTestTreeData<D>>, from: usize) -> bool {
    exists|rank: spec_fn(usize) -> nat| subtree_ranked_by(entities, from, rank)
}

proof fn lemma_path_tail<D>(entities: Seq<HitTestTreeData<D>>, p: Seq<usize>)
    requires
        is_child_path(entities, p),
        p.len() >= 2,
    ensures
        is_child_path(entities, p.drop_first()),
        is_child_of(entities, p[0], p[1]),
        p.drop_first()[0] == p[1],
        p.drop_first().last() == p.last(),
{
    let q = p.drop_first();
    assert forall|i: int| #![trigger q[i]] 0 <= i < q.len() - 1 implies is_child_of(entities, q[i], q[i + 1]) by {
        assert(p[i + 1] == q[i]);
    }
    assert(p[0] == p[0]);
}

proof fn lemma_path_extend<D>(entities: Seq<HitTestTreeData<D>>, p: Seq<usize>, c: usize)
    requires
        is_child_path(entities, p),
        is_child_of(entities, p.last(), c),
    ensures
        is_child_path(entities, p.push(c)),
        p.push(c)[0] == p[0],
        p.push(c).last() == c,
{
    let q = p.push(c);
    assert forall|i: int| #![trigger q[i]] 0 <= i < q.len() - 1 implies is_child_of(entities, q[i], q[i + 1]) by {
        if i < p.len() - 1 {
            assert(p[i] == q[i]);
        }
    }
}

impl<D> HitTestTreeManager<D> {
    /// Every freed slot exists.
    pub open spec fn wf(&self) -> bool {
        free_in_range(self.entities@, self.free@)
    }

    /// An empty arena.
    pub fn new() -> (m: Self)
        ensures
            m.wf(),
            m.entities@ == Seq::<HitTestTreeData<D>>::empty(),
            m.free@ == Set::<usize>::empty(),
    {
        HitTestTreeManager { entities: Vec::new(), free: BTreeSet::new() }
    }

    /// Stores a node in the smallest freed slot, or in a new slot at the end when none is free.
    pub fn allocate(&mut self, data: HitTestTreeData<D>) -> (r: HitTestTreeRef)
        requires
            old(self).wf(),
        ensures
            final(self).wf(),
            old(self).free@ == Set::<usize>::empty() ==> {
                &&& r.id() == old(self).entities@.len()
                &&& final(self).entities@ == old(self).entities@.push(data)
                &&& final(self).free@ == old(self).free@
            },
            old(self).free@ != Set::<usize>::empty() ==> {
                &&& old(self).free@.contains(r.id())
                &&& forall|x: usize| old(self).free@.contains(x) ==> r.id() <= x
                &&& final(self).entities@ == old(self).entities@.update(r.id() as int, data)
                &&& final(self).free@ == old(self).free@.remove(r.id())
            },
    {
        match btree_set_pop_first(&mut self.free) {
            Some(f) => {
                self.entities.set(f, data);
                HitTestTreeRef(f)
            },
            None => {
                self.entities.push(data);
                HitTestTreeRef(self.entities.len() - 1)
            },
        }
    }

    /// Marks the slot of a node free. The arena stays well formed only when the
    /// slot exists.
    pub fn free(&mut self, index: HitTestTreeRef)
        ensures
            final(self).wf() == (old(self).wf() && index.id() < old(self).entities@.len()),
            final(self).free@ == old(self).free@.insert(index.id()),
            final(self).entities@ == old(self).entities@,
    {
        self.free.insert(index.0);
        proof {
            if free_in_range(self.entities@, self.free@) {
                assert(self.free@.contains(index.id()));
                assert forall|f: usize| old(self).free@.contains(f) implies f < self.entities@.len() by {
                    assert(self.free@.contains(f));
                }
            }
        }
    }

    /// The node in a slot.
    pub fn get(&self, index: HitTestTreeRef) -> (r: &HitTestTreeData<D>)
        requires
            index.id() < self.entities@.len(),
        ensures
            *r == self.entities@[index.id() as int],
    {
        &self.entities[index.0]
    }

    /// Makes `child` the last child of `parent`, and `parent` its parent.
    pub fn add_child(&mut self, parent: HitTestTreeRef, child: HitTestTreeRef)
        requires
            parent.id() < old(self).entities@.len(),
            child.id() < old(self).entities@.len(),
        ensures
            final(self).free@ == old(self).free@,
            final(self).entities@.len() == old(self).entities@.len(),
            forall|i: int|
                0 <= i < final(self).entities@.len() && i != parent.id() && i != child.id()
                    ==> #[trigger] final(self).entities@[i] == old(self).entities@[i],
            final(self).entities@[parent.id() as int].children@ == old(self).entities@[parent.id() as int].children@.push(child),
            final(self).entities@[child.id() as int].parent == Some(parent),
            parent != child ==> final(self).entities@[child.id() as int].children@ == old(self).entities@[child.id() as int].children@,
            parent != child ==> final(self).entities@[parent.id() as int].parent == old(self).entities@[parent.id() as int].parent,
            final(self).entities@[child.id() as int].data == old(self).entities@[child.id() as int].data,
            final(self).entities@[parent.id() as int].data == old(self).entities@[parent.id() as int].data,
    {
        self.entities[parent.0].children.push(child);
        self.entities[child.0].parent = Some(parent);
    }

    /// The node in a slot, to change.
    pub fn get_mut(&mut self, index: HitTestTreeRef) -> (r: &mut HitTestTreeData<D>)
        requires
            index.id() < old(self).entities@.len(),
        ensures
            *r == old(self).entities@[index.id() as int],
            final(self).entities@ == old(self).entities@.update(index.id() as int, *final(r)),
            final(self).free@ == old(self).free@,
    {
        &mut self.entities[index.0]
    }

    /// Detaches `child` from its parent: the child has no parent afterwards and is no
    /// longer among the parent's children. A node without a parent is left as it is.
    pub fn remove_child(&mut self, child: HitTestTreeRef)
        requires
            child.id() < old(self).entities@.len(),
            old(self).entities@[child.id() as int].parent matches Some(p) ==> p.id() < old(
                self,
            ).entities@.len(),
        ensures
            final(self).free@ == old(self).free@,
            final(self).entities@.len() == old(self).entities@.len(),
            match old(self).entities@[child.id() as int].parent {
                None => final(self).entities@ == old(self).entities@,
                Some(p) => {
                    &&& final(self).entities@[child.id() as int].parent == None::<HitTestTreeRef>
                    &&& final(self).entities@[p.id() as int].children@ == old(self).entities@[p.id() as int].children@.filter(
                        |x: HitTestTreeRef| x != child,
                    )
                    &&& p != child ==> final(self).entities@[p.id() as int].parent == old(self).entities@[p.id() as int].parent
                    &&& p != child ==> final(self).entities@[child.id() as int].children == old(self).entities@[child.id() as int].children
                    &&& final(self).entities@[p.id() as int].data == old(self).entities@[p.id() as int].data
                    &&& final(self).entities@[child.id() as int].data == old(self).entities@[child.id() as int].data
                    &&& forall|i: int|
                        0 <= i < final(self).entities@.len() && i != p.id() && i != child.id()
                            ==> #[trigger] final(self).entities@[i] == old(self).entities@[i]
                },
            },
    {
        let p = match self.entities[child.0].parent {
            None => {
                return;
            },
            Some(p) => p,
        };
        self.entities[child.0].parent = None;
        let kept = without(&self.entities[p.0].children, child);
        self.entities[p.0].children = kept;
    }

    /// Frees the node and every node below it. The nodes below it must exist and
    /// their child links must not form a cycle; the rest of the arena may be in any state.
    pub fn free_rec(&mut self, index: HitTestTreeRef)
        requires
            subtree_in_range(old(self).entities@, index.id()),
            subtree_acyclic(old(self).entities@, index.id()),
        ensures
            final(self).wf() == old(self).wf(),
            final(self).entities@ == old(self).entities@,
            final(self).free@ == old(self).free@.union(subtree(old(self).entities@, index.id())),
    {
        let ghost ents = self.entities@;
        let ghost rank = choose|rank: spec_fn(usize) -> nat| subtree_ranked_by(ents, index.id(), rank);
        let ghost sub = subtree(ents, index.id());
        let mut stack: Vec<HitTestTreeRef> = Vec::new();
        stack.push(index);
        let ghost mut bound: nat = rank(index.id()) + 1;
        let ghost mut visited: Set<usize> = Set::empty();
        proof {
            let p0 = seq![index.id()];
            assert(is_child_path(ents, p0));
            assert(reaches(ents, index.id(), index.id()));
            assert(self.free@ =~= old(self).free@.union(visited));
            assert forall|n: usize| sub.contains(n) implies visited.contains(n) || exists|k: int|
                0 <= k < stack@.len() && reaches(ents, #[trigger] stack@[k].id(), n) by {
                assert(stack@[0].id() == index.id());
            }
        }
        while stack.len() > 0
            invariant
                self.entities@ == ents,
                ents == old(self).entities@,
                subtree_in_range(ents, index.id()),
                subtree_ranked_by(ents, index.id(), rank),
                sub == subtree(ents, index.id()),
                forall|k: int|
                    0 <= k < stack@.len() ==> {
                        &&& (#[trigger] stack@[k]).id() < ents.len()
                        &&& sub.contains(stack@[k].id())
                        &&& rank(stack@[k].id()) < bound
                    },
                visited.subset_of(sub),
                self.free@ == old(self).free@.union(visited),
                forall|n: usize|
                    sub.contains(n) ==> visited.contains(n) || exists|k: int|
                        0 <= k < stack@.len() && reaches(ents, #[trigger] stack@[k].id(), n),
            decreases bound,
        {
            let mut cur: Vec<HitTestTreeRef> = Vec::new();
            std::mem::swap(&mut cur, &mut stack);
            assert(rank(cur@[0].id()) < bound);
            let mut j: usize = 0;
            while j < cur.len()
                invariant
                    self.entities@ == ents,
                    ents == old(self).entities@,
                        subtree_in_range(ents, index.id()),
                    subtree_ranked_by(ents, index.id(), rank),
                    sub == subtree(ents, index.id()),
                    bound >= 1,
                    0 <= j <= cur@.len(),
                    forall|k: int|
                        0 <= k < cur@.len() ==> {
                            &&& (#[trigger] cur@[k]).id() < ents.len()
                            &&& sub.contains(cur@[k].id())
                            &&& rank(cur@[k].id()) < bound
                        },
                    forall|k: int|
                        0 <= k < stack@.len() ==> {
                            &&& (#[trigger] stack@[k]).id() < ents.len()
                            &&& sub.contains(stack@[k].id())
                            &&& rank(stack@[k].id()) < bound - 1
                        },
                    visited.subset_of(sub),
                    self.free@ == old(self).free@.union(visited),
                    forall|n: usize|
                        sub.contains(n) ==> visited.contains(n) || (exists|k: int|
                            j <= k < cur@.len() && reaches(ents, #[trigger] cur@[k].id(), n)) || (
                        exists|k: int| 0 <= k < stack@.len() && reaches(ents, #[trigger] stack@[k].id(), n)),
                decreases cur.len() - j,
            {
                let x = cur[j];
                let ghost stack_before = stack@;
                let mut c: usize = 0;
                while c < self.entities[x.0].children.len()
                    invariant
                        self.entities@ == ents,
                        x.id() < ents.len(),
                        0 <= c <= ents[x.id() as int].children@.len(),
                        stack@ == stack_before + ents[x.id() as int].children@.take(c as int),
                    decreases ents[x.id() as int].children@.len() - c,
                {
                    stack.push(self.entities[x.0].children[c]);
                    assert(ents[x.id() as int].children@.take(c + 1) =~= ents[x.id() as int].children@.take(c as int).push(ents[x.id() as int].children@[c as int]));
                    c = c + 1;
                }
                assert(ents[x.id() as int].children@.take(c as int) =~= ents[x.id() as int].children@);
                let ghost kids = ents[x.id() as int].children@;
                self.free(x);
                proof {
                    let old_visited = visited;
                    visited = visited.insert(x.id());
                    assert(self.free@ =~= old(self).free@.union(visited));
                    assert(sub.contains(x.id()));
                    let px = choose|p: Seq<usize>| #[trigger] is_child_path(ents, p) && p[0] == index.id() && p.last() == x.id();
                    assert forall|k: int| 0 <= k < stack@.len() implies {
                        &&& (#[trigger] stack@[k]).id() < ents.len()
                        &&& sub.contains(stack@[k].id())
                        &&& rank(stack@[k].id()) < bound - 1
                    } by {
                        if k >= stack_before.len() {
                            let kk = k - stack_before.len();
                            assert(stack@[k] == kids[kk]);
                            assert(is_child_of(ents, x.id(), kids[kk].id()));
                            lemma_path_extend(ents, px, kids[kk].id());
                            assert(reaches(ents, index.id(), kids[kk].id()));
                        } else {
                            assert(stack@[k] == stack_before[k]);
                        }
                    }
                    assert forall|n: usize| sub.contains(n) implies visited.contains(n) || (exists|k: int|
                        j + 1 <= k < cur@.len() && reaches(ents, #[trigger] cur@[k].id(), n)) || (
                    exists|k: int| 0 <= k < stack@.len() && reaches(ents, #[trigger] stack@[k].id(), n)) by {
                        if old_visited.contains(n) {
                        } else if exists|k: int| 0 <= k < stack_before.len() && reaches(ents, #[trigger] stack_before[k].id(), n) {
                            let k = choose|k: int| 0 <= k < stack_before.len() && reaches(ents, #[trigger] stack_before[k].id(), n);
                            assert(stack@[k] == stack_before[k]);
                        } else {
                            let k = choose|k: int| j <= k < cur@.len() && reaches(ents, #[trigger] cur@[k].id(), n);
                            if k > j {
                            } else {
                                let p = choose|p: Seq<usize>| #[trigger] is_child_path(ents, p) && p[0] == x.id() && p.last() == n;
                                if p.len() == 1 {
                                    assert(n == x.id());
                                } else {
                                    lemma_path_tail(ents, p);
                                    let q = p.drop_first();
                                    let kk = choose|kk: int| 0 <= kk < kids.len() && #[trigger] kids[kk].id() == p[1];
                                    assert(stack@[stack_before.len() + kk] == kids[kk]);
                                    assert(reaches(ents, stack@[stack_before.len() + kk].id(), n));
                                }
                            }
                        }
                    }
                }
                j = j + 1;
            }
            proof {
                bound = (bound - 1) as nat;
            }
        }
        proof {
            assert(visited =~= sub);
            if free_in_range(ents, old(self).free@) {
                assert forall|f: usize| self.free@.contains(f) implies f < ents.len() by {
                    if !old(self).free@.contains(f) {
                        assert(sub.contains(f));
                        assert(reaches(ents, index.id(), f));
                    }
                }
            }
            if free_in_range(ents, self.free@) {
                assert forall|f: usize| old(self).free@.contains(f) implies f < ents.len() by {
                    assert(self.free@.contains(f));
                }
            }
        }
    }
}

/// Detaching a child that was just attached to a parent, where it was not a child
/// yet, gives the parent back the children it had.
pub proof fn lemma_add_then_remove_child(children: Seq<HitTestTreeRef>, child: HitTestTreeRef)
    requires
        !children.contains(child),
    ensures
        children.push(child).filter(|x: HitTestTreeRef| x != child) == children,
{
    let p = |x: HitTestTreeRef| x != child;
    assert forall|k: int| 0 <= k < children.len() implies p(#[trigger] children[k]) by {
        assert(children.contains(children[k]));
    }
    lemma_filter_keeps_all(children, p);
    children.lemma_filter_push(child, p);
}

/// The refs of `v` other than `x`, in order.
fn without(v: &Vec<HitTestTreeRef>, x: HitTestTreeRef) -> (r: Vec<HitTestTreeRef>)
    ensures
        r@ == v@.filter(|y: HitTestTreeRef| y != x),
{
    let mut r: Vec<HitTestTreeRef> = Vec::new();
    let mut i: usize = 0;
    assert(v@.take(0).filter(|y: HitTestTreeRef| y != x) =~= Seq::<HitTestTreeRef>::empty());
    while i < v.len()
        invariant
            0 <= i <= v@.len(),
            r@ == v@.take(i as int).filter(|y: HitTestTreeRef| y != x),
        decreases v.len() - i,
    {
        let y = v[i];
        proof {
            reveal_with_fuel(Seq::filter, 1);
            assert(v@.take(i + 1).drop_last() =~= v@.take(i as int));
        }
        if y != x {
            r.push(y);
        }
        i = i + 1;
    }
    assert(v@.take(v@.len() as int) =~= v@);
    r
}

} // verus!
