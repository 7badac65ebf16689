//! A union-find over arbitrary values.
//!
//! Values receive dense ids in insertion order. The abstract state is the
//! sequence of inserted values, the history of the inserts and unions that
//! were applied, and the labelling `roots` that the history leaves: for
//! every id, the id of the representative of its set.

use vstd::prelude::*;
use vstd::std_specs::cmp::PartialEqSpec;
use crate::equality::lawful_eq;
use crate::partition::{
    connected, lemma_replay_push, lemma_same_label_iff_connected, replay, valid, Step,
};
use crate::grouping::{
    group_views, groups_of, id_groups, is_leader, leaders_below, lemma_groups_partition,
    lemma_leader_at, lemma_leaders_empty, lemma_leaders_step, lemma_members_none,
    lemma_members_step, lemma_value_groups_partition, members_below, pick, placed,
};

verus! {

/// The labelling in which every label `from` has become `to`.
pub open spec fn merge_labels(labels: Seq<int>, from: int, to: int) -> Seq<int> {
    Seq::new(
        labels.len(),
        |i: int|
            if labels[i] == from {
                to
            } else {
                labels[i]
            },
    )
}

/// Every label is the id of a member that labels itself.
pub open spec fn labels_closed(labels: Seq<int>) -> bool {
    forall|i: int|
        0 <= i < labels.len() ==> 0 <= #[trigger] labels[i] < labels.len() && labels[labels[i]]
            == labels[i]
}

/// The parent pointers form a forest whose trees are the sets of `roots`:
/// following parents from `k` strictly descends in `depth` and ends at
/// `roots[k]`.
pub closed spec fn forest(parents: Seq<usize>, roots: Seq<int>, depth: Seq<nat>) -> bool {
    &&& roots.len() == parents.len()
    &&& depth.len() == parents.len()
    &&& forall|k: int|
        0 <= k < parents.len() ==> {
            &&& 0 <= #[trigger] parents[k] < parents.len()
            &&& 0 <= roots[k] < parents.len()
            &&& parents[roots[k]] == roots[k]
            &&& roots[parents[k] as int] == roots[k]
            &&& (parents[k] == k ==> roots[k] == k)
            &&& (parents[k] != k ==> depth[parents[k] as int] < depth[k])
        }
}

/// The node that is reached from `k` by going to the parent `j` times.
pub open spec fn ancestor(parents: Seq<usize>, k: int, j: nat) -> int
    decreases j,
{
    if j == 0 {
        k
    } else {
        parents[ancestor(parents, k, (j - 1) as nat)] as int
    }
}

/// `x` is one of the first `t` nodes on the way from `k` to its root.
pub open spec fn on_walk_before(parents: Seq<usize>, k: int, t: nat, x: int) -> bool {
    exists|j: nat| j < t && ancestor(parents, k, j) == x
}

/// `x` lies on the way from `k` to its root, both ends included.
pub open spec fn on_walk(parents: Seq<usize>, k: int, x: int) -> bool {
    exists|j: nat| ancestor(parents, k, j) == x
}

/// The parent pointers after a walk from `k` to its root that has relinked
/// every node on its way to that node's grandparent.
pub open spec fn compressed(parents: Seq<usize>, k: int) -> Seq<usize> {
    Seq::new(
        parents.len(),
        |x: int|
            if on_walk(parents, k, x) {
                parents[parents[x] as int]
            } else {
                parents[x]
            },
    )
}

/// The parent pointers after the root `from` was hung under the root `to`.
pub open spec fn attached(parents: Seq<usize>, from: int, to: int) -> Seq<usize> {
    if from == to {
        parents
    } else {
        parents.update(from, to as usize)
    }
}

/// Once a walk has come to a root, it stays there.
proof fn lemma_walk_rests(parents: Seq<usize>, k: int, t: nat, j: nat)
    requires
        t <= j,
        0 <= ancestor(parents, k, t) < parents.len(),
        parents[ancestor(parents, k, t)] == ancestor(parents, k, t),
    ensures
        ancestor(parents, k, j) == ancestor(parents, k, t),
    decreases j,
{
    if t < j {
        lemma_walk_rests(parents, k, t, (j - 1) as nat);
    }
}

/// A walk from `k` is a walk from its parent with one step before it.
proof fn lemma_walk_from_parent(parents: Seq<usize>, k: int, j: nat)
    ensures
        ancestor(parents, k, j + 1) == ancestor(parents, parents[k] as int, j),
    decreases j,
{
    assert(ancestor(parents, k, j + 1) == parents[ancestor(parents, k, j)] as int);
    if j > 0 {
        lemma_walk_from_parent(parents, k, (j - 1) as nat);
    } else {
        assert(ancestor(parents, k, 0) == k);
    }
}

/// In a forest, the walk from a node ends at the root that labels it.
proof fn lemma_forest_root(parents: Seq<usize>, roots: Seq<int>, depth: Seq<nat>, i: int)
    requires
        forest(parents, roots, depth),
        0 <= i < parents.len(),
    ensures
        on_walk(parents, i, roots[i]),
        0 <= roots[i] < parents.len(),
        parents[roots[i]] == roots[i],
    decreases depth[i],
{
    if parents[i] == i {
        assert(ancestor(parents, i, 0) == roots[i]);
    } else {
        let up = parents[i] as int;
        lemma_forest_root(parents, roots, depth, up);
        let j = choose|j: nat| ancestor(parents, up, j) == roots[up];
        lemma_walk_from_parent(parents, i, j);
        assert(ancestor(parents, i, j + 1) == roots[i]);
    }
}

/// Walks from `key` to the root of its tree, relinking every visited node to
/// its grandparent on the way.
fn find_parent(
    parents: &mut Vec<usize>,
    key: usize,
    Ghost(roots): Ghost<Seq<int>>,
    Ghost(depth): Ghost<Seq<nat>>,
) -> (root: usize)
    requires
        forest(old(parents)@, roots, depth),
        key < old(parents).len(),
    ensures
        forest(final(parents)@, roots, depth),
        final(parents)@ == compressed(old(parents)@, key as int),
        root == roots[key as int],
{
    let ghost start = parents@;
    let ghost mut t: nat = 0;
    let mut k: usize = key;
    let mut p: usize = parents[key];
    while p != k
        invariant
            forest(parents@, roots, depth),
            forest(start, roots, depth),
            parents.len() == start.len(),
            k < parents.len(),
            p == parents[k as int],
            p == start[k as int],
            roots[k as int] == roots[key as int],
            k == ancestor(start, key as int, t),
            forall|j: nat|
                j < t ==> depth[#[trigger] ancestor(start, key as int, j)] > depth[k as int],
            forall|x: int|
                0 <= x < start.len() ==> #[trigger] parents[x] == if on_walk_before(
                    start,
                    key as int,
                    t,
                    x,
                ) {
                    start[start[x] as int]
                } else {
                    start[x]
                },
        decreases depth[k as int],
    {
        let pp: usize = parents[p];
        proof {
            assert(depth[p as int] < depth[k as int]);
            assert(!on_walk_before(start, key as int, t, p as int));
            assert(pp == start[p as int]);
        }
        let ghost before = parents@;
        parents.set(k, pp);
        proof {
            assert(ancestor(start, key as int, t + 1) == p);
            assert forall|x: int| 0 <= x < start.len() implies #[trigger] parents[x]
                == if on_walk_before(start, key as int, t + 1, x) {
                start[start[x] as int]
            } else {
                start[x]
            } by {
                if x == k {
                    assert(t < t + 1 && ancestor(start, key as int, t) == x);
                } else if on_walk_before(start, key as int, t + 1, x) {
                    let j = choose|j: nat| j < t + 1 && ancestor(start, key as int, j) == x;
                    assert(j < t);
                    assert(on_walk_before(start, key as int, t, x));
                    assert(parents[x] == before[x]);
                } else {
                    if on_walk_before(start, key as int, t, x) {
                        let j = choose|j: nat| j < t && ancestor(start, key as int, j) == x;
                        assert(j < t + 1);
                    }
                    assert(parents[x] == before[x]);
                }
            }
            t = t + 1;
        }
        k = p;
        p = pp;
    }
    proof {
        assert forall|x: int| 0 <= x < start.len() implies parents@[x] == compressed(
            start,
            key as int,
        )[x] by {
            if on_walk(start, key as int, x) {
                let j = choose|j: nat| ancestor(start, key as int, j) == x;
                if j < t {
                    assert(on_walk_before(start, key as int, t, x));
                } else {
                    lemma_walk_rests(start, key as int, t, j);
                    if on_walk_before(start, key as int, t, x) {
                    }
                }
            } else {
                if on_walk_before(start, key as int, t, x) {
                    let j = choose|j: nat| j < t && ancestor(start, key as int, j) == x;
                    assert(on_walk(start, key as int, x));
                }
            }
        }
        assert(parents@ =~= compressed(start, key as int));
    }
    p
}

/// The value at `i` equals `value`.
pub open spec fn found_at<T: PartialEq>(values: Seq<T>, i: int, value: T) -> bool {
    0 <= i < values.len() && values[i].eq_spec(&value)
}

pub struct DisjointSet<T> {
    parents: Vec<usize>,
    values: Vec<T>,
    roots: Ghost<Seq<int>>,
    depth: Ghost<Seq<nat>>,
    history: Ghost<Seq<Step>>,
}

impl<T: PartialEq> DisjointSet<T> {
    /// The inserted values; the id of a value is its index.
    pub closed spec fn values(&self) -> Seq<T> {
        self.values@
    }

    /// For every id, the id of the representative of its set.
    pub closed spec fn roots(&self) -> Seq<int> {
        self.roots@
    }

    /// For every id, the id of its parent in the forest; a root is its own
    /// parent.
    pub closed spec fn parents(&self) -> Seq<usize> {
        self.parents@
    }

    /// The inserts and unions that were applied, by ids, in their order.
    pub closed spec fn history(&self) -> Seq<Step> {
        self.history@
    }

    /// The parent pointers realize `roots`.
    pub closed spec fn linked(&self) -> bool {
        &&& forest(self.parents@, self.roots@, self.depth@)
        &&& self.parents@.len() == self.values@.len()
    }

    /// The values are pairwise different, `roots` is the labelling that the
    /// history leaves, and the parent pointers realize it.
    pub open spec fn wf(&self) -> bool {
        &&& self.linked()
        &&& valid(self.history())
        &&& self.roots() == replay(self.history())
        &&& forall|i: int, j: int|
            #![trigger self.values()[i], self.values()[j]]
            0 <= i < j < self.values().len() ==> !self.values()[i].eq_spec(&self.values()[j])
        &&& self.roots().len() == self.values().len()
        &&& labels_closed(self.roots())
    }

    /// The value with the id `i` equals `value`.
    pub open spec fn holds_at(&self, i: int, value: T) -> bool {
        found_at(self.values(), i, value)
    }

    pub open spec fn contains(&self, value: T) -> bool {
        exists|i: int| found_at(self.values(), i, value)
    }

    /// The id that `insert` gave to `value`.
    pub open spec fn id_of(&self, value: T) -> int {
        choose|i: int| found_at(self.values(), i, value)
    }

    /// A value has one id only.
    pub proof fn lemma_one_id(&self, value: T, i: int, j: int)
        requires
            self.wf(),
            lawful_eq::<T>(),
            self.holds_at(i, value),
            self.holds_at(j, value),
        ensures
            i == j,
            i == self.id_of(value),
    {
        let a = self.values()[i];
        let b = self.values()[j];
        assert(value.eq_spec(&b));
        assert(a.eq_spec(&b));
        assert(b.eq_spec(&a));
        let k = self.id_of(value);
        let c = self.values()[k];
        assert(value.eq_spec(&c));
        assert(a.eq_spec(&c));
        assert(c.eq_spec(&a));
    }

    /// The representative id of the set that holds `value`.
    pub open spec fn root_of(&self, value: T) -> int {
        self.roots()[self.id_of(value)]
    }

    pub open spec fn same_set(&self, a: T, b: T) -> bool {
        self.root_of(a) == self.root_of(b)
    }

    pub fn new() -> (ds: Self)
        ensures
            ds.wf(),
            ds.values() == Seq::<T>::empty(),
            ds.roots() == Seq::<int>::empty(),
            ds.parents() == Seq::<usize>::empty(),
            ds.history() == Seq::<Step>::empty(),
    {
        DisjointSet {
            parents: Vec::new(),
            values: Vec::new(),
            roots: Ghost(Seq::empty()),
            depth: Ghost(Seq::empty()),
            history: Ghost(Seq::empty()),
        }
    }

    /// Registers `value` as a set of its own and returns its id.
    pub fn insert(&mut self, value: T) -> (id: usize)
        requires
            old(self).wf(),
            !old(self).contains(value),
        ensures
            final(self).wf(),
            id == old(self).values().len(),
            final(self).values() == old(self).values().push(value),
            final(self).roots() == old(self).roots().push(id as int),
            final(self).parents() == old(self).parents().push(id),
            final(self).history() == old(self).history().push(Step::Insert),
    {
        let key: usize = self.values.len();
        proof {
            assert forall|i: int| 0 <= i < key implies !(#[trigger] self.values()[i]).eq_spec(
                &value,
            ) by {
                assert(!found_at(self.values(), i, value));
            }
        }
        self.parents.push(key);
        self.values.push(value);
        proof {
            lemma_replay_push(self.history@, Step::Insert);
            self.roots@ = self.roots@.push(key as int);
            self.depth@ = self.depth@.push(0nat);
            self.history@ = self.history@.push(Step::Insert);
        }
        key
    }

    /// The id of `value`, found by comparing it with the inserted values.
    fn position(&self, value: &T) -> (id: usize)
        requires
            self.wf(),
            self.contains(*value),
            lawful_eq::<T>(),
        ensures
            id == self.id_of(*value),
            id < self.values().len(),
    {
        let ghost at = self.id_of(*value);
        let n: usize = self.values.len();
        let mut i: usize = 0;
        loop
            invariant
                lawful_eq::<T>(),
                self.wf(),
                self.holds_at(at, *value),
                at == self.id_of(*value),
                n == self.values@.len(),
                i <= at,
            decreases n - i,
        {
            if self.values[i] == *value {
                proof {
                    self.lemma_one_id(*value, i as int, at);
                }
                return i;
            }
            i += 1;
        }
    }

    /// Returns the representative id of the set that holds `value`. On the
    /// way to it, every node is relinked to its grandparent.
    pub fn find(&mut self, value: &T) -> (root: usize)
        requires
            old(self).wf(),
            old(self).contains(*value),
            lawful_eq::<T>(),
        ensures
            final(self).wf(),
            final(self).values() == old(self).values(),
            final(self).roots() == old(self).roots(),
            final(self).history() == old(self).history(),
            final(self).parents() == compressed(old(self).parents(), old(self).id_of(*value)),
            root == old(self).root_of(*value),
    {
        let key: usize = self.position(value);
        find_parent(&mut self.parents, key, Ghost(self.roots@), Ghost(self.depth@))
    }

    /// Merges the set of `va` into the set of `vb`: the root of `va` is hung
    /// under the root of `vb`, which becomes the representative of both.
    /// Nothing changes but the two walks if they are in one set already.
    pub fn union(&mut self, va: &T, vb: &T)
        requires
            old(self).wf(),
            old(self).contains(*va),
            old(self).contains(*vb),
            lawful_eq::<T>(),
        ensures
            final(self).wf(),
            final(self).values() == old(self).values(),
            final(self).roots() == merge_labels(
                old(self).roots(),
                old(self).root_of(*va),
                old(self).root_of(*vb),
            ),
            final(self).history() == old(self).history().push(
                Step::Union(old(self).id_of(*va), old(self).id_of(*vb)),
            ),
            final(self).parents() == attached(
                compressed(
                    compressed(old(self).parents(), old(self).id_of(*va)),
                    old(self).id_of(*vb),
                ),
                old(self).root_of(*va),
                old(self).root_of(*vb),
            ),
    {
        let pa: usize = self.find(va);
        let pb: usize = self.find(vb);
        proof {
            let step = Step::Union(self.id_of(*va), self.id_of(*vb));
            lemma_replay_push(self.history@, step);
            self.history@ = self.history@.push(step);
        }
        if pa == pb {
            assert(self.roots() =~= merge_labels(self.roots(), pa as int, pb as int));
            return ;
        }
        let ghost roots = self.roots@;
        let ghost depth = self.depth@;
        let ghost lift = depth[pb as int] + 1;
        self.parents.set(pa, pb);
        proof {
            self.roots@ = merge_labels(roots, pa as int, pb as int);
            self.depth@ = Seq::new(
                depth.len(),
                |i: int|
                    if roots[i] == pa {
                        depth[i] + lift
                    } else {
                        depth[i]
                    },
            );
        }
    }
    /// Ends the structure and hands out its sets: one group for each set,
    /// the groups ordered by their first inserted member, the members of a
    /// group in insertion order.
    pub fn into_vec(self) -> (groups: Vec<Vec<T>>)
        requires
            self.wf(),
        ensures
            group_views(groups@) == groups_of(self.values(), self.roots()),
    {
        let ghost all = self.values@;
        let ghost roots = self.roots@;
        let ghost depth = self.depth@;
        let mut parents: Vec<usize> = self.parents;
        let mut values: Vec<T> = self.values;
        let n: usize = values.len();
        let mut rest: Vec<T> = Vec::new();
        let mut slot: Vec<usize> = Vec::new();
        while values.len() > 0
            invariant
                n == all.len(),
                values.len() <= n,
                values@ == all.take(values.len() as int),
                rest.len() == n - values.len(),
                slot.len() == rest.len(),
                forall|j: int| 0 <= j < rest.len() ==> rest[j] == all[n - 1 - j],
                forall|j: int| 0 <= j < slot.len() ==> slot[j] == n,
            decreases values.len(),
        {
            let v: T = values.pop().unwrap();
            rest.push(v);
            slot.push(n);
        }
        let mut groups: Vec<Vec<T>> = Vec::new();
        let mut i: usize = 0;
        proof {
            lemma_leaders_empty(roots);
        }
        while i < n
            invariant
                i <= n,
                n == all.len(),
                roots.len() == n,
                parents.len() == n,
                forest(parents@, roots, depth),
                labels_closed(roots),
                rest.len() == n - i,
                forall|j: int| 0 <= j < rest.len() ==> rest[j] == all[n - 1 - j],
                slot.len() == n,
                groups.len() == leaders_below(roots, i as int).len(),
                forall|g: int|
                    0 <= g < groups.len() ==> #[trigger] groups[g]@ == pick(
                        all,
                        members_below(roots, roots[leaders_below(roots, i as int)[g]], i as int),
                    ),
                forall|r: int|
                    0 <= r < n ==> #[trigger] slot[r] == n || (slot[r] < groups.len()
                        && roots[leaders_below(roots, i as int)[slot[r] as int]] == r),
                forall|j: int| 0 <= j < i ==> slot[#[trigger] roots[j]] != n,
                forall|g: int|
                    0 <= g < groups.len() ==> slot[roots[#[trigger] leaders_below(
                        roots,
                        i as int,
                    )[g]]] == g,
            decreases n - i,
        {
            let ghost lead = leaders_below(roots, i as int);
            let v: T = rest.pop().unwrap();
            let r: usize = find_parent(&mut parents, i, Ghost(roots), Ghost(depth));
            let g: usize = slot[r];
            proof {
                lemma_leaders_step(roots, i as int);
                lemma_members_step(roots, r as int, i as int);
                assert forall|h: int| 0 <= h < lead.len() implies 0 <= #[trigger] lead[h] < i
                    && members_below(roots, roots[lead[h]], i + 1) == if roots[lead[h]] == r {
                    members_below(roots, roots[lead[h]], i as int).push(i as int)
                } else {
                    members_below(roots, roots[lead[h]], i as int)
                } by {
                    lemma_leader_at(roots, i as int, h);
                    lemma_members_step(roots, roots[lead[h]], i as int);
                }
            }
            if g == n {
                proof {
                    assert(is_leader(roots, i as int));
                    lemma_members_none(roots, r as int, i as int);
                    assert(pick(all, Seq::<int>::empty().push(i as int)) =~= Seq::<T>::empty().push(
                        all[i as int],
                    ));
                }
                let mut members: Vec<T> = Vec::new();
                members.push(v);
                slot.set(r, groups.len());
                groups.push(members);
            } else {
                proof {
                    assert(lead[g as int] < i && roots[lead[g as int]] == roots[i as int]);
                    assert(!is_leader(roots, i as int));
                    let m = members_below(roots, r as int, i as int);
                    assert(pick(all, m.push(i as int)) =~= pick(all, m).push(all[i as int]));
                }
                groups[g].push(v);
            }
            i += 1;
        }
        proof {
            assert(group_views(groups@) =~= groups_of(all, roots));
        }
        groups
    }

    /// No value was inserted twice.
    pub proof fn lemma_values_distinct(&self)
        requires
            self.wf(),
            lawful_eq::<T>(),
        ensures
            self.values().no_duplicates(),
    {
        assert forall|i: int, j: int|
            0 <= i < self.values().len() && 0 <= j < self.values().len() && i
                != j implies self.values()[i] != self.values()[j] by {
            let a = self.values()[i];
            let b = self.values()[j];
            assert(a.eq_spec(&a));
            if i < j {
                assert(!a.eq_spec(&b));
            } else {
                assert(!b.eq_spec(&a));
            }
        }
    }

    /// The groups that `into_vec` hands out are a partition of the inserted
    /// values: every value stands at one place of the groups and no other,
    /// the groups hold nothing else, and two places lie in the same group
    /// exactly if their values are in the same set.
    pub proof fn lemma_groups_are_partition(&self)
        requires
            self.wf(),
            lawful_eq::<T>(),
        ensures
            forall|i: int|
                0 <= i < self.values().len() ==> placed(
                    groups_of(self.values(), self.roots()),
                    #[trigger] self.values()[i],
                ),
            forall|g: int, j: int|
                0 <= g < groups_of(self.values(), self.roots()).len() && 0 <= j < groups_of(
                    self.values(),
                    self.roots(),
                )[g].len() ==> self.values().contains(
                    #[trigger] groups_of(self.values(), self.roots())[g][j],
                ),
            forall|g: int, j: int, h: int, k: int|
                0 <= g < groups_of(self.values(), self.roots()).len() && 0 <= j < groups_of(
                    self.values(),
                    self.roots(),
                )[g].len() && 0 <= h < groups_of(self.values(), self.roots()).len() && 0 <= k
                    < groups_of(self.values(), self.roots())[h].len() && #[trigger] groups_of(
                    self.values(),
                    self.roots(),
                )[g][j] == #[trigger] groups_of(self.values(), self.roots())[h][k] ==> g == h && j
                    == k,
            forall|g: int, j: int, h: int, k: int|
                0 <= g < groups_of(self.values(), self.roots()).len() && 0 <= j < groups_of(
                    self.values(),
                    self.roots(),
                )[g].len() && 0 <= h < groups_of(self.values(), self.roots()).len() && 0 <= k
                    < groups_of(self.values(), self.roots())[h].len() ==> (g == h
                    <==> self.same_set(
                    #[trigger] groups_of(self.values(), self.roots())[g][j],
                    #[trigger] groups_of(self.values(), self.roots())[h][k],
                )),
    {
        self.lemma_values_distinct();
        lemma_value_groups_partition(self.values(), self.roots());
        lemma_groups_partition(self.roots());
        let groups = groups_of(self.values(), self.roots());
        let ids = id_groups(self.roots());
        assert forall|g: int, j: int, h: int, k: int|
            0 <= g < groups.len() && 0 <= j < groups[g].len() && 0 <= h < groups.len() && 0 <= k
                < groups[h].len() implies (g == h <==> self.same_set(
            #[trigger] groups[g][j],
            #[trigger] groups[h][k],
        )) by {
            let a = ids[g][j];
            let b = ids[h][k];
            assert(groups[g][j] == self.values()[a]);
            assert(groups[h][k] == self.values()[b]);
            assert(self.values()[a].eq_spec(&self.values()[a]));
            assert(self.values()[b].eq_spec(&self.values()[b]));
            self.lemma_one_id(self.values()[a], a, a);
            self.lemma_one_id(self.values()[b], b, b);
            assert(g == h <==> self.roots()[a] == self.roots()[b]);
        }
    }

    /// Two values are in the same set exactly if a chain of the unions that
    /// were applied links them, whatever the order of those unions was.
    pub proof fn lemma_same_set_iff_connected(&self, a: T, b: T)
        requires
            self.wf(),
            self.contains(a),
            self.contains(b),
        ensures
            self.same_set(a, b) <==> connected(self.history(), self.id_of(a), self.id_of(b)),
    {
        lemma_same_label_iff_connected(self.history(), self.id_of(a), self.id_of(b));
    }

    /// The label of an id is the root at which the walk from it ends.
    pub proof fn lemma_root_ends_walk(&self, i: int)
        requires
            self.wf(),
            0 <= i < self.values().len(),
        ensures
            on_walk(self.parents(), i, self.roots()[i]),
            self.parents()[self.roots()[i]] == self.roots()[i],
    {
        lemma_forest_root(self.parents@, self.roots@, self.depth@, i);
    }
}

} // verus!
