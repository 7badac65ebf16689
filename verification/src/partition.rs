//! What a history of inserts and unions makes of the ids: the labelling it
//! leaves, and the laws that tie that labelling to connectivity.

use vstd::prelude::*;
use crate::disjoint_set::merge_labels;

verus! {

/// One operation on a union-find, by ids.
pub enum Step {
    /// A new id, in a set of its own.
    Insert,
    /// The set of the first id is merged into the set of the second.
    Union(int, int),
}

/// The labelling that a history leaves: for every id the representative of
/// its set.
pub open spec fn replay(steps: Seq<Step>) -> Seq<int>
    decreases steps.len(),
{
    if steps.len() == 0 {
        Seq::empty()
    } else {
        let prev = replay(steps.drop_last());
        match steps.last() {
            Step::Insert => prev.push(prev.len() as int),
            Step::Union(a, b) => merge_labels(prev, prev[a], prev[b]),
        }
    }
}

/// Every union of the history names ids that were inserted before it.
pub open spec fn valid(steps: Seq<Step>) -> bool
    decreases steps.len(),
{
    if steps.len() == 0 {
        true
    } else {
        &&& valid(steps.drop_last())
        &&& match steps.last() {
            Step::Insert => true,
            Step::Union(a, b) => {
                &&& 0 <= a < replay(steps.drop_last()).len()
                &&& 0 <= b < replay(steps.drop_last()).len()
            },
        }
    }
}

/// Some union of the history names `a` and `b`, in either order.
pub open spec fn joined(steps: Seq<Step>, a: int, b: int) -> bool {
    steps.contains(Step::Union(a, b)) || steps.contains(Step::Union(b, a))
}

/// The hop of `path` that starts at its index `k` is a union of the history.
pub open spec fn hop(steps: Seq<Step>, path: Seq<int>, k: int) -> bool {
    joined(steps, path[k], path[k + 1])
}

/// `path` leads from `a` to `b`, each hop a union of the history.
pub open spec fn is_path(steps: Seq<Step>, path: Seq<int>, a: int, b: int) -> bool {
    &&& path.len() > 0
    &&& path[0] == a
    &&& path.last() == b
    &&& forall|k: int| 0 <= k < path.len() - 1 ==> #[trigger] hop(steps, path, k)
}

/// `a` and `b` are linked by a chain of unions of the history.
pub open spec fn connected(steps: Seq<Step>, a: int, b: int) -> bool {
    exists|path: Seq<int>| is_path(steps, path, a, b)
}

/// The labels of a valid history are ids, and each labels itself.
pub proof fn lemma_replay_closed(steps: Seq<Step>)
    requires
        valid(steps),
    ensures
        crate::disjoint_set::labels_closed(replay(steps)),
    decreases steps.len(),
{
    if steps.len() > 0 {
        lemma_replay_closed(steps.drop_last());
    }
}

proof fn lemma_joined_grows(steps: Seq<Step>, a: int, b: int)
    requires
        steps.len() > 0,
        joined(steps.drop_last(), a, b),
    ensures
        joined(steps, a, b),
{
    let prev = steps.drop_last();
    if prev.contains(Step::Union(a, b)) {
        let k = choose|k: int| 0 <= k < prev.len() && prev[k] == Step::Union(a, b);
        assert(steps[k] == Step::Union(a, b));
    } else {
        let k = choose|k: int| 0 <= k < prev.len() && prev[k] == Step::Union(b, a);
        assert(steps[k] == Step::Union(b, a));
    }
}

proof fn lemma_connected_grows(steps: Seq<Step>, a: int, b: int)
    requires
        steps.len() > 0,
        connected(steps.drop_last(), a, b),
    ensures
        connected(steps, a, b),
{
    let path = choose|path: Seq<int>| is_path(steps.drop_last(), path, a, b);
    assert forall|k: int| 0 <= k < path.len() - 1 implies #[trigger] hop(steps, path, k) by {
        assert(hop(steps.drop_last(), path, k));
        lemma_joined_grows(steps, path[k], path[k + 1]);
    }
    assert(is_path(steps, path, a, b));
}

/// Connectivity is reflexive.
pub proof fn lemma_connected_refl(steps: Seq<Step>, a: int)
    ensures
        connected(steps, a, a),
{
    assert(is_path(steps, seq![a], a, a));
}

/// Connectivity is symmetric.
pub proof fn lemma_connected_sym(steps: Seq<Step>, a: int, b: int)
    requires
        connected(steps, a, b),
    ensures
        connected(steps, b, a),
{
    let path = choose|path: Seq<int>| is_path(steps, path, a, b);
    let back = path.reverse();
    assert forall|k: int| 0 <= k < back.len() - 1 implies #[trigger] hop(steps, back, k) by {
        let m = path.len() - 2 - k;
        assert(hop(steps, path, m));
    }
    assert(is_path(steps, back, b, a));
}

/// Connectivity is transitive.
pub proof fn lemma_connected_trans(steps: Seq<Step>, a: int, b: int, c: int)
    requires
        connected(steps, a, b),
        connected(steps, b, c),
    ensures
        connected(steps, a, c),
{
    let p = choose|path: Seq<int>| is_path(steps, path, a, b);
    let q = choose|path: Seq<int>| is_path(steps, path, b, c);
    let path = p.drop_last() + q;
    assert forall|k: int| 0 <= k < path.len() - 1 implies #[trigger] hop(steps, path, k) by {
        if k < p.len() - 2 {
            assert(hop(steps, p, k));
        } else if k == p.len() - 2 {
            assert(hop(steps, p, k));
            assert(path[k + 1] == q[0]);
        } else {
            let m = k - (p.len() - 1);
            assert(hop(steps, q, m));
        }
    }
    assert(is_path(steps, path, a, c));
}

proof fn lemma_connected_hop(steps: Seq<Step>, a: int, b: int)
    requires
        joined(steps, a, b),
    ensures
        connected(steps, a, b),
{
    let path = seq![a, b];
    assert(hop(steps, path, 0));
    assert(is_path(steps, path, a, b));
}

proof fn lemma_same_label_connected(steps: Seq<Step>, a: int, b: int)
    requires
        valid(steps),
        0 <= a < replay(steps).len(),
        0 <= b < replay(steps).len(),
        replay(steps)[a] == replay(steps)[b],
    ensures
        connected(steps, a, b),
    decreases steps.len(),
{
    let prev = steps.drop_last();
    let before = replay(prev);
    lemma_replay_closed(prev);
    match steps.last() {
        Step::Insert => {
            if a == b {
                lemma_connected_refl(steps, a);
            } else {
                lemma_same_label_connected(prev, a, b);
                lemma_connected_grows(steps, a, b);
            }
        },
        Step::Union(x, y) => {
            if before[a] == before[b] {
                lemma_same_label_connected(prev, a, b);
                lemma_connected_grows(steps, a, b);
            } else {
                let (near, far) = if before[a] == before[x] {
                    (x, y)
                } else {
                    (y, x)
                };
                lemma_same_label_connected(prev, a, near);
                lemma_connected_grows(steps, a, near);
                lemma_same_label_connected(prev, far, b);
                lemma_connected_grows(steps, far, b);
                lemma_connected_hop(steps, near, far);
                lemma_connected_trans(steps, a, near, far);
                lemma_connected_trans(steps, a, far, b);
            }
        },
    }
}

proof fn lemma_joined_same_label(steps: Seq<Step>, a: int, b: int)
    requires
        valid(steps),
        joined(steps, a, b),
    ensures
        0 <= a < replay(steps).len(),
        0 <= b < replay(steps).len(),
        replay(steps)[a] == replay(steps)[b],
    decreases steps.len(),
{
    let prev = steps.drop_last();
    if steps.last() == Step::Union(a, b) || steps.last() == Step::Union(b, a) {
    } else {
        assert(joined(prev, a, b)) by {
            if steps.contains(Step::Union(a, b)) {
                let k = choose|k: int| 0 <= k < steps.len() && steps[k] == Step::Union(a, b);
                assert(prev[k] == Step::Union(a, b));
            } else {
                let k = choose|k: int| 0 <= k < steps.len() && steps[k] == Step::Union(b, a);
                assert(prev[k] == Step::Union(b, a));
            }
        }
        lemma_joined_same_label(prev, a, b);
    }
}

proof fn lemma_path_same_label(steps: Seq<Step>, path: Seq<int>, a: int, b: int)
    requires
        valid(steps),
        is_path(steps, path, a, b),
    ensures
        replay(steps)[a] == replay(steps)[b],
    decreases path.len(),
{
    if path.len() > 1 {
        let rest = path.drop_first();
        assert(hop(steps, path, 0));
        lemma_joined_same_label(steps, path[0], path[1]);
        assert forall|k: int| 0 <= k < rest.len() - 1 implies #[trigger] hop(steps, rest, k) by {
            assert(hop(steps, path, k + 1));
        }
        assert(is_path(steps, rest, path[1], b));
        lemma_path_same_label(steps, rest, path[1], b);
    }
}

/// A history grows by a step that names inserted ids: it stays valid, and
/// its labelling changes as the step says.
pub proof fn lemma_replay_push(steps: Seq<Step>, step: Step)
    requires
        valid(steps),
        match step {
            Step::Insert => true,
            Step::Union(a, b) => 0 <= a < replay(steps).len() && 0 <= b < replay(steps).len(),
        },
    ensures
        valid(steps.push(step)),
        replay(steps.push(step)) == match step {
            Step::Insert => replay(steps).push(replay(steps).len() as int),
            Step::Union(a, b) => merge_labels(replay(steps), replay(steps)[a], replay(steps)[b]),
        },
{
    assert(steps.push(step).drop_last() =~= steps);
}

/// Two ids carry the same label exactly if a chain of unions links them.
pub proof fn lemma_same_label_iff_connected(steps: Seq<Step>, a: int, b: int)
    requires
        valid(steps),
        0 <= a < replay(steps).len(),
        0 <= b < replay(steps).len(),
    ensures
        replay(steps)[a] == replay(steps)[b] <==> connected(steps, a, b),
{
    if replay(steps)[a] == replay(steps)[b] {
        lemma_same_label_connected(steps, a, b);
    }
    if connected(steps, a, b) {
        let path = choose|path: Seq<int>| is_path(steps, path, a, b);
        lemma_path_same_label(steps, path, a, b);
    }
}

/// The sets that a history leaves depend on which ids its unions name, not
/// on the order of the unions: two histories over the same ids whose unions
/// join the same pairs leave the same sets.
pub proof fn lemma_union_order_irrelevant(first: Seq<Step>, second: Seq<Step>, a: int, b: int)
    requires
        valid(first),
        valid(second),
        replay(first).len() == replay(second).len(),
        forall|u: int, v: int| joined(first, u, v) <==> joined(second, u, v),
        0 <= a < replay(first).len(),
        0 <= b < replay(first).len(),
    ensures
        replay(first)[a] == replay(first)[b] <==> replay(second)[a] == replay(second)[b],
{
    lemma_same_label_iff_connected(first, a, b);
    lemma_same_label_iff_connected(second, a, b);
    if connected(first, a, b) {
        let path = choose|path: Seq<int>| is_path(first, path, a, b);
        assert forall|k: int| 0 <= k < path.len() - 1 implies #[trigger] hop(second, path, k) by {
            assert(hop(first, path, k));
        }
        assert(is_path(second, path, a, b));
    }
    if connected(second, a, b) {
        let path = choose|path: Seq<int>| is_path(second, path, a, b);
        assert forall|k: int| 0 <= k < path.len() - 1 implies #[trigger] hop(first, path, k) by {
            assert(hop(second, path, k));
        }
        assert(is_path(first, path, a, b));
    }
}

} // verus!
