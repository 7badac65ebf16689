//! The sets of a labelling, laid out as groups: one group for each set, the
//! groups ordered by their least id, the ids of a group ascending.

use vstd::prelude::*;

verus! {

/// The ids `0, 1, .., n - 1`.
pub open spec fn ids_below(n: int) -> Seq<int> {
    Seq::new(n as nat, |i: int| i)
}

/// The test whether an id carries the label `r`.
pub open spec fn has_label(labels: Seq<int>, r: int) -> spec_fn(int) -> bool {
    |i: int| labels[i] == r
}

/// The ids below `n` that carry the label `r`, ascending.
pub open spec fn members_below(labels: Seq<int>, r: int, n: int) -> Seq<int> {
    ids_below(n).filter(has_label(labels, r))
}

/// No smaller id carries the label of `i`.
pub open spec fn is_leader(labels: Seq<int>, i: int) -> bool {
    forall|j: int| 0 <= j < i ==> labels[j] != labels[i]
}

/// The test whether an id is the least of its set.
pub open spec fn leads(labels: Seq<int>) -> spec_fn(int) -> bool {
    |i: int| is_leader(labels, i)
}

/// The ids below `n` that are the least of their set, ascending.
pub open spec fn leaders_below(labels: Seq<int>, n: int) -> Seq<int> {
    ids_below(n).filter(leads(labels))
}

/// The values that stand at the given ids.
pub open spec fn pick<T>(values: Seq<T>, ids: Seq<int>) -> Seq<T> {
    ids.map_values(|i: int| values[i])
}

/// The sets of a labelling as sequences of ids: one group for each set, the
/// groups ordered by their least member, the members of a group ascending.
pub open spec fn id_groups(labels: Seq<int>) -> Seq<Seq<int>> {
    leaders_below(labels, labels.len() as int).map_values(
        |l: int| members_below(labels, labels[l], labels.len() as int),
    )
}

/// The sets of a labelling as sequences of values, in the order of
/// `id_groups`.
pub open spec fn groups_of<T>(values: Seq<T>, labels: Seq<int>) -> Seq<Seq<T>> {
    id_groups(labels).map_values(|g: Seq<int>| pick(values, g))
}

/// What a vector of groups holds.
pub open spec fn group_views<T>(groups: Seq<Vec<T>>) -> Seq<Seq<T>> {
    groups.map_values(|g: Vec<T>| g@)
}

pub(crate) proof fn lemma_members_step(labels: Seq<int>, r: int, n: int)
    requires
        0 <= n,
    ensures
        members_below(labels, r, n + 1) == if labels[n] == r {
            members_below(labels, r, n).push(n)
        } else {
            members_below(labels, r, n)
        },
{
    assert(ids_below(n + 1) =~= ids_below(n).push(n));
    ids_below(n).lemma_filter_push(n, has_label(labels, r));
}

pub(crate) proof fn lemma_leaders_step(labels: Seq<int>, n: int)
    requires
        0 <= n,
    ensures
        leaders_below(labels, n + 1) == if is_leader(labels, n) {
            leaders_below(labels, n).push(n)
        } else {
            leaders_below(labels, n)
        },
{
    assert(ids_below(n + 1) =~= ids_below(n).push(n));
    ids_below(n).lemma_filter_push(n, leads(labels));
}

pub(crate) proof fn lemma_members_none(labels: Seq<int>, r: int, n: int)
    requires
        0 <= n,
        forall|j: int| 0 <= j < n ==> labels[j] != r,
    ensures
        members_below(labels, r, n) == Seq::<int>::empty(),
    decreases n,
{
    if n == 0 {
        reveal(Seq::filter);
        assert(ids_below(0) =~= Seq::<int>::empty());
    } else {
        lemma_members_none(labels, r, n - 1);
        lemma_members_step(labels, r, n - 1);
    }
}

pub(crate) proof fn lemma_leaders_empty(labels: Seq<int>)
    ensures
        leaders_below(labels, 0) == Seq::<int>::empty(),
{
    reveal(Seq::filter);
    assert(ids_below(0) =~= Seq::<int>::empty());
}

pub(crate) proof fn lemma_leader_at(labels: Seq<int>, n: int, g: int)
    requires
        0 <= n,
        0 <= g < leaders_below(labels, n).len(),
    ensures
        0 <= leaders_below(labels, n)[g] < n,
        is_leader(labels, leaders_below(labels, n)[g]),
{
    let pred = leads(labels);
    let l = leaders_below(labels, n)[g];
    ids_below(n).lemma_filter_pred(pred, g);
    assert(ids_below(n).filter(pred).contains(l));
    ids_below(n).lemma_filter_contains_rev(pred, l);
}

/// What `ids_below(n).filter(test)` holds: ids below `n` that pass the test,
/// ascending, and every such id.
pub proof fn lemma_filtered_ids(test: spec_fn(int) -> bool, n: int)
    requires
        0 <= n,
    ensures
        forall|j: int|
            0 <= j < ids_below(n).filter(test).len() ==> 0 <= #[trigger] ids_below(n).filter(
                test,
            )[j] < n && test(ids_below(n).filter(test)[j]),
        forall|j: int, k: int|
            0 <= j < k < ids_below(n).filter(test).len() ==> ids_below(n).filter(test)[j]
                < ids_below(n).filter(test)[k],
        forall|i: int| 0 <= i < n && test(i) ==> ids_below(n).filter(test).contains(i),
    decreases n,
{
    if n == 0 {
        reveal(Seq::filter);
        assert(ids_below(0) =~= Seq::<int>::empty());
    } else {
        lemma_filtered_ids(test, n - 1);
        assert(ids_below(n) =~= ids_below(n - 1).push(n - 1));
        ids_below(n - 1).lemma_filter_push(n - 1, test);
        let before = ids_below(n - 1).filter(test);
        let now = ids_below(n).filter(test);
        assert forall|i: int| 0 <= i < n && test(i) implies now.contains(i) by {
            if i < n - 1 {
                assert(before.contains(i));
                let j = choose|j: int| 0 <= j < before.len() && before[j] == i;
                assert(now[j] == i);
            } else {
                assert(now[now.len() - 1] == i);
            }
        }
    }
}

/// Tests that agree on the ids below `n` keep the same ids.
pub proof fn lemma_filter_agree(first: spec_fn(int) -> bool, second: spec_fn(int) -> bool, n: int)
    requires
        0 <= n,
        forall|i: int| 0 <= i < n ==> #[trigger] first(i) == second(i),
    ensures
        ids_below(n).filter(first) == ids_below(n).filter(second),
    decreases n,
{
    if n == 0 {
        reveal(Seq::filter);
        assert(ids_below(0) =~= Seq::<int>::empty());
    } else {
        lemma_filter_agree(first, second, n - 1);
        assert(ids_below(n) =~= ids_below(n - 1).push(n - 1));
        ids_below(n - 1).lemma_filter_push(n - 1, first);
        ids_below(n - 1).lemma_filter_push(n - 1, second);
    }
}

/// `x` stands at some place of the groups.
pub open spec fn placed<A>(groups: Seq<Seq<A>>, x: A) -> bool {
    exists|g: int, j: int|
        0 <= g < groups.len() && 0 <= j < groups[g].len() && #[trigger] groups[g][j] == x
}

/// Every id has a leader: the least id that carries its label.
pub proof fn lemma_leader_exists(labels: Seq<int>, i: int) -> (l: int)
    requires
        0 <= i < labels.len(),
    ensures
        0 <= l <= i,
        is_leader(labels, l),
        labels[l] == labels[i],
    decreases i,
{
    if is_leader(labels, i) {
        i
    } else {
        let j = choose|j: int| 0 <= j < i && labels[j] == labels[i];
        lemma_leader_exists(labels, j)
    }
}

/// The groups depend on which ids share a label, not on the labels: two
/// labellings that put the same ids together give the same groups.
pub proof fn lemma_groups_follow_sets(first: Seq<int>, second: Seq<int>)
    requires
        first.len() == second.len(),
        forall|i: int, j: int|
            0 <= i < first.len() && 0 <= j < first.len() ==> (first[i] == first[j] <==> second[i]
                == second[j]),
    ensures
        id_groups(first) == id_groups(second),
{
    let n = first.len() as int;
    lemma_filter_agree(leads(first), leads(second), n);
    lemma_filtered_ids(leads(first), n);
    let lead = leaders_below(first, n);
    assert forall|g: int| 0 <= g < lead.len() implies members_below(first, first[lead[g]], n)
        == members_below(second, second[lead[g]], n) by {
        lemma_filter_agree(has_label(first, first[lead[g]]), has_label(second, second[lead[g]]), n);
    }
    assert(id_groups(first) =~= id_groups(second));
}

/// `group` holds the ids that carry the label `r`, each once, ascending.
spec fn holds_set(labels: Seq<int>, group: Seq<int>, r: int) -> bool {
    &&& forall|j: int|
        0 <= j < group.len() ==> 0 <= #[trigger] group[j] < labels.len() && labels[group[j]] == r
    &&& forall|j: int, k: int| 0 <= j < k < group.len() ==> group[j] < group[k]
    &&& forall|i: int| 0 <= i < labels.len() && labels[i] == r ==> group.contains(i)
}

/// The groups are a partition of the ids: every place of a group holds an
/// id, every id stands at one place and no other, and two places lie in the
/// same group exactly if their ids carry the same label.
pub proof fn lemma_groups_partition(labels: Seq<int>)
    ensures
        forall|g: int, j: int|
            0 <= g < id_groups(labels).len() && 0 <= j < id_groups(labels)[g].len() ==> 0
                <= #[trigger] id_groups(labels)[g][j] < labels.len(),
        forall|i: int| 0 <= i < labels.len() ==> #[trigger] placed(id_groups(labels), i),
        forall|g: int, j: int, h: int, k: int|
            0 <= g < id_groups(labels).len() && 0 <= j < id_groups(labels)[g].len() && 0 <= h
                < id_groups(labels).len() && 0 <= k < id_groups(labels)[h].len() ==> (g == h
                <==> labels[#[trigger] id_groups(labels)[g][j]]
                == labels[#[trigger] id_groups(labels)[h][k]]),
        forall|g: int, j: int, h: int, k: int|
            0 <= g < id_groups(labels).len() && 0 <= j < id_groups(labels)[g].len() && 0 <= h
                < id_groups(labels).len() && 0 <= k < id_groups(labels)[h].len()
                && #[trigger] id_groups(labels)[g][j] == #[trigger] id_groups(labels)[h][k] ==> g
                == h && j == k,
{
    let n = labels.len() as int;
    let groups = id_groups(labels);
    let lead = leaders_below(labels, n);
    lemma_filtered_ids(leads(labels), n);
    assert forall|g: int| 0 <= g < groups.len() implies holds_set(
        labels,
        #[trigger] groups[g],
        labels[lead[g]],
    ) by {
        lemma_filtered_ids(has_label(labels, labels[lead[g]]), n);
    }
    assert forall|g: int, h: int| 0 <= g < h < lead.len() implies labels[lead[g]]
        != labels[lead[h]] by {
        assert(lead[g] < lead[h]);
        assert(is_leader(labels, lead[h]));
    }
    assert forall|i: int| 0 <= i < labels.len() implies #[trigger] placed(
        id_groups(labels),
        i,
    ) by {
        let l = lemma_leader_exists(labels, i);
        assert(lead.contains(l));
        let g = choose|g: int| 0 <= g < lead.len() && lead[g] == l;
        assert(groups[g].contains(i));
        let j = choose|j: int| 0 <= j < groups[g].len() && groups[g][j] == i;
        assert(id_groups(labels)[g][j] == i);
    }
    assert forall|g: int, j: int, h: int, k: int|
        0 <= g < id_groups(labels).len() && 0 <= j < id_groups(labels)[g].len() && 0 <= h
            < id_groups(labels).len() && 0 <= k < id_groups(labels)[h].len() implies (g == h
        <==> labels[#[trigger] id_groups(labels)[g][j]]
        == labels[#[trigger] id_groups(labels)[h][k]]) by {
        assert(labels[groups[g][j]] == labels[lead[g]]);
        assert(labels[groups[h][k]] == labels[lead[h]]);
        if g < h {
            assert(labels[lead[g]] != labels[lead[h]]);
        }
        if h < g {
            assert(labels[lead[h]] != labels[lead[g]]);
        }
    }
    assert forall|g: int, j: int, h: int, k: int|
        0 <= g < id_groups(labels).len() && 0 <= j < id_groups(labels)[g].len() && 0 <= h
            < id_groups(labels).len() && 0 <= k < id_groups(labels)[h].len()
            && #[trigger] id_groups(labels)[g][j] == #[trigger] id_groups(labels)[h][k] implies g
        == h && j == k by {
        assert(labels[groups[g][j]] == labels[lead[g]]);
        assert(labels[groups[h][k]] == labels[lead[h]]);
        if g < h {
            assert(labels[lead[g]] != labels[lead[h]]);
        }
        if h < g {
            assert(labels[lead[h]] != labels[lead[g]]);
        }
        if j < k {
            assert(groups[g][j] < groups[g][k]);
        }
        if k < j {
            assert(groups[g][k] < groups[g][j]);
        }
    }
}

/// The groups of values are a partition of the values: every value stands at
/// one place of the groups and no other, and the groups hold nothing else.
pub proof fn lemma_value_groups_partition<T>(values: Seq<T>, labels: Seq<int>)
    requires
        values.len() == labels.len(),
        values.no_duplicates(),
    ensures
        groups_of(values, labels).len() == id_groups(labels).len(),
        forall|g: int|
            0 <= g < id_groups(labels).len() ==> #[trigger] groups_of(values, labels)[g] == pick(
                values,
                id_groups(labels)[g],
            ),
        forall|g: int, j: int|
            0 <= g < groups_of(values, labels).len() && 0 <= j < groups_of(values, labels)[g].len()
                ==> values.contains(#[trigger] groups_of(values, labels)[g][j]),
        forall|i: int|
            0 <= i < values.len() ==> placed(groups_of(values, labels), #[trigger] values[i]),
        forall|g: int, j: int, h: int, k: int|
            0 <= g < groups_of(values, labels).len() && 0 <= j < groups_of(values, labels)[g].len()
                && 0 <= h < groups_of(values, labels).len() && 0 <= k < groups_of(
                values,
                labels,
            )[h].len() && #[trigger] groups_of(values, labels)[g][j] == #[trigger] groups_of(
                values,
                labels,
            )[h][k] ==> g == h && j == k,
{
    lemma_groups_partition(labels);
    let ids = id_groups(labels);
    let groups = groups_of(values, labels);
    assert forall|g: int, j: int| 0 <= g < groups.len() && 0 <= j < groups[g].len() implies 0
        <= ids[g][j] < values.len() && #[trigger] groups[g][j] == values[ids[g][j]] by {}
    assert forall|i: int| 0 <= i < values.len() implies placed(
        groups_of(values, labels),
        #[trigger] values[i],
    ) by {
        assert(placed(ids, i));
        let (g, j) = choose|g: int, j: int|
            0 <= g < ids.len() && 0 <= j < ids[g].len() && #[trigger] ids[g][j] == i;
        assert(groups[g][j] == values[i]);
    }
    assert forall|g: int, j: int, h: int, k: int|
        0 <= g < groups_of(values, labels).len() && 0 <= j < groups_of(values, labels)[g].len()
            && 0 <= h < groups_of(values, labels).len() && 0 <= k < groups_of(
            values,
            labels,
        )[h].len() && #[trigger] groups_of(values, labels)[g][j] == #[trigger] groups_of(
            values,
            labels,
        )[h][k] implies g == h && j == k by {
        assert(groups[g][j] == values[ids[g][j]]);
        assert(groups[h][k] == values[ids[h][k]]);
        assert(ids[g][j] == ids[h][k]);
    }
}

} // verus!
