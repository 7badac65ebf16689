//! When two hashed files count as similar, and the groups that similarity
//! makes of a list of them.

use vstd::prelude::*;
use crate::grouping::{
    group_views, groups_of, id_groups, lemma_groups_follow_sets, lemma_groups_partition,
};
use crate::hash::{hamming, lemma_hamming_symmetric, PerceptualHash};
use crate::partition::{
    connected, hop, is_path, joined, lemma_same_label_iff_connected, replay, valid, Step,
};
use crate::request::FileInfo;

verus! {

/// The files of a list of hashed files.
pub open spec fn files_of(hashes: Seq<(FileInfo, PerceptualHash)>) -> Seq<FileInfo> {
    hashes.map_values(|entry: (FileInfo, PerceptualHash)| entry.0)
}

/// The files at `i` and at `j` are two files whose hashes lie within
/// `max_dist` of each other.
pub open spec fn similar(
    hashes: Seq<(FileInfo, PerceptualHash)>,
    max_dist: u32,
    i: int,
    j: int,
) -> bool {
    &&& 0 <= i < hashes.len()
    &&& 0 <= j < hashes.len()
    &&& i != j
    &&& hamming(hashes[i].1@, hashes[j].1@) <= max_dist
}

/// The hop of `path` that starts at its index `k` joins two similar files.
pub open spec fn close_hop(
    hashes: Seq<(FileInfo, PerceptualHash)>,
    max_dist: u32,
    path: Seq<int>,
    k: int,
) -> bool {
    similar(hashes, max_dist, path[k], path[k + 1])
}

/// `path` leads from `a` to `b`, each hop between two similar files.
pub open spec fn is_chain(
    hashes: Seq<(FileInfo, PerceptualHash)>,
    max_dist: u32,
    path: Seq<int>,
    a: int,
    b: int,
) -> bool {
    &&& path.len() > 0
    &&& path[0] == a
    &&& path.last() == b
    &&& forall|k: int|
        0 <= k < path.len() - 1 ==> #[trigger] close_hop(hashes, max_dist, path, k)
}

/// The files at `a` and at `b` are similar, or linked by a chain of similar
/// files.
pub open spec fn related(
    hashes: Seq<(FileInfo, PerceptualHash)>,
    max_dist: u32,
    a: int,
    b: int,
) -> bool {
    exists|path: Seq<int>| is_chain(hashes, max_dist, path, a, b)
}

/// `labels` gives two files the same label exactly if they are related.
pub open spec fn sorts_by_similarity(
    hashes: Seq<(FileInfo, PerceptualHash)>,
    max_dist: u32,
    labels: Seq<int>,
) -> bool {
    &&& labels.len() == hashes.len()
    &&& forall|a: int, b: int|
        0 <= a < hashes.len() && 0 <= b < hashes.len() ==> (labels[a] == labels[b]
            <==> #[trigger] related(hashes, max_dist, a, b))
}

/// A labelling that gives two files the same label exactly if they are
/// related.
pub open spec fn similarity_labels(hashes: Seq<(FileInfo, PerceptualHash)>, max_dist: u32) -> Seq<
    int,
> {
    choose|labels: Seq<int>| sorts_by_similarity(hashes, max_dist, labels)
}

/// The test whether a group has more than one member.
pub open spec fn more_than_one<T>() -> spec_fn(Seq<T>) -> bool {
    |group: Seq<T>| group.len() > 1
}

/// The groups of similar files: the sets of related files that have more
/// than one member, ordered by their first file, the files of a group in
/// the order of the list.
pub open spec fn similar_groups(hashes: Seq<(FileInfo, PerceptualHash)>, max_dist: u32) -> Seq<
    Seq<FileInfo>,
> {
    groups_of(files_of(hashes), similarity_labels(hashes, max_dist)).filter(more_than_one())
}

/// Which of two files is named first does not matter to their similarity.
pub proof fn lemma_similar_symmetric(
    hashes: Seq<(FileInfo, PerceptualHash)>,
    max_dist: u32,
    i: int,
    j: int,
)
    ensures
        similar(hashes, max_dist, i, j) == similar(hashes, max_dist, j, i),
{
    if 0 <= i < hashes.len() && 0 <= j < hashes.len() {
        lemma_hamming_symmetric(hashes[i].1@, hashes[j].1@);
    }
}

/// Every file is related to itself.
pub proof fn lemma_related_refl(hashes: Seq<(FileInfo, PerceptualHash)>, max_dist: u32, a: int)
    ensures
        related(hashes, max_dist, a, a),
{
    assert(is_chain(hashes, max_dist, seq![a], a, a));
}

/// If one file is related to another, the other is related to it.
pub proof fn lemma_related_sym(
    hashes: Seq<(FileInfo, PerceptualHash)>,
    max_dist: u32,
    a: int,
    b: int,
)
    requires
        related(hashes, max_dist, a, b),
    ensures
        related(hashes, max_dist, b, a),
{
    let path = choose|path: Seq<int>| is_chain(hashes, max_dist, path, a, b);
    let back = path.reverse();
    assert forall|k: int| 0 <= k < back.len() - 1 implies #[trigger] close_hop(
        hashes,
        max_dist,
        back,
        k,
    ) by {
        let m = path.len() - 2 - k;
        assert(close_hop(hashes, max_dist, path, m));
        lemma_similar_symmetric(hashes, max_dist, path[m], path[m + 1]);
    }
    assert(is_chain(hashes, max_dist, back, b, a));
}

/// Files related to one file are related to each other.
pub proof fn lemma_related_trans(
    hashes: Seq<(FileInfo, PerceptualHash)>,
    max_dist: u32,
    a: int,
    b: int,
    c: int,
)
    requires
        related(hashes, max_dist, a, b),
        related(hashes, max_dist, b, c),
    ensures
        related(hashes, max_dist, a, c),
{
    let p = choose|path: Seq<int>| is_chain(hashes, max_dist, path, a, b);
    let q = choose|path: Seq<int>| is_chain(hashes, max_dist, path, b, c);
    let path = p.drop_last() + q;
    assert forall|k: int| 0 <= k < path.len() - 1 implies #[trigger] close_hop(
        hashes,
        max_dist,
        path,
        k,
    ) by {
        if k < p.len() - 2 {
            assert(close_hop(hashes, max_dist, p, k));
        } else if k == p.len() - 2 {
            assert(close_hop(hashes, max_dist, p, k));
            assert(path[k + 1] == q[0]);
        } else {
            let m = k - (p.len() - 1);
            assert(close_hop(hashes, max_dist, q, m));
        }
    }
    assert(is_chain(hashes, max_dist, path, a, c));
}

/// `j` is the first index of a file that is related to the file at `a`.
pub open spec fn is_first_related(
    hashes: Seq<(FileInfo, PerceptualHash)>,
    max_dist: u32,
    a: int,
    j: int,
) -> bool {
    &&& 0 <= j
    &&& related(hashes, max_dist, a, j)
    &&& forall|i: int| 0 <= i < j ==> !#[trigger] related(hashes, max_dist, a, i)
}

proof fn lemma_first_related_exists(
    hashes: Seq<(FileInfo, PerceptualHash)>,
    max_dist: u32,
    a: int,
    bound: int,
) -> (first: int)
    requires
        0 <= bound,
        related(hashes, max_dist, a, bound),
    ensures
        is_first_related(hashes, max_dist, a, first),
    decreases bound,
{
    if forall|i: int| 0 <= i < bound ==> !#[trigger] related(hashes, max_dist, a, i) {
        bound
    } else {
        let i = choose|i: int| 0 <= i < bound && #[trigger] related(hashes, max_dist, a, i);
        lemma_first_related_exists(hashes, max_dist, a, i)
    }
}

/// There is a labelling that gives two files the same label exactly if
/// they are related, so `similarity_labels` is one.
pub proof fn lemma_similarity_labels_sort(hashes: Seq<(FileInfo, PerceptualHash)>, max_dist: u32)
    ensures
        sorts_by_similarity(hashes, max_dist, similarity_labels(hashes, max_dist)),
{
    let labels = Seq::new(
        hashes.len(),
        |a: int| choose|j: int| is_first_related(hashes, max_dist, a, j),
    );
    assert forall|a: int, b: int| 0 <= a < hashes.len() && 0 <= b < hashes.len() implies (labels[a]
        == labels[b] <==> #[trigger] related(hashes, max_dist, a, b)) by {
        lemma_related_refl(hashes, max_dist, a);
        lemma_related_refl(hashes, max_dist, b);
        let fa = lemma_first_related_exists(hashes, max_dist, a, a);
        let fb = lemma_first_related_exists(hashes, max_dist, b, b);
        let la = labels[a];
        let lb = labels[b];
        assert(is_first_related(hashes, max_dist, a, la));
        assert(is_first_related(hashes, max_dist, b, lb));
        if related(hashes, max_dist, a, b) {
            lemma_related_sym(hashes, max_dist, a, b);
            lemma_related_trans(hashes, max_dist, b, a, la);
            lemma_related_trans(hashes, max_dist, a, b, lb);
        }
        if la == lb {
            lemma_related_sym(hashes, max_dist, b, lb);
            lemma_related_trans(hashes, max_dist, a, la, b);
        }
    }
    assert(sorts_by_similarity(hashes, max_dist, labels));
}

/// Two places of the groups lie in the same group exactly if their files
/// are related.
pub proof fn lemma_group_mates_are_related(
    hashes: Seq<(FileInfo, PerceptualHash)>,
    max_dist: u32,
)
    ensures
        forall|g: int, j: int, h: int, k: int|
            0 <= g < id_groups(similarity_labels(hashes, max_dist)).len() && 0 <= j < id_groups(
                similarity_labels(hashes, max_dist),
            )[g].len() && 0 <= h < id_groups(similarity_labels(hashes, max_dist)).len() && 0 <= k
                < id_groups(similarity_labels(hashes, max_dist))[h].len() ==> (g == h <==> related(
                hashes,
                max_dist,
                #[trigger] id_groups(similarity_labels(hashes, max_dist))[g][j],
                #[trigger] id_groups(similarity_labels(hashes, max_dist))[h][k],
            )),
{
    let labels = similarity_labels(hashes, max_dist);
    let groups = id_groups(labels);
    lemma_similarity_labels_sort(hashes, max_dist);
    lemma_groups_partition(labels);
    assert forall|g: int, j: int, h: int, k: int|
        0 <= g < groups.len() && 0 <= j < groups[g].len() && 0 <= h < groups.len() && 0 <= k
            < groups[h].len() implies (g == h <==> related(
        hashes,
        max_dist,
        #[trigger] groups[g][j],
        #[trigger] groups[h][k],
    )) by {
        let x = groups[g][j];
        let y = groups[h][k];
        assert(0 <= x < labels.len() && 0 <= y < labels.len());
        assert(g == h <==> labels[x] == labels[y]);
        assert(labels[x] == labels[y] <==> related(hashes, max_dist, x, y));
    }
}

/// A history whose unions join exactly the similar files leaves a labelling
/// that sorts the files by similarity.
pub(crate) proof fn lemma_history_sorts(
    hashes: Seq<(FileInfo, PerceptualHash)>,
    max_dist: u32,
    steps: Seq<Step>,
)
    requires
        valid(steps),
        replay(steps).len() == hashes.len(),
        forall|u: int, v: int|
            steps.contains(Step::Union(u, v)) <==> similar(hashes, max_dist, u, v),
    ensures
        sorts_by_similarity(hashes, max_dist, replay(steps)),
{
    assert forall|u: int, v: int| joined(steps, u, v) == similar(hashes, max_dist, u, v) by {
        if 0 <= u < hashes.len() && 0 <= v < hashes.len() {
            lemma_hamming_symmetric(hashes[u].1@, hashes[v].1@);
        }
        assert(steps.contains(Step::Union(u, v)) <==> similar(hashes, max_dist, u, v));
        assert(steps.contains(Step::Union(v, u)) <==> similar(hashes, max_dist, v, u));
    }
    assert forall|a: int, b: int| 0 <= a < hashes.len() && 0 <= b < hashes.len() implies (replay(
        steps,
    )[a] == replay(steps)[b] <==> #[trigger] related(hashes, max_dist, a, b)) by {
        lemma_same_label_iff_connected(steps, a, b);
        if connected(steps, a, b) {
            let path = choose|path: Seq<int>| is_path(steps, path, a, b);
            assert forall|k: int| 0 <= k < path.len() - 1 implies #[trigger] close_hop(
                hashes,
                max_dist,
                path,
                k,
            ) by {
                assert(hop(steps, path, k));
            }
            assert(is_chain(hashes, max_dist, path, a, b));
        }
        if related(hashes, max_dist, a, b) {
            let path = choose|path: Seq<int>| is_chain(hashes, max_dist, path, a, b);
            assert forall|k: int| 0 <= k < path.len() - 1 implies #[trigger] hop(
                steps,
                path,
                k,
            ) by {
                assert(close_hop(hashes, max_dist, path, k));
            }
            assert(is_path(steps, path, a, b));
        }
    }
}

/// Any labelling that sorts the files by similarity gives the groups of
/// `similarity_labels`.
pub(crate) proof fn lemma_groups_of_any_sorting(
    hashes: Seq<(FileInfo, PerceptualHash)>,
    max_dist: u32,
    labels: Seq<int>,
)
    requires
        sorts_by_similarity(hashes, max_dist, labels),
    ensures
        id_groups(labels) == id_groups(similarity_labels(hashes, max_dist)),
{
    let chosen = similarity_labels(hashes, max_dist);
    assert forall|i: int, j: int| 0 <= i < labels.len() && 0 <= j < labels.len() implies (labels[i]
        == labels[j] <==> chosen[i] == chosen[j]) by {
        assert(labels[i] == labels[j] <==> related(hashes, max_dist, i, j));
        assert(chosen[i] == chosen[j] <==> related(hashes, max_dist, i, j));
    }
    lemma_groups_follow_sets(labels, chosen);
}

/// Grouping the same hashed files at the same distance gives the same
/// groups, however often it is done.
pub proof fn lemma_same_hashes_same_groups(
    hashes: Seq<(FileInfo, PerceptualHash)>,
    max_dist: u32,
    first: Seq<Vec<FileInfo>>,
    second: Seq<Vec<FileInfo>>,
)
    requires
        group_views(first) == similar_groups(hashes, max_dist),
        group_views(second) == similar_groups(hashes, max_dist),
    ensures
        first.len() == second.len(),
        forall|g: int| 0 <= g < first.len() ==> #[trigger] first[g]@ == second[g]@,
{
    assert(group_views(first).len() == group_views(second).len());
    assert forall|g: int| 0 <= g < first.len() implies #[trigger] first[g]@ == second[g]@ by {
        assert(group_views(first)[g] == group_views(second)[g]);
    }
}

} // verus!
