//! The grouping of hashed files by similarity, and the progress of a scan.

use vstd::prelude::*;
use vstd::laws_eq::group_laws_eq;
use vstd::std_specs::cmp::PartialEqSpec;
use crate::disjoint_set::DisjointSet;
use crate::equality::{lawful_eq, lemma_concrete_eq_is_lawful};
use crate::grouping::{group_views, groups_of, id_groups, lemma_groups_partition, pick};
use crate::hash::PerceptualHash;
use crate::partition::Step;
use crate::request::FileInfo;
use crate::similarity::{
    files_of, lemma_groups_of_any_sorting, lemma_history_sorts, more_than_one, similar,
    similar_groups,
};

verus! {

/// The indices `0, 1, .., n - 1` as values.
pub open spec fn index_values(n: int) -> Seq<usize> {
    Seq::new(n as nat, |k: int| k as usize)
}

/// Sorts hashed files into groups of similar images. Two files are similar
/// if the Hamming distance of their hashes is at most `max_dist`; files
/// that a chain of similar files links share a group; a file that is
/// similar to no other is left out.
pub fn create_groups(hashes: &Vec<(FileInfo, PerceptualHash)>, max_dist: u32) -> (groups: Vec<
    Vec<FileInfo>,
>)
    ensures
        group_views(groups@) == similar_groups(hashes@, max_dist),
{
    broadcast use group_laws_eq;

    proof {
        lemma_concrete_eq_is_lawful::<usize>();
    }
    let n: usize = hashes.len();
    let mut ds: DisjointSet<usize> = DisjointSet::new();
    let mut i: usize = 0;
    while i < n
        invariant
            i <= n,
            ds.wf(),
            ds.values() == index_values(i as int),
            forall|u: int, v: int| !ds.history().contains(Step::Union(u, v)),
            forall|x: usize, y: usize| #[trigger] x.eq_spec(&y) <==> x == y,
        decreases n - i,
    {
        let ghost before = ds.history();
        ds.insert(i);
        proof {
            assert(ds.values() =~= index_values(i + 1));
            assert forall|u: int, v: int| !ds.history().contains(Step::Union(u, v)) by {
                if ds.history().contains(Step::Union(u, v)) {
                    let k = choose|k: int|
                        0 <= k < ds.history().len() && ds.history()[k] == Step::Union(u, v);
                    assert(before[k] == Step::Union(u, v));
                    assert(before.contains(Step::Union(u, v)));
                }
            }
        }
        i += 1;
    }
    let mut i: usize = 0;
    while i < n
        invariant
            i <= n,
            n == hashes.len(),
            ds.wf(),
            ds.values() == index_values(n as int),
            lawful_eq::<usize>(),
            forall|x: usize, y: usize| #[trigger] x.eq_spec(&y) <==> x == y,
            forall|u: int, v: int|
                ds.history().contains(Step::Union(u, v)) ==> similar(hashes@, max_dist, u, v),
            forall|u: int, v: int|
                similar(hashes@, max_dist, u, v) && u < i ==> ds.history().contains(
                    Step::Union(u, v),
                ),
        decreases n - i,
    {
        let mut j: usize = 0;
        while j < n
            invariant
                i < n,
                j <= n,
                n == hashes.len(),
                ds.wf(),
                ds.values() == index_values(n as int),
                lawful_eq::<usize>(),
                forall|x: usize, y: usize| #[trigger] x.eq_spec(&y) <==> x == y,
                forall|u: int, v: int|
                    ds.history().contains(Step::Union(u, v)) ==> similar(hashes@, max_dist, u, v),
                forall|u: int, v: int|
                    similar(hashes@, max_dist, u, v) && (u < i || (u == i && v < j))
                        ==> ds.history().contains(Step::Union(u, v)),
            decreases n - j,
        {
            if i != j && hashes[i].1.dist(&hashes[j].1) <= max_dist {
                let ghost before = ds.history();
                proof {
                    assert(ds.holds_at(i as int, i));
                    assert(ds.holds_at(j as int, j));
                    ds.lemma_one_id(i, i as int, i as int);
                    ds.lemma_one_id(j, j as int, j as int);
                }
                ds.union(&i, &j);
                proof {
                    let steps = ds.history();
                    assert(steps[before.len() as int] == Step::Union(i as int, j as int));
                    assert forall|u: int, v: int|
                        steps.contains(Step::Union(u, v)) implies similar(
                        hashes@,
                        max_dist,
                        u,
                        v,
                    ) by {
                        let k = choose|k: int|
                            0 <= k < steps.len() && steps[k] == Step::Union(u, v);
                        if k < before.len() {
                            assert(before[k] == Step::Union(u, v));
                            assert(before.contains(Step::Union(u, v)));
                        }
                    }
                    assert forall|u: int, v: int|
                        similar(hashes@, max_dist, u, v) && (u < i || (u == i && v < j + 1))
                        implies steps.contains(Step::Union(u, v)) by {
                        if u == i && v == j {
                        } else {
                            assert(before.contains(Step::Union(u, v)));
                            let k = choose|k: int|
                                0 <= k < before.len() && before[k] == Step::Union(u, v);
                            assert(steps[k] == Step::Union(u, v));
                        }
                    }
                }
            }
            j += 1;
        }
        i += 1;
    }
    let ghost labels = ds.roots();
    let ghost files = files_of(hashes@);
    let ghost every = groups_of(files, labels);
    proof {
        lemma_history_sorts(hashes@, max_dist, ds.history());
        lemma_groups_of_any_sorting(hashes@, max_dist, labels);
        lemma_groups_partition(labels);
    }
    let sets: Vec<Vec<usize>> = ds.into_vec();
    assert(group_views(sets@).len() == every.len());
    let mut groups: Vec<Vec<FileInfo>> = Vec::new();
    let mut g: usize = 0;
    proof {
        reveal(Seq::filter);
        assert(every.take(0) =~= Seq::<Seq<FileInfo>>::empty());
    }
    while g < sets.len()
        invariant
            g <= sets.len(),
            n == hashes.len(),
            labels.len() == n,
            files == files_of(hashes@),
            every == groups_of(files, labels),
            group_views(sets@) == groups_of(index_values(n as int), labels),
            sets.len() == every.len(),
            forall|s: int, m: int|
                0 <= s < id_groups(labels).len() && 0 <= m < id_groups(labels)[s].len() ==> 0
                    <= #[trigger] id_groups(labels)[s][m] < labels.len(),
            group_views(groups@) == every.take(g as int).filter(more_than_one()),
        decreases sets.len() - g,
    {
        let ghost ids = id_groups(labels)[g as int];
        proof {
            assert(group_views(sets@)[g as int] == pick(index_values(n as int), ids));
            assert(sets[g as int]@ == pick(index_values(n as int), ids));
            assert(every[g as int] == pick(files, ids));
            assert(every.take(g + 1) =~= every.take(g as int).push(every[g as int]));
            every.take(g as int).lemma_filter_push(every[g as int], more_than_one());
        }
        let size: usize = sets[g].len();
        if size > 1 {
            let mut members: Vec<FileInfo> = Vec::new();
            let mut m: usize = 0;
            while m < size
                invariant
                    m <= size,
                    g < sets.len(),
                    size == sets[g as int].len(),
                    size == ids.len(),
                    n == hashes.len(),
                    files == files_of(hashes@),
                    sets[g as int]@ == pick(index_values(n as int), ids),
                    forall|k: int| 0 <= k < ids.len() ==> 0 <= #[trigger] ids[k] < n,
                    members@ == pick(files, ids).take(m as int),
                decreases size - m,
            {
                let at: usize = sets[g][m];
                assert(at == ids[m as int]);
                let file: FileInfo = hashes[at].0.clone();
                members.push(file);
                assert(members@ =~= pick(files, ids).take(m + 1));
                m += 1;
            }
            assert(members@ =~= every[g as int]);
            let ghost kept = groups@;
            groups.push(members);
            assert(group_views(groups@) =~= group_views(kept).push(every[g as int]));
        }
        g += 1;
    }
    assert(every.take(g as int) =~= every);
    groups
}

/// The cache did not answer.
#[derive(Debug)]
pub struct CacheUnavailable {}

/// Settles the hash of one file. A hash that the cache handed out is
/// reused, and `decode` is not called. On a miss, and when the cache did not
/// answer, `decode` reads the image and computes its hash; a file that it
/// cannot read is left out.
pub fn compute_hash<F: FnOnce() -> Option<PerceptualHash>>(
    file: FileInfo,
    cached: Result<Option<PerceptualHash>, CacheUnavailable>,
    decode: F,
) -> (hashed: Option<(FileInfo, PerceptualHash)>)
    requires
        decode.requires(()),
    ensures
        match cached {
            Ok(Some(hash)) => hashed == Some((file, hash)),
            _ => exists|computed: Option<PerceptualHash>|
                decode.ensures((), computed) && hashed == match computed {
                    Some(hash) => Some((file, hash)),
                    None => None,
                },
        },
{
    match cached {
        Ok(Some(hash)) => Some((file, hash)),
        _ => match decode() {
            Some(hash) => Some((file, hash)),
            None => None,
        },
    }
}

/// The share of `total` that `completed` is, in whole percent.
pub open spec fn percent_of(completed: int, total: int) -> int {
    completed * 100 / total
}

/// The progress of a scan that has completed `completed` of `total` files,
/// in whole percent, rounded down.
pub fn progress_percent(completed: usize, total: usize) -> (percent: usize)
    requires
        0 < total,
        completed <= total,
    ensures
        percent == percent_of(completed as int, total as int),
        percent <= 100,
{
    proof {
        lemma_percent_range(completed as int, total as int);
    }
    let done: u128 = completed as u128;
    let all: u128 = total as u128;
    let percent: u128 = done * 100 / all;
    percent as usize
}

/// Progress stays between 0 and 100, starts at 0 and ends at 100.
pub proof fn lemma_percent_range(completed: int, total: int)
    requires
        0 < total,
        0 <= completed <= total,
    ensures
        0 <= percent_of(completed, total) <= 100,
        percent_of(0, total) == 0,
        percent_of(total, total) == 100,
{
    assert(0 <= completed * 100 / total <= 100) by (nonlinear_arith)
        requires
            0 < total,
            0 <= completed <= total,
    ;
    assert(0int * 100 / total == 0) by (nonlinear_arith)
        requires
            0 < total,
    ;
    assert(total * 100 / total == 100) by (nonlinear_arith)
        requires
            0 < total,
    ;
}

/// Progress never falls while the count of completed files grows.
pub proof fn lemma_percent_monotonic(earlier: int, later: int, total: int)
    requires
        0 < total,
        0 <= earlier <= later,
    ensures
        percent_of(earlier, total) <= percent_of(later, total),
{
    assert(earlier * 100 / total <= later * 100 / total) by (nonlinear_arith)
        requires
            0 < total,
            0 <= earlier <= later,
    ;
}

} // verus!
