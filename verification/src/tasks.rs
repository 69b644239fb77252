//! Search tasks — frontier nodes of the branch-and-bound tree — and the
//! generator of the three-node seed paths that start the search.

use vstd::prelude::*;

use crate::geometry::{Node, dist2, edge, turn_ok, lemma_edge_basics, EDGE_MAX};
use crate::paths::{admissible_path, lemma_index_seq_len, path_len_of, valid_indices};
use crate::precompute::{adjacency_wf, cand_list_wf, matrix_wf, nodes_ok};

verus! {

/// One node of the branch-and-bound search tree: a partial path.  The
/// indices not on the path are exactly the still-free ones, so the path
/// alone determines the task.  `length` caches the path's exact length.
pub struct SearchTask {
    pub path: Vec<usize>,
    pub length: u64,
}

/// A task is well formed against a node list when its path is admissible,
/// holds at least the three seed vertices, and its cached length is the
/// true path length.
pub open spec fn task_wf(t: SearchTask, pts: Seq<Node>) -> bool {
    &&& admissible_path(pts, t.path@)
    &&& 3 <= t.path@.len() <= pts.len()
    &&& t.length == path_len_of(pts, t.path@)
}

/// Three pairwise distinct node indices whose middle vertex turns by a
/// right angle or wider: an admissible seed path.
pub open spec fn valid_triple(pts: Seq<Node>, i: usize, j: usize, k: usize) -> bool {
    &&& (i as int) < pts.len()
    &&& (j as int) < pts.len()
    &&& (k as int) < pts.len()
    &&& i != j && j != k && i != k
    &&& turn_ok(pts[i as int], pts[j as int], pts[k as int])
}

/// Some seed's path is exactly the triple `[i, j, k]`.
pub open spec fn seed_present(seeds: Seq<SearchTask>, i: usize, j: usize, k: usize) -> bool {
    exists|idx: int| 0 <= idx < seeds.len() && (#[trigger] seeds[idx].path@) == seq![i, j, k]
}

/// Every admissible triple occurs among the seeds.
pub open spec fn seeds_complete(seeds: Seq<SearchTask>, pts: Seq<Node>) -> bool {
    forall|i: usize, j: usize, k: usize|
        valid_triple(pts, i, j, k) ==> #[trigger] seed_present(seeds, i, j, k)
}

/// Inserting one more seed keeps every present triple present.
proof fn lemma_seed_present_insert(
    old_seeds: Seq<SearchTask>,
    new_seeds: Seq<SearchTask>,
    pos: int,
    tnew: SearchTask,
    i: usize,
    j: usize,
    k: usize,
)
    requires
        0 <= pos <= old_seeds.len(),
        new_seeds == old_seeds.insert(pos, tnew),
        seed_present(old_seeds, i, j, k),
    ensures
        seed_present(new_seeds, i, j, k),
{
    old_seeds.insert_ensures(pos, tnew);
    let idx0 = choose|idx: int|
        0 <= idx < old_seeds.len() && (#[trigger] old_seeds[idx].path@) == seq![i, j, k];
    if idx0 < pos {
        assert(new_seeds[idx0].path@ == seq![i, j, k]);
    } else {
        assert(new_seeds[idx0 + 1].path@ == seq![i, j, k]);
    }
}

/// The tasks are ordered ascending by cached length.
pub open spec fn sorted_by_length(seeds: Seq<SearchTask>) -> bool {
    forall|a: int, b: int|
        0 <= a <= b < seeds.len() ==> (#[trigger] seeds[a].length) <= (#[trigger] seeds[b].length)
}

/// Every task of the list is a well-formed three-vertex seed.
pub open spec fn seeds_wf(seeds: Seq<SearchTask>, pts: Seq<Node>) -> bool {
    forall|idx: int|
        0 <= idx < seeds.len() ==> #[trigger] task_wf(seeds[idx], pts) && seeds[idx].path@.len()
            == 3
}

/// Every triple present in `a` is present in `b`.
pub open spec fn presence_preserved(a: Seq<SearchTask>, b: Seq<SearchTask>) -> bool {
    forall|i: usize, j: usize, k: usize|
        seed_present(a, i, j, k) ==> #[trigger] seed_present(b, i, j, k)
}

/// No two tasks of the list carry the same path: each admissible triple
/// occurs at most once.
pub open spec fn seeds_distinct(seeds: Seq<SearchTask>) -> bool {
    forall|a: int, b: int|
        0 <= a < b < seeds.len() ==> (#[trigger] seeds[a].path@) != (#[trigger] seeds[b].path@)
}

/// No task of the list carries the path `p`.
pub open spec fn path_absent(seeds: Seq<SearchTask>, p: Seq<usize>) -> bool {
    forall|idx: int| 0 <= idx < seeds.len() ==> (#[trigger] seeds[idx].path@) != p
}

/// A three-vertex path made of a valid triple is admissible and its
/// length is the sum of its two edges.
proof fn lemma_triple_path(pts: Seq<Node>, i: usize, j: usize, k: usize)
    requires
        valid_triple(pts, i, j, k),
    ensures
        admissible_path(pts, seq![i, j, k]),
        path_len_of(pts, seq![i, j, k]) == edge(pts[i as int], pts[j as int]) + edge(
            pts[j as int],
            pts[k as int],
        ),
{
    let p = seq![i, j, k];
    assert(p.no_duplicates());
    assert(valid_indices(pts.len() as int, p));
    assert(forall|t: int|
        1 <= t < p.len() - 1 ==> turn_ok(
            pts[#[trigger] p[t - 1] as int],
            pts[p[t] as int],
            pts[p[t + 1] as int],
        ));
    let p2 = p.drop_last();
    let p1 = p2.drop_last();
    assert(p2 =~= seq![i, j]);
    assert(p1 =~= seq![i]);
    assert(path_len_of(pts, p1) == 0);
    assert(path_len_of(pts, p2) == edge(pts[i as int], pts[j as int]));
}

/// Inserts a seed at the position that keeps the list ascending by
/// length, preserving well-formedness, every present triple, and — given
/// that the new task's path is not yet present — pairwise distinctness.
#[verifier::rlimit(100)]
fn insert_seed(seeds: &mut Vec<SearchTask>, task: SearchTask, pts: Ghost<Seq<Node>>)
    requires
        task_wf(task, pts@),
        task.path@.len() == 3,
        seeds_wf(old(seeds)@, pts@),
        sorted_by_length(old(seeds)@),
        seeds_distinct(old(seeds)@),
        path_absent(old(seeds)@, task.path@),
    ensures
        seeds_wf(final(seeds)@, pts@),
        sorted_by_length(final(seeds)@),
        seeds_distinct(final(seeds)@),
        presence_preserved(old(seeds)@, final(seeds)@),
        final(seeds)@.len() == old(seeds)@.len() + 1,
        exists|idx: int|
            0 <= idx < final(seeds)@.len() && (#[trigger] final(seeds)@[idx]) == task,
        forall|idx: int|
            0 <= idx < final(seeds)@.len() ==> final(seeds)@[idx] == task || old(
                seeds,
            )@.contains(#[trigger] final(seeds)@[idx]),
{
    let length = task.length;
    let ghost gtask = task;
    let mut pos: usize = 0;
    loop
        invariant_except_break
            seeds@ == old(seeds)@,
            pos <= seeds@.len(),
            sorted_by_length(old(seeds)@),
            seeds_wf(old(seeds)@, pts@),
            seeds_distinct(old(seeds)@),
            path_absent(old(seeds)@, gtask.path@),
            task_wf(gtask, pts@),
            gtask.path@.len() == 3,
            gtask.length == length,
            forall|a: int| 0 <= a < pos ==> (#[trigger] seeds@[a].length) <= length,
        ensures
            seeds@ == old(seeds)@,
            pos <= seeds@.len(),
            sorted_by_length(old(seeds)@),
            seeds_wf(old(seeds)@, pts@),
            seeds_distinct(old(seeds)@),
            path_absent(old(seeds)@, gtask.path@),
            task_wf(gtask, pts@),
            gtask.path@.len() == 3,
            gtask.length == length,
            forall|a: int| 0 <= a < pos ==> (#[trigger] seeds@[a].length) <= length,
            pos < seeds@.len() ==> seeds@[pos as int].length > length,
        decreases seeds@.len() - pos,
    {
        if pos >= seeds.len() {
            break;
        }
        if seeds[pos].length > length {
            break;
        }
        pos = pos + 1;
    }
    seeds.insert(pos, task);
    proof {
        let pre = old(seeds)@;
        pre.insert_ensures(pos as int, gtask);
        assert(seeds@ == pre.insert(pos as int, gtask));
        assert(seeds@[pos as int] == gtask);
        assert(seeds_wf(seeds@, pts@)) by {
            assert forall|idx: int|
                0 <= idx < seeds@.len() implies #[trigger] task_wf(seeds@[idx], pts@)
                && seeds@[idx].path@.len() == 3 by {
                if idx < pos {
                    assert(seeds@[idx] == pre[idx]);
                    assert(seeds_wf(pre, pts@));
                    assert(0 <= idx < pre.len());
                    assert(task_wf(pre[idx], pts@) && pre[idx].path@.len() == 3);
                } else if idx > pos {
                    assert(seeds@[idx] == pre[idx - 1]);
                    assert(seeds_wf(pre, pts@));
                    assert(seeds@.len() == pre.len() + 1);
                    let pidx = idx - 1;
                    assert(0 <= pidx < pre.len());
                    assert(task_wf(pre[pidx], pts@));
                    assert(pre[pidx].path@.len() == 3);
                }
            }
        }
        assert(sorted_by_length(seeds@)) by {
            assert forall|a: int, b: int| 0 <= a <= b < seeds@.len() implies (
            #[trigger] seeds@[a].length) <= (#[trigger] seeds@[b].length) by {
                if a < pos && b == pos {
                    assert(seeds@[a] == pre[a]);
                } else if a == pos && b > pos {
                    assert(seeds@[b] == pre[b - 1]);
                    assert(pre[pos as int].length > length);
                    assert(pre[b - 1].length >= pre[pos as int].length);
                } else if a < pos && b > pos {
                    assert(seeds@[a] == pre[a]);
                    assert(seeds@[b] == pre[b - 1]);
                } else if a == b {
                } else if b < pos {
                    assert(seeds@[a] == pre[a] && seeds@[b] == pre[b]);
                } else if a > pos {
                    assert(seeds@[a] == pre[a - 1] && seeds@[b] == pre[b - 1]);
                }
            }
        }
        assert(presence_preserved(pre, seeds@)) by {
            assert forall|i2: usize, j2: usize, k2: usize|
                seed_present(pre, i2, j2, k2) implies #[trigger] seed_present(
                seeds@,
                i2,
                j2,
                k2,
            ) by {
                lemma_seed_present_insert(pre, seeds@, pos as int, gtask, i2, j2, k2);
            }
        }
        assert(seeds_distinct(seeds@)) by {
            assert forall|a: int, b: int| 0 <= a < b < seeds@.len() implies (
            #[trigger] seeds@[a].path@) != (#[trigger] seeds@[b].path@) by {
                if a == pos {
                    assert(seeds@[b] == pre[b - 1]);
                    assert(pre[b - 1].path@ != gtask.path@);
                } else if b == pos {
                    assert(seeds@[a] == pre[a]);
                    assert(pre[a].path@ != gtask.path@);
                } else {
                    let a0: int = if a < pos { a } else { a - 1 };
                    let b0: int = if b < pos { b } else { b - 1 };
                    assert(seeds@[a] == pre[a0] && seeds@[b] == pre[b0]);
                    assert(pre[a0].path@ != pre[b0].path@);
                }
            }
        }
        assert forall|idx: int|
            0 <= idx < seeds@.len() implies seeds@[idx] == gtask || pre.contains(
            #[trigger] seeds@[idx],
        ) by {
            if idx < pos {
                assert(seeds@[idx] == pre[idx]);
            } else if idx > pos {
                assert(seeds@[idx] == pre[idx - 1]);
            }
        }
    }
}

/// Enumerates every admissible three-node seed path, ascending by total
/// length (shortest first).  Seeding the search with short partial paths
/// first tightens the incumbent early, which drives the pruning.
///
/// Its result is exhaustive and exact: every admissible triple appears,
/// and appears once — so a search that drains every seed's subtree has
/// considered every admissible complete path, and at most `n^3` seeds
/// exist.
pub fn generate_start_paths(
    nodes: &Vec<Node>,
    angles: &Vec<Vec<Vec<usize>>>,
    distances: &Vec<Vec<u64>>,
) -> (seeds: Vec<SearchTask>)
    requires
        nodes_ok(nodes@),
        adjacency_wf(angles@, nodes@),
        matrix_wf(distances@, nodes@),
    ensures
        seeds_wf(seeds@, nodes@),
        seeds_complete(seeds@, nodes@),
        sorted_by_length(seeds@),
        seeds_distinct(seeds@),
        seeds@.len() <= nodes@.len() * nodes@.len() * nodes@.len(),
{
    let pts = Ghost(nodes@);
    let n = nodes.len();
    let mut seeds: Vec<SearchTask> = Vec::new();
    for i in 0..n
        invariant
            pts@ == nodes@,
            nodes_ok(pts@),
            adjacency_wf(angles@, pts@),
            matrix_wf(distances@, pts@),
            n == pts@.len(),
            seeds_wf(seeds@, pts@),
            sorted_by_length(seeds@),
            seeds_distinct(seeds@),
            seeds@.len() <= (i as int) * (n as int) * (n as int),
            forall|idx: int|
                0 <= idx < seeds@.len() ==> (#[trigger] seeds@[idx].path@)[0] < i,
            forall|i2: usize, j2: usize, k2: usize|
                i2 < i && valid_triple(pts@, i2, j2, k2) ==> #[trigger] seed_present(
                    seeds@,
                    i2,
                    j2,
                    k2,
                ),
    {
        for j in 0..n
            invariant
                pts@ == nodes@,
                nodes_ok(pts@),
                adjacency_wf(angles@, pts@),
                matrix_wf(distances@, pts@),
                n == pts@.len(),
                i < n,
                seeds_wf(seeds@, pts@),
                sorted_by_length(seeds@),
                seeds_distinct(seeds@),
                seeds@.len() <= (i as int) * (n as int) * (n as int) + (j as int) * (n as int),
                forall|idx: int|
                    0 <= idx < seeds@.len() ==> (#[trigger] seeds@[idx].path@)[0] < i || (
                    seeds@[idx].path@[0] == i && seeds@[idx].path@[1] < j),
                forall|i2: usize, j2: usize, k2: usize|
                    i2 < i && valid_triple(pts@, i2, j2, k2) ==> #[trigger] seed_present(
                        seeds@,
                        i2,
                        j2,
                        k2,
                    ),
                forall|j2: usize, k2: usize|
                    j2 < j && valid_triple(pts@, i, j2, k2) ==> #[trigger] seed_present(
                        seeds@,
                        i,
                        j2,
                        k2,
                    ),
        {
            let ghost cands = angles@[i as int]@[j as int]@;
            let list_len = angles[i][j].len();
            for t in 0..list_len
                invariant
                    pts@ == nodes@,
                    nodes_ok(pts@),
                    adjacency_wf(angles@, pts@),
                    matrix_wf(distances@, pts@),
                    n == pts@.len(),
                    i < n,
                    j < n,
                    cands == angles@[i as int]@[j as int]@,
                    list_len == cands.len(),
                    seeds_wf(seeds@, pts@),
                    sorted_by_length(seeds@),
                    seeds_distinct(seeds@),
                    seeds@.len() <= (i as int) * (n as int) * (n as int) + (j as int) * (
                    n as int) + t,
                    forall|idx: int|
                        0 <= idx < seeds@.len() ==> (#[trigger] seeds@[idx].path@)[0] < i || (
                        seeds@[idx].path@[0] == i && seeds@[idx].path@[1] < j) || (
                        seeds@[idx].path@[0] == i && seeds@[idx].path@[1] == j && exists|t2: int|
                            0 <= t2 < t && (#[trigger] cands[t2]) == seeds@[idx].path@[2]),
                    forall|i2: usize, j2: usize, k2: usize|
                        i2 < i && valid_triple(pts@, i2, j2, k2) ==> #[trigger] seed_present(
                            seeds@,
                            i2,
                            j2,
                            k2,
                        ),
                    forall|j2: usize, k2: usize|
                        j2 < j && valid_triple(pts@, i, j2, k2) ==> #[trigger] seed_present(
                            seeds@,
                            i,
                            j2,
                            k2,
                        ),
                    forall|t2: int|
                        0 <= t2 < t ==> seed_present(seeds@, i, j, #[trigger] cands[t2]),
            {
                let k = angles[i][j][t];
                proof {
                    assert(cands[t as int] == k);
                    assert(cand_list_wf(cands, pts@, i as int, j as int));
                    assert(valid_triple(pts@, i, j, k));
                    lemma_triple_path(pts@, i, j, k);
                    lemma_edge_basics(pts@[i as int], pts@[j as int]);
                    lemma_edge_basics(pts@[j as int], pts@[k as int]);
                }
                let mut path: Vec<usize> = Vec::new();
                path.push(i);
                path.push(j);
                path.push(k);
                proof {
                    assert(path@ =~= seq![i, j, k]);
                }
                let length: u64 = distances[i][j] + distances[j][k];
                let task = SearchTask { path, length };
                let ghost gtask = task;
                proof {
                    assert(task_wf(gtask, pts@)) by {
                        assert(gtask.path@ == seq![i, j, k]);
                        assert((i as int) < pts@.len() && (j as int) < pts@.len() && (k as int)
                            < pts@.len());
                        assert(gtask.length == path_len_of(pts@, gtask.path@));
                    }
                }
                let ghost pre_seeds = seeds@;
                proof {
                    // The triple (i, j, k) has not been emitted yet: earlier
                    // seeds come from an earlier key, or from an earlier
                    // position of this duplicate-free candidate list.
                    assert(path_absent(pre_seeds, gtask.path@)) by {
                        assert forall|idx: int|
                            0 <= idx < pre_seeds.len() implies (#[trigger] pre_seeds[idx].path@)
                            != gtask.path@ by {
                            if pre_seeds[idx].path@ == gtask.path@ {
                                assert(pre_seeds[idx].path@[0] == i && pre_seeds[idx].path@[1] == j
                                    && pre_seeds[idx].path@[2] == k);
                                let t2 = choose|t2: int|
                                    0 <= t2 < t && (#[trigger] cands[t2])
                                        == pre_seeds[idx].path@[2];
                                assert(cands[t2] == k && cands[t as int] == k);
                                assert(cands.no_duplicates());
                                assert(false);
                            }
                        }
                    }
                }
                insert_seed(&mut seeds, task, Ghost(pts@));
                proof {
                    let idxn = choose|idx: int|
                        0 <= idx < seeds@.len() && (#[trigger] seeds@[idx]) == gtask;
                    assert(seeds@[idxn].path@ == seq![i, j, k]);
                    assert(seed_present(seeds@, i, j, k));
                    assert forall|idx: int|
                        0 <= idx < seeds@.len() implies (#[trigger] seeds@[idx].path@)[0] < i || (
                        seeds@[idx].path@[0] == i && seeds@[idx].path@[1] < j) || (
                        seeds@[idx].path@[0] == i && seeds@[idx].path@[1] == j && exists|t2: int|
                            0 <= t2 < t + 1 && (#[trigger] cands[t2])
                                == seeds@[idx].path@[2]) by {
                        if seeds@[idx] == gtask {
                            assert(seeds@[idx].path@ == seq![i, j, k]);
                            assert(cands[t as int] == seeds@[idx].path@[2]);
                        } else {
                            assert(pre_seeds.contains(seeds@[idx]));
                            let oidx = choose|oidx: int|
                                0 <= oidx < pre_seeds.len() && pre_seeds[oidx] == seeds@[idx];
                            assert(pre_seeds[oidx].path@ == seeds@[idx].path@);
                        }
                    }
                    assert forall|i2: usize, j2: usize, k2: usize|
                        i2 < i && valid_triple(pts@, i2, j2, k2) implies #[trigger] seed_present(
                        seeds@,
                        i2,
                        j2,
                        k2,
                    ) by {
                        assert(seed_present(pre_seeds, i2, j2, k2));
                    }
                    assert forall|j2: usize, k2: usize|
                        j2 < j && valid_triple(pts@, i, j2, k2) implies #[trigger] seed_present(
                        seeds@,
                        i,
                        j2,
                        k2,
                    ) by {
                        assert(seed_present(pre_seeds, i, j2, k2));
                    }
                    assert forall|t2: int|
                        0 <= t2 < t + 1 implies seed_present(
                        seeds@,
                        i,
                        j,
                        #[trigger] cands[t2],
                    ) by {
                        if t2 < t {
                            assert(seed_present(pre_seeds, i, j, cands[t2]));
                        } else {
                            assert(cands[t2] == k);
                        }
                    }
                }
            }
            proof {
                assert forall|j2: usize, k2: usize|
                    j2 < j + 1 && valid_triple(pts@, i, j2, k2) implies #[trigger] seed_present(
                    seeds@,
                    i,
                    j2,
                    k2,
                ) by {
                    if j2 == j {
                        assert(cand_list_wf(cands, pts@, i as int, j as int));
                        assert(cands.contains(k2));
                        let t2 = choose|t2: int| 0 <= t2 < cands.len() && cands[t2] == k2;
                        assert(seed_present(seeds@, i, j, cands[t2]));
                    }
                }
                assert(cand_list_wf(cands, pts@, i as int, j as int));
                lemma_index_seq_len(cands, n as int);
                assert(((j + 1) as int) * (n as int) == (j as int) * (n as int) + (n as int))
                    by (nonlinear_arith);
                assert forall|idx: int|
                    0 <= idx < seeds@.len() implies (#[trigger] seeds@[idx].path@)[0] < i || (
                    seeds@[idx].path@[0] == i && seeds@[idx].path@[1] < j + 1) by {}
            }
        }
        proof {
            assert forall|i2: usize, j2: usize, k2: usize|
                i2 < i + 1 && valid_triple(pts@, i2, j2, k2) implies #[trigger] seed_present(
                seeds@,
                i2,
                j2,
                k2,
            ) by {
                if i2 == i {
                    assert((j2 as int) < pts@.len());
                }
            }
            assert(((i + 1) as int) * (n as int) * (n as int) == (i as int) * (n as int) * (
            n as int) + (n as int) * (n as int)) by (nonlinear_arith);
            assert forall|idx: int|
                0 <= idx < seeds@.len() implies (#[trigger] seeds@[idx].path@)[0] < i + 1 by {}
        }
    }
    seeds
}

} // verus!
