//! One-time precomputation: the full distance matrix and, for every ordered
//! pair of distinct nodes, the sorted list of angle-admissible successors.

use vstd::prelude::*;

use crate::geometry::{
    Node, dist2, edge, in_bounds, turn_ok, lemma_dist2_basics, lemma_edge_basics, EDGE_MAX,
    MAX_NODES,
};
use crate::paths::{path_len_of, valid_indices};

verus! {

/// Every node of the input lies on the accepted grid.
pub open spec fn nodes_ok(pts: Seq<Node>) -> bool {
    &&& pts.len() <= MAX_NODES
    &&& forall|i: int| 0 <= i < pts.len() ==> in_bounds(#[trigger] pts[i])
}

/// The distance matrix holds, for every ordered pair of node indices, the
/// length of the edge between the two nodes.
pub open spec fn matrix_wf(d: Seq<Vec<u64>>, pts: Seq<Node>) -> bool {
    &&& d.len() == pts.len()
    &&& forall|i: int| 0 <= i < d.len() ==> (#[trigger] d[i])@.len() == pts.len()
    &&& forall|i: int, j: int|
        0 <= i < d.len() && 0 <= j < d.len() ==> (#[trigger] d[i]@[j]) == edge(pts[i], pts[j])
}

/// One adjacency entry: the candidates recorded under the key
/// (previous = `p`, current = `c`).  A candidate `k` is present exactly
/// when `p`, `c`, `k` are pairwise distinct and the turn at `c` from `p`
/// towards `k` is a right angle or wider; the list is free of duplicates
/// and sorted ascending by squared distance from `c` (the order of the
/// true distances), equal distances ordered by index.  Together with the
/// exact membership below, that order pins the list down completely.
pub open spec fn cand_list_wf(l: Seq<usize>, pts: Seq<Node>, p: int, c: int) -> bool {
    &&& forall|t: int|
        0 <= t < l.len() ==> (#[trigger] l[t]) < pts.len() && l[t] != p && l[t] != c && p != c
            && turn_ok(pts[p], pts[c], pts[l[t] as int])
    &&& l.no_duplicates()
    &&& forall|t1: int, t2: int|
        0 <= t1 < t2 < l.len() ==> dist2(pts[c], pts[#[trigger] l[t1] as int]) < dist2(
            pts[c],
            pts[#[trigger] l[t2] as int],
        ) || (dist2(pts[c], pts[l[t1] as int]) == dist2(pts[c], pts[l[t2] as int]) && l[t1]
            < l[t2])
    &&& forall|k: usize|
        (k as int) < pts.len() && k != p && k != c && p != c && turn_ok(
            pts[p],
            pts[c],
            pts[k as int],
        ) ==> #[trigger] l.contains(k)
}

/// The whole adjacency table is square and every entry well formed.
pub open spec fn adjacency_wf(cand: Seq<Vec<Vec<usize>>>, pts: Seq<Node>) -> bool {
    &&& cand.len() == pts.len()
    &&& forall|p: int| 0 <= p < cand.len() ==> (#[trigger] cand[p])@.len() == pts.len()
    &&& forall|p: int, c: int|
        0 <= p < cand.len() && 0 <= c < cand.len() ==> cand_list_wf(
            (#[trigger] cand[p]@[c])@,
            pts,
            p,
            c,
        )
}

/// Builds the sorted candidate list for one (previous, current) key.
fn candidate_list(nodes: &Vec<Node>, p: usize, c: usize) -> (l: Vec<usize>)
    requires
        nodes_ok(nodes@),
        p < nodes@.len(),
        c < nodes@.len(),
    ensures
        cand_list_wf(l@, nodes@, p as int, c as int),
{
    let pts = Ghost(nodes@);
    let n = nodes.len();
    let mut l: Vec<usize> = Vec::new();
    if p == c {
        return l;
    }
    let cur = nodes[c];
    let prev = nodes[p];
    for k in 0..n
        invariant
            pts@ == nodes@,
            nodes_ok(pts@),
            n == pts@.len(),
            p < n,
            c < n,
            p != c,
            cur == pts@[c as int],
            prev == pts@[p as int],
            forall|t: int|
                0 <= t < l@.len() ==> (#[trigger] l@[t]) < k && l@[t] != p && l@[t] != c
                    && turn_ok(pts@[p as int], pts@[c as int], pts@[l@[t] as int]),
            l@.no_duplicates(),
            forall|t1: int, t2: int|
                0 <= t1 < t2 < l@.len() ==> dist2(pts@[c as int], pts@[#[trigger] l@[t1] as int])
                    < dist2(pts@[c as int], pts@[#[trigger] l@[t2] as int]) || (dist2(
                    pts@[c as int],
                    pts@[l@[t1] as int],
                ) == dist2(pts@[c as int], pts@[l@[t2] as int]) && l@[t1] < l@[t2]),
            forall|k2: usize|
                k2 < k && k2 != p && k2 != c && turn_ok(
                    pts@[p as int],
                    pts@[c as int],
                    pts@[k2 as int],
                ) ==> #[trigger] l@.contains(k2),
    {
        if k != p && k != c && cur.wide_turn(&prev, &nodes[k]) {
            let key = cur.dist2_to(&nodes[k]);
            let mut pos: usize = 0;
            loop
                invariant_except_break
                    pts@ == nodes@,
                    nodes_ok(pts@),
                    n == pts@.len(),
                    c < n,
                    cur == pts@[c as int],
                    key == dist2(pts@[c as int], pts@[k as int]),
                    pos <= l@.len(),
                    forall|t: int| 0 <= t < l@.len() ==> (#[trigger] l@[t]) < n,
                    forall|t: int|
                        0 <= t < pos ==> dist2(pts@[c as int], pts@[#[trigger] l@[t] as int])
                            <= key,
                ensures
                    pos <= l@.len(),
                    forall|t: int|
                        0 <= t < pos ==> dist2(pts@[c as int], pts@[#[trigger] l@[t] as int])
                            <= key,
                    pos < l@.len() ==> dist2(pts@[c as int], pts@[l@[pos as int] as int]) > key,
                decreases l@.len() - pos,
            {
                if pos >= l.len() {
                    break;
                }
                let e = l[pos];
                if cur.dist2_to(&nodes[e]) > key {
                    break;
                }
                pos = pos + 1;
            }
            let ghost old_l = l@;
            l.insert(pos, k);
            proof {
                old_l.insert_ensures(pos as int, k);
                assert forall|t1: int, t2: int| 0 <= t1 < t2 < l@.len() implies dist2(
                    pts@[c as int],
                    pts@[#[trigger] l@[t1] as int],
                ) < dist2(pts@[c as int], pts@[#[trigger] l@[t2] as int]) || (dist2(
                    pts@[c as int],
                    pts@[l@[t1] as int],
                ) == dist2(pts@[c as int], pts@[l@[t2] as int]) && l@[t1] < l@[t2]) by {
                    if t1 < pos && t2 == pos {
                        assert(l@[t1] == old_l[t1] && l@[t2] == k);
                        assert(dist2(pts@[c as int], pts@[old_l[t1] as int]) <= key);
                        assert(old_l[t1] < k);
                    } else if t1 == pos && t2 > pos {
                        assert(l@[t1] == k && l@[t2] == old_l[t2 - 1]);
                        assert(pos < old_l.len());
                        assert(dist2(pts@[c as int], pts@[old_l[pos as int] as int]) > key);
                        if t2 - 1 > pos {
                            assert(dist2(pts@[c as int], pts@[old_l[t2 - 1] as int]) > dist2(
                                pts@[c as int],
                                pts@[old_l[pos as int] as int],
                            ) || dist2(pts@[c as int], pts@[old_l[t2 - 1] as int]) == dist2(
                                pts@[c as int],
                                pts@[old_l[pos as int] as int],
                            ));
                        }
                    } else if t1 < pos && t2 > pos {
                        assert(l@[t1] == old_l[t1] && l@[t2] == old_l[t2 - 1]);
                        assert(dist2(pts@[c as int], pts@[old_l[t1] as int]) <= key);
                        assert(pos < old_l.len());
                        assert(dist2(pts@[c as int], pts@[old_l[pos as int] as int]) > key);
                        if t2 - 1 > pos {
                            assert(dist2(pts@[c as int], pts@[old_l[t2 - 1] as int]) > dist2(
                                pts@[c as int],
                                pts@[old_l[pos as int] as int],
                            ) || dist2(pts@[c as int], pts@[old_l[t2 - 1] as int]) == dist2(
                                pts@[c as int],
                                pts@[old_l[pos as int] as int],
                            ));
                        }
                    } else if t1 > pos || t2 < pos {
                        assert(t1 != pos && t2 != pos);
                        assert(t2 < pos ==> l@[t1] == old_l[t1] && l@[t2] == old_l[t2]);
                        assert(t1 > pos ==> l@[t1] == old_l[t1 - 1] && l@[t2] == old_l[t2 - 1]);
                    }
                }
                assert(l@.no_duplicates()) by {
                    assert forall|t1: int, t2: int|
                        0 <= t1 < l@.len() && 0 <= t2 < l@.len() && t1 != t2 implies l@[t1]
                        != l@[t2] by {
                        if t1 == pos || t2 == pos {
                            assert(forall|t: int|
                                0 <= t < old_l.len() ==> (#[trigger] old_l[t]) < k);
                        }
                    }
                }
                assert forall|k2: usize|
                    k2 < k + 1 && k2 != p && k2 != c && turn_ok(
                        pts@[p as int],
                        pts@[c as int],
                        pts@[k2 as int],
                    ) implies #[trigger] l@.contains(k2) by {
                    if k2 == k {
                        assert(l@[pos as int] == k);
                    } else {
                        assert(old_l.contains(k2));
                        let t = choose|t: int| 0 <= t < old_l.len() && old_l[t] == k2;
                        if t < pos {
                            assert(l@[t] == k2);
                        } else {
                            assert(l@[t + 1] == k2);
                        }
                    }
                }
            }
        }
    }
    l
}

/// Computes, for the node list, the angle-admissible successor table and
/// the distance matrix, in that order.
///
/// The successor table is keyed by (previous, current); the distance
/// matrix is symmetric with a zero diagonal (a consequence of the
/// entry-wise contract, stated separately).
pub fn calc_angles_distances(nodes: &Vec<Node>) -> (r: (Vec<Vec<Vec<usize>>>, Vec<Vec<u64>>))
    requires
        nodes_ok(nodes@),
    ensures
        adjacency_wf(r.0@, nodes@),
        matrix_wf(r.1@, nodes@),
{
    let n = nodes.len();
    let mut distances: Vec<Vec<u64>> = Vec::new();
    let mut angles: Vec<Vec<Vec<usize>>> = Vec::new();
    for i in 0..n
        invariant
            nodes_ok(nodes@),
            n == nodes@.len(),
            distances@.len() == i,
            forall|a: int| 0 <= a < i ==> (#[trigger] distances@[a])@.len() == n,
            forall|a: int, b: int|
                0 <= a < i && 0 <= b < n ==> (#[trigger] distances@[a]@[b]) == edge(
                    nodes@[a],
                    nodes@[b],
                ),
            angles@.len() == i,
            forall|a: int| 0 <= a < i ==> (#[trigger] angles@[a])@.len() == n,
            forall|a: int, b: int|
                0 <= a < i && 0 <= b < n ==> cand_list_wf(
                    (#[trigger] angles@[a]@[b])@,
                    nodes@,
                    a,
                    b,
                ),
    {
        let mut dist_row: Vec<u64> = Vec::new();
        let mut cand_row: Vec<Vec<usize>> = Vec::new();
        let start = nodes[i];
        for j in 0..n
            invariant
                nodes_ok(nodes@),
                n == nodes@.len(),
                i < n,
                start == nodes@[i as int],
                dist_row@.len() == j,
                forall|b: int|
                    0 <= b < j ==> (#[trigger] dist_row@[b]) == edge(nodes@[i as int], nodes@[b]),
                cand_row@.len() == j,
                forall|b: int|
                    0 <= b < j ==> cand_list_wf((#[trigger] cand_row@[b])@, nodes@, i as int, b),
        {
            dist_row.push(start.distance(&nodes[j]));
            cand_row.push(candidate_list(nodes, i, j));
        }
        distances.push(dist_row);
        angles.push(cand_row);
    }
    (angles, distances)
}

/// Sum of the matrix entries along consecutive pairs of `path`.
pub open spec fn path_len_d(d: Seq<Vec<u64>>, path: Seq<usize>) -> int
    decreases path.len(),
{
    if path.len() <= 1 {
        0
    } else {
        path_len_d(d, path.drop_last()) + d[path[path.len() - 2] as int]@[path[path.len()
            - 1] as int]
    }
}

/// Against a well-formed matrix, the matrix sum is the true path length.
pub proof fn lemma_path_len_d_is_path_len(d: Seq<Vec<u64>>, pts: Seq<Node>, path: Seq<usize>)
    requires
        matrix_wf(d, pts),
        valid_indices(pts.len() as int, path),
    ensures
        path_len_d(d, path) == path_len_of(pts, path),
    decreases path.len(),
{
    if path.len() > 1 {
        assert(valid_indices(pts.len() as int, path.drop_last()));
        lemma_path_len_d_is_path_len(d, pts, path.drop_last());
    }
}

/// Computes the length of a path of node indices against the distance
/// matrix: the sum of the distances of consecutive entries.
pub fn path_len(path: &Vec<usize>, distances: &Vec<Vec<u64>>) -> (r: u64)
    requires
        path@.len() >= 1,
        distances@.len() <= MAX_NODES,
        path@.len() <= distances@.len(),
        valid_indices(distances@.len() as int, path@),
        forall|i: int| 0 <= i < distances@.len() ==> (#[trigger] distances@[i])@.len()
            == distances@.len(),
        forall|i: int, j: int|
            0 <= i < distances@.len() && 0 <= j < distances@.len() ==> (
            #[trigger] distances@[i]@[j]) <= EDGE_MAX,
    ensures
        r == path_len_d(distances@, path@),
{
    let mut total: u64 = 0;
    let mut i: usize = 1;
    proof {
        assert(path@.take(1).len() == 1);
        assert(path_len_d(distances@, path@.take(1)) == 0);
    }
    while i < path.len()
        invariant
            path@.len() >= 1,
            1 <= i <= path@.len(),
            path@.len() <= distances@.len(),
            distances@.len() <= MAX_NODES,
            valid_indices(distances@.len() as int, path@),
            forall|a: int| 0 <= a < distances@.len() ==> (#[trigger] distances@[a])@.len()
                == distances@.len(),
            forall|a: int, b: int|
                0 <= a < distances@.len() && 0 <= b < distances@.len() ==> (
                #[trigger] distances@[a]@[b]) <= EDGE_MAX,
            total == path_len_d(distances@, path@.take(i as int)),
            total <= (i - 1) * EDGE_MAX,
        decreases path@.len() - i,
    {
        let a = path[i - 1];
        let b = path[i];
        let step = distances[a][b];
        proof {
            let taken = path@.take(i as int + 1);
            assert(taken.drop_last() =~= path@.take(i as int));
            assert(taken[taken.len() - 2] == a && taken[taken.len() - 1] == b);
            assert((i - 1) * EDGE_MAX + EDGE_MAX == i as int * EDGE_MAX) by (nonlinear_arith);
            assert(i as int * EDGE_MAX <= MAX_NODES * EDGE_MAX) by (nonlinear_arith)
                requires
                    1 <= i as int <= MAX_NODES,
            ;
        }
        total = total + step;
        i = i + 1;
    }
    proof {
        assert(path@.take(path@.len() as int) =~= path@);
    }
    total
}

/// The distance matrix is symmetric and has a zero diagonal.
pub proof fn lemma_matrix_symmetric(d: Seq<Vec<u64>>, pts: Seq<Node>)
    requires
        matrix_wf(d, pts),
    ensures
        forall|i: int, j: int|
            0 <= i < d.len() && 0 <= j < d.len() ==> (#[trigger] d[i]@[j]) == d[j]@[i],
        forall|i: int| 0 <= i < d.len() ==> (#[trigger] d[i]@[i]) == 0,
{
    assert forall|i: int, j: int|
        0 <= i < d.len() && 0 <= j < d.len() implies (#[trigger] d[i]@[j]) == d[j]@[i] by {
        lemma_dist2_basics(pts[i], pts[j]);
        lemma_edge_basics(pts[i], pts[j]);
        lemma_edge_basics(pts[j], pts[i]);
    }
    assert forall|i: int| 0 <= i < d.len() implies (#[trigger] d[i]@[i]) == 0 by {
        lemma_edge_basics(pts[i], pts[i]);
    }
}

/// Every candidate recorded under a key satisfies the wide-turn rule at
/// the key's current node, and every admissible, distinct index is
/// recorded: membership is exact, including turns of exactly a right
/// angle.
pub proof fn lemma_adjacency_admissible(cand: Seq<Vec<Vec<usize>>>, pts: Seq<Node>)
    requires
        adjacency_wf(cand, pts),
    ensures
        forall|p: int, c: int, t: int|
            0 <= p < cand.len() && 0 <= c < cand.len() && 0 <= t < cand[p]@[c]@.len() ==> turn_ok(
                pts[p],
                pts[c],
                pts[#[trigger] cand[p]@[c]@[t] as int],
            ),
        forall|p: int, c: int, k: usize|
            0 <= p < cand.len() && 0 <= c < cand.len() && (k as int) < cand.len() && k != p && k
                != c && p != c && turn_ok(pts[p], pts[c], pts[k as int]) ==> (
            #[trigger] cand[p]@[c]@.contains(k)),
{
    assert forall|p: int, c: int, t: int|
        0 <= p < cand.len() && 0 <= c < cand.len() && 0 <= t < cand[p]@[c]@.len() implies turn_ok(
        pts[p],
        pts[c],
        pts[#[trigger] cand[p]@[c]@[t] as int],
    ) by {
        assert(cand_list_wf(cand[p]@[c]@, pts, p, c));
    }
    assert forall|p: int, c: int, k: usize|
        0 <= p < cand.len() && 0 <= c < cand.len() && (k as int) < cand.len() && k != p && k != c
            && p != c && turn_ok(pts[p], pts[c], pts[k as int]) implies (
    #[trigger] cand[p]@[c]@.contains(k)) by {
        assert(cand_list_wf(cand[p]@[c]@, pts, p, c));
    }
}


/// The order in which candidates are listed: nearer first, equal
/// distances by index.  A strict total order on distinct indices.
pub open spec fn cand_before(pts: Seq<Node>, c: int, a: usize, b: usize) -> bool {
    ||| dist2(pts[c], pts[a as int]) < dist2(pts[c], pts[b as int])
    ||| (dist2(pts[c], pts[a as int]) == dist2(pts[c], pts[b as int]) && a < b)
}

/// Two duplicate-free sequences strictly ordered by `cand_before`, with
/// the same members, are the same sequence.
proof fn lemma_strict_sorted_unique(l1: Seq<usize>, l2: Seq<usize>, pts: Seq<Node>, c: int)
    requires
        forall|t1: int, t2: int|
            0 <= t1 < t2 < l1.len() ==> cand_before(pts, c, #[trigger] l1[t1], #[trigger] l1[t2]),
        forall|t1: int, t2: int|
            0 <= t1 < t2 < l2.len() ==> cand_before(pts, c, #[trigger] l2[t1], #[trigger] l2[t2]),
        forall|x: usize| l1.contains(x) <==> l2.contains(x),
    ensures
        l1 == l2,
    decreases l1.len(),
{
    if l1.len() == 0 {
        if l2.len() > 0 {
            assert(l2.contains(l2[0]));
            assert(l1.contains(l2[0]));
        }
        assert(l1 =~= l2);
    } else {
        // The heads are equal: each is the strict minimum of the common
        // member set.
        assert(l1.contains(l1[0]));
        assert(l2.contains(l1[0]));
        let t = choose|t: int| 0 <= t < l2.len() && l2[t] == l1[0];
        if t > 0 {
            assert(cand_before(pts, c, l2[0], l2[t]));
            assert(l2.contains(l2[0]));
            assert(l1.contains(l2[0]));
            let s = choose|s: int| 0 <= s < l1.len() && l1[s] == l2[0];
            if s > 0 {
                assert(cand_before(pts, c, l1[0], l1[s]));
                assert(false);
            } else {
                assert(false);
            }
        }
        assert(l2.len() > 0 && l2[0] == l1[0]);
        let m1 = l1.drop_first();
        let m2 = l2.drop_first();
        assert forall|t1: int, t2: int|
            0 <= t1 < t2 < m1.len() implies cand_before(
            pts,
            c,
            #[trigger] m1[t1],
            #[trigger] m1[t2],
        ) by {
            assert(m1[t1] == l1[t1 + 1] && m1[t2] == l1[t2 + 1]);
        }
        assert forall|t1: int, t2: int|
            0 <= t1 < t2 < m2.len() implies cand_before(
            pts,
            c,
            #[trigger] m2[t1],
            #[trigger] m2[t2],
        ) by {
            assert(m2[t1] == l2[t1 + 1] && m2[t2] == l2[t2 + 1]);
        }
        assert forall|x: usize| m1.contains(x) implies m2.contains(x) by {
            let i = choose|i: int| 0 <= i < m1.len() && m1[i] == x;
            assert(l1[i + 1] == x);
            assert(cand_before(pts, c, l1[0], x));
            assert(l1.contains(x));
            assert(l2.contains(x));
            let j = choose|j: int| 0 <= j < l2.len() && l2[j] == x;
            assert(j != 0);
            assert(m2[j - 1] == x);
        }
        assert forall|x: usize| m2.contains(x) implies m1.contains(x) by {
            let i = choose|i: int| 0 <= i < m2.len() && m2[i] == x;
            assert(l2[i + 1] == x);
            assert(cand_before(pts, c, l2[0], x));
            assert(l2.contains(x));
            assert(l1.contains(x));
            let j = choose|j: int| 0 <= j < l1.len() && l1[j] == x;
            assert(j != 0);
            assert(m1[j - 1] == x);
        }
        lemma_strict_sorted_unique(m1, m2, pts, c);
        assert forall|i: int| 0 <= i < l1.len() implies l1[i] == l2[i] by {
            if i > 0 {
                assert(m1[i - 1] == m2[i - 1]);
            }
        }
        assert(l1 =~= l2);
    }
}

/// The successor table is a function of the node list: any two candidate
/// lists that meet the contract for the same key are the same list.  One
/// search's precomputation is therefore deterministic.
pub proof fn lemma_cand_list_unique(l1: Seq<usize>, l2: Seq<usize>, pts: Seq<Node>, p: int, c: int)
    requires
        cand_list_wf(l1, pts, p, c),
        cand_list_wf(l2, pts, p, c),
    ensures
        l1 == l2,
{
    assert forall|t1: int, t2: int|
        0 <= t1 < t2 < l1.len() implies cand_before(
        pts,
        c,
        #[trigger] l1[t1],
        #[trigger] l1[t2],
    ) by {}
    assert forall|t1: int, t2: int|
        0 <= t1 < t2 < l2.len() implies cand_before(
        pts,
        c,
        #[trigger] l2[t1],
        #[trigger] l2[t2],
    ) by {}
    assert forall|x: usize| l1.contains(x) implies l2.contains(x) by {
        let i = choose|i: int| 0 <= i < l1.len() && l1[i] == x;
        assert(l1[i] == x);
    }
    assert forall|x: usize| l2.contains(x) implies l1.contains(x) by {
        let i = choose|i: int| 0 <= i < l2.len() && l2[i] == x;
        assert(l2[i] == x);
    }
    lemma_strict_sorted_unique(l1, l2, pts, c);
}

} // verus!

