//! Paths over node indices: admissibility under the wide-turn rule,
//! completeness, and exact path length.

use vstd::prelude::*;

use crate::geometry::{Node, edge, turn_ok, in_bounds, lemma_edge_basics, EDGE_MAX};

verus! {

/// Every entry of `path` indexes into a sequence of `n` nodes.
pub open spec fn valid_indices(n: int, path: Seq<usize>) -> bool {
    forall|i: int| 0 <= i < path.len() ==> (#[trigger] path[i]) < n
}

/// Every internal vertex of `path` turns by a right angle or wider.
pub open spec fn angles_ok(pts: Seq<Node>, path: Seq<usize>) -> bool {
    forall|i: int|
        1 <= i < path.len() - 1 ==> turn_ok(
            pts[#[trigger] path[i - 1] as int],
            pts[path[i] as int],
            pts[path[i + 1] as int],
        )
}

/// A partial or complete tour: index entries in range, no vertex visited
/// twice, and every internal turn admissible.
pub open spec fn admissible_path(pts: Seq<Node>, path: Seq<usize>) -> bool {
    &&& valid_indices(pts.len() as int, path)
    &&& path.no_duplicates()
    &&& angles_ok(pts, path)
}

/// A complete tour visits as many vertices as there are nodes.
pub open spec fn complete_path(pts: Seq<Node>, path: Seq<usize>) -> bool {
    &&& admissible_path(pts, path)
    &&& path.len() == pts.len()
}

/// Total length of a path: the sum of the lengths of its edges.
pub open spec fn path_len_of(pts: Seq<Node>, path: Seq<usize>) -> int
    decreases path.len(),
{
    if path.len() <= 1 {
        0
    } else {
        path_len_of(pts, path.drop_last()) + edge(
            pts[path[path.len() - 2] as int],
            pts[path[path.len() - 1] as int],
        )
    }
}

/// Extending a path never shortens it: a prefix weighs at most the whole.
pub proof fn lemma_path_len_prefix(pts: Seq<Node>, pre: Seq<usize>, path: Seq<usize>)
    requires
        pre.is_prefix_of(path),
    ensures
        path_len_of(pts, pre) <= path_len_of(pts, path),
    decreases path.len(),
{
    if pre.len() == path.len() {
        assert(pre =~= path);
    } else {
        assert(pre.is_prefix_of(path.drop_last()));
        lemma_path_len_prefix(pts, pre, path.drop_last());
        lemma_edge_basics(
            pts[path[path.len() - 2] as int],
            pts[path[path.len() - 1] as int],
        );
    }
}

/// On an in-bound node set, a path's length is at most one maximal edge
/// per step.
pub proof fn lemma_path_len_bound(pts: Seq<Node>, path: Seq<usize>)
    requires
        valid_indices(pts.len() as int, path),
        forall|i: int| 0 <= i < pts.len() ==> in_bounds(#[trigger] pts[i]),
        path.len() >= 1,
    ensures
        path_len_of(pts, path) <= (path.len() - 1) * EDGE_MAX,
    decreases path.len(),
{
    if path.len() > 1 {
        assert(valid_indices(pts.len() as int, path.drop_last()));
        lemma_path_len_bound(pts, path.drop_last());
        lemma_edge_basics(
            pts[path[path.len() - 2] as int],
            pts[path[path.len() - 1] as int],
        );
        assert((path.len() - 2) * EDGE_MAX + EDGE_MAX == (path.len() - 1) * EDGE_MAX)
            by (nonlinear_arith);
    }
}

/// No two nodes of the input coincide.
pub open spec fn pairwise_distinct(pts: Seq<Node>) -> bool {
    forall|i: int, j: int|
        0 <= i < pts.len() && 0 <= j < pts.len() && i != j ==> pts[i] != pts[j]
}

/// Over pairwise distinct nodes, every step of a duplicate-free path has
/// length at least one grid unit.
pub proof fn lemma_path_len_positive(pts: Seq<Node>, path: Seq<usize>)
    requires
        valid_indices(pts.len() as int, path),
        path.no_duplicates(),
        pairwise_distinct(pts),
        path.len() >= 1,
    ensures
        path_len_of(pts, path) >= path.len() - 1,
    decreases path.len(),
{
    if path.len() > 1 {
        assert(valid_indices(pts.len() as int, path.drop_last()));
        assert(path.drop_last().no_duplicates());
        lemma_path_len_positive(pts, path.drop_last());
        let a = path[path.len() - 2];
        let b = path[path.len() - 1];
        assert(a != b);
        lemma_edge_basics(pts[a as int], pts[b as int]);
    }
}

/// A duplicate-free sequence of indices below `n` holds at most `n`
/// entries.
pub proof fn lemma_index_seq_len(s: Seq<usize>, n: int)
    requires
        s.no_duplicates(),
        forall|i: int| 0 <= i < s.len() ==> (#[trigger] s[i]) < n,
        0 <= n,
    ensures
        s.len() <= n,
{
    let mapped = s.map_values(|u: usize| u as int);
    let visited = mapped.to_set();
    let range = vstd::set_lib::set_int_range(0, n);
    assert(mapped.no_duplicates());
    mapped.unique_seq_to_set();
    broadcast use vstd::seq_lib::seq_to_set_is_finite;
    vstd::set_lib::lemma_int_range(0, n);
    assert(visited.subset_of(range)) by {
        assert forall|v: int| visited.contains(v) implies range.contains(v) by {
            let i = choose|i: int| 0 <= i < mapped.len() && mapped[i] == v;
            assert(s[i] < n);
        }
    }
    vstd::set_lib::lemma_len_subset(visited, range);
}

/// A complete path visits every node index exactly once: it is a
/// permutation of the indices below `n`.
pub proof fn lemma_complete_path_permutation(pts: Seq<Node>, path: Seq<usize>)
    requires
        complete_path(pts, path),
    ensures
        path.len() == pts.len(),
        forall|v: usize| (v as int) < pts.len() ==> #[trigger] path.contains(v),
{
    let n = pts.len() as int;
    let mapped = path.map_values(|u: usize| u as int);
    let visited = mapped.to_set();
    let range = vstd::set_lib::set_int_range(0, n);
    assert(mapped.no_duplicates());
    mapped.unique_seq_to_set();
    broadcast use vstd::seq_lib::seq_to_set_is_finite;
    assert(visited.finite());
    assert(visited.len() == path.len());
    vstd::set_lib::lemma_int_range(0, n);
    assert(range.len() == n);
    assert(visited.subset_of(range)) by {
        assert forall|v: int| visited.contains(v) implies range.contains(v) by {
            let i = choose|i: int| 0 <= i < mapped.len() && mapped[i] == v;
            assert(path[i] < n);
        }
    }
    assert(visited =~= range) by {
        if exists|v: int| range.contains(v) && !visited.contains(v) {
            let missing = choose|v: int| range.contains(v) && !visited.contains(v);
            assert(visited.subset_of(range.remove(missing)));
            vstd::set_lib::lemma_len_subset(visited, range.remove(missing));
            assert(range.remove(missing).len() == n - 1);
            assert(false);
        }
    }
    assert forall|v: usize| (v as int) < n implies #[trigger] path.contains(v) by {
        assert(visited.contains(v as int));
        let i = choose|i: int| 0 <= i < mapped.len() && mapped[i] == v as int;
        assert(path[i] == v);
    }
}

} // verus!
