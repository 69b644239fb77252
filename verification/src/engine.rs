//! The branch-and-bound engine: the shared best-solution register, the
//! expansion of one search task, and the sequential search driver.

use vstd::prelude::*;

use vstd::arithmetic::power::pow;

use crate::geometry::{Node, dist2, edge, turn_ok, lemma_edge_basics, EDGE_MAX, MAX_NODES};
use crate::paths::{
    angles_ok, complete_path, path_len_of, valid_indices, lemma_index_seq_len,
    lemma_path_len_bound, lemma_path_len_prefix, lemma_path_len_positive,
    lemma_complete_path_permutation, pairwise_distinct,
};
use crate::precompute::{adjacency_wf, calc_angles_distances, cand_before, cand_list_wf, matrix_wf, nodes_ok};
use crate::tasks::{generate_start_paths, seed_present, SearchTask, task_wf, valid_triple};

verus! {

/// A complete tour together with its exact length.
#[derive(Clone)]
pub struct Solution {
    pub path: Vec<usize>,
    pub length: u64,
}

/// The solution is a complete admissible tour and its recorded length is
/// the tour's true length.
pub open spec fn solution_wf(s: Solution, pts: Seq<Node>) -> bool {
    &&& complete_path(pts, s.path@)
    &&& s.length == path_len_of(pts, s.path@)
}

/// The shared best-result register: the best complete path found so far,
/// if any, and the lengths of every accepted improvement, in order of
/// acceptance.  All pruning and reporting goes through this register.
pub struct Incumbent {
    pub best: Option<Solution>,
    pub accepted: Vec<u64>,
}

/// The lengths are strictly decreasing.
pub open spec fn strictly_decreasing(s: Seq<u64>) -> bool {
    forall|a: int, b: int| 0 <= a < b < s.len() ==> (#[trigger] s[a]) > (#[trigger] s[b])
}

/// Structural soundness of the register: the acceptance log strictly
/// decreases, and it ends in the current best length exactly when a best
/// exists.
pub open spec fn incumbent_ok(inc: Incumbent) -> bool {
    &&& strictly_decreasing(inc.accepted@)
    &&& match inc.best {
        Some(s) => inc.accepted@.len() > 0 && inc.accepted@.last() == s.length,
        None => inc.accepted@.len() == 0,
    }
}

/// The register's current bound, if one exists.
pub open spec fn bound_of(inc: Incumbent) -> Option<u64> {
    match inc.best {
        Some(s) => Some(s.length),
        None => None,
    }
}

/// Whether a candidate of the given length would be accepted.
pub open spec fn accepts(inc: Incumbent, len: u64) -> bool {
    match inc.best {
        Some(s) => len < s.length,
        None => true,
    }
}

/// The register holds a best of length at most `len`.
pub open spec fn bound_at_most(inc: Incumbent, len: int) -> bool {
    match inc.best {
        Some(s) => s.length <= len,
        None => false,
    }
}

/// Whatever best the register holds is a true complete tour over `pts`.
pub open spec fn incumbent_sol_wf(inc: Incumbent, pts: Seq<Node>) -> bool {
    match inc.best {
        Some(s) => solution_wf(s, pts) && s.path@.len() >= 3,
        None => true,
    }
}

impl Incumbent {
    /// An empty register: no best yet, nothing accepted.
    pub fn new() -> (inc: Incumbent)
        ensures
            inc.best is None,
            inc.accepted@.len() == 0,
            incumbent_ok(inc),
    {
        Incumbent { best: None, accepted: Vec::new() }
    }

    /// The length of the current best, or nothing: the bound against
    /// which partial paths are pruned.
    pub fn current_bound(&self) -> (r: Option<u64>)
        ensures
            r == bound_of(*self),
    {
        match &self.best {
            Some(s) => Some(s.length),
            None => None,
        }
    }

    /// Replaces the best solution exactly when the candidate is strictly
    /// shorter than the current best, or no best exists yet; appends the
    /// accepted length to the log.  Every accepted update therefore
    /// strictly decreases the incumbent length.
    pub fn try_improve(&mut self, cand: Solution) -> (accepted: bool)
        requires
            incumbent_ok(*old(self)),
        ensures
            incumbent_ok(*final(self)),
            accepted == accepts(*old(self), cand.length),
            accepted ==> final(self).best == Some(cand) && final(self).accepted@ == old(
                self,
            ).accepted@.push(cand.length),
            !accepted ==> final(self).best == old(self).best && final(self).accepted@ == old(
                self,
            ).accepted@,
            bound_at_most(*old(self), cand.length as int) ==> bound_at_most(
                *final(self),
                cand.length as int,
            ),
            forall|len: int|
                bound_at_most(*old(self), len) ==> bound_at_most(*final(self), len),
    {
        let improved = match &self.best {
            Some(s) => cand.length < s.length,
            None => true,
        };
        if improved {
            self.accepted.push(cand.length);
            self.best = Some(cand);
            true
        } else {
            false
        }
    }
}

/// Whether `path` holds the index `k`.
fn path_contains(path: &Vec<usize>, k: usize) -> (r: bool)
    ensures
        r == path@.contains(k),
{
    let mut i: usize = 0;
    while i < path.len()
        invariant
            i <= path@.len(),
            forall|t: int| 0 <= t < i ==> (#[trigger] path@[t]) != k,
        decreases path@.len() - i,
    {
        if path[i] == k {
            assert(path@[i as int] == k);
            return true;
        }
        i = i + 1;
    }
    assert(!path@.contains(k));
    false
}

/// Expands one task of the branch-and-bound frontier.
///
/// A complete task is offered to the register (and yields no children).
/// An incomplete task whose length already reaches the current bound is
/// pruned: no extension can improve on the incumbent, since every further
/// edge is non-negative.  Otherwise the task's children are exactly its
/// extensions by an admissible, still-unvisited successor of its last two
/// vertices.  The children are emitted farthest successor first, so that a
/// work stack that pops from its end explores the nearest successor first.
pub fn expand(
    nodes: &Vec<Node>,
    angles: &Vec<Vec<Vec<usize>>>,
    distances: &Vec<Vec<u64>>,
    task: SearchTask,
    inc: &mut Incumbent,
) -> (children: Vec<SearchTask>)
    requires
        nodes_ok(nodes@),
        adjacency_wf(angles@, nodes@),
        matrix_wf(distances@, nodes@),
        task_wf(task, nodes@),
        incumbent_ok(*old(inc)),
        incumbent_sol_wf(*old(inc), nodes@),
    ensures
        incumbent_ok(*final(inc)),
        incumbent_sol_wf(*final(inc), nodes@),
        forall|len: int| bound_at_most(*old(inc), len) ==> bound_at_most(*final(inc), len),
        final(inc).accepted@.len() >= old(inc).accepted@.len(),
        forall|a: int|
            0 <= a < old(inc).accepted@.len() ==> (#[trigger] final(inc).accepted@[a]) == old(
                inc,
            ).accepted@[a],
        children@.len() <= nodes@.len(),
        forall|ci: int|
            0 <= ci < children@.len() ==> #[trigger] task_wf(children@[ci], nodes@)
                && children@[ci].path@.len() == task.path@.len() + 1
                && task.path@.is_prefix_of(children@[ci].path@),
        forall|c1: int, c2: int|
            0 <= c1 < c2 < children@.len() ==> crate::precompute::cand_before(
                nodes@,
                task.path@[task.path@.len() - 1] as int,
                (#[trigger] children@[c2].path@).last(),
                (#[trigger] children@[c1].path@).last(),
            ),
        task.path@.len() == nodes@.len() ==> children@.len() == 0 && bound_at_most(
            *final(inc),
            task.length as int,
        ) && (accepts(*old(inc), task.length) ==> (final(inc).best matches Some(s)
            && s.path@ == task.path@ && s.length == task.length)) && (!accepts(
            *old(inc),
            task.length,
        ) ==> final(inc).best == old(inc).best && final(inc).accepted@ == old(inc).accepted@),
        task.path@.len() < nodes@.len() && bound_at_most(*old(inc), task.length as int)
            ==> children@.len() == 0 && *final(inc) == *old(inc),
        task.path@.len() < nodes@.len() && !bound_at_most(*old(inc), task.length as int)
            ==> *final(inc) == *old(inc) && forall|k: usize|
            (k as int) < nodes@.len() && !task.path@.contains(k) && turn_ok(
                nodes@[task.path@[task.path@.len() - 2] as int],
                nodes@[task.path@[task.path@.len() - 1] as int],
                nodes@[k as int],
            ) ==> exists|ci: int|
                0 <= ci < children@.len() && (#[trigger] children@[ci].path@) == task.path@.push(k),
{
    let pts = Ghost(nodes@);
    let n = nodes.len();
    if task.path.len() == n {
        // Complete tour: offer it to the register.
        let length = task.length;
        let sol = Solution { path: task.path, length };
        let ghost gsol = sol;
        let accepted = inc.try_improve(sol);
        proof {
            if accepted {
                assert(final(inc).best == Some(gsol));
            } else {
                assert(bound_at_most(*old(inc), length as int));
            }
        }
        return Vec::new();
    }
    // Bound check: a partial path at or above the incumbent length cannot
    // improve on it.
    let prune = match inc.current_bound() {
        Some(b) => b <= task.length,
        None => false,
    };
    if prune {
        return Vec::new();
    }
    let plen = task.path.len();
    let prev = task.path[plen - 2];
    let cur = task.path[plen - 1];
    let list_len = angles[prev][cur].len();
    let ghost l = angles@[prev as int]@[cur as int]@;
    proof {
        assert(task.path@.contains(prev)) by {
            assert(task.path@[plen - 2] == prev);
        }
        assert(task.path@.contains(cur)) by {
            assert(task.path@[plen - 1] == cur);
        }
        assert(cand_list_wf(l, pts@, prev as int, cur as int));
        lemma_path_len_bound(pts@, task.path@);
    }
    let mut children: Vec<SearchTask> = Vec::new();
    for tt in 0..list_len
        invariant
            pts@ == nodes@,
            nodes_ok(pts@),
            adjacency_wf(angles@, pts@),
            matrix_wf(distances@, pts@),
            task_wf(task, pts@),
            n == pts@.len(),
            3 <= plen < n,
            plen == task.path@.len(),
            prev == task.path@[plen - 2],
            cur == task.path@[plen - 1],
            l == angles@[prev as int]@[cur as int]@,
            list_len == l.len(),
            cand_list_wf(l, pts@, prev as int, cur as int),
            task.length <= (plen - 1) * (EDGE_MAX as int),
            children@.len() <= tt,
            forall|ci: int|
                0 <= ci < children@.len() ==> #[trigger] task_wf(children@[ci], pts@),
            forall|ci: int|
                0 <= ci < children@.len() ==> (#[trigger] children@[ci].path@).len()
                    == task.path@.len() + 1,
            forall|ci: int|
                0 <= ci < children@.len() ==> task.path@.is_prefix_of(
                    (#[trigger] children@[ci].path@),
                ),
            forall|t2: int|
                list_len - tt <= t2 < list_len && !task.path@.contains(#[trigger] l[t2]) ==> exists|
                    ci: int,
                |
                    0 <= ci < children@.len() && (#[trigger] children@[ci].path@)
                        == task.path@.push(l[t2]),
            forall|ci: int, t2: int|
                0 <= ci < children@.len() && 0 <= t2 < list_len - tt ==> cand_before(
                    pts@,
                    cur as int,
                    #[trigger] l[t2],
                    (#[trigger] children@[ci].path@).last(),
                ),
            forall|c1: int, c2: int|
                0 <= c1 < c2 < children@.len() ==> cand_before(
                    pts@,
                    cur as int,
                    (#[trigger] children@[c2].path@).last(),
                    (#[trigger] children@[c1].path@).last(),
                ),
    {
        let t = list_len - 1 - tt;
        let k = angles[prev][cur][t];
        proof {
            assert(l[t as int] == k);
        }
        if !path_contains(&task.path, k) {
            let mut child_path = copy_path(&task.path);
            child_path.push(k);
            proof {
                assert(child_path@ =~= task.path@.push(k));
            }
            let step = distances[cur][k];
            proof {
                lemma_edge_basics(pts@[cur as int], pts@[k as int]);
                assert((plen - 1) * (EDGE_MAX as int) + EDGE_MAX == plen * (EDGE_MAX as int))
                    by (nonlinear_arith);
                assert(plen * (EDGE_MAX as int) <= MAX_NODES * (EDGE_MAX as int))
                    by (nonlinear_arith)
                    requires
                        0 <= plen <= MAX_NODES,
                ;
            }
            let child_length: u64 = task.length + step;
            let child = SearchTask { path: child_path, length: child_length };
            let ghost gchild = child;
            proof {
                let cp = task.path@.push(k);
                assert(gchild.path@ == cp);
                assert(valid_indices(pts@.len() as int, cp)) by {
                    assert(forall|i: int|
                        0 <= i < cp.len() ==> (#[trigger] cp[i]) == if i < plen {
                            task.path@[i]
                        } else {
                            k
                        });
                }
                assert(cp.no_duplicates()) by {
                    assert(forall|i: int| 0 <= i < plen ==> (#[trigger] task.path@[i]) != k);
                    assert forall|a: int, b: int|
                        0 <= a < cp.len() && 0 <= b < cp.len() && a != b implies cp[a] != cp[b] by {
                        if a < plen && b < plen {
                            assert(cp[a] == task.path@[a] && cp[b] == task.path@[b]);
                        } else if a < plen {
                            assert(cp[b] == k && cp[a] == task.path@[a]);
                        } else {
                            assert(cp[a] == k && cp[b] == task.path@[b]);
                        }
                    }
                }
                assert(angles_ok(pts@, cp)) by {
                    assert forall|i: int| 1 <= i < cp.len() - 1 implies turn_ok(
                        pts@[#[trigger] cp[i - 1] as int],
                        pts@[cp[i] as int],
                        pts@[cp[i + 1] as int],
                    ) by {
                        if i < plen - 1 {
                            assert(cp[i - 1] == task.path@[i - 1] && cp[i] == task.path@[i]
                                && cp[i + 1] == task.path@[i + 1]);
                        } else {
                            assert(i == plen - 1);
                            assert(cp[i - 1] == task.path@[plen - 2] && cp[i]
                                == task.path@[plen - 1] && cp[i + 1] == k);
                            assert(turn_ok(
                                pts@[prev as int],
                                pts@[cur as int],
                                pts@[k as int],
                            ));
                        }
                    }
                }
                assert(path_len_of(pts@, cp) == child_length) by {
                    assert(cp.drop_last() =~= task.path@);
                    assert(cp[cp.len() - 2] == cur && cp[cp.len() - 1] == k);
                    assert(step == edge(pts@[cur as int], pts@[k as int]));
                }
                assert(task.path@.is_prefix_of(cp)) by {
                    assert(cp.subrange(0, plen as int) =~= task.path@);
                }
                assert(task_wf(gchild, pts@));
            }
            let ghost old_children = children@;
            children.push(child);
            proof {
                assert(children@ == old_children.push(gchild));
                assert(children@[old_children.len() as int] == gchild);
                assert forall|ci: int| 0 <= ci < children@.len() implies #[trigger] task_wf(
                    children@[ci],
                    pts@,
                ) && children@[ci].path@.len() == task.path@.len() + 1
                    && task.path@.is_prefix_of(children@[ci].path@) by {
                    if ci < old_children.len() {
                        assert(children@[ci] == old_children[ci]);
                        assert(task_wf(old_children[ci], pts@));
                    } else {
                        assert(children@[ci] == gchild);
                    }
                }
                assert forall|t2: int|
                    list_len - tt - 1 <= t2 < list_len && !task.path@.contains(
                        #[trigger] l[t2],
                    ) implies exists|
                    ci: int,
                |
                    0 <= ci < children@.len() && (#[trigger] children@[ci].path@)
                        == task.path@.push(l[t2]) by {
                    if t2 == t {
                        assert(children@[old_children.len() as int].path@ == task.path@.push(
                            l[t2],
                        ));
                    } else {
                        let ci0 = choose|ci: int|
                            0 <= ci < old_children.len() && (#[trigger] old_children[ci].path@)
                                == task.path@.push(l[t2]);
                        assert(children@[ci0].path@ == task.path@.push(l[t2]));
                    }
                }
                assert(gchild.path@.last() == k);
                assert forall|ci: int, t2: int|
                    0 <= ci < children@.len() && 0 <= t2 < list_len - tt - 1 implies cand_before(
                    pts@,
                    cur as int,
                    #[trigger] l[t2],
                    (#[trigger] children@[ci].path@).last(),
                ) by {
                    if ci < old_children.len() {
                        assert(children@[ci] == old_children[ci]);
                        assert(cand_before(
                            pts@,
                            cur as int,
                            l[t2],
                            old_children[ci].path@.last(),
                        ));
                    } else {
                        assert(children@[ci] == gchild);
                        assert(cand_before(pts@, cur as int, l[t2], l[t as int]));
                    }
                }
                assert forall|c1: int, c2: int|
                    0 <= c1 < c2 < children@.len() implies cand_before(
                    pts@,
                    cur as int,
                    (#[trigger] children@[c2].path@).last(),
                    (#[trigger] children@[c1].path@).last(),
                ) by {
                    if c2 < old_children.len() {
                        assert(children@[c1] == old_children[c1]);
                        assert(children@[c2] == old_children[c2]);
                        assert(cand_before(
                            pts@,
                            cur as int,
                            old_children[c2].path@.last(),
                            old_children[c1].path@.last(),
                        ));
                    } else {
                        assert(c1 < old_children.len());
                        assert(children@[c1] == old_children[c1]);
                        assert(children@[c2] == gchild);
                        assert(cand_before(
                            pts@,
                            cur as int,
                            l[t as int],
                            old_children[c1].path@.last(),
                        ));
                    }
                }
            }
        }
    }
    proof {
        // One child at most per candidate, and a duplicate-free list of
        // indices below n holds at most n of them.
        lemma_index_seq_len(l, n as int);
        assert(children@.len() <= nodes@.len());
        assert forall|k: usize|
            (k as int) < pts@.len() && !task.path@.contains(k) && turn_ok(
                pts@[task.path@[task.path@.len() - 2] as int],
                pts@[task.path@[task.path@.len() - 1] as int],
                pts@[k as int],
            ) implies exists|ci: int|
            0 <= ci < children@.len() && (#[trigger] children@[ci].path@) == task.path@.push(
                k,
            ) by {
            assert(k != prev && k != cur);
            assert(prev != cur);
            assert(l.contains(k));
            let t2 = choose|t2: int| 0 <= t2 < l.len() && l[t2] == k;
            assert(!task.path@.contains(l[t2]));
        }
    }
    children
}

/// Copies a path of indices.
fn copy_path(path: &Vec<usize>) -> (r: Vec<usize>)
    ensures
        r@ == path@,
{
    let mut r: Vec<usize> = Vec::new();
    let mut i: usize = 0;
    while i < path.len()
        invariant
            i <= path@.len(),
            r@ == path@.take(i as int),
        decreases path@.len() - i,
    {
        r.push(path[i]);
        proof {
            assert(path@.take(i as int).push(path@[i as int]) =~= path@.take(i as int + 1));
        }
        i = i + 1;
    }
    proof {
        assert(path@.take(path@.len() as int) =~= path@);
    }
    r
}


/// Over-approximation of the work one queued task can still cause: a
/// task with `L` path vertices spawns fewer than `n + 1` children, each
/// one vertex longer, down to depth `n` — so its whole subtree expands
/// fewer than `(n + 1)^(n + 1 - L)` tasks.
pub open spec fn task_pot(n: int, t: SearchTask) -> int {
    pow(n + 1, (n + 1 - t.path@.len()) as nat)
}

/// The total remaining work of a queue: the sum of its tasks' potentials.
pub open spec fn queue_pot(n: int, queue: Seq<SearchTask>) -> int
    decreases queue.len(),
{
    if queue.len() == 0 {
        0
    } else {
        queue_pot(n, queue.drop_last()) + task_pot(n, queue.last())
    }
}

/// Potentials add up over concatenation.
proof fn lemma_queue_pot_additive(n: int, a: Seq<SearchTask>, b: Seq<SearchTask>)
    ensures
        queue_pot(n, a + b) == queue_pot(n, a) + queue_pot(n, b),
    decreases b.len(),
{
    if b.len() == 0 {
        assert(a + b =~= a);
    } else {
        assert((a + b).drop_last() =~= a + b.drop_last());
        assert((a + b).last() == b.last());
        lemma_queue_pot_additive(n, a, b.drop_last());
    }
}

/// A queue of tasks of one common path length has exactly one potential
/// per task.
proof fn lemma_queue_pot_uniform(n: int, q: Seq<SearchTask>, len: int)
    requires
        forall|i: int| 0 <= i < q.len() ==> (#[trigger] q[i].path@).len() == len,
    ensures
        queue_pot(n, q) == q.len() * pow(n + 1, (n + 1 - len) as nat),
    decreases q.len(),
{
    let unit = pow(n + 1, (n + 1 - len) as nat);
    if q.len() == 0 {
    } else {
        assert(forall|i: int|
            0 <= i < q.drop_last().len() ==> (#[trigger] q.drop_last()[i].path@).len() == len);
        lemma_queue_pot_uniform(n, q.drop_last(), len);
        assert(q.last().path@.len() == len);
        assert((q.len() - 1) * unit + unit == q.len() * unit) by (nonlinear_arith);
    }
}

/// Potentials are never negative.
proof fn lemma_queue_pot_nonneg(n: int, q: Seq<SearchTask>)
    requires
        n >= 0,
    ensures
        queue_pot(n, q) >= 0,
    decreases q.len(),
{
    if q.len() > 0 {
        lemma_queue_pot_nonneg(n, q.drop_last());
        vstd::arithmetic::power::lemma_pow_positive(
            n + 1,
            (n + 1 - q.last().path@.len()) as nat,
        );
    }
}

/// More expansions than one run over `pts` can ever perform: at most
/// `n^3` seeds, each of whose subtrees expands fewer than
/// `(n + 1)^(n - 2)` tasks, and `n^3 * (n + 1)^(n - 2)` is below
/// `(n + 1)^(n + 2)`.  A budget of at least this bound can never be the
/// binding constraint, so such a run must drain the queue.
pub open spec fn search_bound(pts: Seq<Node>) -> int {
    pow(pts.len() as int + 1, (pts.len() + 2) as nat)
}

/// The outcome of one search run: either the work queue was drained — the
/// search was exhaustive — or the iteration budget ran out first.  Either
/// way the best complete path found so far, if any, is carried along, so
/// budget exhaustion is reported distinctly from "no admissible path
/// exists".
pub enum SearchOutcome {
    Exhausted(Option<Solution>),
    BudgetExceeded(Option<Solution>),
}

/// The best solution an outcome carries.
pub open spec fn outcome_best(o: SearchOutcome) -> Option<Solution> {
    match o {
        SearchOutcome::Exhausted(b) => b,
        SearchOutcome::BudgetExceeded(b) => b,
    }
}

/// What an exhaustive run's best means: a solution is a true complete
/// tour no longer than any complete admissible tour; no solution means no
/// complete admissible tour exists at all (a complete tour over fewer
/// than three nodes is never searched for: the seeds hold three vertices).
pub open spec fn optimal_best(pts: Seq<Node>, b: Option<Solution>) -> bool {
    match b {
        Some(s) => solution_wf(s, pts) && pts.len() >= 3 && forall|q: Seq<usize>|
            #[trigger] complete_path(pts, q) ==> path_len_of(pts, q) >= s.length,
        None => forall|q: Seq<usize>| #[trigger] complete_path(pts, q) ==> pts.len() < 3,
    }
}

/// Every task of the queue is well formed.
pub open spec fn queue_wf(queue: Seq<SearchTask>, pts: Seq<Node>) -> bool {
    forall|idx: int| 0 <= idx < queue.len() ==> #[trigger] task_wf(queue[idx], pts)
}

/// The search invariant: every complete admissible tour is accounted for,
/// either by the incumbent already being at least as good, or by a queue
/// task that is a prefix of the tour and will reach it when expanded.
pub open spec fn covered(pts: Seq<Node>, queue: Seq<SearchTask>, inc: Incumbent) -> bool {
    forall|q: Seq<usize>|
        #[trigger] complete_path(pts, q) && pts.len() >= 3 ==> bound_at_most(
            inc,
            path_len_of(pts, q),
        ) || exists|idx: int|
            0 <= idx < queue.len() && (#[trigger] queue[idx].path@).is_prefix_of(q)
}

/// What one full run reports: the outcome, the lengths of the accepted
/// incumbent improvements in order of acceptance, and how many tasks were
/// expanded.
pub struct SearchReport {
    pub outcome: SearchOutcome,
    pub accepted: Vec<u64>,
    pub iterations: u64,
}

/// Exhaustive runs are deterministic in what they report: two bests that
/// both satisfy the exhaustive-run characterization agree — both found a
/// solution or neither did, and any two solutions have the same length.
/// (Two runs may return different tours of that same optimal length.)
pub proof fn lemma_optimal_best_unique(pts: Seq<Node>, b1: Option<Solution>, b2: Option<Solution>)
    requires
        optimal_best(pts, b1),
        optimal_best(pts, b2),
    ensures
        b1 is Some <==> b2 is Some,
        b1 matches Some(s1) ==> (b2 matches Some(s2) && s1.length == s2.length),
{
    match (b1, b2) {
        (Some(s1), Some(s2)) => {
            assert(complete_path(pts, s1.path@));
            assert(complete_path(pts, s2.path@));
            assert(path_len_of(pts, s1.path@) >= s2.length);
            assert(path_len_of(pts, s2.path@) >= s1.length);
        },
        (Some(s1), None) => {
            assert(complete_path(pts, s1.path@));
            assert(pts.len() < 3);
        },
        (None, Some(s2)) => {
            assert(complete_path(pts, s2.path@));
            assert(pts.len() < 3);
        },
        (None, None) => {},
    }
}

/// Runs the whole search: precomputes distances and admissible
/// successors, seeds the work stack with every admissible three-node
/// path (shortest on top), and expands tasks depth-first until the stack
/// is empty or `budget` tasks have been expanded.
///
/// When the stack empties the run was exhaustive, and the reported best
/// is a shortest angle-admissible complete tour — or `None`, and then no
/// such tour exists.  When the budget runs out first, whatever incumbent
/// exists is reported, distinctly; that can only happen when the budget
/// lies below `search_bound`, so a budget of at least `search_bound` is
/// owed an exhaustive run.  The accepted lengths strictly decrease: every
/// improvement was a real one.
pub fn run_search(nodes: &Vec<Node>, budget: u64) -> (report: SearchReport)
    requires
        nodes_ok(nodes@),
    ensures
        strictly_decreasing(report.accepted@),
        match outcome_best(report.outcome) {
            Some(s) => solution_wf(s, nodes@) && report.accepted@.len() > 0
                && report.accepted@.last() == s.length,
            None => report.accepted@.len() == 0,
        },
        report.outcome matches SearchOutcome::Exhausted(b) ==> optimal_best(nodes@, b),
        budget == 0 ==> (report.outcome matches SearchOutcome::BudgetExceeded(b) && b is None),
        nodes@.len() < 3 ==> outcome_best(report.outcome) is None,
        report.iterations <= budget,
        report.outcome is BudgetExceeded ==> report.iterations == budget,
        budget >= search_bound(nodes@) ==> report.outcome is Exhausted,
{
    let pts = Ghost(nodes@);
    let n = nodes.len();
    let tables = calc_angles_distances(nodes);
    let angles = tables.0;
    let distances = tables.1;
    let mut seeds = generate_start_paths(nodes, &angles, &distances);
    // Reverse the seed list onto the work stack, so that the shortest
    // seed lies on top and is expanded first.
    let ghost all_seeds = seeds@;
    let mut queue: Vec<SearchTask> = Vec::new();
    loop
        invariant_except_break
            seeds@ == all_seeds.take(seeds@.len() as int),
            queue@.len() + seeds@.len() == all_seeds.len(),
            forall|b: int|
                0 <= b < queue@.len() ==> (#[trigger] queue@[b]) == all_seeds[all_seeds.len() - 1
                    - b],
        ensures
            queue@.len() == all_seeds.len(),
            forall|b: int|
                0 <= b < queue@.len() ==> (#[trigger] queue@[b]) == all_seeds[all_seeds.len() - 1
                    - b],
        decreases seeds@.len(),
    {
        proof {
            assert(all_seeds.take(seeds@.len() as int).len() == seeds@.len());
        }
        match seeds.pop() {
            Some(s) => {
                queue.push(s);
                proof {
                    assert(seeds@ =~= all_seeds.take(seeds@.len() as int));
                }
            },
            None => {
                break;
            },
        }
    }
    let mut inc = Incumbent::new();
    let mut iterations: u64 = 0;
    let mut completed = false;
    proof {
        assert(queue_wf(queue@, pts@)) by {
            assert forall|idx: int| 0 <= idx < queue@.len() implies #[trigger] task_wf(
                queue@[idx],
                pts@,
            ) by {
                assert(queue@[idx] == all_seeds[all_seeds.len() - 1 - idx]);
                assert(task_wf(all_seeds[all_seeds.len() - 1 - idx], pts@));
            }
        }
        assert(covered(pts@, queue@, inc)) by {
            assert forall|q: Seq<usize>|
                #[trigger] complete_path(pts@, q) && pts@.len() >= 3 implies bound_at_most(
                inc,
                path_len_of(pts@, q),
            ) || exists|idx: int|
                0 <= idx < queue@.len() && (#[trigger] queue@[idx].path@).is_prefix_of(q) by {
                let i = q[0];
                let j = q[1];
                let k = q[2];
                assert(valid_triple(pts@, i, j, k)) by {
                    assert(q[0] != q[1] && q[1] != q[2] && q[0] != q[2]);
                    assert(angles_ok(pts@, q));
                    assert(turn_ok(
                        pts@[q[1int - 1] as int],
                        pts@[q[1int] as int],
                        pts@[q[1int + 1] as int],
                    ));
                }
                assert(seed_present(all_seeds, i, j, k));
                let sidx = choose|idx: int|
                    0 <= idx < all_seeds.len() && (#[trigger] all_seeds[idx].path@) == seq![
                        i,
                        j,
                        k,
                    ];
                let qidx = all_seeds.len() - 1 - sidx;
                assert(queue@[qidx] == all_seeds[sidx]);
                assert(queue@[qidx].path@.is_prefix_of(q)) by {
                    assert(q.subrange(0, 3) =~= seq![i, j, k]);
                }
            }
        }
        assert forall|b: int|
            0 <= b < queue@.len() implies (#[trigger] queue@[b].path@).len() == 3 by {
            let sidx = all_seeds.len() - 1 - b;
            assert(queue@[b] == all_seeds[sidx]);
            assert(0 <= sidx < all_seeds.len());
            assert(task_wf(all_seeds[sidx], pts@) && all_seeds[sidx].path@.len() == 3);
        }
    }
    // The total work this run can perform, measured as the potential of
    // the initial queue, lies strictly below `search_bound`.
    let ghost nn = pts@.len() as int;
    let ghost pot0 = queue_pot(nn, queue@);
    proof {
        lemma_queue_pot_uniform(nn, queue@, 3);
        vstd::arithmetic::power::lemma_pow_positive(nn + 1, (nn + 2) as nat);
        if queue@.len() > 0 {
            assert(task_wf(queue@[0], pts@));
            assert(nn >= 3);
            let unit = pow(nn + 1, (nn - 2) as nat);
            vstd::arithmetic::power::lemma_pow_positive(nn + 1, (nn - 2) as nat);
            vstd::arithmetic::power::lemma_pow_adds(nn + 1, 4nat, (nn - 2) as nat);
            assert(4nat + ((nn - 2) as nat) == (nn + 2) as nat);
            vstd::arithmetic::power::lemma_pow1(nn + 1);
            vstd::arithmetic::power::lemma_pow_adds(nn + 1, 1nat, 1nat);
            vstd::arithmetic::power::lemma_pow_adds(nn + 1, 1nat, 2nat);
            vstd::arithmetic::power::lemma_pow_adds(nn + 1, 1nat, 3nat);
            assert(pow(nn + 1, 2nat) == (nn + 1) * (nn + 1));
            assert(pow(nn + 1, 3nat) == (nn + 1) * pow(nn + 1, 2nat));
            assert(pow(nn + 1, 4nat) == (nn + 1) * pow(nn + 1, 3nat));
            assert(nn * nn * nn < (nn + 1) * ((nn + 1) * ((nn + 1) * (nn + 1))))
                by (nonlinear_arith)
                requires
                    nn >= 0,
            ;
            assert(pow(nn + 1, 4nat) == (nn + 1) * ((nn + 1) * ((nn + 1) * (nn + 1))));
            assert(queue@.len() <= nn * nn * nn);
            assert(pot0 == queue@.len() * unit);
            assert(queue@.len() * unit <= (nn * nn * nn) * unit) by (nonlinear_arith)
                requires
                    queue@.len() <= nn * nn * nn,
                    unit > 0,
            ;
            assert((nn * nn * nn) * unit < pow(nn + 1, 4nat) * unit) by (nonlinear_arith)
                requires
                    nn * nn * nn < pow(nn + 1, 4nat),
                    unit > 0,
            ;
            assert(pow(nn + 1, 4nat) * unit == search_bound(pts@));
        } else {
            assert(pot0 == 0);
        }
        assert(pot0 < search_bound(pts@));
    }
    loop
        invariant_except_break
            pts@ == nodes@,
            nodes_ok(pts@),
            adjacency_wf(angles@, pts@),
            matrix_wf(distances@, pts@),
            n == pts@.len(),
            queue_wf(queue@, pts@),
            incumbent_ok(inc),
            incumbent_sol_wf(inc, pts@),
            covered(pts@, queue@, inc),
            iterations <= budget,
            budget == 0 ==> inc.best is None,
            !completed,
            nn == pts@.len() as int,
            iterations as int + queue_pot(nn, queue@) <= pot0,
            iterations as int <= pot0,
            pot0 < search_bound(pts@),
        ensures
            incumbent_ok(inc),
            incumbent_sol_wf(inc, pts@),
            budget == 0 ==> inc.best is None,
            iterations <= budget,
            completed ==> queue@.len() == 0 && covered(pts@, queue@, inc),
            !completed ==> iterations == budget,
            budget == 0 ==> !completed,
            iterations as int <= pot0,
            pot0 < search_bound(pts@),
        decreases budget - iterations,
    {
        if iterations >= budget {
            break;
        }
        let ghost q0 = queue@;
        let ghost inc0 = inc;
        let popped = queue.pop();
        match popped {
            None => {
                completed = true;
                break;
            },
            Some(task) => {
                let ghost gtask = task;
                iterations = iterations + 1;
                proof {
                    assert(queue@ =~= q0.drop_last());
                    assert(task_wf(gtask, pts@)) by {
                        assert(task_wf(q0[q0.len() - 1], pts@));
                    }
                }
                let mut children = expand(nodes, &angles, &distances, task, &mut inc);
                let ghost ch = children@;
                let ghost qmid = queue@;
                queue.append(&mut children);
                proof {
                    assert(queue@ == qmid + ch);
                    // Potential accounting: the expansion just paid for
                    // itself — the children's total potential is strictly
                    // below the popped task's.
                    let plen0 = gtask.path@.len() as int;
                    let unit = pow(nn + 1, (nn - plen0) as nat);
                    assert(q0.len() > 0);
                    assert(qmid == q0.drop_last());
                    assert(q0.last() == gtask);
                    assert(queue_pot(nn, q0) == queue_pot(nn, qmid) + task_pot(nn, gtask));
                    lemma_queue_pot_additive(nn, qmid, ch);
                    assert forall|ci: int|
                        0 <= ci < ch.len() implies (#[trigger] ch[ci].path@).len() == plen0
                        + 1 by {
                        assert(task_wf(ch[ci], pts@));
                    }
                    lemma_queue_pot_uniform(nn, ch, plen0 + 1);
                    vstd::arithmetic::power::lemma_pow_positive(nn + 1, (nn - plen0) as nat);
                    assert(3 <= plen0 <= nn);
                    assert((nn + 1 - (plen0 + 1)) as nat == (nn - plen0) as nat);
                    assert(task_pot(nn, gtask) == pow(nn + 1, (nn + 1 - plen0) as nat));
                    vstd::arithmetic::power::lemma_pow1(nn + 1);
                    vstd::arithmetic::power::lemma_pow_adds(nn + 1, 1nat, (nn - plen0) as nat);
                    assert(1nat + ((nn - plen0) as nat) == (nn + 1 - plen0) as nat);
                    assert(task_pot(nn, gtask) == (nn + 1) * unit);
                    assert(queue_pot(nn, ch) == ch.len() * unit);
                    assert(ch.len() <= nn);
                    assert(ch.len() * unit <= nn * unit) by (nonlinear_arith)
                        requires
                            ch.len() <= nn,
                            unit > 0,
                    ;
                    assert((nn + 1) * unit == nn * unit + unit) by (nonlinear_arith);
                    assert(queue_pot(nn, ch) + 1 <= task_pot(nn, gtask));
                    assert(iterations as int + queue_pot(nn, queue@) <= pot0);
                    lemma_queue_pot_nonneg(nn, queue@);
                    assert(queue_wf(queue@, pts@)) by {
                        assert forall|idx: int| 0 <= idx < queue@.len() implies #[trigger] task_wf(
                            queue@[idx],
                            pts@,
                        ) by {
                            if idx < qmid.len() {
                                assert(queue@[idx] == qmid[idx]);
                                assert(qmid[idx] == q0[idx]);
                                assert(task_wf(q0[idx], pts@));
                            } else {
                                assert(queue@[idx] == ch[idx - qmid.len()]);
                                assert(task_wf(ch[idx - qmid.len()], pts@));
                            }
                        }
                    }
                    assert(covered(pts@, queue@, inc)) by {
                        assert forall|q: Seq<usize>|
                            #[trigger] complete_path(pts@, q) && pts@.len() >= 3 implies
                            bound_at_most(inc, path_len_of(pts@, q)) || exists|idx: int|
                            0 <= idx < queue@.len() && (#[trigger] queue@[idx].path@).is_prefix_of(
                                q,
                            ) by {
                            if bound_at_most(inc0, path_len_of(pts@, q)) {
                                assert(bound_at_most(inc, path_len_of(pts@, q)));
                            } else {
                                let idx0 = choose|idx: int|
                                    0 <= idx < q0.len() && (#[trigger] q0[idx].path@).is_prefix_of(
                                        q,
                                    );
                                if idx0 < q0.len() - 1 {
                                    assert(queue@[idx0] == qmid[idx0] && qmid[idx0] == q0[idx0]);
                                    assert(queue@[idx0].path@.is_prefix_of(q));
                                } else {
                                    assert(q0[idx0] == gtask);
                                    let m = gtask.path@.len() as int;
                                    assert(gtask.path@ =~= q.subrange(0, m));
                                    if m == q.len() {
                                        assert(gtask.path@ =~= q);
                                        assert(gtask.length == path_len_of(pts@, q));
                                        assert(bound_at_most(inc, path_len_of(pts@, q)));
                                    } else if bound_at_most(inc0, gtask.length as int) {
                                        lemma_path_len_prefix(pts@, gtask.path@, q);
                                        assert(bound_at_most(inc0, path_len_of(pts@, q)));
                                        assert(bound_at_most(inc, path_len_of(pts@, q)));
                                    } else {
                                        let k = q[m];
                                        assert((k as int) < pts@.len());
                                        assert(!gtask.path@.contains(k)) by {
                                            if gtask.path@.contains(k) {
                                                let tix = choose|tix: int|
                                                    0 <= tix < gtask.path@.len()
                                                        && gtask.path@[tix] == k;
                                                assert(q[tix] == k && q[m] == k && tix != m);
                                            }
                                        }
                                        assert(turn_ok(
                                            pts@[gtask.path@[m - 2] as int],
                                            pts@[gtask.path@[m - 1] as int],
                                            pts@[k as int],
                                        )) by {
                                            assert(gtask.path@[m - 2] == q[m - 2]
                                                && gtask.path@[m - 1] == q[m - 1]);
                                            assert(angles_ok(pts@, q));
                                            assert(1 <= m - 1 < q.len() - 1);
                                            assert(turn_ok(
                                                pts@[q[(m - 1) - 1] as int],
                                                pts@[q[m - 1] as int],
                                                pts@[q[(m - 1) + 1] as int],
                                            ));
                                        }
                                        let ci = choose|ci: int|
                                            0 <= ci < ch.len() && (#[trigger] ch[ci].path@)
                                                == gtask.path@.push(k);
                                        assert(queue@[qmid.len() + ci] == ch[ci]);
                                        assert(ch[ci].path@.is_prefix_of(q)) by {
                                            assert(gtask.path@.push(k) =~= q.subrange(0, m + 1));
                                        }
                                    }
                                }
                            }
                        }
                    }
                }
            },
        }
    }
    let ghost final_inc = inc;
    proof {
        if completed {
            match final_inc.best {
                Some(s) => {
                    assert(s.path@.len() == pts@.len() && s.path@.len() >= 3);
                    assert forall|q: Seq<usize>| #[trigger] complete_path(pts@, q) implies
                        path_len_of(pts@, q) >= s.length by {
                        assert(bound_at_most(final_inc, path_len_of(pts@, q)));
                    }
                    assert(optimal_best(pts@, final_inc.best));
                },
                None => {
                    assert forall|q: Seq<usize>| #[trigger] complete_path(pts@, q) implies
                        pts@.len() < 3 by {
                        if pts@.len() >= 3 {
                            assert(!bound_at_most(final_inc, path_len_of(pts@, q)));
                            assert(false);
                        }
                    }
                    assert(optimal_best(pts@, final_inc.best));
                },
            }
        }
        if pts@.len() < 3 {
            match final_inc.best {
                Some(s) => {
                    assert(s.path@.len() >= 3 && s.path@.len() == pts@.len());
                    assert(false);
                },
                None => {},
            }
        }
    }
    let outcome = if completed {
        SearchOutcome::Exhausted(inc.best)
    } else {
        SearchOutcome::BudgetExceeded(inc.best)
    };
    SearchReport { outcome, accepted: inc.accepted, iterations }
}

/// Every solution the engine reports is a permutation of the node
/// indices — it visits every node exactly once — and, over pairwise
/// distinct nodes (two or more of them), its total length is strictly
/// positive.
pub proof fn lemma_solution_properties(pts: Seq<Node>, s: Solution)
    requires
        solution_wf(s, pts),
    ensures
        s.path@.len() == pts.len(),
        s.path@.no_duplicates(),
        forall|v: usize| (v as int) < pts.len() ==> #[trigger] s.path@.contains(v),
        pairwise_distinct(pts) && pts.len() >= 2 ==> s.length >= pts.len() - 1 && s.length > 0,
{
    lemma_complete_path_permutation(pts, s.path@);
    if pairwise_distinct(pts) && pts.len() >= 2 {
        lemma_path_len_positive(pts, s.path@);
    }
}

/// Maps a path of node indices back to the nodes themselves, in path
/// order.
pub fn indices_to_nodes(nodes: Vec<Node>, indices_path: &Vec<usize>) -> (r: Vec<Node>)
    requires
        valid_indices(nodes@.len() as int, indices_path@),
    ensures
        r@.len() == indices_path@.len(),
        forall|i: int|
            0 <= i < indices_path@.len() ==> (#[trigger] r@[i]) == nodes@[indices_path@[i] as int],
{
    let mut node_path: Vec<Node> = Vec::new();
    let mut i: usize = 0;
    while i < indices_path.len()
        invariant
            i <= indices_path@.len(),
            valid_indices(nodes@.len() as int, indices_path@),
            node_path@.len() == i,
            forall|t: int|
                0 <= t < i ==> (#[trigger] node_path@[t]) == nodes@[indices_path@[t] as int],
        decreases indices_path@.len() - i,
    {
        node_path.push(nodes[indices_path[i]]);
        i = i + 1;
    }
    node_path
}

} // verus!
