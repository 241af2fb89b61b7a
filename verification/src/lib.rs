//! Searches in a state space: uninformed, cost-aware and heuristic-aware
//! strategies over a caller-supplied neighbour relation, together with the
//! path-reconstruction step they share.

use vstd::prelude::*;

pub mod priority_queue;
pub mod problems;

verus! {

use std::collections::HashMap;
use std::collections::HashSet;
use crate::priority_queue::MinPrioriyQueue;
use crate::priority_queue::elems_of;
use crate::priority_queue::dequeue_step;
use crate::priority_queue::removed_min;
use crate::priority_queue::min_key_of;
use crate::priority_queue::lemma_elems_push;
use crate::priority_queue::lemma_elems_remove;

broadcast use vstd::std_specs::hash::group_hash_axioms;

/// `p` is a walk from `init` to `goal`: it is non-empty, starts at `init`,
/// ends at `goal`, and every consecutive pair is an edge of the space.
pub open spec fn path_connects<T: StateSpace + ?Sized>(
    space: &T,
    p: Seq<u64>,
    init: u64,
    goal: u64,
) -> bool {
    &&& p.len() >= 1
    &&& p[0] == init
    &&& p[p.len() - 1] == goal
    &&& forall|i: int| 0 <= i < p.len() - 1 ==> #[trigger] space.edge(p[i], p[i + 1])
}

/// Some walk of the space leads from `init` to `goal`.
pub open spec fn reachable<T: StateSpace + ?Sized>(space: &T, init: u64, goal: u64) -> bool {
    exists|p: Seq<u64>| path_connects(space, p, init, goal)
}

/// In the predecessor mapping `m`, state `b` was reached from state `a`.
pub open spec fn parent_link(m: Map<u64, u64>, a: u64, b: u64) -> bool {
    m.contains_key(b) && m[b] == a
}

/// `(d_lo, e_lo)` comes strictly before `(d_hi, e_hi)` in lexicographic order.
pub open spec fn rank_lt(d_lo: int, e_lo: int, d_hi: int, e_hi: int) -> bool {
    d_lo < d_hi || (d_lo == d_hi && e_lo < e_hi)
}

/// The link of `k` in `m` descends: its parent is `init` or another key of
/// `m`, and the parent's `(d, e)` rank lies strictly below that of `k`.
pub open spec fn ranked_link(
    m: Map<u64, u64>,
    d: Map<u64, int>,
    e: Map<u64, int>,
    init: u64,
    k: u64,
) -> bool {
    let p = m[k];
    &&& p == init || m.contains_key(p)
    &&& d.contains_key(k) && d.contains_key(p)
    &&& e.contains_key(k) && e.contains_key(p)
    &&& rank_lt(d[p], e[p], d[k], e[k])
}

/// A predecessor mapping is well-founded: `init` has no predecessor and each
/// link strictly descends in the `(d, e)` rank, so no chain of predecessors
/// can revisit a state.
pub open spec fn parent_map_ranked(
    m: Map<u64, u64>,
    d: Map<u64, int>,
    e: Map<u64, int>,
    init: u64,
) -> bool {
    &&& !m.contains_key(init)
    &&& forall|k: u64| #[trigger] m.contains_key(k) ==> ranked_link(m, d, e, init, k)
}

/// What `reconstruct_path` returns for mapping `m` and terminal state `goal`:
/// the walk ends at `goal`, each consecutive pair is a recorded predecessor
/// link, the states after the first are pairwise distinct, and the first
/// state either has no predecessor recorded or already occurs later in the
/// walk (which a well-founded mapping rules out).
pub open spec fn reconstruct_post(m: Map<u64, u64>, goal: u64, r: Seq<u64>) -> bool {
    &&& r.len() >= 1
    &&& r[r.len() - 1] == goal
    &&& forall|i: int| 0 <= i < r.len() - 1 ==> #[trigger] parent_link(m, r[i], r[i + 1])
    &&& forall|i: int, j: int| 1 <= i < j < r.len() ==> r[i] != r[j]
    &&& (!m.contains_key(r[0]) || (exists|j: int| 1 <= j < r.len() && #[trigger] r[j] == r[0]))
}

/// Turns a discovered predecessor mapping into an ordered walk: starting from
/// `goal`, repeatedly look up and remove the predecessor, then reverse the
/// accumulated states so the walk runs toward `goal`.  The mapping is
/// consumed: it is a one-shot, end-of-search operation.
pub fn reconstruct_path(parent_of_state: HashMap<u64, u64>, goal: u64) -> (r: Vec<u64>)
    ensures
        reconstruct_post(parent_of_state@, goal, r@),
{
    let ghost m0 = parent_of_state@;
    let mut parent_of_state = parent_of_state;
    let mut path: Vec<u64> = Vec::new();
    let mut current_state: u64 = goal;
    loop
        invariant
            forall|k: u64| #[trigger]
                parent_of_state@.contains_key(k) <==> (m0.contains_key(k) && !path@.contains(k)),
            forall|k: u64| #[trigger]
                parent_of_state@.contains_key(k) ==> parent_of_state@[k] == m0[k],
            path@.len() > 0 ==> path@[0] == goal,
            path@.len() == 0 ==> current_state == goal,
            path@.len() > 0 ==> m0.contains_key(path@[path@.len() - 1])
                && m0[path@[path@.len() - 1]] == current_state,
            forall|t: int| 0 <= t < path@.len() - 1 ==> #[trigger] parent_link(
                m0,
                path@[t + 1],
                path@[t],
            ),
            forall|t: int, u: int| 0 <= t < u < path@.len() ==> path@[t] != path@[u],
        ensures
            path@.len() > 0 ==> path@[0] == goal,
            path@.len() == 0 ==> current_state == goal,
            path@.len() > 0 ==> m0.contains_key(path@[path@.len() - 1])
                && m0[path@[path@.len() - 1]] == current_state,
            forall|t: int| 0 <= t < path@.len() - 1 ==> #[trigger] parent_link(
                m0,
                path@[t + 1],
                path@[t],
            ),
            forall|t: int, u: int| 0 <= t < u < path@.len() ==> path@[t] != path@[u],
            m0.contains_key(current_state) ==> path@.contains(current_state),
        decreases parent_of_state@.dom().len(),
    {
        match parent_of_state.remove(&current_state) {
            Some(next_state) => {
                proof {
                    lemma_push_contains(path@, current_state);
                }
                path.push(current_state);
                current_state = next_state;
            },
            None => {
                break ;
            },
        }
    }
    let ghost tail = path@;
    path.push(current_state);
    let ghost f = path@;
    let n = path.len();
    let mut out: Vec<u64> = Vec::new();
    let mut i: usize = n;
    while i > 0
        invariant
            i <= n,
            n == path@.len(),
            path@ == f,
            out@.len() == n - i,
            forall|t: int| 0 <= t < out@.len() ==> out@[t] == f[n - 1 - t],
        decreases i,
    {
        i = i - 1;
        out.push(path[i]);
    }
    proof {
        let r = out@;
        assert(r.len() == f.len() && f.len() == tail.len() + 1);
        assert(r[r.len() - 1] == f[0]);
        assert forall|t: int| 0 <= t < r.len() - 1 implies #[trigger] parent_link(
            m0,
            r[t],
            r[t + 1],
        ) by {
            let u = n - 2 - t;
            assert(r[t + 1] == f[u] && r[t] == f[u + 1]);
            if u < tail.len() - 1 {
                assert(parent_link(m0, tail[u + 1], tail[u]));
                assert(f[u] == tail[u] && f[u + 1] == tail[u + 1]);
            } else {
                assert(f[u] == tail[tail.len() - 1] && f[u + 1] == current_state);
            }
        }
        assert forall|t: int, u: int| 1 <= t < u < r.len() implies r[t] != r[u] by {
            assert(r[t] == f[n - 1 - t] && r[u] == f[n - 1 - u]);
            assert(f[n - 1 - t] == tail[n - 1 - t] && f[n - 1 - u] == tail[n - 1 - u]);
        }
        if m0.contains_key(r[0]) {
            assert(r[0] == current_state);
            assert(tail.contains(current_state));
            let j = choose|j: int| 0 <= j < tail.len() && tail[j] == current_state;
            assert(r[n - 1 - j] == f[j] && f[j] == tail[j]);
            assert(1 <= n - 1 - j < r.len() && r[n - 1 - j] == r[0]);
        }
    }
    out
}

/// A sequence extended by one element holds exactly the old elements and the
/// new one.
proof fn lemma_push_contains(s: Seq<u64>, x: u64)
    ensures
        forall|k: u64| #[trigger] s.push(x).contains(k) <==> (s.contains(k) || k == x),
{
    assert forall|k: u64| #[trigger] s.push(x).contains(k) <==> (s.contains(k) || k == x) by {
        if s.push(x).contains(k) {
            let i = choose|i: int| 0 <= i < s.push(x).len() && s.push(x)[i] == k;
            if i < s.len() {
                assert(s[i] == k);
            }
        }
        if s.contains(k) {
            let i = choose|i: int| 0 <= i < s.len() && s[i] == k;
            assert(s.push(x)[i] == k);
        }
        assert(s.push(x)[s.len() as int] == x);
    }
}

/// Along a chain of predecessor links in a well-founded mapping, the `(d, e)`
/// rank strictly increases with the index.
proof fn lemma_chain_rank(
    m: Map<u64, u64>,
    d: Map<u64, int>,
    e: Map<u64, int>,
    init: u64,
    r: Seq<u64>,
    a: int,
    b: int,
)
    requires
        parent_map_ranked(m, d, e, init),
        forall|i: int| 0 <= i < r.len() - 1 ==> #[trigger] parent_link(m, r[i], r[i + 1]),
        0 <= a < b < r.len(),
    ensures
        d.contains_key(r[a]) && d.contains_key(r[b]),
        e.contains_key(r[a]) && e.contains_key(r[b]),
        rank_lt(d[r[a]], e[r[a]], d[r[b]], e[r[b]]),
    decreases b - a,
{
    let k = b - 1;
    assert(parent_link(m, r[k], r[k + 1]));
    assert(m.contains_key(r[b]));
    assert(ranked_link(m, d, e, init, r[b]));
    if a < b - 1 {
        lemma_chain_rank(m, d, e, init, r, a, b - 1);
    }
}

/// What a search's predecessor mapping guarantees of the reconstructed walk:
/// with a well-founded mapping whose terminal state is `init` itself or has a
/// recorded predecessor, the walk starts at `init` and visits no state twice.
pub proof fn lemma_reconstructed_origin(
    m: Map<u64, u64>,
    d: Map<u64, int>,
    e: Map<u64, int>,
    init: u64,
    goal: u64,
    r: Seq<u64>,
)
    requires
        parent_map_ranked(m, d, e, init),
        reconstruct_post(m, goal, r),
        goal == init || m.contains_key(goal),
    ensures
        r[0] == init,
        forall|i: int, j: int| 0 <= i < j < r.len() ==> r[i] != r[j],
{
    if r.len() == 1 {
        if m.contains_key(r[0]) {
            let j = choose|j: int| 1 <= j < r.len() && #[trigger] r[j] == r[0];
            assert(false);
        }
        assert(r[0] == goal);
        assert(r[0] == init);
    } else {
        if r[0] != init {
            let k: int = 0;
            assert(parent_link(m, r[k], r[k + 1]));
            assert(ranked_link(m, d, e, init, r[1]));
            assert(m.contains_key(r[0]));
            let j = choose|j: int| 1 <= j < r.len() && #[trigger] r[j] == r[0];
            lemma_chain_rank(m, d, e, init, r, 0, j);
            assert(false);
        }
    }
    assert forall|i: int, j: int| 0 <= i < j < r.len() implies r[i] != r[j] by {
        if i == 0 {
            let k = j - 1;
            assert(parent_link(m, r[k], r[k + 1]));
            assert(m.contains_key(r[j]));
        }
    }
}

/// If `closed` holds `init`, is closed under the edge relation, and does not
/// hold `goal`, then no walk of the space leads from `init` to `goal`.
pub proof fn lemma_closed_set_unreachable<T: StateSpace + ?Sized>(
    space: &T,
    closed: Set<u64>,
    init: u64,
    goal: u64,
)
    requires
        closed.contains(init),
        !closed.contains(goal),
        forall|s: u64, t: u64| closed.contains(s) && #[trigger] space.edge(s, t)
            ==> closed.contains(t),
    ensures
        !reachable(space, init, goal),
{
    if reachable(space, init, goal) {
        let p = choose|p: Seq<u64>| path_connects(space, p, init, goal);
        lemma_path_stays_in_closed(space, closed, p);
    }
}

/// A walk that starts inside an edge-closed set never leaves it.
proof fn lemma_path_stays_in_closed<T: StateSpace + ?Sized>(space: &T, closed: Set<u64>, p: Seq<u64>)
    requires
        p.len() >= 1,
        closed.contains(p[0]),
        forall|i: int| 0 <= i < p.len() - 1 ==> #[trigger] space.edge(p[i], p[i + 1]),
        forall|s: u64, t: u64| closed.contains(s) && #[trigger] space.edge(s, t)
            ==> closed.contains(t),
    ensures
        closed.contains(p[p.len() - 1]),
    decreases p.len(),
{
    if p.len() > 1 {
        let k: int = 0;
        assert(space.edge(p[k], p[k + 1]));
        let q = p.subrange(1, p.len() as int);
        assert forall|i: int| 0 <= i < q.len() - 1 implies #[trigger] space.edge(q[i], q[i + 1]) by {
            assert(q[i] == p[i + 1] && q[i + 1] == p[i + 2]);
        }
        lemma_path_stays_in_closed(space, closed, q);
        assert(q[q.len() - 1] == p[p.len() - 1]);
    }
}

/// Any finite set of states has at most as many members as there are `u64`
/// values.  Bounds the number of states a search can ever discover, which is
/// what makes every search loop terminate.
proof fn lemma_u64_set_card(s: Set<u64>)
    requires
        s.finite(),
    ensures
        s.len() <= 0x10000000000000000,
{
    <u64 as vstd::set_lib::FiniteFull>::full_properties();
    assert(s.subset_of(Set::<u64>::full()));
    vstd::set_lib::lemma_len_subset(s, Set::<u64>::full());
    let range = <u64 as vstd::set_lib::FiniteRange>::range_set(0u64, u64::MAX);
    <u64 as vstd::set_lib::FiniteRange>::range_properties(0u64, u64::MAX);
    assert(Set::<u64>::full() =~= range.insert(u64::MAX));
    assert(range.insert(u64::MAX).len() <= range.len() + 1);
}

/// Removing the entry at one position keeps every other element, and adds
/// none.
proof fn lemma_remove_contains(s: Seq<u64>, i: int)
    requires
        0 <= i < s.len(),
    ensures
        forall|x: u64| #[trigger] s.contains(x) ==> s.remove(i).contains(x) || x == s[i],
        forall|x: u64| #[trigger] s.remove(i).contains(x) ==> s.contains(x),
{
    s.remove_ensures(i);
    assert forall|x: u64| #[trigger] s.contains(x) implies s.remove(i).contains(x) || x == s[i] by {
        let j = choose|j: int| 0 <= j < s.len() && s[j] == x;
        if j < i {
            assert(s.remove(i)[j] == x);
        } else if j > i {
            assert(s.remove(i)[j - 1] == x);
        }
    }
    assert forall|x: u64| #[trigger] s.remove(i).contains(x) implies s.contains(x) by {
        let j = choose|j: int| 0 <= j < s.remove(i).len() && s.remove(i)[j] == x;
        if j < i {
            assert(s[j] == x);
        } else {
            assert(s[j + 1] == x);
        }
    }
}

/// Membership in a vector of states, by a linear scan.
fn vec_has(v: &Vec<u64>, x: u64) -> (r: bool)
    ensures
        r == v@.contains(x),
{
    let mut i: usize = 0;
    while i < v.len()
        invariant
            i <= v@.len(),
            forall|j: int| 0 <= j < i ==> v@[j] != x,
        decreases v@.len() - i,
    {
        if v[i] == x {
            return true;
        }
        i = i + 1;
    }
    false
}

/// The state shared by the uninformed searches at the top of each round:
/// `open` is the frontier, `closed` the expanded states, `m` the predecessor
/// mapping, and `(e, ctr)` a ghost discovery rank that keeps `m` well-founded.
spec fn frontier_inv<T: StateSpace + ?Sized>(
    space: &T,
    open: Seq<u64>,
    closed: Set<u64>,
    m: Map<u64, u64>,
    e: Map<u64, int>,
    ctr: int,
    init: u64,
    goal: u64,
) -> bool {
    &&& parent_map_ranked(m, e, e, init)
    &&& forall|k: u64| #[trigger] m.contains_key(k) ==> space.edge(m[k], k)
    &&& forall|k: u64| #[trigger] e.contains_key(k) <==> (m.contains_key(k) || k == init)
    &&& forall|k: u64| #[trigger] e.contains_key(k) ==> e[k] < ctr
    &&& forall|s: u64| #[trigger] open.contains(s) ==> s == init || m.contains_key(s)
    &&& forall|k: u64| #[trigger] m.contains_key(k) ==> open.contains(k) || closed.contains(k)
    &&& open.contains(init) || closed.contains(init)
    &&& forall|s: u64, t: u64| closed.contains(s) && #[trigger] space.edge(s, t) ==> open.contains(
        t,
    ) || closed.contains(t)
    &&& !closed.contains(goal)
}

/// The same state in the middle of a round, once `current` has been taken
/// from the frontier and before it joins the closed set.
spec fn frontier_mid<T: StateSpace + ?Sized>(
    space: &T,
    open: Seq<u64>,
    closed: Set<u64>,
    m: Map<u64, u64>,
    e: Map<u64, int>,
    ctr: int,
    init: u64,
    goal: u64,
    current: u64,
) -> bool {
    &&& parent_map_ranked(m, e, e, init)
    &&& forall|k: u64| #[trigger] m.contains_key(k) ==> space.edge(m[k], k)
    &&& forall|k: u64| #[trigger] e.contains_key(k) <==> (m.contains_key(k) || k == init)
    &&& forall|k: u64| #[trigger] e.contains_key(k) ==> e[k] < ctr
    &&& forall|s: u64| #[trigger] open.contains(s) ==> s == init || m.contains_key(s)
    &&& forall|k: u64| #[trigger] m.contains_key(k) ==> open.contains(k) || closed.contains(k)
        || k == current
    &&& open.contains(init) || closed.contains(init) || init == current
    &&& forall|s: u64, t: u64| closed.contains(s) && #[trigger] space.edge(s, t) ==> open.contains(
        t,
    ) || closed.contains(t) || t == current
    &&& !closed.contains(goal)
    &&& current != goal
    &&& current == init || m.contains_key(current)
}

/// Relies on `rand::thread_rng` and `rand::Rng::gen_range`: draws a value
/// uniformly below `n`.  The empty range, on which `gen_range` panics, is
/// excluded by the precondition; nothing is assumed beyond the range of the
/// result.
#[verifier::external_body]
fn random_below(n: usize) -> (r: usize)
    requires
        1 <= n,
    ensures
        r < n,
{
    rand::Rng::gen_range(&mut rand::thread_rng(), 0..n)
}

/// One expansion round shared by the uninformed searches: puts every
/// neighbour of `current` that is new — not `current` itself, not on the
/// frontier, not yet expanded — on the frontier with `current` recorded as
/// its predecessor, then closes `current` and reports progress.  Each state
/// the frontier gains is matched by a state the predecessor mapping gains,
/// which bounds the search loops.
fn expand_frontier<T: StateSpace + ?Sized>(
    space: &T,
    current: u64,
    init: u64,
    goal: u64,
    open: &mut Vec<u64>,
    closed: &mut HashSet<u64>,
    parent_of_state: &mut HashMap<u64, u64>,
    rank: Ghost<Map<u64, int>>,
    ctr: Ghost<int>,
) -> (g: (Ghost<Map<u64, int>>, Ghost<int>))
    requires
        frontier_mid(
            space,
            old(open)@,
            old(closed)@,
            old(parent_of_state)@,
            rank@,
            ctr@,
            init,
            goal,
            current,
        ),
    ensures
        frontier_inv(
            space,
            final(open)@,
            final(closed)@,
            final(parent_of_state)@,
            g.0@,
            g.1@,
            init,
            goal,
        ),
        old(parent_of_state)@.dom() <= final(parent_of_state)@.dom(),
        final(open)@.len() as int - old(open)@.len() as int == final(parent_of_state)@.dom().len()
            as int - old(parent_of_state)@.dom().len() as int,
{
    let neighbours = space.neighbours(current);
    let ghost nv = neighbours@;
    let ghost mut e_map = rank@;
    let ghost mut ctr_g = ctr@;
    let mut idx: usize = 0;
    while idx < neighbours.len()
        invariant
            neighbours@ == nv,
            idx <= nv.len(),
            forall|t: u64| #[trigger] nv.contains(t) <==> space.edge(current, t),
            frontier_mid(
                space,
                open@,
                closed@,
                parent_of_state@,
                e_map,
                ctr_g,
                init,
                goal,
                current,
            ),
            forall|j: int| 0 <= j < idx ==> open@.contains(#[trigger] nv[j]) || closed@.contains(
                nv[j],
            ) || nv[j] == current,
            old(parent_of_state)@.dom() <= parent_of_state@.dom(),
            open@.len() as int - old(open)@.len() as int == parent_of_state@.dom().len() as int
                - old(parent_of_state)@.dom().len() as int,
            closed@ == old(closed)@,
        decreases nv.len() - idx,
    {
        let neighbour = neighbours[idx];
        proof {
            assert(nv[idx as int] == neighbour);
            assert(nv.contains(neighbour));
        }
        if neighbour != current && !vec_has(open, neighbour) && !closed.contains(&neighbour) {
            let ghost open_pre = open@;
            let ghost m_pre = parent_of_state@;
            let ghost e_pre = e_map;
            proof {
                lemma_push_contains(open_pre, neighbour);
                assert(!m_pre.contains_key(neighbour));
                assert(neighbour != init);
            }
            open.push(neighbour);
            parent_of_state.insert(neighbour, current);
            proof {
                e_map = e_map.insert(neighbour, ctr_g);
                ctr_g = ctr_g + 1;
                assert(ranked_link(parent_of_state@, e_map, e_map, init, neighbour));
                assert forall|k: u64| #[trigger]
                    parent_of_state@.contains_key(k) implies ranked_link(
                    parent_of_state@,
                    e_map,
                    e_map,
                    init,
                    k,
                ) by {
                    if k != neighbour {
                        assert(m_pre.contains_key(k));
                        assert(ranked_link(m_pre, e_pre, e_pre, init, k));
                    }
                }
            }
        }
        idx = idx + 1;
    }
    let ghost closed_pre = closed@;
    closed.insert(current);
    proof {
        assert forall|s: u64, t: u64|
            closed@.contains(s) && #[trigger] space.edge(s, t) implies open@.contains(t)
            || closed@.contains(t) by {
            if s == current {
                assert(nv.contains(t));
                let j = choose|j: int| 0 <= j < nv.len() && nv[j] == t;
            } else {
                assert(closed_pre.contains(s));
            }
        }
    }
    space.display_progress(&init, &goal, open);
    (Ghost(e_map), Ghost(ctr_g))
}

/// Reconstructs and certifies the walk once a search has taken `goal` from
/// the frontier: with a well-founded predecessor mapping whose links are all
/// edges, the reconstructed walk runs from `init` to `goal`.
fn found_path<T: StateSpace + ?Sized>(
    space: &T,
    parent_of_state: HashMap<u64, u64>,
    d_rank: Ghost<Map<u64, int>>,
    e_rank: Ghost<Map<u64, int>>,
    init: u64,
    goal: u64,
) -> (r: Option<Vec<u64>>)
    requires
        parent_map_ranked(parent_of_state@, d_rank@, e_rank@, init),
        forall|k: u64| #[trigger] parent_of_state@.contains_key(k) ==> space.edge(
            parent_of_state@[k],
            k,
        ),
        goal == init || parent_of_state@.contains_key(goal),
    ensures
        r is Some,
        search_post(space, init, goal, r),
        r matches Some(p) ==> reconstruct_post(parent_of_state@, goal, p@),
{
    let ghost msnap = parent_of_state@;
    let p = reconstruct_path(parent_of_state, goal);
    proof {
        lemma_reconstructed_origin(msnap, d_rank@, e_rank@, init, goal, p@);
        assert forall|i: int| 0 <= i < p@.len() - 1 implies #[trigger] space.edge(
            p@[i],
            p@[i + 1],
        ) by {
            assert(parent_link(msnap, p@[i], p@[i + 1]));
            assert(msnap.contains_key(p@[i + 1]));
        }
        if init == goal {
            if p@.len() >= 2 {
                let k = p@.len() - 2;
                assert(parent_link(msnap, p@[k], p@[k + 1]));
                assert(msnap.contains_key(p@[k + 1]));
                assert(false);
            }
            assert(p@ =~= seq![init]);
        }
    }
    Some(p)
}

/// When the frontier runs dry, the closed set holds `init`, is closed under
/// the edge relation, and misses `goal`: the goal is unreachable.
proof fn exhausted_frontier<T: StateSpace + ?Sized>(
    space: &T,
    open: Seq<u64>,
    closed: Set<u64>,
    m: Map<u64, u64>,
    e: Map<u64, int>,
    ctr: int,
    init: u64,
    goal: u64,
)
    requires
        frontier_inv(space, open, closed, m, e, ctr, init, goal),
        open.len() == 0,
    ensures
        !reachable(space, init, goal),
{
    assert forall|x: u64| !(#[trigger] open.contains(x)) by {
        if open.contains(x) {
            let j = choose|j: int| 0 <= j < open.len() && open[j] == x;
        }
    }
    assert(closed.contains(init));
    lemma_closed_set_unreachable(space, closed, init, goal);
}

/// A state space which can be searched.
///
/// States are `u64` identifiers.  `edge` is the neighbour relation, and
/// `neighbours` must enumerate exactly the states it relates to its argument.
pub trait StateSpace {
    /// The neighbour relation: `edge(a, b)` holds when `b` is directly
    /// reachable from `a` in one step.
    spec fn edge(&self, from: u64, to: u64) -> bool;

    /// Returns the state's neighbours: exactly the states the edge relation
    /// reaches from `state`, each once, in an order the implementer
    /// chooses.
    fn neighbours(&self, state: u64) -> (r: Vec<u64>)
        ensures
            forall|t: u64| #[trigger] r@.contains(t) <==> self.edge(state, t),
            forall|i: int, j: int| 0 <= i < j < r@.len() ==> r@[i] != r@[j],
    ;

    /// A callback used to display the progress of the search algorithm.
    /// It observes the frontier and must not influence the search.
    fn display_progress(&self, init: &u64, goal: &u64, open: &Vec<u64>) {
    }
}

/// A search expanding states in random order: each round removes a state
/// drawn uniformly from the frontier.  Neither complete in infinite
/// spaces nor optimal; here the state space is finite, so the search
/// terminates and reports `None` when the frontier runs dry.
pub fn random_search<T: StateSpace>(space: &T, init: u64, goal: u64) -> (r: Option<Vec<u64>>)
    ensures
        search_post(space, init, goal, r),
{
    let mut open: Vec<u64> = Vec::new();
    let mut closed: HashSet<u64> = HashSet::new();
    let mut parent_of_state: HashMap<u64, u64> = HashMap::new();
    let mut rank: Ghost<Map<u64, int>> = Ghost(Map::empty().insert(init, 0));
    let mut ctr: Ghost<int> = Ghost(1);
    open.push(init);
    proof {
        lemma_push_contains(Seq::<u64>::empty(), init);
    }
    while !open.is_empty()
        invariant
            frontier_inv(space, open@, closed@, parent_of_state@, rank@, ctr@, init, goal),
        decreases 0x10000000000000000 - parent_of_state@.dom().len(), open@.len(),
    {
        let ghost open_head = open@;
        let ghost dom_head = parent_of_state@.dom();
        let pick = random_below(open.len());
        let current = open.remove(pick);
        proof {
            assert(open_head[pick as int] == current);
            assert(open_head.contains(current));
            lemma_remove_contains(open_head, pick as int);
        }
        if current == goal {
            return found_path(space, parent_of_state, rank, rank, init, goal);
        }
        let (rank2, ctr2) = expand_frontier(
            space,
            current,
            init,
            goal,
            &mut open,
            &mut closed,
            &mut parent_of_state,
            rank,
            ctr,
        );
        rank = rank2;
        ctr = ctr2;
        proof {
            lemma_u64_set_card(parent_of_state@.dom());
            vstd::set_lib::lemma_len_subset(dom_head, parent_of_state@.dom());
        }
    }
    proof {
        exhausted_frontier(space, open@, closed@, parent_of_state@, rank@, ctr@, init, goal);
    }
    None
}

/// The state of breadth-first search at the top of each round.  Beyond the
/// bookkeeping every search keeps, the ghost `depth` map records the exact
/// level at which each state was discovered: levels step by exactly one
/// along predecessor links, every neighbour of an expanded state is
/// discovered at most one level further out, expanded states sit at or
/// below level `lvl`, and the frontier holds the remainder of level `lvl`
/// (before position `split`) followed by level `lvl + 1`.
spec fn bfs_inv<T: StateSpace + ?Sized>(
    space: &T,
    open: Seq<u64>,
    closed: Set<u64>,
    m: Map<u64, u64>,
    depth: Map<u64, int>,
    lvl: int,
    split: int,
    init: u64,
    goal: u64,
) -> bool {
    &&& parent_map_ranked(m, depth, depth, init)
    &&& forall|k: u64| #[trigger] m.contains_key(k) ==> space.edge(m[k], k)
    &&& forall|k: u64| #[trigger] depth.contains_key(k) <==> (m.contains_key(k) || k == init)
    &&& depth.contains_key(init) && depth[init] == 0
    &&& forall|k: u64| #[trigger] m.contains_key(k) ==> depth[k] == depth[m[k]] + 1
    &&& forall|s: u64| #[trigger] open.contains(s) ==> s == init || m.contains_key(s)
    &&& forall|k: u64| #[trigger] m.contains_key(k) ==> open.contains(k) || closed.contains(k)
    &&& open.contains(init) || closed.contains(init)
    &&& forall|s: u64, t: u64| closed.contains(s) && #[trigger] space.edge(s, t) ==> open.contains(
        t,
    ) || closed.contains(t)
    &&& forall|s: u64, t: u64| closed.contains(s) && #[trigger] space.edge(s, t)
        ==> depth.contains_key(t) && depth[t] <= depth[s] + 1
    &&& !closed.contains(goal)
    &&& forall|s: u64| #[trigger] closed.contains(s) ==> depth.contains_key(s) && depth[s] <= lvl
    &&& 0 <= split <= open.len()
    &&& forall|i: int| 0 <= i < split ==> depth[#[trigger] open[i]] == lvl
    &&& forall|i: int| split <= i < open.len() ==> depth[#[trigger] open[i]] == lvl + 1
}

/// The same state in the middle of a round, once `current` — a state of
/// level `lvl` — has been taken from the frontier and before it joins the
/// closed set.
spec fn bfs_mid<T: StateSpace + ?Sized>(
    space: &T,
    open: Seq<u64>,
    closed: Set<u64>,
    m: Map<u64, u64>,
    depth: Map<u64, int>,
    lvl: int,
    split: int,
    init: u64,
    goal: u64,
    current: u64,
) -> bool {
    &&& parent_map_ranked(m, depth, depth, init)
    &&& forall|k: u64| #[trigger] m.contains_key(k) ==> space.edge(m[k], k)
    &&& forall|k: u64| #[trigger] depth.contains_key(k) <==> (m.contains_key(k) || k == init)
    &&& depth.contains_key(init) && depth[init] == 0
    &&& forall|k: u64| #[trigger] m.contains_key(k) ==> depth[k] == depth[m[k]] + 1
    &&& forall|s: u64| #[trigger] open.contains(s) ==> s == init || m.contains_key(s)
    &&& forall|k: u64| #[trigger] m.contains_key(k) ==> open.contains(k) || closed.contains(k)
        || k == current
    &&& open.contains(init) || closed.contains(init) || init == current
    &&& forall|s: u64, t: u64| closed.contains(s) && #[trigger] space.edge(s, t) ==> open.contains(
        t,
    ) || closed.contains(t) || t == current
    &&& forall|s: u64, t: u64| closed.contains(s) && #[trigger] space.edge(s, t)
        ==> depth.contains_key(t) && depth[t] <= depth[s] + 1
    &&& !closed.contains(goal)
    &&& current != goal
    &&& current == init || m.contains_key(current)
    &&& depth.contains_key(current) && depth[current] == lvl
    &&& forall|s: u64| #[trigger] closed.contains(s) ==> depth.contains_key(s) && depth[s] <= lvl
    &&& 0 <= split <= open.len()
    &&& forall|i: int| 0 <= i < split ==> depth[#[trigger] open[i]] == lvl
    &&& forall|i: int| split <= i < open.len() ==> depth[#[trigger] open[i]] == lvl + 1
}

/// Along a predecessor chain whose links each step the level by exactly one,
/// the state at position `i` sits at level `i`.
proof fn lemma_chain_depth(m: Map<u64, u64>, depth: Map<u64, int>, init: u64, r: Seq<u64>, i: int)
    requires
        forall|t: int| 0 <= t < r.len() - 1 ==> #[trigger] parent_link(m, r[t], r[t + 1]),
        forall|k: u64| #[trigger] m.contains_key(k) ==> depth.contains_key(k)
            && depth.contains_key(m[k]) && depth[k] == depth[m[k]] + 1,
        r.len() >= 1,
        r[0] == init,
        depth.contains_key(init),
        depth[init] == 0,
        0 <= i < r.len(),
    ensures
        depth.contains_key(r[i]),
        depth[r[i]] == i,
    decreases i,
{
    if i > 0 {
        let k = i - 1;
        assert(parent_link(m, r[k], r[k + 1]));
        assert(m.contains_key(r[i]));
        lemma_chain_depth(m, depth, init, r, i - 1);
    }
}

/// The cut argument behind breadth-first optimality.  Suppose the goal is at
/// the head of the frontier but its level exceeds the edge count of some
/// walk `q` from `init` to it.  Then, walking along `q`, every state before
/// the last is already expanded and sits at a level no greater than its
/// position — a state of `q` still on the frontier would sit at the goal's
/// level or beyond, too deep for its position.
proof fn lemma_bfs_level_cut<T: StateSpace + ?Sized>(
    space: &T,
    open: Seq<u64>,
    closed: Set<u64>,
    m: Map<u64, u64>,
    depth: Map<u64, int>,
    lvl: int,
    split: int,
    init: u64,
    goal: u64,
    q: Seq<u64>,
    i: int,
)
    requires
        bfs_inv(space, open, closed, m, depth, lvl, split, init, goal),
        open.len() > 0,
        open[0] == goal,
        q.len() >= 1,
        q[0] == init,
        forall|t: int| 0 <= t < q.len() - 1 ==> #[trigger] space.edge(q[t], q[t + 1]),
        depth.contains_key(goal),
        depth[goal] > q.len() - 1,
        0 <= i < q.len(),
    ensures
        depth.contains_key(q[i]),
        depth[q[i]] <= i,
        i < q.len() - 1 ==> closed.contains(q[i]),
    decreases i,
{
    assert forall|j: int| 0 <= j < open.len() implies depth[#[trigger] open[j]]
        >= depth[open[0]] by {
        if split > 0 {
            assert(depth[open[0]] == lvl);
        } else {
            assert(depth[open[0]] == lvl + 1);
        }
    }
    if i == 0 {
        if i < q.len() - 1 && !closed.contains(init) {
            assert(open.contains(init));
            let j = choose|j: int| 0 <= j < open.len() && open[j] == init;
            assert(depth[open[j]] >= depth[open[0]]);
            assert(false);
        }
    } else {
        lemma_bfs_level_cut(space, open, closed, m, depth, lvl, split, init, goal, q, i - 1);
        let k = i - 1;
        assert(space.edge(q[k], q[k + 1]));
        assert(closed.contains(q[k]));
        assert(depth[q[i]] <= depth[q[k]] + 1);
        if i < q.len() - 1 && !closed.contains(q[i]) {
            assert(m.contains_key(q[i]) || q[i] == init);
            assert(open.contains(q[i]));
            let j = choose|j: int| 0 <= j < open.len() && open[j] == q[i];
            assert(depth[open[j]] >= depth[open[0]]);
            assert(false);
        }
    }
}

/// When the goal reaches the head of the breadth-first frontier, its level
/// is a lower bound on the edge count of every walk from `init` to it.
proof fn lemma_bfs_depth_minimal<T: StateSpace + ?Sized>(
    space: &T,
    open: Seq<u64>,
    closed: Set<u64>,
    m: Map<u64, u64>,
    depth: Map<u64, int>,
    lvl: int,
    split: int,
    init: u64,
    goal: u64,
    q: Seq<u64>,
)
    requires
        bfs_inv(space, open, closed, m, depth, lvl, split, init, goal),
        open.len() > 0,
        open[0] == goal,
        path_connects(space, q, init, goal),
        depth.contains_key(goal),
    ensures
        depth[goal] <= q.len() - 1,
{
    if depth[goal] > q.len() - 1 {
        lemma_bfs_level_cut(
            space,
            open,
            closed,
            m,
            depth,
            lvl,
            split,
            init,
            goal,
            q,
            q.len() - 1,
        );
        assert(false);
    }
}

/// Taking the head of the breadth-first frontier preserves the invariant in
/// its mid-round form; when the lower band is exhausted the level advances.
proof fn lemma_bfs_after_pop<T: StateSpace + ?Sized>(
    space: &T,
    open_head: Seq<u64>,
    open: Seq<u64>,
    closed: Set<u64>,
    m: Map<u64, u64>,
    depth: Map<u64, int>,
    lvl: int,
    split: int,
    init: u64,
    goal: u64,
    current: u64,
) -> (r: (int, int))
    requires
        bfs_inv(space, open_head, closed, m, depth, lvl, split, init, goal),
        open_head.len() > 0,
        open_head[0] == current,
        open == open_head.remove(0),
        current != goal,
    ensures
        bfs_mid(space, open, closed, m, depth, r.0, r.1, init, goal, current),
{
    assert(open_head.contains(current));
    lemma_remove_contains(open_head, 0);
    open_head.remove_ensures(0);
    if split > 0 {
        assert(depth[current] == lvl);
        assert forall|i: int| 0 <= i < split - 1 implies depth[#[trigger] open[i]] == lvl by {
            assert(open[i] == open_head[i + 1]);
        }
        assert forall|i: int| split - 1 <= i < open.len() implies depth[#[trigger] open[i]] == lvl
            + 1 by {
            assert(open[i] == open_head[i + 1]);
        }
        (lvl, split - 1)
    } else {
        assert(depth[current] == lvl + 1);
        assert forall|i: int| 0 <= i < open.len() implies depth[#[trigger] open[i]] == lvl
            + 1 by {
            assert(open[i] == open_head[i + 1]);
        }
        assert forall|s: u64| #[trigger] closed.contains(s) implies depth.contains_key(s)
            && depth[s] <= lvl + 1 by {}
        (lvl + 1, open.len() as int)
    }
}

/// One expansion round of breadth-first search: appends every new neighbour
/// of `current` to the frontier one level further out, then closes
/// `current` and reports progress.
fn expand_bfs<T: StateSpace + ?Sized>(
    space: &T,
    current: u64,
    init: u64,
    goal: u64,
    open: &mut Vec<u64>,
    closed: &mut HashSet<u64>,
    parent_of_state: &mut HashMap<u64, u64>,
    depth: Ghost<Map<u64, int>>,
    lvl: Ghost<int>,
    split: Ghost<int>,
) -> (g: Ghost<Map<u64, int>>)
    requires
        bfs_mid(
            space,
            old(open)@,
            old(closed)@,
            old(parent_of_state)@,
            depth@,
            lvl@,
            split@,
            init,
            goal,
            current,
        ),
    ensures
        bfs_inv(
            space,
            final(open)@,
            final(closed)@,
            final(parent_of_state)@,
            g@,
            lvl@,
            split@,
            init,
            goal,
        ),
        old(parent_of_state)@.dom() <= final(parent_of_state)@.dom(),
        final(open)@.len() as int - old(open)@.len() as int == final(parent_of_state)@.dom().len()
            as int - old(parent_of_state)@.dom().len() as int,
{
    let neighbours = space.neighbours(current);
    let ghost nv = neighbours@;
    let ghost mut depth_g = depth@;
    let mut idx: usize = 0;
    while idx < neighbours.len()
        invariant
            neighbours@ == nv,
            idx <= nv.len(),
            forall|t: u64| #[trigger] nv.contains(t) <==> space.edge(current, t),
            bfs_mid(
                space,
                open@,
                closed@,
                parent_of_state@,
                depth_g,
                lvl@,
                split@,
                init,
                goal,
                current,
            ),
            forall|j: int| 0 <= j < idx ==> (open@.contains(#[trigger] nv[j]) || closed@.contains(
                nv[j],
            ) || nv[j] == current) && depth_g.contains_key(nv[j]) && depth_g[nv[j]] <= lvl@ + 1,
            old(parent_of_state)@.dom() <= parent_of_state@.dom(),
            open@.len() as int - old(open)@.len() as int == parent_of_state@.dom().len() as int
                - old(parent_of_state)@.dom().len() as int,
            closed@ == old(closed)@,
        decreases nv.len() - idx,
    {
        let neighbour = neighbours[idx];
        proof {
            assert(nv[idx as int] == neighbour);
            assert(nv.contains(neighbour));
        }
        if neighbour != current && !vec_has(open, neighbour) && !closed.contains(&neighbour) {
            let ghost open_pre = open@;
            let ghost m_pre = parent_of_state@;
            let ghost depth_pre = depth_g;
            proof {
                lemma_push_contains(open_pre, neighbour);
                assert(!m_pre.contains_key(neighbour));
                assert(neighbour != init);
                assert(!depth_pre.contains_key(neighbour));
            }
            open.push(neighbour);
            parent_of_state.insert(neighbour, current);
            proof {
                depth_g = depth_pre.insert(neighbour, lvl@ + 1);
                assert forall|s: u64| #[trigger] open_pre.contains(s) implies s != neighbour by {}
                assert(ranked_link(parent_of_state@, depth_g, depth_g, init, neighbour));
                assert forall|k: u64| #[trigger]
                    parent_of_state@.contains_key(k) implies ranked_link(
                    parent_of_state@,
                    depth_g,
                    depth_g,
                    init,
                    k,
                ) by {
                    if k != neighbour {
                        assert(m_pre.contains_key(k));
                        assert(ranked_link(m_pre, depth_pre, depth_pre, init, k));
                    }
                }
                assert forall|i: int| 0 <= i < split@ implies depth_g[#[trigger] open@[i]]
                    == lvl@ by {
                    assert(open@[i] == open_pre[i]);
                    assert(open_pre.contains(open_pre[i]));
                }
                assert forall|i: int| split@ <= i < open@.len() implies depth_g[#[trigger] open@[i]]
                    == lvl@ + 1 by {
                    if i < open@.len() - 1 {
                        assert(open@[i] == open_pre[i]);
                        assert(open_pre.contains(open_pre[i]));
                    } else {
                        assert(open@[i] == neighbour);
                    }
                }
            }
        }
        proof {
            if open@.contains(neighbour) {
                let oi = choose|oi: int| 0 <= oi < open@.len() && open@[oi] == neighbour;
                assert(depth_g[open@[oi]] <= lvl@ + 1);
            }
        }
        idx = idx + 1;
    }
    let ghost closed_pre = closed@;
    closed.insert(current);
    proof {
        assert forall|s: u64, t: u64|
            closed@.contains(s) && #[trigger] space.edge(s, t) implies (open@.contains(t)
            || closed@.contains(t)) && depth_g.contains_key(t) && depth_g[t] <= depth_g[s] + 1 by {
            if s == current {
                assert(nv.contains(t));
                let j = choose|j: int| 0 <= j < nv.len() && nv[j] == t;
            } else {
                assert(closed_pre.contains(s));
            }
        }
    }
    space.display_progress(&init, &goal, open);
    Ghost(depth_g)
}

/// When the goal comes off the head of the breadth-first frontier, the
/// reconstructed walk is as short as any walk from `init` to `goal`.
proof fn lemma_bfs_found<T: StateSpace + ?Sized>(
    space: &T,
    open_head: Seq<u64>,
    closed_head: Set<u64>,
    msnap: Map<u64, u64>,
    depth: Map<u64, int>,
    lvl: int,
    split: int,
    init: u64,
    goal: u64,
    pseq: Seq<u64>,
)
    requires
        bfs_inv(space, open_head, closed_head, msnap, depth, lvl, split, init, goal),
        open_head.len() > 0,
        open_head[0] == goal,
        reconstruct_post(msnap, goal, pseq),
        pseq.len() >= 1,
        pseq[0] == init,
    ensures
        forall|q: Seq<u64>| path_connects(space, q, init, goal) ==> pseq.len() <= q.len(),
{
    assert forall|k: u64| #[trigger] msnap.contains_key(k) implies depth.contains_key(k)
        && depth.contains_key(msnap[k]) && depth[k] == depth[msnap[k]] + 1 by {
        assert(ranked_link(msnap, depth, depth, init, k));
    }
    lemma_chain_depth(msnap, depth, init, pseq, pseq.len() - 1);
    assert(depth.contains_key(goal) && depth[goal] == pseq.len() - 1);
    assert forall|q: Seq<u64>| path_connects(space, q, init, goal) implies pseq.len()
        <= q.len() by {
        lemma_bfs_depth_minimal(
            space,
            open_head,
            closed_head,
            msnap,
            depth,
            lvl,
            split,
            init,
            goal,
            q,
        );
    }
}

/// Reconstructs and certifies the walk once the goal has come off the head
/// of the breadth-first frontier: it runs from `init` to `goal` and is as
/// short as any walk between them.
fn bfs_found_path<T: StateSpace + ?Sized>(
    space: &T,
    parent_of_state: HashMap<u64, u64>,
    depth: Ghost<Map<u64, int>>,
    lvl: Ghost<int>,
    split: Ghost<int>,
    open_head: Ghost<Seq<u64>>,
    closed_head: Ghost<Set<u64>>,
    init: u64,
    goal: u64,
) -> (r: Option<Vec<u64>>)
    requires
        bfs_inv(
            space,
            open_head@,
            closed_head@,
            parent_of_state@,
            depth@,
            lvl@,
            split@,
            init,
            goal,
        ),
        open_head@.len() > 0,
        open_head@[0] == goal,
        goal == init || parent_of_state@.contains_key(goal),
    ensures
        r is Some,
        search_post(space, init, goal, r),
        r matches Some(p) ==> (forall|q: Seq<u64>|
            path_connects(space, q, init, goal) ==> p@.len() <= q.len()),
{
    let ghost msnap = parent_of_state@;
    let result = found_path(space, parent_of_state, depth, depth, init, goal);
    proof {
        lemma_bfs_found(
            space,
            open_head@,
            closed_head@,
            msnap,
            depth@,
            lvl@,
            split@,
            init,
            goal,
            result.unwrap()@,
        );
    }
    result
}

/// A search expanding states level by level: the frontier is a queue,
/// dequeued in insertion order.  Complete, and optimal in the number of
/// edges: no walk from `init` to `goal` has fewer states than the one
/// returned.
#[verifier::rlimit(100)]
pub fn breadth_first_search<T: StateSpace>(space: &T, init: u64, goal: u64) -> (r: Option<Vec<u64>>)
    ensures
        search_post(space, init, goal, r),
        r matches Some(p) ==> (forall|q: Seq<u64>|
            path_connects(space, q, init, goal) ==> p@.len() <= q.len()),
{
    let mut open: Vec<u64> = Vec::new();
    let mut closed: HashSet<u64> = HashSet::new();
    let mut parent_of_state: HashMap<u64, u64> = HashMap::new();
    let mut depth: Ghost<Map<u64, int>> = Ghost(Map::empty().insert(init, 0));
    let ghost mut lvl: int = 0;
    let ghost mut split: int = 1;
    open.push(init);
    proof {
        lemma_push_contains(Seq::<u64>::empty(), init);
    }
    while !open.is_empty()
        invariant
            bfs_inv(space, open@, closed@, parent_of_state@, depth@, lvl, split, init, goal),
        decreases 0x10000000000000000 - parent_of_state@.dom().len(), open@.len(),
    {
        let ghost open_head = open@;
        let ghost closed_head = closed@;
        let ghost lvl_head = lvl;
        let ghost split_head = split;
        let ghost dom_head = parent_of_state@.dom();
        let current = open.remove(0);
        proof {
            assert(open_head[0] == current);
            assert(open_head.contains(current));
            lemma_remove_contains(open_head, 0);
        }
        if current == goal {
            return bfs_found_path(
                space,
                parent_of_state,
                depth,
                Ghost(lvl_head),
                Ghost(split_head),
                Ghost(open_head),
                Ghost(closed_head),
                init,
                goal,
            );
        }
        proof {
            let r = lemma_bfs_after_pop(
                space,
                open_head,
                open@,
                closed@,
                parent_of_state@,
                depth@,
                lvl,
                split,
                init,
                goal,
                current,
            );
            lvl = r.0;
            split = r.1;
        }
        let depth2 = expand_bfs(
            space,
            current,
            init,
            goal,
            &mut open,
            &mut closed,
            &mut parent_of_state,
            depth,
            Ghost(lvl),
            Ghost(split),
        );
        depth = depth2;
        proof {
            lemma_u64_set_card(parent_of_state@.dom());
            vstd::set_lib::lemma_len_subset(dom_head, parent_of_state@.dom());
        }
    }
    proof {
        assert forall|x: u64| !(#[trigger] open@.contains(x)) by {
            if open@.contains(x) {
                let j = choose|j: int| 0 <= j < open@.len() && open@[j] == x;
            }
        }
        assert(closed@.contains(init));
        lemma_closed_set_unreachable(space, closed@, init, goal);
    }
    None
}

/// A search expanding a path as far as possible: the frontier is a
/// stack, so the most recently discovered state is expanded first.
/// Complete on this finite state space, but not optimal.
pub fn depth_first_search<T: StateSpace>(space: &T, init: u64, goal: u64) -> (r: Option<Vec<u64>>)
    ensures
        search_post(space, init, goal, r),
{
    let mut open: Vec<u64> = Vec::new();
    let mut closed: HashSet<u64> = HashSet::new();
    let mut parent_of_state: HashMap<u64, u64> = HashMap::new();
    let mut rank: Ghost<Map<u64, int>> = Ghost(Map::empty().insert(init, 0));
    let mut ctr: Ghost<int> = Ghost(1);
    open.push(init);
    proof {
        lemma_push_contains(Seq::<u64>::empty(), init);
    }
    while !open.is_empty()
        invariant
            frontier_inv(space, open@, closed@, parent_of_state@, rank@, ctr@, init, goal),
        decreases 0x10000000000000000 - parent_of_state@.dom().len(), open@.len(),
    {
        let ghost open_head = open@;
        let ghost dom_head = parent_of_state@.dom();
        let popped = open.pop();
        let current = popped.unwrap();
        proof {
            assert(open_head[open_head.len() - 1] == current);
            assert(open_head.contains(current));
            lemma_remove_contains(open_head, open_head.len() - 1);
            assert(open_head.remove(open_head.len() - 1) =~= open@);
        }
        if current == goal {
            return found_path(space, parent_of_state, rank, rank, init, goal);
        }
        let (rank2, ctr2) = expand_frontier(
            space,
            current,
            init,
            goal,
            &mut open,
            &mut closed,
            &mut parent_of_state,
            rank,
            ctr,
        );
        rank = rank2;
        ctr = ctr2;
        proof {
            lemma_u64_set_card(parent_of_state@.dom());
            vstd::set_lib::lemma_len_subset(dom_head, parent_of_state@.dom());
        }
    }
    proof {
        exhausted_frontier(space, open@, closed@, parent_of_state@, rank@, ctr@, init, goal);
    }
    None
}


/// What every search returns: a walk from `init` to `goal` when it reports
/// one — a single state when `init == goal` — and `None` only when no walk
/// exists at all.
pub open spec fn search_post<T: StateSpace + ?Sized>(
    space: &T,
    init: u64,
    goal: u64,
    r: Option<Vec<u64>>,
) -> bool {
    match r {
        Some(p) => {
            &&& path_connects(space, p@, init, goal)
            &&& forall|i: int, j: int| 0 <= i < j < p@.len() ==> p@[i] != p@[j]
            &&& (init == goal ==> p@ =~= seq![init])
        },
        None => !reachable(space, init, goal),
    }
}

/// A state space with a cost on each transition.
pub trait CostStateSpace: StateSpace {
    /// The cost of the edge from `current` to `next`, as the contracts see
    /// it.
    spec fn cost_spec(&self, current: u64, next: u64) -> u64;

    /// Returns the cost of the transition from `current` to `next`.  The
    /// cost is defined only for pairs that are actual neighbours.
    fn cost(&self, current: u64, next: u64) -> (r: u64)
        requires
            self.edge(current, next),
        ensures
            r == self.cost_spec(current, next),
    ;
}

/// The total cost of the walk `p`: the sum of the edge costs of its
/// consecutive pairs.
pub open spec fn path_cost<T: CostStateSpace + ?Sized>(space: &T, p: Seq<u64>) -> int
    decreases p.len(),
{
    if p.len() <= 1 {
        0
    } else {
        path_cost(space, p.drop_last()) + space.cost_spec(p[p.len() - 2], p[p.len() - 1])
    }
}

/// A state space with a cost and a goal-distance estimate.
pub trait HeuristicStateSpace: CostStateSpace {
    /// The goal-distance estimate, as the contracts see it.
    spec fn heuristic_spec(&self, state: u64, goal: u64) -> u64;

    /// Returns a lower-bound estimate of the cost of the cheapest walk from
    /// `state` to `goal`.
    fn heuristic(&self, state: u64, goal: u64) -> (r: u64)
        ensures
            r == self.heuristic_spec(state, goal),
    ;
}

/// A search expanding the state with the smallest goal-distance estimate
/// first, accumulated cost disregarded.  Finds a walk whenever one exists,
/// but not necessarily a cheapest one.
pub fn greedy_search<T: HeuristicStateSpace>(space: &T, init: u64, goal: u64) -> (r: Option<
    Vec<u64>,
>)
    ensures
        search_post(space, init, goal, r),
{
    let mut open = MinPrioriyQueue::new();
    let mut closed: HashSet<u64> = HashSet::new();
    let mut parent_of_state: HashMap<u64, u64> = HashMap::new();
    let mut rank: Ghost<Map<u64, int>> = Ghost(Map::empty().insert(init, 0));
    let mut ctr: Ghost<int> = Ghost(1);
    let ghost q0 = open@;
    let h0 = space.heuristic(init, goal);
    open.enqueue(h0, init);
    proof {
        lemma_elems_push(q0, (h0, init));
        lemma_push_contains(elems_of(q0), init);
        assert(elems_of(q0) =~= Seq::<u64>::empty());
        assert(elems_of(open@).contains(init));
    }
    while !open.is_empty()
        invariant
            frontier_inv(space, elems_of(open@), closed@, parent_of_state@, rank@, ctr@, init, goal),
        decreases 0x10000000000000000 - parent_of_state@.dom().len(), open@.len(),
    {
        let ghost qhead = open@;
        let ghost dom_head = parent_of_state@.dom();
        let deq = open.dequeue();
        let ghost mut i0: int = 0;
        proof {
            i0 = choose|i: int| dequeue_step(qhead, open@, deq, i);
            assert(dequeue_step(qhead, open@, deq, i0));
            assert(deq is Some);
        }
        let current = deq.unwrap();
        let ghost qmid = open@;
        proof {
            assert(removed_min(qhead, open@, current, i0));
            assert(qhead[i0].1 == current);
            assert(elems_of(qhead)[i0] == current);
            assert(elems_of(qhead).contains(current));
            lemma_elems_remove(qhead, i0);
            lemma_remove_contains(elems_of(qhead), i0);
            assert(elems_of(qmid) =~= elems_of(qhead).remove(i0));
        }
        if current == goal {
            return found_path(space, parent_of_state, rank, rank, init, goal);
        }
        let neighbours = space.neighbours(current);
        let ghost nv = neighbours@;
        let ghost mut e_map = rank@;
        let ghost mut ctr_g = ctr@;
        let mut idx: usize = 0;
        while idx < neighbours.len()
            invariant
                neighbours@ == nv,
                idx <= nv.len(),
                forall|t: u64| #[trigger] nv.contains(t) <==> space.edge(current, t),
                frontier_mid(
                    space,
                    elems_of(open@),
                    closed@,
                    parent_of_state@,
                    e_map,
                    ctr_g,
                    init,
                    goal,
                    current,
                ),
                forall|j: int| 0 <= j < idx ==> elems_of(open@).contains(#[trigger] nv[j])
                    || closed@.contains(nv[j]) || nv[j] == current,
                dom_head <= parent_of_state@.dom(),
                open@.len() as int - qmid.len() as int == parent_of_state@.dom().len() as int
                    - dom_head.len() as int,
            decreases nv.len() - idx,
        {
            let neighbour = neighbours[idx];
            proof {
                assert(nv[idx as int] == neighbour);
                assert(nv.contains(neighbour));
            }
            if neighbour != current && !open.contains(neighbour) && !closed.contains(&neighbour) {
                let ghost q_pre = open@;
                let ghost m_pre = parent_of_state@;
                let ghost e_pre = e_map;
                let h = space.heuristic(neighbour, goal);
                proof {
                    lemma_elems_push(q_pre, (h, neighbour));
                    lemma_push_contains(elems_of(q_pre), neighbour);
                    assert(!m_pre.contains_key(neighbour));
                    assert(neighbour != init);
                }
                open.enqueue(h, neighbour);
                parent_of_state.insert(neighbour, current);
                proof {
                    e_map = e_map.insert(neighbour, ctr_g);
                    ctr_g = ctr_g + 1;
                    assert(elems_of(open@) =~= elems_of(q_pre).push(neighbour));
                    assert(ranked_link(parent_of_state@, e_map, e_map, init, neighbour));
                    assert forall|k: u64| #[trigger]
                        parent_of_state@.contains_key(k) implies ranked_link(
                        parent_of_state@,
                        e_map,
                        e_map,
                        init,
                        k,
                    ) by {
                        if k != neighbour {
                            assert(m_pre.contains_key(k));
                            assert(ranked_link(m_pre, e_pre, e_pre, init, k));
                        }
                    }
                }
            }
            idx = idx + 1;
        }
        let ghost closed_pre = closed@;
        closed.insert(current);
        proof {
            assert forall|s: u64, t: u64|
                closed@.contains(s) && #[trigger] space.edge(s, t) implies elems_of(
                open@,
            ).contains(t) || closed@.contains(t) by {
                if s == current {
                    assert(nv.contains(t));
                    let j = choose|j: int| 0 <= j < nv.len() && nv[j] == t;
                } else {
                    assert(closed_pre.contains(s));
                }
            }
        }
        let shown = open.to_elements();
        space.display_progress(&init, &goal, &shown);
        rank = Ghost(e_map);
        ctr = Ghost(ctr_g);
        proof {
            lemma_u64_set_card(parent_of_state@.dom());
            vstd::set_lib::lemma_len_subset(dom_head, parent_of_state@.dom());
        }
    }
    proof {
        assert(elems_of(open@).len() == 0);
        exhausted_frontier(
            space,
            elems_of(open@),
            closed@,
            parent_of_state@,
            rank@,
            ctr@,
            init,
            goal,
        );
    }
    None
}

/// The recorded distances, read as mathematical integers.
spec fn int_vals(dist: Map<u64, u64>) -> Map<u64, int> {
    Map::new(|k: u64| dist.contains_key(k), |k: u64| dist[k] as int)
}

/// The total of the recorded distances of the states listed in `order`.
/// Serves as part of the termination measure of the cost-aware searches:
/// every re-queueing strictly lowers one recorded distance, hence the total.
spec fn dist_total(order: Seq<u64>, dist: Map<u64, u64>) -> int
    decreases order.len(),
{
    if order.len() == 0 {
        0
    } else {
        dist_total(order.drop_last(), dist) + (if dist.contains_key(order.last()) {
            dist[order.last()] as int
        } else {
            0
        })
    }
}

proof fn lemma_dist_total_nonneg(order: Seq<u64>, dist: Map<u64, u64>)
    ensures
        dist_total(order, dist) >= 0,
    decreases order.len(),
{
    if order.len() > 0 {
        lemma_dist_total_nonneg(order.drop_last(), dist);
    }
}

/// Two distance maps that agree on every state of `order` give the same
/// total.
proof fn lemma_dist_total_same(order: Seq<u64>, d1: Map<u64, u64>, d2: Map<u64, u64>)
    requires
        forall|k: u64| #[trigger] order.contains(k) ==> (d1.contains_key(k) <==> d2.contains_key(
            k,
        )) && (d1.contains_key(k) ==> d1[k] == d2[k]),
    ensures
        dist_total(order, d1) == dist_total(order, d2),
    decreases order.len(),
{
    if order.len() > 0 {
        assert(order[order.len() - 1] == order.last());
        assert(order.contains(order.last()));
        assert forall|k: u64| #[trigger] order.drop_last().contains(k) implies order.contains(
            k,
        ) by {
            let j = choose|j: int|
                0 <= j < order.drop_last().len() && order.drop_last()[j] == k;
            assert(order[j] == k);
        }
        lemma_dist_total_same(order.drop_last(), d1, d2);
    }
}

/// Lowering the recorded distance of one listed state lowers the total by
/// exactly the difference.
proof fn lemma_dist_total_update(order: Seq<u64>, dist: Map<u64, u64>, s: u64, v: u64)
    requires
        forall|t: int, u: int| 0 <= t < u < order.len() ==> order[t] != order[u],
        order.contains(s),
        dist.contains_key(s),
    ensures
        dist_total(order, dist.insert(s, v)) == dist_total(order, dist) - dist[s] + v,
    decreases order.len(),
{
    let head = order.drop_last();
    let last = order.last();
    assert(order[order.len() - 1] == last);
    if last == s {
        assert forall|k: u64| #[trigger] head.contains(k) implies (dist.contains_key(k)
            <==> dist.insert(s, v).contains_key(k)) && (dist.contains_key(k) ==> dist[k]
            == dist.insert(s, v)[k]) by {
            let j = choose|j: int| 0 <= j < head.len() && head[j] == k;
            assert(order[j] == k);
            assert(k != s);
        }
        lemma_dist_total_same(head, dist, dist.insert(s, v));
    } else {
        let j = choose|j: int| 0 <= j < order.len() && order[j] == s;
        assert(j < order.len() - 1);
        assert(head[j] == s);
        assert(head.contains(s));
        assert forall|t: int, u: int| 0 <= t < u < head.len() implies head[t] != head[u] by {
            assert(order[t] == head[t] && order[u] == head[u]);
        }
        lemma_dist_total_update(head, dist, s, v);
    }
}

/// Recording a distance for a newly listed state adds it to the total.
proof fn lemma_dist_total_fresh(order: Seq<u64>, dist: Map<u64, u64>, s: u64, v: u64)
    requires
        !order.contains(s),
    ensures
        dist_total(order.push(s), dist.insert(s, v)) == dist_total(order, dist) + v,
{
    assert(order.push(s).drop_last() =~= order);
    assert(order.push(s).last() == s);
    assert forall|k: u64| #[trigger] order.contains(k) implies (dist.contains_key(k)
        <==> dist.insert(s, v).contains_key(k)) && (dist.contains_key(k) ==> dist[k]
        == dist.insert(s, v)[k]) by {
        assert(k != s);
    }
    lemma_dist_total_same(order, dist, dist.insert(s, v));
}

/// Extending a prefix of a walk by one state adds that step's edge cost.
proof fn lemma_path_cost_take_step<T: CostStateSpace + ?Sized>(space: &T, p: Seq<u64>, i: int)
    requires
        1 <= i < p.len(),
    ensures
        path_cost(space, p.take(i + 1)) == path_cost(space, p.take(i)) + space.cost_spec(
            p[i - 1],
            p[i],
        ),
{
    assert(p.take(i + 1).drop_last() =~= p.take(i));
    assert(p.take(i + 1)[i] == p[i] && p.take(i + 1)[i - 1] == p[i - 1]);
}

/// The queue holds an entry pairing key `k` with element `x`.
spec fn has_entry(q: Seq<(u64, u64)>, k: u64, x: u64) -> bool {
    exists|i: int| 0 <= i < q.len() && q[i] == (k, x)
}

/// An entry other than the removed one is still in the queue.
proof fn lemma_entry_after_remove(s: Seq<(u64, u64)>, i0: int, e: (u64, u64))
    requires
        0 <= i0 < s.len(),
        s[i0] != e,
        exists|i: int| 0 <= i < s.len() && s[i] == e,
    ensures
        exists|i: int| 0 <= i < s.remove(i0).len() && s.remove(i0)[i] == e,
{
    let i = choose|i: int| 0 <= i < s.len() && s[i] == e;
    s.remove_ensures(i0);
    if i < i0 {
        assert(s.remove(i0)[i] == e);
    } else {
        assert(s.remove(i0)[i - 1] == e);
    }
}

/// An entry survives a push.
proof fn lemma_entry_after_push(s: Seq<(u64, u64)>, p: (u64, u64), e: (u64, u64))
    requires
        exists|i: int| 0 <= i < s.len() && s[i] == e,
    ensures
        exists|i: int| 0 <= i < s.push(p).len() && s.push(p)[i] == e,
{
    let i = choose|i: int| 0 <= i < s.len() && s[i] == e;
    assert(s.push(p)[i] == e);
}

/// What, beyond `cost_inv`, Dijkstra keeps true at the top of each round:
/// every non-closed discovered state has a live queue entry carrying its
/// current distance; no entry's key undercuts its state's distance; every
/// neighbour of a closed state has been relaxed through it; closed
/// distances sit at or below every key in the queue; a closed state's
/// distance undercuts the cost of every walk to it; and along predecessor
/// links the distance grows by at least the edge cost, except where the sum
/// saturated.
spec fn dij_inv<T: CostStateSpace + ?Sized>(
    space: &T,
    q: Seq<(u64, u64)>,
    closed: Set<u64>,
    m: Map<u64, u64>,
    dist: Map<u64, u64>,
    init: u64,
) -> bool {
    &&& forall|x: u64| #[trigger] dist.contains_key(x) && !closed.contains(x) ==> has_entry(
        q,
        dist[x],
        x,
    )
    &&& forall|i: int| 0 <= i < q.len() ==> dist.contains_key((#[trigger] q[i]).1)
        && dist[q[i].1] <= q[i].0
    &&& forall|s: u64, t: u64| closed.contains(s) && #[trigger] space.edge(s, t)
        ==> dist.contains_key(t) && dist[t] as int <= dist[s] as int + space.cost_spec(s, t) as int
    &&& forall|s: u64, i: int| #![trigger closed.contains(s), q[i]] closed.contains(s) && 0 <= i
        < q.len() ==> dist[s] <= q[i].0
    &&& forall|s: u64, w: Seq<u64>| closed.contains(s) && #[trigger] path_connects(space, w, init, s)
        ==> dist[s] as int <= path_cost(space, w)
    &&& forall|k: u64| #[trigger] m.contains_key(k) ==> dist.contains_key(k)
        && dist.contains_key(m[k]) && dist[m[k]] <= dist[k] && (dist[k] as int >= dist[m[k]] as int
        + space.cost_spec(m[k], k) as int || dist[k] == u64::MAX)
}

/// The same state in the middle of a round: `current` came off the queue
/// through the minimal key `kmin`, so closed distances sit at or below
/// `kmin` and every remaining or newly pushed key sits at or above it.
spec fn dij_mid<T: CostStateSpace + ?Sized>(
    space: &T,
    q: Seq<(u64, u64)>,
    closed: Set<u64>,
    m: Map<u64, u64>,
    dist: Map<u64, u64>,
    init: u64,
    current: u64,
    kmin: u64,
) -> bool {
    &&& forall|x: u64| #[trigger] dist.contains_key(x) && !closed.contains(x) && x != current
        ==> has_entry(q, dist[x], x)
    &&& forall|i: int| 0 <= i < q.len() ==> dist.contains_key((#[trigger] q[i]).1)
        && dist[q[i].1] <= q[i].0 && kmin <= q[i].0
    &&& forall|s: u64, t: u64| closed.contains(s) && #[trigger] space.edge(s, t)
        ==> dist.contains_key(t) && dist[t] as int <= dist[s] as int + space.cost_spec(s, t) as int
    &&& forall|s: u64| #[trigger] closed.contains(s) ==> dist[s] <= kmin
    &&& forall|s: u64, w: Seq<u64>| closed.contains(s) && #[trigger] path_connects(space, w, init, s)
        ==> dist[s] as int <= path_cost(space, w)
    &&& forall|k: u64| #[trigger] m.contains_key(k) ==> dist.contains_key(k)
        && dist.contains_key(m[k]) && dist[m[k]] <= dist[k] && (dist[k] as int >= dist[m[k]] as int
        + space.cost_spec(m[k], k) as int || dist[k] == u64::MAX)
}

/// The cut argument behind Dijkstra's optimality, walked along a prefix of
/// `w`: either the dequeued minimal key already undercuts the prefix cost —
/// the walk has met a state that is still on the queue — or the prefix has
/// stayed inside the closed set, whose distances the relaxations bound.
proof fn lemma_dij_cut_walk<T: CostStateSpace + ?Sized>(
    space: &T,
    q: Seq<(u64, u64)>,
    closed: Set<u64>,
    m: Map<u64, u64>,
    dist: Map<u64, u64>,
    init: u64,
    kmin: u64,
    w: Seq<u64>,
    i: int,
)
    requires
        dij_inv(space, q, closed, m, dist, init),
        dist.contains_key(init),
        dist[init] == 0,
        min_key_of(q, kmin),
        w.len() >= 1,
        w[0] == init,
        forall|t: int| 0 <= t < w.len() - 1 ==> #[trigger] space.edge(w[t], w[t + 1]),
        0 <= i < w.len(),
    ensures
        kmin as int <= path_cost(space, w.take(i + 1)) || (closed.contains(w[i])
            && dist.contains_key(w[i]) && dist[w[i]] as int <= path_cost(space, w.take(i + 1))),
    decreases i,
{
    if i == 0 {
        assert(w.take(1).len() == 1);
        if !closed.contains(init) {
            assert(has_entry(q, dist[init], init));
            let j = choose|j: int| 0 <= j < q.len() && q[j] == (dist[init], init);
            assert(kmin <= q[j].0);
        }
    } else {
        lemma_dij_cut_walk(space, q, closed, m, dist, init, kmin, w, i - 1);
        lemma_path_cost_take_step(space, w, i);
        if kmin as int <= path_cost(space, w.take(i)) {
        } else {
            let k = i - 1;
            assert(space.edge(w[k], w[k + 1]));
            assert(closed.contains(w[k]));
            assert(dist[w[i]] as int <= dist[w[k]] as int + space.cost_spec(w[k], w[i]) as int);
            if !closed.contains(w[i]) {
                assert(has_entry(q, dist[w[i]], w[i]));
                let j = choose|j: int| 0 <= j < q.len() && q[j] == (dist[w[i]], w[i]);
                assert(kmin <= q[j].0);
            }
        }
    }
}

/// When a state leaves the queue through a minimal key and is not yet
/// closed, its recorded distance undercuts the cost of every walk to it.
proof fn lemma_dij_cut<T: CostStateSpace + ?Sized>(
    space: &T,
    q: Seq<(u64, u64)>,
    closed: Set<u64>,
    m: Map<u64, u64>,
    dist: Map<u64, u64>,
    init: u64,
    kmin: u64,
    current: u64,
    w: Seq<u64>,
)
    requires
        dij_inv(space, q, closed, m, dist, init),
        dist.contains_key(init),
        dist[init] == 0,
        min_key_of(q, kmin),
        dist.contains_key(current),
        dist[current] <= kmin,
        !closed.contains(current),
        path_connects(space, w, init, current),
    ensures
        dist[current] as int <= path_cost(space, w),
{
    lemma_dij_cut_walk(space, q, closed, m, dist, init, kmin, w, w.len() - 1);
    assert(w.take(w.len() as int) =~= w);
}

/// Along the reconstructed walk the recorded distances never step down and
/// — as long as the terminal distance did not saturate — grow by at least
/// each edge cost, so the walk's total cost is covered by the terminal
/// distance.
proof fn lemma_parent_chain_cost<T: CostStateSpace + ?Sized>(
    space: &T,
    m: Map<u64, u64>,
    dist: Map<u64, u64>,
    init: u64,
    r: Seq<u64>,
    i: int,
)
    requires
        forall|t: int| 0 <= t < r.len() - 1 ==> #[trigger] parent_link(m, r[t], r[t + 1]),
        forall|k: u64| #[trigger] m.contains_key(k) ==> dist.contains_key(k)
            && dist.contains_key(m[k]) && dist[m[k]] <= dist[k] && (dist[k] as int >= dist[m[k]]
            as int + space.cost_spec(m[k], k) as int || dist[k] == u64::MAX),
        r.len() >= 1,
        r[0] == init,
        dist.contains_key(init),
        dist[init] == 0,
        0 <= i < r.len(),
    ensures
        dist.contains_key(r[i]),
        dist[r[i]] < u64::MAX ==> path_cost(space, r.take(i + 1)) <= dist[r[i]] as int,
    decreases i,
{
    if i == 0 {
        assert(r.take(1).len() == 1);
    } else {
        let k = i - 1;
        assert(parent_link(m, r[k], r[k + 1]));
        assert(m.contains_key(r[i]));
        lemma_parent_chain_cost(space, m, dist, init, r, i - 1);
        if dist[r[i]] < u64::MAX {
            lemma_path_cost_take_step(space, r, i);
        }
    }
}

/// The state shared by the cost-aware searches at the top of each round.
/// `q` is the priority queue, `dist` the best known distances, `disc` the
/// discovery order of the states with a recorded distance, and
/// `(int_vals(dist), es)` the rank that keeps the predecessor mapping
/// well-founded even when a state is re-parented.
spec fn cost_inv<T: StateSpace + ?Sized>(
    space: &T,
    q: Seq<(u64, u64)>,
    closed: Set<u64>,
    m: Map<u64, u64>,
    dist: Map<u64, u64>,
    es: Map<u64, int>,
    ctr: int,
    disc: Seq<u64>,
    init: u64,
    goal: u64,
) -> bool {
    &&& parent_map_ranked(m, int_vals(dist), es, init)
    &&& forall|k: u64| #[trigger] m.contains_key(k) ==> space.edge(m[k], k)
    &&& forall|k: u64| #[trigger] m.contains_key(k) ==> dist.contains_key(k)
    &&& forall|k: u64| #[trigger] es.contains_key(k) <==> dist.contains_key(k)
    &&& forall|k: u64| #[trigger] es.contains_key(k) ==> es[k] < ctr
    &&& dist.contains_key(init)
    &&& dist[init] == 0
    &&& forall|x: u64| #[trigger] elems_of(q).contains(x) ==> dist.contains_key(x)
    &&& forall|x: u64| #[trigger] elems_of(q).contains(x) ==> x == init || m.contains_key(x)
    &&& forall|k: u64| #[trigger] dist.contains_key(k) ==> elems_of(q).contains(k)
        || closed.contains(k)
    &&& forall|s: u64, t: u64| closed.contains(s) && #[trigger] space.edge(s, t)
        ==> dist.contains_key(t)
    &&& forall|k: u64| #[trigger] closed.contains(k) ==> dist.contains_key(k)
    &&& !closed.contains(goal)
    &&& forall|t: int, u: int| 0 <= t < u < disc.len() ==> disc[t] != disc[u]
    &&& forall|k: u64| #[trigger] disc.contains(k) <==> dist.contains_key(k)
}

/// The same state in the middle of a round, once `current` has been taken
/// from the queue and before it joins the closed set.
spec fn cost_mid<T: StateSpace + ?Sized>(
    space: &T,
    q: Seq<(u64, u64)>,
    closed: Set<u64>,
    m: Map<u64, u64>,
    dist: Map<u64, u64>,
    es: Map<u64, int>,
    ctr: int,
    disc: Seq<u64>,
    init: u64,
    goal: u64,
    current: u64,
) -> bool {
    &&& parent_map_ranked(m, int_vals(dist), es, init)
    &&& forall|k: u64| #[trigger] m.contains_key(k) ==> space.edge(m[k], k)
    &&& forall|k: u64| #[trigger] m.contains_key(k) ==> dist.contains_key(k)
    &&& forall|k: u64| #[trigger] es.contains_key(k) <==> dist.contains_key(k)
    &&& forall|k: u64| #[trigger] es.contains_key(k) ==> es[k] < ctr
    &&& dist.contains_key(init)
    &&& dist[init] == 0
    &&& forall|x: u64| #[trigger] elems_of(q).contains(x) ==> dist.contains_key(x)
    &&& forall|x: u64| #[trigger] elems_of(q).contains(x) ==> x == init || m.contains_key(x)
    &&& forall|k: u64| #[trigger] dist.contains_key(k) ==> elems_of(q).contains(k)
        || closed.contains(k) || k == current
    &&& forall|s: u64, t: u64| closed.contains(s) && #[trigger] space.edge(s, t)
        ==> dist.contains_key(t)
    &&& forall|k: u64| #[trigger] closed.contains(k) ==> dist.contains_key(k)
    &&& !closed.contains(goal)
    &&& forall|t: int, u: int| 0 <= t < u < disc.len() ==> disc[t] != disc[u]
    &&& forall|k: u64| #[trigger] disc.contains(k) <==> dist.contains_key(k)
    &&& current != goal
    &&& dist.contains_key(current)
    &&& current == init || m.contains_key(current)
}

/// Taking a minimal-key entry off the queue preserves Dijkstra's invariant
/// in its mid-round form; a state not yet closed leaves the queue exactly at
/// its recorded distance.
proof fn lemma_dij_after_pop<T: CostStateSpace + ?Sized>(
    space: &T,
    qhead: Seq<(u64, u64)>,
    qmid: Seq<(u64, u64)>,
    closed: Set<u64>,
    m: Map<u64, u64>,
    dist: Map<u64, u64>,
    init: u64,
    i0: int,
    current: u64,
) -> (kmin: u64)
    requires
        dij_inv(space, qhead, closed, m, dist, init),
        0 <= i0 < qhead.len(),
        qhead[i0].1 == current,
        min_key_of(qhead, qhead[i0].0),
        qmid == qhead.remove(i0),
    ensures
        kmin == qhead[i0].0,
        dij_mid(space, qmid, closed, m, dist, init, current, kmin),
        dist.contains_key(current),
        dist[current] <= kmin,
        !closed.contains(current) ==> dist[current] == kmin,
{
    let kmin = qhead[i0].0;
    qhead.remove_ensures(i0);
    assert(dist.contains_key(current) && dist[current] <= kmin);
    if !closed.contains(current) {
        assert(has_entry(qhead, dist[current], current));
        let i = choose|i: int| 0 <= i < qhead.len() && qhead[i] == (dist[current], current);
        assert(kmin <= qhead[i].0);
    }
    assert forall|x: u64| #[trigger] dist.contains_key(x) && !closed.contains(x) && x
        != current implies has_entry(qmid, dist[x], x) by {
        assert(has_entry(qhead, dist[x], x));
        lemma_entry_after_remove(qhead, i0, (dist[x], x));
    }
    assert forall|i: int| 0 <= i < qmid.len() implies dist.contains_key((#[trigger] qmid[i]).1)
        && dist[qmid[i].1] <= qmid[i].0 && kmin <= qmid[i].0 by {
        if i < i0 {
            assert(qmid[i] == qhead[i]);
        } else {
            assert(qmid[i] == qhead[i + 1]);
        }
    }
    assert forall|s: u64| #[trigger] closed.contains(s) implies dist[s] <= kmin by {
        assert(dist[s] <= qhead[i0].0);
    }
    kmin
}

/// Closing `current` restores Dijkstra's invariant: its neighbours are all
/// relaxed, its distance sits at or below every live key, and — through the
/// cut fact established when it was dequeued — at or below the cost of
/// every walk to it.
proof fn lemma_dij_close<T: CostStateSpace + ?Sized>(
    space: &T,
    q: Seq<(u64, u64)>,
    closed0: Set<u64>,
    m: Map<u64, u64>,
    dist: Map<u64, u64>,
    init: u64,
    current: u64,
    kmin: u64,
    nv: Seq<u64>,
)
    requires
        dij_mid(space, q, closed0, m, dist, init, current, kmin),
        forall|t: u64| #[trigger] nv.contains(t) <==> space.edge(current, t),
        forall|j: int| 0 <= j < nv.len() ==> dist.contains_key(#[trigger] nv[j]) && dist[nv[j]]
            as int <= dist[current] as int + space.cost_spec(current, nv[j]) as int,
        dist.contains_key(current),
        dist[current] <= kmin,
        forall|w: Seq<u64>| #[trigger] path_connects(space, w, init, current) ==> dist[current]
            as int <= path_cost(space, w),
    ensures
        dij_inv(space, q, closed0.insert(current), m, dist, init),
{
    let closed = closed0.insert(current);
    assert forall|s: u64, t: u64|
        closed.contains(s) && #[trigger] space.edge(s, t) implies dist.contains_key(t) && dist[t]
        as int <= dist[s] as int + space.cost_spec(s, t) as int by {
        if s == current {
            assert(nv.contains(t));
            let j = choose|j: int| 0 <= j < nv.len() && nv[j] == t;
        } else {
            assert(closed0.contains(s));
        }
    }
    assert forall|s: u64, i: int| #![trigger closed.contains(s), q[i]]
        closed.contains(s) && 0 <= i < q.len() implies dist[s] <= q[i].0 by {
        if s != current {
            assert(closed0.contains(s));
            assert(dist[s] <= kmin);
        }
    }
    assert forall|s: u64, w: Seq<u64>|
        closed.contains(s) && #[trigger] path_connects(space, w, init, s) implies dist[s]
        as int <= path_cost(space, w) by {
        if s != current {
            assert(closed0.contains(s));
        }
    }
}

/// Dijkstra's uniform-cost search: the frontier is a minimum-priority queue
/// keyed by the best known distance from `init`.  A state may sit in the
/// queue several times with stale keys; the distance mapping always reflects
/// the best value, and a strictly cheaper route re-queues and re-parents the
/// state.  The returned walk costs no more than any other walk from `init`
/// to `goal`, leaving aside walks whose cost cannot even be accumulated in
/// a `u64` (tentative distances saturate there).
#[verifier::rlimit(100)]
pub fn dijkstra<T: CostStateSpace>(space: &T, init: u64, goal: u64) -> (r: Option<Vec<u64>>)
    ensures
        search_post(space, init, goal, r),
        r matches Some(p) ==> (forall|q: Seq<u64>|
            path_connects(space, q, init, goal) && path_cost(space, q) < u64::MAX as int
                ==> path_cost(space, p@) <= path_cost(space, q)),
{
    let mut queue = MinPrioriyQueue::new();
    let mut distances: HashMap<u64, u64> = HashMap::new();
    let mut parent_of_state: HashMap<u64, u64> = HashMap::new();
    let mut closed: HashSet<u64> = HashSet::new();
    let mut es: Ghost<Map<u64, int>> = Ghost(Map::empty().insert(init, 0));
    let mut ctr: Ghost<int> = Ghost(1);
    let mut disc: Ghost<Seq<u64>> = Ghost(Seq::empty().push(init));
    let ghost q0 = queue@;
    queue.enqueue(0, init);
    distances.insert(init, 0);
    proof {
        lemma_elems_push(q0, (0u64, init));
        lemma_push_contains(elems_of(q0), init);
        assert(elems_of(q0) =~= Seq::<u64>::empty());
        assert(elems_of(queue@).contains(init));
        lemma_push_contains(Seq::<u64>::empty(), init);
        assert(queue@[0] == (0u64, init));
        assert forall|x: u64| #[trigger] distances@.contains_key(x) && !closed@.contains(x)
            implies has_entry(queue@, distances@[x], x) by {
            assert(x == init);
            assert(queue@[0] == (distances@[x], x));
        }
        assert forall|i: int| 0 <= i < queue@.len() implies distances@.contains_key(
            (#[trigger] queue@[i]).1,
        ) && distances@[queue@[i].1] <= queue@[i].0 by {
            assert(queue@[i] == (0u64, init));
        }
    }
    while !queue.is_empty()
        invariant
            cost_inv(
                space,
                queue@,
                closed@,
                parent_of_state@,
                distances@,
                es@,
                ctr@,
                disc@,
                init,
                goal,
            ),
            dij_inv(space, queue@, closed@, parent_of_state@, distances@, init),
        decreases
                0x10000000000000000 - distances@.dom().len(),
                dist_total(disc@, distances@),
                queue@.len(),
    {
        let ghost qhead = queue@;
        let ghost dist_head = distances@;
        let ghost disc_head = disc@;
        let deq = queue.dequeue();
        let ghost mut i0: int = 0;
        proof {
            i0 = choose|i: int| dequeue_step(qhead, queue@, deq, i);
            assert(dequeue_step(qhead, queue@, deq, i0));
            assert(deq is Some);
        }
        let current = deq.unwrap();
        let ghost qmid = queue@;
        proof {
            assert(removed_min(qhead, queue@, current, i0));
            assert(elems_of(qhead)[i0] == current);
            assert(elems_of(qhead).contains(current));
            lemma_elems_remove(qhead, i0);
            lemma_remove_contains(elems_of(qhead), i0);
            assert(elems_of(qmid) =~= elems_of(qhead).remove(i0));
        }
        let ghost kmin: u64 = qhead[i0].0;
        proof {
            let k2 = lemma_dij_after_pop(
                space,
                qhead,
                qmid,
                closed@,
                parent_of_state@,
                distances@,
                init,
                i0,
                current,
            );
        }
        if current == goal {
            proof {
                assert forall|w: Seq<u64>| #[trigger]
                    path_connects(space, w, init, goal) implies distances@[goal] as int
                    <= path_cost(space, w) by {
                    lemma_dij_cut(
                        space,
                        qhead,
                        closed@,
                        parent_of_state@,
                        distances@,
                        init,
                        kmin,
                        goal,
                        w,
                    );
                }
            }
            let ghost msnap = parent_of_state@;
            let ghost dsnap = distances@;
            let result = found_path(
                space,
                parent_of_state,
                Ghost(int_vals(dsnap)),
                es,
                init,
                goal,
            );
            proof {
                let pseq = result.unwrap()@;
                assert forall|qq: Seq<u64>|
                    path_connects(space, qq, init, goal) && path_cost(space, qq) < u64::MAX
                        as int implies path_cost(space, pseq) <= path_cost(space, qq) by {
                    assert(dsnap[goal] as int <= path_cost(space, qq));
                    lemma_parent_chain_cost(space, msnap, dsnap, init, pseq, pseq.len() - 1);
                    assert(pseq.take(pseq.len() as int) =~= pseq);
                }
            }
            return result;
        }
        let current_dist = *distances.get(&current).unwrap();
        let neighbours = space.neighbours(current);
        proof {
            assert forall|w: Seq<u64>| #[trigger]
                path_connects(space, w, init, current) implies current_dist as int <= path_cost(
                space,
                w,
            ) by {
                if !closed@.contains(current) {
                    lemma_dij_cut(
                        space,
                        qhead,
                        closed@,
                        parent_of_state@,
                        distances@,
                        init,
                        kmin,
                        current,
                        w,
                    );
                }
            }
        }
        let ghost nv = neighbours@;
        let ghost mut es_g = es@;
        let ghost mut ctr_g = ctr@;
        let ghost mut disc_g = disc@;
        let ghost mut grew: bool = false;
        let ghost mut improved: bool = false;
        let mut idx: usize = 0;
        while idx < neighbours.len()
            invariant
                neighbours@ == nv,
                idx <= nv.len(),
                forall|t: u64| #[trigger] nv.contains(t) <==> space.edge(current, t),
                cost_mid(
                    space,
                    queue@,
                    closed@,
                    parent_of_state@,
                    distances@,
                    es_g,
                    ctr_g,
                    disc_g,
                    init,
                    goal,
                    current,
                ),
                dij_mid(space, queue@, closed@, parent_of_state@, distances@, init, current, kmin),
                !closed@.contains(current) ==> current_dist == kmin,
                current_dist <= kmin,
                forall|w: Seq<u64>| #[trigger] path_connects(space, w, init, current)
                    ==> current_dist as int <= path_cost(space, w),
                distances@.contains_key(current),
                current_dist == distances@[current],
                forall|j: int| 0 <= j < idx ==> distances@.contains_key(#[trigger] nv[j])
                    && distances@[nv[j]] as int <= current_dist as int + space.cost_spec(
                    current,
                    nv[j],
                ) as int,
                dist_head.dom() <= distances@.dom(),
                !grew && !improved ==> distances@ == dist_head && queue@ == qmid,
                !grew ==> distances@.dom() =~= dist_head.dom() && disc_g == disc_head,
                !grew && improved ==> dist_total(disc_g, distances@) < dist_total(
                    disc_head,
                    dist_head,
                ),
                grew ==> dist_head.dom().len() < distances@.dom().len(),
            decreases nv.len() - idx,
        {
            let neighbour = neighbours[idx];
            proof {
                assert(nv[idx as int] == neighbour);
                assert(nv.contains(neighbour));
            }
            let c = space.cost(current, neighbour);
            let d = if c <= u64::MAX - current_dist {
                current_dist + c
            } else {
                u64::MAX
            };
            if !distances.contains_key(&neighbour) {
                let ghost q_pre = queue@;
                let ghost m_pre = parent_of_state@;
                let ghost es_pre = es_g;
                let ghost dist_pre = distances@;
                let ghost disc_pre = disc_g;
                proof {
                    lemma_elems_push(q_pre, (d, neighbour));
                    lemma_push_contains(elems_of(q_pre), neighbour);
                    lemma_push_contains(disc_pre, neighbour);
                    assert(neighbour != init);
                    assert(neighbour != current);
                    assert(!m_pre.contains_key(neighbour));
                    lemma_dist_total_fresh(disc_pre, dist_pre, neighbour, d);
                    if closed@.contains(current) {
                        assert(space.edge(current, neighbour));
                        assert(dist_pre.contains_key(neighbour));
                    }
                    assert(!closed@.contains(current));
                    assert(!closed@.contains(neighbour));
                    assert(d >= kmin);
                }
                distances.insert(neighbour, d);
                queue.enqueue(d, neighbour);
                parent_of_state.insert(neighbour, current);
                proof {
                    es_g = es_pre.insert(neighbour, ctr_g);
                    ctr_g = ctr_g + 1;
                    disc_g = disc_pre.push(neighbour);
                    grew = true;
                    assert(elems_of(queue@) =~= elems_of(q_pre).push(neighbour));
                    assert(int_vals(distances@)[current] == dist_pre[current] as int);
                    assert(int_vals(distances@)[neighbour] == d as int);
                    assert(es_pre.contains_key(current));
                    assert(queue@[q_pre.len() as int] == (d, neighbour));
                    assert(has_entry(queue@, d, neighbour));
                    assert forall|x: u64| #[trigger]
                        distances@.contains_key(x) && !closed@.contains(x) && x
                        != current implies has_entry(queue@, distances@[x], x) by {
                        if x != neighbour {
                            assert(has_entry(q_pre, dist_pre[x], x));
                            lemma_entry_after_push(q_pre, (d, neighbour), (dist_pre[x], x));
                        }
                    }
                    assert forall|i: int| 0 <= i < queue@.len() implies distances@.contains_key(
                        (#[trigger] queue@[i]).1,
                    ) && distances@[queue@[i].1] <= queue@[i].0 && kmin <= queue@[i].0 by {
                        if i < q_pre.len() {
                            assert(queue@[i] == q_pre[i]);
                            assert(dist_pre.contains_key(q_pre[i].1));
                        } else {
                            assert(queue@[i] == (d, neighbour));
                        }
                    }
                    assert forall|ss: u64, t: u64|
                        closed@.contains(ss) && #[trigger] space.edge(ss, t) implies distances@
                        .contains_key(t) && distances@[t] as int <= distances@[ss] as int
                        + space.cost_spec(ss, t) as int by {
                        assert(dist_pre.contains_key(t));
                        assert(dist_pre.contains_key(ss));
                    }
                    assert forall|ss: u64, w: Seq<u64>|
                        closed@.contains(ss) && #[trigger] path_connects(space, w, init, ss)
                        implies distances@[ss] as int <= path_cost(space, w) by {
                        assert(dist_pre[ss] as int <= path_cost(space, w));
                        assert(dist_pre.contains_key(ss));
                    }
                    assert forall|k: u64| #[trigger]
                        parent_of_state@.contains_key(k) implies distances@.contains_key(k)
                        && distances@.contains_key(parent_of_state@[k]) && distances@[parent_of_state@[k]]
                        <= distances@[k] && (distances@[k] as int >= distances@[parent_of_state@[k]]
                        as int + space.cost_spec(parent_of_state@[k], k) as int || distances@[k]
                        == u64::MAX) by {
                        if k != neighbour {
                            assert(m_pre.contains_key(k));
                            assert(dist_pre.contains_key(m_pre[k]));
                        }
                    }
                    assert(ranked_link(parent_of_state@, int_vals(distances@), es_g, init, neighbour));
                    assert forall|k: u64| #[trigger]
                        parent_of_state@.contains_key(k) implies ranked_link(
                        parent_of_state@,
                        int_vals(distances@),
                        es_g,
                        init,
                        k,
                    ) by {
                        if k != neighbour {
                            assert(m_pre.contains_key(k));
                            assert(ranked_link(m_pre, int_vals(dist_pre), es_pre, init, k));
                            assert(m_pre[k] == init || dist_pre.contains_key(m_pre[k]));
                        }
                    }
                    assert forall|t: int, u: int| 0 <= t < u < disc_g.len() implies disc_g[t]
                        != disc_g[u] by {
                        if u == disc_g.len() - 1 {
                            assert(disc_g[t] == disc_pre[t]);
                            assert(disc_pre.contains(disc_pre[t]));
                        } else {
                            assert(disc_g[t] == disc_pre[t] && disc_g[u] == disc_pre[u]);
                        }
                    }
                }
            } else {
                let dn = *distances.get(&neighbour).unwrap();
                if d < dn {
                    let ghost q_pre = queue@;
                    let ghost m_pre = parent_of_state@;
                    let ghost es_pre = es_g;
                    let ghost dist_pre = distances@;
                    proof {
                        lemma_elems_push(q_pre, (d, neighbour));
                        lemma_push_contains(elems_of(q_pre), neighbour);
                        assert(neighbour != init);
                        assert(neighbour != current);
                        lemma_dist_total_update(disc_g, dist_pre, neighbour, d);
                        if closed@.contains(current) {
                            assert(space.edge(current, neighbour));
                            assert(dist_pre[neighbour] as int <= dist_pre[current] as int
                                + space.cost_spec(current, neighbour) as int);
                            assert(false);
                        }
                        if closed@.contains(neighbour) {
                            assert(dist_pre[neighbour] <= kmin);
                            assert(false);
                        }
                        assert(d >= kmin);
                    }
                    distances.insert(neighbour, d);
                    queue.enqueue(d, neighbour);
                    parent_of_state.insert(neighbour, current);
                    proof {
                        es_g = es_pre.insert(neighbour, ctr_g);
                        ctr_g = ctr_g + 1;
                        improved = true;
                        assert(elems_of(queue@) =~= elems_of(q_pre).push(neighbour));
                        assert(distances@.dom() =~= dist_pre.dom());
                        assert(int_vals(distances@)[current] == dist_pre[current] as int);
                        assert(int_vals(distances@)[neighbour] == d as int);
                        assert(es_pre.contains_key(current));
                        assert(queue@[q_pre.len() as int] == (d, neighbour));
                        assert(has_entry(queue@, d, neighbour));
                        assert forall|x: u64| #[trigger]
                            distances@.contains_key(x) && !closed@.contains(x) && x
                            != current implies has_entry(queue@, distances@[x], x) by {
                            if x != neighbour {
                                assert(has_entry(q_pre, dist_pre[x], x));
                                lemma_entry_after_push(q_pre, (d, neighbour), (dist_pre[x], x));
                            }
                        }
                        assert forall|i: int| 0 <= i < queue@.len() implies distances@
                            .contains_key((#[trigger] queue@[i]).1) && distances@[queue@[i].1]
                            <= queue@[i].0 && kmin <= queue@[i].0 by {
                            if i < q_pre.len() {
                                assert(queue@[i] == q_pre[i]);
                                assert(dist_pre.contains_key(q_pre[i].1));
                                assert(dist_pre[q_pre[i].1] <= q_pre[i].0);
                            } else {
                                assert(queue@[i] == (d, neighbour));
                            }
                        }
                        assert forall|ss: u64, t: u64|
                            closed@.contains(ss) && #[trigger] space.edge(ss, t) implies distances@
                            .contains_key(t) && distances@[t] as int <= distances@[ss] as int
                            + space.cost_spec(ss, t) as int by {
                            assert(dist_pre.contains_key(t) && dist_pre[t] as int
                                <= dist_pre[ss] as int + space.cost_spec(ss, t) as int);
                            assert(ss != neighbour);
                        }
                        assert forall|ss: u64| #[trigger]
                            closed@.contains(ss) implies distances@[ss] <= kmin by {
                            assert(ss != neighbour);
                            assert(dist_pre[ss] <= kmin);
                        }
                        assert forall|ss: u64, w: Seq<u64>|
                            closed@.contains(ss) && #[trigger] path_connects(space, w, init, ss)
                            implies distances@[ss] as int <= path_cost(space, w) by {
                            assert(dist_pre[ss] as int <= path_cost(space, w));
                            assert(ss != neighbour);
                        }
                        assert forall|k: u64| #[trigger]
                            parent_of_state@.contains_key(k) implies distances@.contains_key(k)
                            && distances@.contains_key(parent_of_state@[k])
                            && distances@[parent_of_state@[k]] <= distances@[k] && (distances@[k]
                            as int >= distances@[parent_of_state@[k]] as int + space.cost_spec(
                            parent_of_state@[k],
                            k,
                        ) as int || distances@[k] == u64::MAX) by {
                            if k != neighbour {
                                assert(m_pre.contains_key(k));
                                assert(dist_pre.contains_key(m_pre[k]));
                                if m_pre[k] == neighbour {
                                    assert(dist_pre[neighbour] <= dist_pre[k]);
                                }
                            }
                        }
                        assert(ranked_link(
                            parent_of_state@,
                            int_vals(distances@),
                            es_g,
                            init,
                            neighbour,
                        ));
                        assert forall|k: u64| #[trigger]
                            parent_of_state@.contains_key(k) implies ranked_link(
                            parent_of_state@,
                            int_vals(distances@),
                            es_g,
                            init,
                            k,
                        ) by {
                            if k != neighbour {
                                assert(m_pre.contains_key(k));
                                assert(ranked_link(m_pre, int_vals(dist_pre), es_pre, init, k));
                                assert(m_pre[k] == init || dist_pre.contains_key(m_pre[k]));
                                if m_pre[k] == neighbour {
                                    assert(int_vals(dist_pre)[neighbour] == dist_pre[neighbour]
                                        as int);
                                    assert(int_vals(distances@)[neighbour] == d as int);
                                }
                            }
                        }
                    }
                }
            }
            proof {
                assert(distances@.contains_key(neighbour));
                assert(distances@[neighbour] as int <= current_dist as int + space.cost_spec(
                    current,
                    neighbour,
                ) as int);
            }
            idx = idx + 1;
        }
        let ghost closed_pre = closed@;
        closed.insert(current);
        proof {
            assert forall|s: u64, t: u64|
                closed@.contains(s) && #[trigger] space.edge(s, t) implies distances@.contains_key(
                t,
            ) by {
                if s == current {
                    assert(nv.contains(t));
                    let j = choose|j: int| 0 <= j < nv.len() && nv[j] == t;
                } else {
                    assert(closed_pre.contains(s));
                }
            }
            assert forall|j: int| 0 <= j < nv.len() implies distances@.contains_key(
                #[trigger] nv[j],
            ) && distances@[nv[j]] as int <= distances@[current] as int + space.cost_spec(
                current,
                nv[j],
            ) as int by {}
            lemma_dij_close(
                space,
                queue@,
                closed_pre,
                parent_of_state@,
                distances@,
                init,
                current,
                kmin,
                nv,
            );
            assert(closed@ == closed_pre.insert(current));
        }
        let shown = queue.to_elements();
        space.display_progress(&init, &goal, &shown);
        es = Ghost(es_g);
        ctr = Ghost(ctr_g);
        disc = Ghost(disc_g);
        proof {
            lemma_u64_set_card(distances@.dom());
            vstd::set_lib::lemma_len_subset(dist_head.dom(), distances@.dom());
            lemma_dist_total_nonneg(disc@, distances@);
            if !grew {
                assert(distances@.dom().len() == dist_head.dom().len());
                if !improved {
                    assert(queue@.len() < qhead.len());
                }
            }
        }
    }
    proof {
        assert forall|x: u64| !(#[trigger] elems_of(queue@).contains(x)) by {
            if elems_of(queue@).contains(x) {
                let j = choose|j: int|
                    0 <= j < elems_of(queue@).len() && elems_of(queue@)[j] == x;
            }
        }
        assert(closed@.contains(init));
        assert forall|s: u64, t: u64|
            closed@.contains(s) && #[trigger] space.edge(s, t) implies closed@.contains(t) by {
            assert(distances@.contains_key(t));
        }
        lemma_closed_set_unreachable(space, closed@, init, goal);
    }
    None
}

/// The heuristic is consistent toward `goal`: it never overestimates
/// across an edge, and vanishes at the goal itself.  Under this hypothesis
/// the never-re-expand discipline of A* is optimal; mere admissibility is
/// not enough for it.
pub open spec fn consistent_heuristic<T: HeuristicStateSpace + ?Sized>(
    space: &T,
    goal: u64,
) -> bool {
    &&& forall|s: u64, t: u64| #[trigger] space.edge(s, t) ==> space.heuristic_spec(s, goal)
        as int <= space.cost_spec(s, t) as int + space.heuristic_spec(t, goal) as int
    &&& space.heuristic_spec(goal, goal) == 0
}

/// The sum of two keys, saturating at the largest key.
spec fn sat_add(a: u64, b: u64) -> u64 {
    if a as int + b as int <= u64::MAX as int {
        (a + b) as u64
    } else {
        u64::MAX
    }
}

/// The queue key A* files state `x` under: its recorded distance plus its
/// goal-distance estimate, saturated.
spec fn astar_key<T: HeuristicStateSpace + ?Sized>(
    space: &T,
    dist: Map<u64, u64>,
    x: u64,
    goal: u64,
) -> u64 {
    sat_add(dist[x], space.heuristic_spec(x, goal))
}

/// A prefix of a walk is itself a walk, to the state where it stops.
proof fn lemma_take_connects<T: StateSpace + ?Sized>(space: &T, w: Seq<u64>, init: u64, i: int)
    requires
        w.len() >= 1,
        w[0] == init,
        forall|t: int| 0 <= t < w.len() - 1 ==> #[trigger] space.edge(w[t], w[t + 1]),
        0 <= i < w.len(),
    ensures
        path_connects(space, w.take(i + 1), init, w[i]),
{
    assert forall|t: int| 0 <= t < w.take(i + 1).len() - 1 implies #[trigger] space.edge(
        w.take(i + 1)[t],
        w.take(i + 1)[t + 1],
    ) by {
        assert(w.take(i + 1)[t] == w[t] && w.take(i + 1)[t + 1] == w[t + 1]);
        let k = t;
        assert(space.edge(w[k], w[k + 1]));
    }
}

/// What, beyond `cost_inv`, A* keeps true at the top of each round whenever
/// the heuristic is consistent: every non-closed discovered state has a
/// live queue entry filed under its current key; no entry's key undercuts
/// its state's key; every *non-closed* neighbour of a closed state has been
/// relaxed through it (closed neighbours are skipped, never re-opened); a
/// closed state's distance undercuts the cost of every walk to it, except
/// walks whose cost plus the state's estimate leaves the key range; and
/// along predecessor links the distance grows by at least the edge cost,
/// except where the sum saturated.
spec fn astar_inv<T: HeuristicStateSpace + ?Sized>(
    space: &T,
    q: Seq<(u64, u64)>,
    closed: Set<u64>,
    m: Map<u64, u64>,
    dist: Map<u64, u64>,
    init: u64,
    goal: u64,
) -> bool {
    &&& forall|x: u64| #[trigger] dist.contains_key(x) && !closed.contains(x) ==> has_entry(
        q,
        astar_key(space, dist, x, goal),
        x,
    )
    &&& forall|i: int| 0 <= i < q.len() ==> dist.contains_key((#[trigger] q[i]).1) && astar_key(
        space,
        dist,
        q[i].1,
        goal,
    ) <= q[i].0
    &&& forall|s: u64, t: u64| closed.contains(s) && !closed.contains(t) && #[trigger] space.edge(
        s,
        t,
    ) ==> dist.contains_key(t) && dist[t] as int <= dist[s] as int + space.cost_spec(s, t) as int
    &&& forall|s: u64| #[trigger] closed.contains(s) ==> dist.contains_key(s)
    &&& forall|s: u64, w: Seq<u64>| closed.contains(s) && #[trigger] path_connects(space, w, init, s)
        ==> dist[s] as int <= path_cost(space, w) || path_cost(space, w) + space.heuristic_spec(
        s,
        goal,
    ) as int >= u64::MAX as int
    &&& forall|k: u64| #[trigger] m.contains_key(k) ==> dist.contains_key(k)
        && dist.contains_key(m[k]) && dist[m[k]] <= dist[k] && (dist[k] as int >= dist[m[k]] as int
        + space.cost_spec(m[k], k) as int || dist[k] == u64::MAX)
}

/// The same state in the middle of a round, once `current` has been taken
/// from the queue.
spec fn astar_mid<T: HeuristicStateSpace + ?Sized>(
    space: &T,
    q: Seq<(u64, u64)>,
    closed: Set<u64>,
    m: Map<u64, u64>,
    dist: Map<u64, u64>,
    init: u64,
    goal: u64,
    current: u64,
) -> bool {
    &&& forall|x: u64| #[trigger] dist.contains_key(x) && !closed.contains(x) && x != current
        ==> has_entry(q, astar_key(space, dist, x, goal), x)
    &&& forall|i: int| 0 <= i < q.len() ==> dist.contains_key((#[trigger] q[i]).1) && astar_key(
        space,
        dist,
        q[i].1,
        goal,
    ) <= q[i].0
    &&& forall|s: u64, t: u64| closed.contains(s) && !closed.contains(t) && #[trigger] space.edge(
        s,
        t,
    ) ==> dist.contains_key(t) && dist[t] as int <= dist[s] as int + space.cost_spec(s, t) as int
    &&& forall|s: u64| #[trigger] closed.contains(s) ==> dist.contains_key(s)
    &&& forall|s: u64, w: Seq<u64>| closed.contains(s) && #[trigger] path_connects(space, w, init, s)
        ==> dist[s] as int <= path_cost(space, w) || path_cost(space, w) + space.heuristic_spec(
        s,
        goal,
    ) as int >= u64::MAX as int
    &&& forall|k: u64| #[trigger] m.contains_key(k) ==> dist.contains_key(k)
        && dist.contains_key(m[k]) && dist[m[k]] <= dist[k] && (dist[k] as int >= dist[m[k]] as int
        + space.cost_spec(m[k], k) as int || dist[k] == u64::MAX)
}

/// The cut argument behind A*'s optimality, walked along a prefix of `w`
/// under a consistent heuristic.  Either the dequeued minimal key already
/// undercuts the prefix cost plus the estimate at its end — consistency
/// carries that bound across each further edge — or the prefix has stayed
/// inside the closed set, whose distances the relaxations bound, or the
/// prefix is already too expensive for the key range.
proof fn lemma_astar_cut_walk<T: HeuristicStateSpace + ?Sized>(
    space: &T,
    q: Seq<(u64, u64)>,
    closed: Set<u64>,
    m: Map<u64, u64>,
    dist: Map<u64, u64>,
    init: u64,
    goal: u64,
    kmin: u64,
    w: Seq<u64>,
    i: int,
)
    requires
        consistent_heuristic(space, goal),
        astar_inv(space, q, closed, m, dist, init, goal),
        dist.contains_key(init),
        dist[init] == 0,
        min_key_of(q, kmin),
        w.len() >= 1,
        w[0] == init,
        forall|t: int| 0 <= t < w.len() - 1 ==> #[trigger] space.edge(w[t], w[t + 1]),
        0 <= i < w.len(),
    ensures
        kmin as int <= path_cost(space, w.take(i + 1)) + space.heuristic_spec(w[i], goal) as int
            || (closed.contains(w[i]) && dist.contains_key(w[i]) && dist[w[i]] as int <= path_cost(
            space,
            w.take(i + 1),
        )) || path_cost(space, w.take(i + 1)) + space.heuristic_spec(w[i], goal) as int >= u64::MAX
            as int,
    decreases i,
{
    if i == 0 {
        assert(w.take(1).len() == 1);
        if !closed.contains(init) {
            assert(has_entry(q, astar_key(space, dist, init, goal), init));
            let j = choose|j: int|
                0 <= j < q.len() && q[j] == (astar_key(space, dist, init, goal), init);
            assert(kmin <= q[j].0);
        }
    } else {
        lemma_astar_cut_walk(space, q, closed, m, dist, init, goal, kmin, w, i - 1);
        lemma_path_cost_take_step(space, w, i);
        let k = i - 1;
        assert(space.edge(w[k], w[k + 1]));
        if closed.contains(w[k]) && dist[w[k]] as int <= path_cost(space, w.take(i)) {
            if closed.contains(w[i]) {
                lemma_take_connects(space, w, init, i);
                assert(path_connects(space, w.take(i + 1), init, w[i]));
            } else {
                assert(dist[w[i]] as int <= dist[w[k]] as int + space.cost_spec(w[k], w[i]) as int);
                assert(has_entry(q, astar_key(space, dist, w[i], goal), w[i]));
                let j = choose|j: int|
                    0 <= j < q.len() && q[j] == (astar_key(space, dist, w[i], goal), w[i]);
                assert(kmin <= q[j].0);
            }
        }
    }
}

/// Taking a minimal-key entry off the queue preserves A*'s invariant in
/// its mid-round form; a state not yet closed leaves the queue exactly at
/// its current key.
proof fn lemma_astar_after_pop<T: HeuristicStateSpace + ?Sized>(
    space: &T,
    qhead: Seq<(u64, u64)>,
    qmid: Seq<(u64, u64)>,
    closed: Set<u64>,
    m: Map<u64, u64>,
    dist: Map<u64, u64>,
    init: u64,
    goal: u64,
    i0: int,
    current: u64,
) -> (kmin: u64)
    requires
        astar_inv(space, qhead, closed, m, dist, init, goal),
        0 <= i0 < qhead.len(),
        qhead[i0].1 == current,
        min_key_of(qhead, qhead[i0].0),
        qmid == qhead.remove(i0),
    ensures
        kmin == qhead[i0].0,
        astar_mid(space, qmid, closed, m, dist, init, goal, current),
        dist.contains_key(current),
        astar_key(space, dist, current, goal) <= kmin,
        !closed.contains(current) ==> astar_key(space, dist, current, goal) == kmin,
{
    let kmin = qhead[i0].0;
    qhead.remove_ensures(i0);
    assert(dist.contains_key(current) && astar_key(space, dist, current, goal) <= kmin);
    if !closed.contains(current) {
        assert(has_entry(qhead, astar_key(space, dist, current, goal), current));
        let i = choose|i: int|
            0 <= i < qhead.len() && qhead[i] == (astar_key(space, dist, current, goal), current);
        assert(kmin <= qhead[i].0);
    }
    assert forall|x: u64| #[trigger] dist.contains_key(x) && !closed.contains(x) && x
        != current implies has_entry(qmid, astar_key(space, dist, x, goal), x) by {
        assert(has_entry(qhead, astar_key(space, dist, x, goal), x));
        lemma_entry_after_remove(qhead, i0, (astar_key(space, dist, x, goal), x));
    }
    assert forall|i: int| 0 <= i < qmid.len() implies dist.contains_key((#[trigger] qmid[i]).1)
        && astar_key(space, dist, qmid[i].1, goal) <= qmid[i].0 by {
        if i < i0 {
            assert(qmid[i] == qhead[i]);
        } else {
            assert(qmid[i] == qhead[i + 1]);
        }
    }
    kmin
}

/// Closing `current` restores A*'s invariant: its non-closed neighbours are
/// all relaxed, and — through the cut fact established when it was dequeued
/// — its distance undercuts the cost of every walk to it that stays inside
/// the key range.
proof fn lemma_astar_close<T: HeuristicStateSpace + ?Sized>(
    space: &T,
    q: Seq<(u64, u64)>,
    closed0: Set<u64>,
    m: Map<u64, u64>,
    dist: Map<u64, u64>,
    init: u64,
    goal: u64,
    current: u64,
    nv: Seq<u64>,
)
    requires
        astar_mid(space, q, closed0, m, dist, init, goal, current),
        !closed0.contains(current),
        forall|t: u64| #[trigger] nv.contains(t) <==> space.edge(current, t),
        forall|j: int| 0 <= j < nv.len() ==> closed0.contains(#[trigger] nv[j]) || nv[j] == current
            || (dist.contains_key(nv[j]) && dist[nv[j]] as int <= dist[current] as int
            + space.cost_spec(current, nv[j]) as int),
        dist.contains_key(current),
        forall|w: Seq<u64>| #[trigger] path_connects(space, w, init, current) ==> dist[current]
            as int <= path_cost(space, w) || path_cost(space, w) + space.heuristic_spec(
            current,
            goal,
        ) as int >= u64::MAX as int,
    ensures
        astar_inv(space, q, closed0.insert(current), m, dist, init, goal),
{
    let closed = closed0.insert(current);
    assert forall|s: u64, t: u64|
        closed.contains(s) && !closed.contains(t) && #[trigger] space.edge(s, t) implies dist
        .contains_key(t) && dist[t] as int <= dist[s] as int + space.cost_spec(s, t) as int by {
        if s == current {
            assert(nv.contains(t));
            let j = choose|j: int| 0 <= j < nv.len() && nv[j] == t;
        } else {
            assert(closed0.contains(s));
        }
    }
    assert forall|s: u64, w: Seq<u64>|
        closed.contains(s) && #[trigger] path_connects(space, w, init, s) implies dist[s]
        as int <= path_cost(space, w) || path_cost(space, w) + space.heuristic_spec(s, goal)
        as int >= u64::MAX as int by {
        if s != current {
            assert(closed0.contains(s));
        }
    }
}

/// A* search: the frontier is a minimum-priority queue keyed by the best
/// known distance from `init` plus the goal-distance estimate.  States
/// already expanded are never re-expanded, even if a cheaper route to them
/// turns up later — the behaviour expected under a consistent estimate.
#[verifier::rlimit(100)]
pub fn a_star<T: HeuristicStateSpace>(space: &T, init: u64, goal: u64) -> (r: Option<Vec<u64>>)
    ensures
        search_post(space, init, goal, r),
        consistent_heuristic(space, goal) ==> (r matches Some(p) ==> (forall|q: Seq<u64>|
            path_connects(space, q, init, goal) && path_cost(space, q) < u64::MAX as int
                ==> path_cost(space, p@) <= path_cost(space, q))),
{
    let mut open = MinPrioriyQueue::new();
    let mut distances: HashMap<u64, u64> = HashMap::new();
    let mut parent_of_state: HashMap<u64, u64> = HashMap::new();
    let mut closed: HashSet<u64> = HashSet::new();
    let mut es: Ghost<Map<u64, int>> = Ghost(Map::empty().insert(init, 0));
    let mut ctr: Ghost<int> = Ghost(1);
    let mut disc: Ghost<Seq<u64>> = Ghost(Seq::empty().push(init));
    let ghost q0 = open@;
    let h0 = space.heuristic(init, goal);
    open.enqueue(h0, init);
    distances.insert(init, 0);
    proof {
        lemma_elems_push(q0, (h0, init));
        lemma_push_contains(elems_of(q0), init);
        assert(elems_of(q0) =~= Seq::<u64>::empty());
        assert(elems_of(open@).contains(init));
        lemma_push_contains(Seq::<u64>::empty(), init);
        if consistent_heuristic(space, goal) {
            assert(astar_key(space, distances@, init, goal) == h0);
            assert(open@[0] == (h0, init));
            assert forall|x: u64| #[trigger] distances@.contains_key(x) && !closed@.contains(x)
                implies has_entry(open@, astar_key(space, distances@, x, goal), x) by {
                assert(x == init);
                assert(open@[0] == (astar_key(space, distances@, x, goal), x));
            }
            assert forall|i: int| 0 <= i < open@.len() implies distances@.contains_key(
                (#[trigger] open@[i]).1,
            ) && astar_key(space, distances@, open@[i].1, goal) <= open@[i].0 by {
                assert(open@[i] == (h0, init));
            }
        }
    }
    while !open.is_empty()
        invariant
            cost_inv(
                space,
                open@,
                closed@,
                parent_of_state@,
                distances@,
                es@,
                ctr@,
                disc@,
                init,
                goal,
            ),
            consistent_heuristic(space, goal) ==> astar_inv(
                space,
                open@,
                closed@,
                parent_of_state@,
                distances@,
                init,
                goal,
            ),
        decreases
                0x10000000000000000 - distances@.dom().len(),
                dist_total(disc@, distances@),
                open@.len(),
    {
        let ghost qhead = open@;
        let ghost dist_head = distances@;
        let ghost disc_head = disc@;
        let deq = open.dequeue();
        let ghost mut i0: int = 0;
        proof {
            i0 = choose|i: int| dequeue_step(qhead, open@, deq, i);
            assert(dequeue_step(qhead, open@, deq, i0));
            assert(deq is Some);
        }
        let current = deq.unwrap();
        let ghost qmid = open@;
        proof {
            assert(removed_min(qhead, open@, current, i0));
            assert(elems_of(qhead)[i0] == current);
            assert(elems_of(qhead).contains(current));
            lemma_elems_remove(qhead, i0);
            lemma_remove_contains(elems_of(qhead), i0);
            assert(elems_of(qmid) =~= elems_of(qhead).remove(i0));
        }
        let ghost kmin: u64 = qhead[i0].0;
        proof {
            if consistent_heuristic(space, goal) {
                let k2 = lemma_astar_after_pop(
                    space,
                    qhead,
                    qmid,
                    closed@,
                    parent_of_state@,
                    distances@,
                    init,
                    goal,
                    i0,
                    current,
                );
            }
        }
        if current == goal {
            proof {
                if consistent_heuristic(space, goal) {
                    assert(astar_key(space, distances@, goal, goal) == distances@[goal]);
                    assert forall|w: Seq<u64>| #[trigger]
                        path_connects(space, w, init, goal) && path_cost(space, w) < u64::MAX
                            as int implies distances@[goal] as int <= path_cost(space, w) by {
                        lemma_astar_cut_walk(
                            space,
                            qhead,
                            closed@,
                            parent_of_state@,
                            distances@,
                            init,
                            goal,
                            kmin,
                            w,
                            w.len() - 1,
                        );
                        assert(w.take(w.len() as int) =~= w);
                    }
                }
            }
            let ghost msnap = parent_of_state@;
            let ghost dsnap = distances@;
            let result = found_path(
                space,
                parent_of_state,
                Ghost(int_vals(dsnap)),
                es,
                init,
                goal,
            );
            proof {
                if consistent_heuristic(space, goal) {
                    let pseq = result.unwrap()@;
                    assert forall|qq: Seq<u64>|
                        path_connects(space, qq, init, goal) && path_cost(space, qq) < u64::MAX
                            as int implies path_cost(space, pseq) <= path_cost(space, qq) by {
                        assert(dsnap[goal] as int <= path_cost(space, qq));
                        lemma_parent_chain_cost(space, msnap, dsnap, init, pseq, pseq.len() - 1);
                        assert(pseq.take(pseq.len() as int) =~= pseq);
                    }
                }
            }
            return result;
        }
        let current_dist = *distances.get(&current).unwrap();
        let neighbours = space.neighbours(current);
        proof {
            if consistent_heuristic(space, goal) {
                assert forall|w: Seq<u64>| #[trigger]
                    path_connects(space, w, init, current) implies current_dist as int
                    <= path_cost(space, w) || path_cost(space, w) + space.heuristic_spec(
                    current,
                    goal,
                ) as int >= u64::MAX as int by {
                    if !closed@.contains(current) {
                        lemma_astar_cut_walk(
                            space,
                            qhead,
                            closed@,
                            parent_of_state@,
                            distances@,
                            init,
                            goal,
                            kmin,
                            w,
                            w.len() - 1,
                        );
                        assert(w.take(w.len() as int) =~= w);
                    }
                }
            }
        }
        let ghost nv = neighbours@;
        let ghost mut es_g = es@;
        let ghost mut ctr_g = ctr@;
        let ghost mut disc_g = disc@;
        let ghost mut grew: bool = false;
        let ghost mut improved: bool = false;
        let mut idx: usize = 0;
        while idx < neighbours.len()
            invariant
                neighbours@ == nv,
                idx <= nv.len(),
                forall|t: u64| #[trigger] nv.contains(t) <==> space.edge(current, t),
                cost_mid(
                    space,
                    open@,
                    closed@,
                    parent_of_state@,
                    distances@,
                    es_g,
                    ctr_g,
                    disc_g,
                    init,
                    goal,
                    current,
                ),
                consistent_heuristic(space, goal) ==> astar_mid(
                    space,
                    open@,
                    closed@,
                    parent_of_state@,
                    distances@,
                    init,
                    goal,
                    current,
                ),
                consistent_heuristic(space, goal) ==> (forall|w: Seq<u64>| #[trigger]
                    path_connects(space, w, init, current) ==> current_dist as int <= path_cost(
                    space,
                    w,
                ) || path_cost(space, w) + space.heuristic_spec(current, goal) as int >= u64::MAX
                    as int),
                distances@.contains_key(current),
                current_dist == distances@[current],
                forall|j: int| 0 <= j < idx ==> distances@.contains_key(#[trigger] nv[j]),
                forall|j: int| 0 <= j < idx ==> closed@.contains(#[trigger] nv[j]) || nv[j]
                    == current || (distances@.contains_key(nv[j]) && distances@[nv[j]] as int
                    <= current_dist as int + space.cost_spec(current, nv[j]) as int),
                dist_head.dom() <= distances@.dom(),
                !grew && !improved ==> distances@ == dist_head && open@ == qmid,
                !grew ==> distances@.dom() =~= dist_head.dom() && disc_g == disc_head,
                !grew && improved ==> dist_total(disc_g, distances@) < dist_total(
                    disc_head,
                    dist_head,
                ),
                grew ==> dist_head.dom().len() < distances@.dom().len(),
            decreases nv.len() - idx,
        {
            let neighbour = neighbours[idx];
            proof {
                assert(nv[idx as int] == neighbour);
                assert(nv.contains(neighbour));
            }
            if !closed.contains(&neighbour) && neighbour != current {
                let c = space.cost(current, neighbour);
                let d = if c <= u64::MAX - current_dist {
                    current_dist + c
                } else {
                    u64::MAX
                };
                let in_queue = open.contains(neighbour);
                let has_dist = distances.contains_key(&neighbour);
                if !in_queue || !has_dist || *distances.get(&neighbour).unwrap() > d {
                    let h = space.heuristic(neighbour, goal);
                    let key = if h <= u64::MAX - d {
                        d + h
                    } else {
                        u64::MAX
                    };
                    if !has_dist {
                        let ghost q_pre = open@;
                        let ghost m_pre = parent_of_state@;
                        let ghost es_pre = es_g;
                        let ghost dist_pre = distances@;
                        let ghost disc_pre = disc_g;
                        proof {
                            lemma_elems_push(q_pre, (key, neighbour));
                            lemma_push_contains(elems_of(q_pre), neighbour);
                            lemma_push_contains(disc_pre, neighbour);
                            assert(neighbour != init);
                            assert(!m_pre.contains_key(neighbour));
                            lemma_dist_total_fresh(disc_pre, dist_pre, neighbour, d);
                        }
                        distances.insert(neighbour, d);
                        parent_of_state.insert(neighbour, current);
                        open.enqueue(key, neighbour);
                        proof {
                            es_g = es_pre.insert(neighbour, ctr_g);
                            ctr_g = ctr_g + 1;
                            disc_g = disc_pre.push(neighbour);
                            grew = true;
                            assert(elems_of(open@) =~= elems_of(q_pre).push(neighbour));
                            assert(int_vals(distances@)[current] == dist_pre[current] as int);
                            assert(int_vals(distances@)[neighbour] == d as int);
                            assert(es_pre.contains_key(current));
                            assert(ranked_link(
                                parent_of_state@,
                                int_vals(distances@),
                                es_g,
                                init,
                                neighbour,
                            ));
                            assert forall|k: u64| #[trigger]
                                parent_of_state@.contains_key(k) implies ranked_link(
                                parent_of_state@,
                                int_vals(distances@),
                                es_g,
                                init,
                                k,
                            ) by {
                                if k != neighbour {
                                    assert(m_pre.contains_key(k));
                                    assert(ranked_link(m_pre, int_vals(dist_pre), es_pre, init, k));
                                    assert(m_pre[k] == init || dist_pre.contains_key(m_pre[k]));
                                }
                            }
                            assert forall|t: int, u: int|
                                0 <= t < u < disc_g.len() implies disc_g[t] != disc_g[u] by {
                                if u == disc_g.len() - 1 {
                                    assert(disc_g[t] == disc_pre[t]);
                                    assert(disc_pre.contains(disc_pre[t]));
                                } else {
                                    assert(disc_g[t] == disc_pre[t] && disc_g[u] == disc_pre[u]);
                                }
                            }
                            if consistent_heuristic(space, goal) {
                                assert(!closed@.contains(current));
                                assert(astar_key(space, distances@, neighbour, goal) == key);
                                assert(open@[q_pre.len() as int] == (key, neighbour));
                                assert(has_entry(open@, key, neighbour));
                                assert(d as int >= current_dist as int + c as int || d
                                    == u64::MAX);
                                assert forall|x: u64| #[trigger]
                                    distances@.contains_key(x) && !closed@.contains(x) && x
                                    != current implies has_entry(
                                    open@,
                                    astar_key(space, distances@, x, goal),
                                    x,
                                ) by {
                                    if x != neighbour {
                                        assert(has_entry(
                                            q_pre,
                                            astar_key(space, dist_pre, x, goal),
                                            x,
                                        ));
                                        lemma_entry_after_push(
                                            q_pre,
                                            (key, neighbour),
                                            (astar_key(space, dist_pre, x, goal), x),
                                        );
                                    }
                                }
                                assert forall|i: int| 0 <= i < open@.len() implies distances@
                                    .contains_key((#[trigger] open@[i]).1) && astar_key(
                                    space,
                                    distances@,
                                    open@[i].1,
                                    goal,
                                ) <= open@[i].0 by {
                                    if i < q_pre.len() {
                                        assert(open@[i] == q_pre[i]);
                                        assert(dist_pre.contains_key(q_pre[i].1));
                                    } else {
                                        assert(open@[i] == (key, neighbour));
                                    }
                                }
                                assert forall|ss: u64, t: u64|
                                    closed@.contains(ss) && !closed@.contains(t)
                                        && #[trigger] space.edge(ss, t) implies distances@
                                    .contains_key(t) && distances@[t] as int <= distances@[ss]
                                    as int + space.cost_spec(ss, t) as int by {
                                    assert(dist_pre.contains_key(t));
                                    assert(dist_pre.contains_key(ss));
                                }
                                assert forall|ss: u64, w: Seq<u64>|
                                    closed@.contains(ss) && #[trigger] path_connects(
                                    space,
                                    w,
                                    init,
                                    ss,
                                ) implies distances@[ss] as int <= path_cost(space, w)
                                    || path_cost(space, w) + space.heuristic_spec(ss, goal)
                                    as int >= u64::MAX as int by {
                                    assert(dist_pre.contains_key(ss));
                                    assert(dist_pre[ss] as int <= path_cost(space, w)
                                        || path_cost(space, w) + space.heuristic_spec(ss, goal)
                                        as int >= u64::MAX as int);
                                }
                                assert forall|k: u64| #[trigger]
                                    parent_of_state@.contains_key(k) implies distances@
                                    .contains_key(k) && distances@.contains_key(
                                    parent_of_state@[k],
                                ) && distances@[parent_of_state@[k]] <= distances@[k] && (
                                distances@[k] as int >= distances@[parent_of_state@[k]] as int
                                    + space.cost_spec(parent_of_state@[k], k) as int
                                    || distances@[k] == u64::MAX) by {
                                    if k != neighbour {
                                        assert(m_pre.contains_key(k));
                                        assert(dist_pre.contains_key(m_pre[k]));
                                    }
                                }
                            }
                        }
                    } else {
                        let ghost q_pre = open@;
                        let ghost m_pre = parent_of_state@;
                        let ghost es_pre = es_g;
                        let ghost dist_pre = distances@;
                        proof {
                            assert(elems_of(q_pre).contains(neighbour));
                            assert(in_queue);
                            assert(dist_pre[neighbour] > d);
                            lemma_elems_push(q_pre, (key, neighbour));
                            lemma_push_contains(elems_of(q_pre), neighbour);
                            assert(neighbour != init);
                            lemma_dist_total_update(disc_g, dist_pre, neighbour, d);
                        }
                        distances.insert(neighbour, d);
                        parent_of_state.insert(neighbour, current);
                        open.enqueue(key, neighbour);
                        proof {
                            es_g = es_pre.insert(neighbour, ctr_g);
                            ctr_g = ctr_g + 1;
                            improved = true;
                            assert(elems_of(open@) =~= elems_of(q_pre).push(neighbour));
                            assert(distances@.dom() =~= dist_pre.dom());
                            assert(int_vals(distances@)[current] == dist_pre[current] as int);
                            assert(int_vals(distances@)[neighbour] == d as int);
                            assert(es_pre.contains_key(current));
                            assert(ranked_link(
                                parent_of_state@,
                                int_vals(distances@),
                                es_g,
                                init,
                                neighbour,
                            ));
                            assert forall|k: u64| #[trigger]
                                parent_of_state@.contains_key(k) implies ranked_link(
                                parent_of_state@,
                                int_vals(distances@),
                                es_g,
                                init,
                                k,
                            ) by {
                                if k != neighbour {
                                    assert(m_pre.contains_key(k));
                                    assert(ranked_link(m_pre, int_vals(dist_pre), es_pre, init, k));
                                    assert(m_pre[k] == init || dist_pre.contains_key(m_pre[k]));
                                    if m_pre[k] == neighbour {
                                        assert(int_vals(dist_pre)[neighbour] == dist_pre[neighbour]
                                            as int);
                                        assert(int_vals(distances@)[neighbour] == d as int);
                                    }
                                }
                            }
                            if consistent_heuristic(space, goal) {
                                assert(!closed@.contains(current));
                                assert(astar_key(space, distances@, neighbour, goal) == key);
                                assert(astar_key(space, distances@, neighbour, goal) <= astar_key(
                                    space,
                                    dist_pre,
                                    neighbour,
                                    goal,
                                ));
                                assert(open@[q_pre.len() as int] == (key, neighbour));
                                assert(has_entry(open@, key, neighbour));
                                assert(d as int >= current_dist as int + c as int || d
                                    == u64::MAX);
                                assert forall|x: u64| #[trigger]
                                    distances@.contains_key(x) && !closed@.contains(x) && x
                                    != current implies has_entry(
                                    open@,
                                    astar_key(space, distances@, x, goal),
                                    x,
                                ) by {
                                    if x != neighbour {
                                        assert(has_entry(
                                            q_pre,
                                            astar_key(space, dist_pre, x, goal),
                                            x,
                                        ));
                                        lemma_entry_after_push(
                                            q_pre,
                                            (key, neighbour),
                                            (astar_key(space, dist_pre, x, goal), x),
                                        );
                                    }
                                }
                                assert forall|i: int| 0 <= i < open@.len() implies distances@
                                    .contains_key((#[trigger] open@[i]).1) && astar_key(
                                    space,
                                    distances@,
                                    open@[i].1,
                                    goal,
                                ) <= open@[i].0 by {
                                    if i < q_pre.len() {
                                        assert(open@[i] == q_pre[i]);
                                        assert(dist_pre.contains_key(q_pre[i].1));
                                        assert(astar_key(space, dist_pre, q_pre[i].1, goal)
                                            <= q_pre[i].0);
                                    } else {
                                        assert(open@[i] == (key, neighbour));
                                    }
                                }
                                assert forall|ss: u64, t: u64|
                                    closed@.contains(ss) && !closed@.contains(t)
                                        && #[trigger] space.edge(ss, t) implies distances@
                                    .contains_key(t) && distances@[t] as int <= distances@[ss]
                                    as int + space.cost_spec(ss, t) as int by {
                                    assert(dist_pre.contains_key(t) && dist_pre[t] as int
                                        <= dist_pre[ss] as int + space.cost_spec(ss, t) as int);
                                    assert(ss != neighbour);
                                }
                                assert forall|ss: u64, w: Seq<u64>|
                                    closed@.contains(ss) && #[trigger] path_connects(
                                    space,
                                    w,
                                    init,
                                    ss,
                                ) implies distances@[ss] as int <= path_cost(space, w)
                                    || path_cost(space, w) + space.heuristic_spec(ss, goal)
                                    as int >= u64::MAX as int by {
                                    assert(dist_pre[ss] as int <= path_cost(space, w)
                                        || path_cost(space, w) + space.heuristic_spec(ss, goal)
                                        as int >= u64::MAX as int);
                                    assert(ss != neighbour);
                                }
                                assert forall|k: u64| #[trigger]
                                    parent_of_state@.contains_key(k) implies distances@
                                    .contains_key(k) && distances@.contains_key(
                                    parent_of_state@[k],
                                ) && distances@[parent_of_state@[k]] <= distances@[k] && (
                                distances@[k] as int >= distances@[parent_of_state@[k]] as int
                                    + space.cost_spec(parent_of_state@[k], k) as int
                                    || distances@[k] == u64::MAX) by {
                                    if k != neighbour {
                                        assert(m_pre.contains_key(k));
                                        assert(dist_pre.contains_key(m_pre[k]));
                                        if m_pre[k] == neighbour {
                                            assert(dist_pre[neighbour] <= dist_pre[k]);
                                        }
                                    }
                                }
                            }
                        }
                    }
                }
            }
            proof {
                if !closed@.contains(neighbour) && neighbour != current {
                    assert(distances@.contains_key(neighbour));
                    assert(distances@[neighbour] as int <= current_dist as int + space.cost_spec(
                        current,
                        neighbour,
                    ) as int);
                }
            }
            idx = idx + 1;
        }
        let ghost closed_pre = closed@;
        closed.insert(current);
        proof {
            assert forall|s: u64, t: u64|
                closed@.contains(s) && #[trigger] space.edge(s, t) implies distances@.contains_key(
                t,
            ) by {
                if s == current {
                    assert(nv.contains(t));
                    let j = choose|j: int| 0 <= j < nv.len() && nv[j] == t;
                } else {
                    assert(closed_pre.contains(s));
                }
            }
            if consistent_heuristic(space, goal) {
                if closed_pre.contains(current) {
                    assert(closed@ =~= closed_pre);
                    assert(astar_inv(
                        space,
                        open@,
                        closed@,
                        parent_of_state@,
                        distances@,
                        init,
                        goal,
                    ));
                } else {
                    lemma_astar_close(
                        space,
                        open@,
                        closed_pre,
                        parent_of_state@,
                        distances@,
                        init,
                        goal,
                        current,
                        nv,
                    );
                    assert(closed@ == closed_pre.insert(current));
                }
            }
        }
        let shown = open.to_elements();
        space.display_progress(&init, &goal, &shown);
        es = Ghost(es_g);
        ctr = Ghost(ctr_g);
        disc = Ghost(disc_g);
        proof {
            lemma_u64_set_card(distances@.dom());
            vstd::set_lib::lemma_len_subset(dist_head.dom(), distances@.dom());
            lemma_dist_total_nonneg(disc@, distances@);
            if !grew {
                assert(distances@.dom().len() == dist_head.dom().len());
                if !improved {
                    assert(open@.len() < qhead.len());
                }
            }
        }
    }
    proof {
        assert forall|x: u64| !(#[trigger] elems_of(open@).contains(x)) by {
            if elems_of(open@).contains(x) {
                let j = choose|j: int|
                    0 <= j < elems_of(open@).len() && elems_of(open@)[j] == x;
            }
        }
        assert(closed@.contains(init));
        assert forall|s: u64, t: u64|
            closed@.contains(s) && #[trigger] space.edge(s, t) implies closed@.contains(t) by {
            assert(distances@.contains_key(t));
        }
        lemma_closed_set_unreachable(space, closed@, init, goal);
    }
    None
}

} // verus!
