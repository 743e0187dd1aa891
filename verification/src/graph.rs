//! Graph operations on the task DAG: reachability, cycle detection and the
//! cycle path, transitive dependencies, topological sort (Kahn's algorithm
//! with the lowest manual order first) and manual-order conflicts.
//!
//! An edge `Dependency { task_id: a, depends_on: b }` says that `a` depends on
//! `b`; paths follow edges from the dependent to its prerequisite.
use vstd::prelude::*;
use crate::error::Error;
use crate::models::{Dependency, Task};

verus! {

/// There is an edge from `a` to its prerequisite `b`.
pub open spec fn has_edge(deps: Seq<Dependency>, a: i64, b: i64) -> bool {
    exists|k: int| 0 <= k < deps.len() && deps[k].task_id == a && deps[k].depends_on == b
}

/// `p` is a non-empty walk along dependency edges.
pub open spec fn is_path(deps: Seq<Dependency>, p: Seq<i64>) -> bool {
    &&& p.len() > 0
    &&& forall|i: int| 0 <= i < p.len() - 1 ==> #[trigger] has_edge(deps, p[i], p[i + 1])
}

/// `b` can be reached from `a` by following zero or more dependency edges.
pub open spec fn reachable(deps: Seq<Dependency>, a: i64, b: i64) -> bool {
    exists|p: Seq<i64>| #[trigger] is_path(deps, p) && p[0] == a && p.last() == b
}

/// The ids that a walk from `root` can visit: the root and every
/// prerequisite named by an edge.
pub open spec fn universe(deps: Seq<Dependency>, root: i64) -> Seq<i64> {
    seq![root] + deps.map_values(|d: Dependency| d.depends_on)
}

/// `c` holds every prerequisite of each of its members.
pub open spec fn closed_under_edges(deps: Seq<Dependency>, c: Seq<i64>) -> bool {
    forall|k: int|
        0 <= k < deps.len() && c.contains(#[trigger] deps[k].task_id) ==> c.contains(
            deps[k].depends_on,
        )
}

pub proof fn lemma_reach_refl(deps: Seq<Dependency>, a: i64)
    ensures
        reachable(deps, a, a),
{
    let p = seq![a];
    assert(is_path(deps, p));
    assert(p[0] == a && p.last() == a);
}

pub proof fn lemma_reach_step(deps: Seq<Dependency>, a: i64, x: i64, k: int)
    requires
        reachable(deps, a, x),
        0 <= k < deps.len(),
        deps[k].task_id == x,
    ensures
        reachable(deps, a, deps[k].depends_on),
{
    let p = choose|p: Seq<i64>| is_path(deps, p) && p[0] == a && p.last() == x;
    let q = p.push(deps[k].depends_on);
    assert forall|i: int| 0 <= i < q.len() - 1 implies #[trigger] has_edge(deps, q[i], q[i + 1]) by {
        if i < p.len() - 1 {
            assert(q[i] == p[i] && q[i + 1] == p[i + 1]);
        } else {
            assert(q[i] == x);
        }
    }
    assert(is_path(deps, q));
    assert(q[0] == a && q.last() == deps[k].depends_on);
}

/// Every walk that starts inside an edge-closed set stays inside it.
pub proof fn lemma_closed_path(deps: Seq<Dependency>, c: Seq<i64>, p: Seq<i64>)
    requires
        closed_under_edges(deps, c),
        is_path(deps, p),
        c.contains(p[0]),
    ensures
        c.contains(p.last()),
    decreases p.len(),
{
    if p.len() > 1 {
        let q = p.drop_last();
        assert forall|i: int| 0 <= i < q.len() - 1 implies #[trigger] has_edge(deps, q[i], q[i + 1]) by {
            assert(has_edge(deps, p[i], p[i + 1]));
        }
        lemma_closed_path(deps, c, q);
        let j = p.len() - 2;
        assert(has_edge(deps, p[j], p[j + 1]));
        let k = choose|k: int|
            0 <= k < deps.len() && deps[k].task_id == p[p.len() - 2] && deps[k].depends_on == p[p.len()
                - 1];
        assert(c.contains(deps[k].task_id));
    }
}

pub proof fn lemma_closed_reach(deps: Seq<Dependency>, c: Seq<i64>, a: i64, b: i64)
    requires
        closed_under_edges(deps, c),
        c.contains(a),
        reachable(deps, a, b),
    ensures
        c.contains(b),
{
    let p = choose|p: Seq<i64>| is_path(deps, p) && p[0] == a && p.last() == b;
    lemma_closed_path(deps, c, p);
}

pub proof fn lemma_push_contains<A>(s: Seq<A>, e: A, x: A)
    ensures
        s.push(e).contains(x) <==> (s.contains(x) || x == e),
{
    if s.push(e).contains(x) {
        let i = choose|i: int| 0 <= i < s.push(e).len() && s.push(e)[i] == x;
        if i < s.len() {
            assert(s[i] == x);
        }
    }
    if s.contains(x) {
        let i = choose|i: int| 0 <= i < s.len() && s[i] == x;
        assert(s.push(e)[i] == x);
    }
    if x == e {
        assert(s.push(e)[s.len() as int] == e);
    }
}

/// A duplicate-free sequence drawn from `u` is no longer than `u`.
pub proof fn lemma_nodup_subset_len(s: Seq<i64>, u: Seq<i64>)
    requires
        s.no_duplicates(),
        forall|x: i64| s.contains(x) ==> u.contains(x),
    ensures
        s.len() <= u.len(),
{
    s.unique_seq_to_set();
    u.lemma_cardinality_of_set();
    assert(s.to_set().subset_of(u.to_set()));
    vstd::set_lib::lemma_len_subset(s.to_set(), u.to_set());
}

pub proof fn lemma_in_universe(deps: Seq<Dependency>, root: i64, k: int)
    requires
        0 <= k < deps.len(),
    ensures
        universe(deps, root).contains(deps[k].depends_on),
{
    let u = universe(deps, root);
    assert(u[k + 1] == deps[k].depends_on);
}

/// Whether `x` occurs in `v`.
pub fn contains_id(v: &Vec<i64>, x: i64) -> (r: bool)
    ensures
        r == v@.contains(x),
{
    let mut i: usize = 0;
    while i < v.len()
        invariant
            i <= v.len(),
            forall|j: int| 0 <= j < i ==> v@[j] != x,
        decreases v.len() - i,
    {
        if v[i] == x {
            return true;
        }
        i = i + 1;
    }
    false
}

/// Whether adding the edge `from` depends on `to` would close a cycle: true
/// exactly when `from` can already be reached from `to` (which includes
/// `from == to`).
pub fn would_create_cycle(from: i64, to: i64, deps: &[Dependency]) -> (r: bool)
    ensures
        r == reachable(deps@, to, from),
{
    if from == to {
        proof {
            lemma_reach_refl(deps@, to);
        }
        return true;
    }
    let ghost u = universe(deps@, to);
    let mut visited: Vec<i64> = Vec::new();
    let mut stack: Vec<i64> = Vec::new();
    stack.push(to);
    proof {
        lemma_reach_refl(deps@, to);
        assert(u[0] == to);
    }
    while stack.len() > 0
        invariant
            from != to,
            u == universe(deps@, to),
            visited@.no_duplicates(),
            forall|x: i64| #[trigger] visited@.contains(x) ==> u.contains(x) && reachable(deps@, to, x),
            forall|x: i64| #[trigger] stack@.contains(x) ==> u.contains(x) && reachable(deps@, to, x),
            !visited@.contains(from),
            visited@.contains(to) || (visited@.len() == 0 && stack@ == seq![to]),
            forall|k: int|
                0 <= k < deps@.len() && visited@.contains(#[trigger] deps@[k].task_id) ==> (
                visited@.contains(deps@[k].depends_on) || stack@.contains(deps@[k].depends_on)),
        decreases u.len() - visited@.len(), stack@.len(),
    {
        let ghost before_pop = stack@;
        let current = stack.pop().unwrap();
        let ghost popped = stack@;
        assert(before_pop =~= popped.push(current));
        assert(before_pop[popped.len() as int] == current);
        assert(before_pop.contains(current));
        assert forall|x: i64| #[trigger] popped.contains(x) implies before_pop.contains(x) by {
            lemma_push_contains(popped, current, x);
        }
        if current == from {
            return true;
        }
        if !contains_id(&visited, current) {
            let ghost old_visited = visited@;
            visited.push(current);
            proof {
                assert forall|x: i64| visited@.contains(x) implies u.contains(x) && reachable(
                    deps@,
                    to,
                    x,
                ) by {
                    lemma_push_contains(old_visited, current, x);
                }
                lemma_push_contains(old_visited, current, to);
                if !old_visited.contains(to) {
                    assert(before_pop == seq![to]);
                    assert(popped.len() == 0);
                    assert(current == to);
                }
                lemma_nodup_subset_len(visited@, u);
            }
            let mut k: usize = 0;
            while k < deps.len()
                invariant
                    from != to,
                    u == universe(deps@, to),
                    k <= deps@.len(),
                    visited@ == old_visited.push(current),
                    reachable(deps@, to, current),
                    stack@.len() >= popped.len(),
                    stack@.subrange(0, popped.len() as int) == popped,
                    forall|x: i64| #[trigger] stack@.contains(x) ==> u.contains(x) && reachable(deps@, to, x),
                    forall|j: int|
                        0 <= j < k && deps@[j].task_id == current ==> stack@.contains(
                            #[trigger] deps@[j].depends_on,
                        ),
                decreases deps@.len() - k,
            {
                if deps[k].task_id == current {
                    let ghost before = stack@;
                    stack.push(deps[k].depends_on);
                    proof {
                        lemma_in_universe(deps@, to, k as int);
                        lemma_reach_step(deps@, to, current, k as int);
                        assert forall|x: i64| stack@.contains(x) implies u.contains(x) && reachable(
                            deps@,
                            to,
                            x,
                        ) by {
                            lemma_push_contains(before, deps@[k as int].depends_on, x);
                            if x != deps@[k as int].depends_on {
                                assert(before.contains(x));
                            }
                        }
                        assert forall|j: int|
                            0 <= j < k + 1 && deps@[j].task_id == current implies stack@.contains(
                            #[trigger] deps@[j].depends_on,
                        ) by {
                            if j < k {
                                let i = choose|i: int|
                                    0 <= i < before.len() && before[i] == deps@[j].depends_on;
                                assert(stack@[i] == before[i]);
                            } else {
                                assert(stack@[stack@.len() - 1] == deps@[j].depends_on);
                            }
                        }
                        assert(stack@.subrange(0, popped.len() as int) =~= popped);
                    }
                }
                k = k + 1;
            }
            proof {
                assert forall|x: i64| popped.contains(x) implies stack@.contains(x) by {
                    let i = choose|i: int| 0 <= i < popped.len() && popped[i] == x;
                    assert(stack@.subrange(0, popped.len() as int)[i] == x);
                }
                assert forall|kk: int|
                    0 <= kk < deps@.len() && visited@.contains(
                        #[trigger] deps@[kk].task_id,
                    ) implies (visited@.contains(deps@[kk].depends_on) || stack@.contains(
                    deps@[kk].depends_on,
                )) by {
                    lemma_push_contains(old_visited, current, deps@[kk].task_id);
                    lemma_push_contains(old_visited, current, deps@[kk].depends_on);
                    if deps@[kk].task_id != current {
                        assert(old_visited.contains(deps@[kk].task_id));
                        let t = deps@[kk].depends_on;
                        if t != current && !old_visited.contains(t) {
                            assert(before_pop.contains(t));
                            lemma_push_contains(popped, current, t);
                            assert(popped.contains(t));
                        }
                    }
                }
            }
        } else {
            proof {
                assert forall|kk: int|
                    0 <= kk < deps@.len() && visited@.contains(
                        #[trigger] deps@[kk].task_id,
                    ) implies (visited@.contains(deps@[kk].depends_on) || stack@.contains(
                    deps@[kk].depends_on,
                )) by {
                    let t = deps@[kk].depends_on;
                    if t != current && !visited@.contains(t) {
                        assert(before_pop.contains(t));
                        lemma_push_contains(popped, current, t);
                        assert(popped.contains(t));
                    }
                }
            }
        }
    }
    proof {
        if reachable(deps@, to, from) {
            lemma_closed_reach(deps@, visited@, to, from);
        }
    }
    false
}


/// The value stored last for `key` in a list of (key, value) writes.
pub open spec fn pairs_lookup(pairs: Seq<(i64, i64)>, key: i64) -> Option<i64>
    decreases pairs.len(),
{
    if pairs.len() == 0 {
        None
    } else if pairs.last().0 == key {
        Some(pairs.last().1)
    } else {
        pairs_lookup(pairs.drop_last(), key)
    }
}

pub proof fn lemma_pairs_lookup_push(pairs: Seq<(i64, i64)>, p: (i64, i64), key: i64)
    ensures
        pairs_lookup(pairs.push(p), key) == (if p.0 == key {
            Some(p.1)
        } else {
            pairs_lookup(pairs, key)
        }),
{
    assert(pairs.push(p).drop_last() =~= pairs);
}

/// The value written last for `key`.
fn lookup_parent(pairs: &Vec<(i64, i64)>, key: i64) -> (r: Option<i64>)
    ensures
        r == pairs_lookup(pairs@, key),
{
    let mut i = pairs.len();
    assert(pairs@.take(pairs@.len() as int) =~= pairs@);
    while i > 0
        invariant
            i <= pairs@.len(),
            pairs_lookup(pairs@, key) == pairs_lookup(pairs@.take(i as int), key),
        decreases i,
    {
        let ghost t = pairs@.take(i as int);
        assert(t.drop_last() =~= pairs@.take(i - 1));
        if pairs[i - 1].0 == key {
            return Some(pairs[i - 1].1);
        }
        i = i - 1;
    }
    None
}

/// The position of `x` in a duplicate-free sequence.
pub open spec fn pos_of(s: Seq<i64>, x: i64) -> int {
    choose|i: int| 0 <= i < s.len() && s[i] == x
}

/// `p` closes a cycle for the new edge `from` depends on `to`: it reads
/// `[from, to, ..., from]`, each element after the first depending on the
/// next (`to` on the following id, and so on back to `from`); apart from its
/// closing element it repeats no task.
pub open spec fn is_cycle_path(deps: Seq<Dependency>, from: i64, to: i64, p: Seq<i64>) -> bool {
    &&& p.len() >= 3
    &&& p[0] == from
    &&& p[1] == to
    &&& p.last() == from
    &&& p.drop_last().no_duplicates()
    &&& forall|i: int| 1 <= i < p.len() - 1 ==> #[trigger] has_edge(deps, p[i], p[i + 1])
}

/// The state of the depth-first search for a cycle: the ids visited, the
/// parent recorded for each id pushed (later entries win), and the stack.
pub type SearchState = (Seq<i64>, Seq<(i64, i64)>, Seq<i64>);

/// Pushes, in edge order, each prerequisite of `current` named by the first
/// `k` edges that is not yet visited, recording `current` as its parent.
pub open spec fn push_prereqs(
    deps: Seq<Dependency>,
    current: i64,
    visited: Seq<i64>,
    parent: Seq<(i64, i64)>,
    stack: Seq<i64>,
    k: int,
) -> (Seq<(i64, i64)>, Seq<i64>)
    decreases k,
{
    if k <= 0 {
        (parent, stack)
    } else {
        let ps = push_prereqs(deps, current, visited, parent, stack, k - 1);
        let d = deps[k - 1];
        if d.task_id == current && !visited.contains(d.depends_on) {
            (ps.0.push((d.depends_on, current)), ps.1.push(d.depends_on))
        } else {
            ps
        }
    }
}

/// The search has stopped: the stack is empty, or `from` is on top.
pub open spec fn search_done(st: SearchState, from: i64) -> bool {
    st.2.len() == 0 || st.2.last() == from
}

/// One step of the search: pop an id; an id seen before is dropped, a new
/// one is visited and its unvisited prerequisites are pushed. A stopped
/// search stays as it is.
pub open spec fn search_step(deps: Seq<Dependency>, from: i64, st: SearchState) -> SearchState {
    if search_done(st, from) {
        st
    } else {
        let cur = st.2.last();
        let rest = st.2.drop_last();
        if st.0.contains(cur) {
            (st.0, st.1, rest)
        } else {
            let v = st.0.push(cur);
            let ps = push_prereqs(deps, cur, v, st.1, rest, deps.len() as int);
            (v, ps.0, ps.1)
        }
    }
}

/// The search after `n` steps from the stack holding `to` alone.
pub open spec fn search_state(deps: Seq<Dependency>, from: i64, to: i64, n: nat) -> SearchState
    decreases n,
{
    if n == 0 {
        (Seq::empty(), Seq::empty(), seq![to])
    } else {
        search_step(deps, from, search_state(deps, from, to, (n - 1) as nat))
    }
}

/// The state in which the search stops.
pub open spec fn search_end(deps: Seq<Dependency>, from: i64, to: i64) -> SearchState {
    search_state(deps, from, to, choose|n: nat| #[trigger] search_done(search_state(deps, from, to, n), from))
}

/// The walk from `node` along recorded parents until `to`, taking at most
/// `fuel` steps.
pub open spec fn parent_chain(parent: Seq<(i64, i64)>, node: i64, to: i64, fuel: nat) -> Seq<i64>
    decreases fuel,
{
    if node == to || fuel == 0 {
        seq![node]
    } else {
        match pairs_lookup(parent, node) {
            Some(q) => seq![node] + parent_chain(parent, q, to, (fuel - 1) as nat),
            None => seq![node],
        }
    }
}

/// The cycle `[from, to, ..., from]` read off a walk `[from, ..., to]` that
/// runs the other way.
pub open spec fn closing(from: i64, walk: Seq<i64>) -> Seq<i64> {
    seq![from] + walk.subrange(1, walk.len() as int).reverse() + seq![from]
}

/// The cycle that `find_cycle_path` reports: `[from, to]` for a self edge;
/// otherwise, once the search from `to` stops, none when the stack ran out,
/// else the walk from `from` back along the recorded parents to `to`,
/// turned round and closed.
pub open spec fn cycle_path_of(deps: Seq<Dependency>, from: i64, to: i64) -> Option<Seq<i64>> {
    if from == to {
        Some(seq![from, to])
    } else {
        let end = search_end(deps, from, to);
        if end.2.len() == 0 {
            None
        } else {
            Some(closing(from, parent_chain(end.1, from, to, end.0.len())))
        }
    }
}

proof fn lemma_search_stays(deps: Seq<Dependency>, from: i64, to: i64, n: nat, m: nat)
    requires
        search_done(search_state(deps, from, to, n), from),
        n <= m,
    ensures
        search_state(deps, from, to, m) == search_state(deps, from, to, n),
    decreases m - n,
{
    if m > n {
        lemma_search_stays(deps, from, to, n, (m - 1) as nat);
    }
}

proof fn lemma_search_end(deps: Seq<Dependency>, from: i64, to: i64, n: nat)
    requires
        search_done(search_state(deps, from, to, n), from),
    ensures
        search_end(deps, from, to) == search_state(deps, from, to, n),
{
    let m = choose|m: nat| #[trigger] search_done(search_state(deps, from, to, m), from);
    assert(search_done(search_state(deps, from, to, m), from));
    if m <= n {
        lemma_search_stays(deps, from, to, m, n);
    } else {
        lemma_search_stays(deps, from, to, n, m);
    }
}

/// Finds the cycle that adding the edge `from` depends on `to` would close.
///
/// `None` exactly when no cycle would be closed. When `from == to` the path is
/// `[from, to]`; otherwise it is the cycle path that a depth-first search
/// from `to` finds.
pub fn find_cycle_path(from: i64, to: i64, deps: &[Dependency]) -> (r: Option<Vec<i64>>)
    ensures
        r is Some <==> reachable(deps@, to, from),
        match r {
            Some(p) => cycle_path_of(deps@, from, to) == Some(p@),
            None => cycle_path_of(deps@, from, to) is None,
        },
        from == to ==> (r matches Some(p) && p@ == seq![from, to]),
        from != to ==> (r matches Some(p) ==> is_cycle_path(deps@, from, to, p@)),
{
    if from == to {
        proof {
            lemma_reach_refl(deps@, to);
        }
        let mut p = Vec::new();
        p.push(from);
        p.push(to);
        return Some(p);
    }
    let ghost u = universe(deps@, to);
    let mut visited: Vec<i64> = Vec::new();
    let mut parent: Vec<(i64, i64)> = Vec::new();
    let mut stack: Vec<i64> = Vec::new();
    stack.push(to);
    let ghost mut steps: nat = 0;
    proof {
        lemma_reach_refl(deps@, to);
        assert(u[0] == to);
        assert(visited@ =~= Seq::<i64>::empty());
        assert(parent@ =~= Seq::<(i64, i64)>::empty());
        assert(stack@ =~= seq![to]);
    }
    while stack.len() > 0
        invariant
            from != to,
            u == universe(deps@, to),
            (visited@, parent@, stack@) == search_state(deps@, from, to, steps),
            visited@.no_duplicates(),
            forall|x: i64| #[trigger] visited@.contains(x) ==> u.contains(x) && reachable(deps@, to, x),
            forall|x: i64| #[trigger] stack@.contains(x) ==> u.contains(x) && reachable(deps@, to, x),
            !visited@.contains(from),
            visited@.len() > 0 ==> visited@[0] == to,
            visited@.len() == 0 ==> stack@ == seq![to],
            forall|k: int|
                0 <= k < deps@.len() && visited@.contains(#[trigger] deps@[k].task_id) ==> (
                visited@.contains(deps@[k].depends_on) || stack@.contains(deps@[k].depends_on)),
            forall|x: i64| #[trigger]
                pairs_lookup(parent@, x) is Some ==> visited@.contains(pairs_lookup(parent@, x)->0)
                    && has_edge(deps@, pairs_lookup(parent@, x)->0, x) && x != to,
            forall|i: int, j: int|
                0 <= i < visited@.len() && 0 <= j < visited@.len() && pairs_lookup(
                    parent@,
                    #[trigger] visited@[i],
                ) == Some(#[trigger] visited@[j]) ==> j < i,
            forall|x: i64| #[trigger] stack@.contains(x) && x != to ==> pairs_lookup(parent@, x) is Some,
            forall|x: i64| #[trigger] visited@.contains(x) && x != to ==> pairs_lookup(parent@, x) is Some,
        decreases u.len() - visited@.len(), stack@.len(),
    {
        let ghost before_pop = stack@;
        let current = stack.pop().unwrap();
        let ghost popped = stack@;
        assert(before_pop =~= popped.push(current));
        assert(before_pop[popped.len() as int] == current);
        assert(before_pop.contains(current));
        assert forall|x: i64| #[trigger] popped.contains(x) implies before_pop.contains(x) by {
            lemma_push_contains(popped, current, x);
        }
        proof {
            assert(before_pop.last() == current);
            assert(before_pop.drop_last() =~= popped);
        }
        if current == from {
            proof {
                assert(search_done(search_state(deps@, from, to, steps), from));
                lemma_search_end(deps@, from, to, steps);
            }
            return Some(rebuild_cycle_path(from, to, deps, &visited, &parent));
        }
        if !contains_id(&visited, current) {
            let ghost old_visited = visited@;
            visited.push(current);
            proof {
                assert forall|x: i64| visited@.contains(x) implies u.contains(x) && reachable(
                    deps@,
                    to,
                    x,
                ) by {
                    lemma_push_contains(old_visited, current, x);
                }
                lemma_push_contains(old_visited, current, to);
                if old_visited.len() == 0 {
                    assert(popped.len() == 0);
                    assert(current == to);
                }
                assert(visited@[0] == to);
                lemma_nodup_subset_len(visited@, u);
                assert forall|x: i64| #[trigger]
                    pairs_lookup(parent@, x) is Some implies visited@.contains(
                        pairs_lookup(parent@, x)->0,
                    ) && has_edge(deps@, pairs_lookup(parent@, x)->0, x) && x != to by {
                    lemma_push_contains(old_visited, current, pairs_lookup(parent@, x)->0);
                }
                assert forall|x: i64| #[trigger] visited@.contains(x) && x != to implies pairs_lookup(
                    parent@,
                    x,
                ) is Some by {
                    lemma_push_contains(old_visited, current, x);
                }
                assert forall|i: int, j: int|
                    0 <= i < visited@.len() && 0 <= j < visited@.len() && pairs_lookup(
                        parent@,
                        #[trigger] visited@[i],
                    ) == Some(#[trigger] visited@[j]) implies j < i by {
                    if i == old_visited.len() {
                        if j == old_visited.len() {
                            assert(old_visited.contains(current));
                        }
                    } else {
                        assert(old_visited[i] == visited@[i]);
                        if j == old_visited.len() {
                            assert(old_visited.contains(current));
                        } else {
                            assert(old_visited[j] == visited@[j]);
                        }
                    }
                }
            }
            let ghost parent0 = parent@;
            let mut k: usize = 0;
            while k < deps.len()
                invariant
                    from != to,
                    u == universe(deps@, to),
                    (parent@, stack@) == push_prereqs(deps@, current, visited@, parent0, popped, k as int),
                    (old_visited, parent0, before_pop) == search_state(deps@, from, to, steps),
                    before_pop.last() == current,
                    before_pop.drop_last() == popped,
                    before_pop.len() > 0,
                    current != from,
                    !old_visited.contains(current),
                    k <= deps@.len(),
                    visited@ == old_visited.push(current),
                    visited@.no_duplicates(),
                    visited@.len() > 0,
                    visited@[0] == to,
                    !visited@.contains(from),
                    reachable(deps@, to, current),
                    stack@.len() >= popped.len(),
                    stack@.subrange(0, popped.len() as int) == popped,
                    forall|x: i64| #[trigger] stack@.contains(x) ==> u.contains(x) && reachable(deps@, to, x),
                    forall|j: int|
                        0 <= j < k && deps@[j].task_id == current ==> visited@.contains(
                            #[trigger] deps@[j].depends_on,
                        ) || stack@.contains(deps@[j].depends_on),
                    forall|x: i64| #[trigger]
                        pairs_lookup(parent@, x) is Some ==> visited@.contains(
                            pairs_lookup(parent@, x)->0,
                        ) && has_edge(deps@, pairs_lookup(parent@, x)->0, x) && x != to,
                    forall|i: int, j: int|
                        0 <= i < visited@.len() && 0 <= j < visited@.len() && pairs_lookup(
                            parent@,
                            #[trigger] visited@[i],
                        ) == Some(#[trigger] visited@[j]) ==> j < i,
                    forall|x: i64| #[trigger] stack@.contains(x) && x != to ==> pairs_lookup(parent@, x) is Some,
                    forall|x: i64| #[trigger] visited@.contains(x) && x != to ==> pairs_lookup(parent@, x) is Some,
                decreases deps@.len() - k,
            {
                if deps[k].task_id == current {
                    let prereq = deps[k].depends_on;
                    if !contains_id(&visited, prereq) {
                        let ghost before = stack@;
                        let ghost old_parent = parent@;
                        parent.push((prereq, current));
                        stack.push(prereq);
                        proof {
                            lemma_in_universe(deps@, to, k as int);
                            lemma_reach_step(deps@, to, current, k as int);
                            assert(visited@.contains(to));
                            assert(has_edge(deps@, current, prereq));
                            assert(visited@[visited@.len() - 1] == current);
                            assert forall|x: i64| #[trigger]
                                pairs_lookup(parent@, x) is Some implies visited@.contains(
                                    pairs_lookup(parent@, x)->0,
                                ) && has_edge(deps@, pairs_lookup(parent@, x)->0, x) && x != to by {
                                lemma_pairs_lookup_push(old_parent, (prereq, current), x);
                            }
                            assert forall|i: int, j: int|
                                0 <= i < visited@.len() && 0 <= j < visited@.len() && pairs_lookup(
                                    parent@,
                                    #[trigger] visited@[i],
                                ) == Some(#[trigger] visited@[j]) implies j < i by {
                                lemma_pairs_lookup_push(old_parent, (prereq, current), visited@[i]);
                                assert(visited@[i] != prereq);
                            }
                            assert forall|x: i64| #[trigger] stack@.contains(x) && x != to implies pairs_lookup(
                                parent@,
                                x,
                            ) is Some by {
                                lemma_pairs_lookup_push(old_parent, (prereq, current), x);
                                lemma_push_contains(before, prereq, x);
                            }
                            assert forall|x: i64| #[trigger] visited@.contains(x) && x != to implies pairs_lookup(
                                parent@,
                                x,
                            ) is Some by {
                                lemma_pairs_lookup_push(old_parent, (prereq, current), x);
                            }
                            assert forall|x: i64| #[trigger] stack@.contains(x) implies u.contains(x) && reachable(
                                deps@,
                                to,
                                x,
                            ) by {
                                lemma_push_contains(before, prereq, x);
                            }
                            assert forall|j: int|
                                0 <= j < k + 1 && deps@[j].task_id == current implies visited@.contains(
                                #[trigger] deps@[j].depends_on,
                            ) || stack@.contains(deps@[j].depends_on) by {
                                lemma_push_contains(before, prereq, deps@[j].depends_on);
                            }
                            assert(stack@.subrange(0, popped.len() as int) =~= popped);
                        }
                    }
                }
                k = k + 1;
            }
            proof {
                assert(search_step(deps@, from, search_state(deps@, from, to, steps)) == (visited@, parent@, stack@));
                steps = steps + 1;
                assert forall|x: i64| popped.contains(x) implies stack@.contains(x) by {
                    let i = choose|i: int| 0 <= i < popped.len() && popped[i] == x;
                    assert(stack@.subrange(0, popped.len() as int)[i] == x);
                }
                assert forall|kk: int|
                    0 <= kk < deps@.len() && visited@.contains(
                        #[trigger] deps@[kk].task_id,
                    ) implies (visited@.contains(deps@[kk].depends_on) || stack@.contains(
                    deps@[kk].depends_on,
                )) by {
                    lemma_push_contains(old_visited, current, deps@[kk].task_id);
                    lemma_push_contains(old_visited, current, deps@[kk].depends_on);
                    if deps@[kk].task_id != current {
                        let t = deps@[kk].depends_on;
                        if t != current && !old_visited.contains(t) {
                            assert(before_pop.contains(t));
                            lemma_push_contains(popped, current, t);
                            assert(popped.contains(t));
                        }
                    }
                }
            }
        } else {
            proof {
                assert(search_step(deps@, from, search_state(deps@, from, to, steps)) == (visited@, parent@, stack@));
                steps = steps + 1;
                assert forall|kk: int|
                    0 <= kk < deps@.len() && visited@.contains(
                        #[trigger] deps@[kk].task_id,
                    ) implies (visited@.contains(deps@[kk].depends_on) || stack@.contains(
                    deps@[kk].depends_on,
                )) by {
                    let t = deps@[kk].depends_on;
                    if t != current && !visited@.contains(t) {
                        assert(before_pop.contains(t));
                        lemma_push_contains(popped, current, t);
                        assert(popped.contains(t));
                    }
                }
            }
        }
    }
    proof {
        if reachable(deps@, to, from) {
            lemma_closed_reach(deps@, visited@, to, from);
        }
        lemma_search_end(deps@, from, to, steps);
    }
    None
}

proof fn lemma_chain_head(parent: Seq<(i64, i64)>, node: i64, to: i64, fuel: nat)
    ensures
        parent_chain(parent, node, to, fuel).len() >= 1,
        parent_chain(parent, node, to, fuel)[0] == node,
{
}

/// Follows the recorded parents from `from` back to `to` and closes the
/// cycle.
fn rebuild_cycle_path(
    from: i64,
    to: i64,
    deps: &[Dependency],
    visited: &Vec<i64>,
    parent: &Vec<(i64, i64)>,
) -> (p: Vec<i64>)
    requires
        from != to,
        visited@.no_duplicates(),
        !visited@.contains(from),
        visited@.len() > 0,
        visited@[0] == to,
        pairs_lookup(parent@, from) is Some,
        forall|x: i64| #[trigger]
            pairs_lookup(parent@, x) is Some ==> visited@.contains(pairs_lookup(parent@, x)->0)
                && has_edge(deps@, pairs_lookup(parent@, x)->0, x) && x != to,
        forall|i: int, j: int|
            0 <= i < visited@.len() && 0 <= j < visited@.len() && pairs_lookup(
                parent@,
                #[trigger] visited@[i],
            ) == Some(#[trigger] visited@[j]) ==> j < i,
        forall|x: i64| #[trigger] visited@.contains(x) && x != to ==> pairs_lookup(parent@, x) is Some,
    ensures
        is_cycle_path(deps@, from, to, p@),
        p@ == closing(from, parent_chain(parent@, from, to, visited@.len() as nat)),
{
    let mut path: Vec<i64> = Vec::new();
    path.push(from);
    let mut node = from;
    // positions in `visited` of path[1..]
    let ghost mut idxs: Seq<int> = Seq::empty();
    loop
        invariant_except_break
            node != to,
        invariant
            from != to,
            visited@.no_duplicates(),
            !visited@.contains(from),
            visited@.len() > 0,
            visited@[0] == to,
            pairs_lookup(parent@, from) is Some,
            forall|x: i64| #[trigger]
                pairs_lookup(parent@, x) is Some ==> visited@.contains(pairs_lookup(parent@, x)->0)
                    && has_edge(deps@, pairs_lookup(parent@, x)->0, x) && x != to,
            forall|i: int, j: int|
                0 <= i < visited@.len() && 0 <= j < visited@.len() && pairs_lookup(
                    parent@,
                    #[trigger] visited@[i],
                ) == Some(#[trigger] visited@[j]) ==> j < i,
            forall|x: i64| #[trigger] visited@.contains(x) && x != to ==> pairs_lookup(parent@, x) is Some,
            path@.len() >= 1,
            path@[0] == from,
            path@.last() == node,
            idxs.len() == path@.len() - 1,
            forall|i: int| 0 <= i < idxs.len() ==> 0 <= #[trigger] idxs[i] < visited@.len(),
            forall|i: int| 0 <= i < idxs.len() ==> path@[i + 1] == visited@[#[trigger] idxs[i]],
            forall|i: int, j: int| 0 <= i < j < idxs.len() ==> #[trigger] idxs[j] < #[trigger] idxs[i],
            forall|i: int| 0 <= i < idxs.len() ==> #[trigger] idxs[i] <= visited@.len() - 1 - i,
            path@.len() - 1 <= visited@.len(),
            path@ + parent_chain(parent@, node, to, (visited@.len() - (path@.len() - 1)) as nat).skip(1)
                == parent_chain(parent@, from, to, visited@.len() as nat),
            forall|i: int| 0 <= i < path@.len() - 1 ==> #[trigger] has_edge(deps@, path@[i + 1], path@[i]),
        ensures
            node == to,
            path@.len() >= 2,
        decreases (if idxs.len() == 0 {
            visited@.len() as int
        } else {
            idxs.last()
        }),
    {
        let ghost old_path = path@;
        let ghost old_idxs = idxs;
        let ghost node_idx: int = if idxs.len() == 0 {
            visited@.len() as int
        } else {
            idxs.last()
        };
        proof {
            if idxs.len() > 0 {
                assert(path@[idxs.len() as int] == visited@[idxs[idxs.len() - 1]]);
                assert(visited@.contains(node));
            }
        }
        let pn = lookup_parent(parent, node);
        let p = pn.unwrap();
        let ghost pj = pos_of(visited@, p);
        proof {
            assert(visited@.contains(p));
            assert(0 <= pj < visited@.len() && visited@[pj] == p);
            if idxs.len() > 0 {
                let ni = idxs.last();
                assert(visited@[ni] == node);
                assert(pairs_lookup(parent@, visited@[ni]) == Some(visited@[pj]));
            }
            assert(pj < node_idx);
        }
        let ghost fuel: nat = (visited@.len() - (old_path.len() - 1)) as nat;
        path.push(p);
        proof {
            idxs = idxs.push(pj);
            assert(pj <= visited@.len() - 1 - old_idxs.len()) by {
                if old_idxs.len() > 0 {
                    assert(old_idxs[old_idxs.len() - 1] <= visited@.len() - 1 - (old_idxs.len() - 1));
                }
            }
            assert(fuel >= 1);
            lemma_chain_head(parent@, p, to, (fuel - 1) as nat);
            assert(parent_chain(parent@, node, to, fuel) == seq![node] + parent_chain(
                parent@,
                p,
                to,
                (fuel - 1) as nat,
            ));
            assert(parent_chain(parent@, node, to, fuel).skip(1) =~= parent_chain(parent@, p, to, (fuel - 1) as nat));
            assert(path@ + parent_chain(parent@, p, to, (fuel - 1) as nat).skip(1) =~= old_path + parent_chain(
                parent@,
                p,
                to,
                (fuel - 1) as nat,
            ));
            assert forall|i: int| 0 <= i < idxs.len() implies #[trigger] idxs[i] <= visited@.len() - 1 - i by {
                if i < old_idxs.len() {
                    assert(idxs[i] == old_idxs[i]);
                }
            }
            assert forall|i: int| 0 <= i < path@.len() - 1 implies #[trigger] has_edge(
                deps@,
                path@[i + 1],
                path@[i],
            ) by {
                if i < old_path.len() - 1 {
                    assert(path@[i] == old_path[i] && path@[i + 1] == old_path[i + 1]);
                } else {
                    assert(path@[i] == node);
                }
            }
            assert forall|i: int| 0 <= i < idxs.len() implies path@[i + 1] == visited@[#[trigger] idxs[i]] by {
                if i < old_idxs.len() {
                    assert(path@[i + 1] == old_path[i + 1]);
                }
            }
            assert forall|i: int, j: int| 0 <= i < j < idxs.len() implies #[trigger] idxs[j] < #[trigger] idxs[i] by {
                if j == idxs.len() - 1 {
                    if i < old_idxs.len() {
                        assert(old_idxs[i] >= node_idx || old_idxs[i] == old_idxs.last());
                    }
                }
            }
        }
        node = p;
        if node == to {
            break;
        }
    }
    let ghost body = path@;
    proof {
        assert(parent_chain(parent@, to, to, (visited@.len() - (path@.len() - 1)) as nat) == seq![to]);
        assert(body + seq![to].skip(1) =~= body);
        assert forall|a: int, b: int| 0 <= a < b < body.len() implies body[a] != body[b] by {
            if a == 0 {
                assert(body[b] == visited@[idxs[b - 1]]);
                assert(visited@.contains(body[b]));
            } else {
                assert(body[a] == visited@[idxs[a - 1]]);
                assert(body[b] == visited@[idxs[b - 1]]);
                assert(idxs[b - 1] < idxs[a - 1]);
            }
        }
    }
    // The walk runs from `from` back to `to` along parents; the cycle is
    // written the other way: `from`, `to`, then down to `from` again.
    let mut out: Vec<i64> = Vec::new();
    out.push(from);
    let mut i = path.len();
    while i > 1
        invariant
            path@ == body,
            body.len() >= 2,
            1 <= i <= body.len(),
            out@.len() == 1 + body.len() - i,
            out@[0] == from,
            forall|k: int| 1 <= k < out@.len() ==> #[trigger] out@[k] == body[body.len() - k],
        decreases i,
    {
        out.push(path[i - 1]);
        i = i - 1;
    }
    out.push(from);
    proof {
        let n = body.len() as int;
        assert(out@ =~= closing(from, body));
        assert(out@.len() == n + 1);
        assert(out@[1] == body[n - 1]);
        assert forall|a: int, b: int| 0 <= a < b < out@.drop_last().len() implies out@.drop_last()[a]
            != out@.drop_last()[b] by {
            assert(out@.drop_last()[b] == body[n - b]);
            if a == 0 {
                assert(body[0] != body[n - b]);
            } else {
                assert(out@.drop_last()[a] == body[n - a]);
            }
        }
        assert forall|k: int| 1 <= k < out@.len() - 1 implies #[trigger] has_edge(
            deps@,
            out@[k],
            out@[k + 1],
        ) by {
            assert(out@[k] == body[n - k]);
            if k < n - 1 {
                assert(out@[k + 1] == body[n - k - 1]);
            } else {
                assert(out@[k + 1] == from);
            }
            assert(has_edge(deps@, body[(n - k - 1) + 1], body[n - k - 1]));
        }
    }
    out
}


/// How many entries of `stack` are already in `visited`.
pub open spec fn count_visited(stack: Seq<i64>, visited: Seq<i64>) -> nat
    decreases stack.len(),
{
    if stack.len() == 0 {
        0
    } else {
        count_visited(stack.drop_last(), visited) + (if visited.contains(stack.last()) {
            1nat
        } else {
            0nat
        })
    }
}

pub proof fn lemma_count_visited_push(stack: Seq<i64>, visited: Seq<i64>, x: i64)
    ensures
        count_visited(stack.push(x), visited) == count_visited(stack, visited) + (if visited.contains(
            x,
        ) {
            1nat
        } else {
            0nat
        }),
{
    assert(stack.push(x).drop_last() =~= stack);
}

/// The state of the walk for transitive prerequisites: the ids visited,
/// the ids collected, and the stack.
pub type PrereqWalk = (Seq<i64>, Seq<i64>, Seq<i64>);

/// One step of the walk from `root`: pop an id; a new one is visited and
/// collected unless it is `root`; then, whether new or not, its unvisited
/// prerequisites are pushed in edge order. An empty stack stays as it is.
pub open spec fn prereq_walk_step(deps: Seq<Dependency>, root: i64, st: PrereqWalk) -> PrereqWalk {
    if st.2.len() == 0 {
        st
    } else {
        let cur = st.2.last();
        let newly = !st.0.contains(cur);
        let v = if newly {
            st.0.push(cur)
        } else {
            st.0
        };
        let res = if newly && cur != root {
            st.1.push(cur)
        } else {
            st.1
        };
        (v, res, push_prereqs(deps, cur, v, Seq::empty(), st.2.drop_last(), deps.len() as int).1)
    }
}

/// The walk from `root` after `n` steps.
pub open spec fn prereq_walk(deps: Seq<Dependency>, root: i64, n: nat) -> PrereqWalk
    decreases n,
{
    if n == 0 {
        (Seq::empty(), Seq::empty(), seq![root])
    } else {
        prereq_walk_step(deps, root, prereq_walk(deps, root, (n - 1) as nat))
    }
}

/// The ids the walk from `root` collects, in the order it collects them,
/// once its stack is empty.
pub open spec fn prereqs_in_walk_order(deps: Seq<Dependency>, root: i64) -> Seq<i64> {
    prereq_walk(deps, root, choose|n: nat| #[trigger] prereq_walk(deps, root, n).2.len() == 0).1
}

proof fn lemma_prereq_walk_stays(deps: Seq<Dependency>, root: i64, n: nat, m: nat)
    requires
        prereq_walk(deps, root, n).2.len() == 0,
        n <= m,
    ensures
        prereq_walk(deps, root, m) == prereq_walk(deps, root, n),
    decreases m - n,
{
    if m > n {
        lemma_prereq_walk_stays(deps, root, n, (m - 1) as nat);
    }
}

proof fn lemma_prereqs_in_walk_order(deps: Seq<Dependency>, root: i64, n: nat)
    requires
        prereq_walk(deps, root, n).2.len() == 0,
    ensures
        prereqs_in_walk_order(deps, root) == prereq_walk(deps, root, n).1,
{
    let m = choose|m: nat| #[trigger] prereq_walk(deps, root, m).2.len() == 0;
    assert(prereq_walk(deps, root, m).2.len() == 0);
    if m <= n {
        lemma_prereq_walk_stays(deps, root, m, n);
    } else {
        lemma_prereq_walk_stays(deps, root, n, m);
    }
}

/// All tasks that `task_id` depends on, directly or indirectly (without
/// `task_id` itself), each once.
pub fn transitive_dependencies(task_id: i64, deps: &[Dependency]) -> (r: Vec<i64>)
    ensures
        r@ == prereqs_in_walk_order(deps@, task_id),
        r@.no_duplicates(),
        forall|x: i64| #[trigger]
            r@.contains(x) <==> (x != task_id && reachable(deps@, task_id, x)),
{
    let ghost u = universe(deps@, task_id);
    let mut visited: Vec<i64> = Vec::new();
    let mut result: Vec<i64> = Vec::new();
    let mut stack: Vec<i64> = Vec::new();
    stack.push(task_id);
    let ghost mut steps: nat = 0;
    proof {
        assert(visited@ =~= Seq::<i64>::empty());
        assert(result@ =~= Seq::<i64>::empty());
        assert(stack@ =~= seq![task_id]);
        lemma_reach_refl(deps@, task_id);
        assert(u[0] == task_id);
        assert(stack@.drop_last() =~= Seq::<i64>::empty());
    }
    while stack.len() > 0
        invariant
            u == universe(deps@, task_id),
            (visited@, result@, stack@) == prereq_walk(deps@, task_id, steps),
            visited@.no_duplicates(),
            result@.no_duplicates(),
            forall|x: i64| #[trigger]
                result@.contains(x) <==> (visited@.contains(x) && x != task_id),
            forall|x: i64| #[trigger] visited@.contains(x) ==> u.contains(x) && reachable(deps@, task_id, x),
            forall|x: i64| #[trigger] stack@.contains(x) ==> u.contains(x) && reachable(deps@, task_id, x),
            visited@.contains(task_id) || (visited@.len() == 0 && stack@ == seq![task_id]),
            forall|k: int|
                0 <= k < deps@.len() && visited@.contains(#[trigger] deps@[k].task_id) ==> (
                visited@.contains(deps@[k].depends_on) || stack@.contains(deps@[k].depends_on)),
        decreases u.len() - visited@.len(), count_visited(stack@, visited@),
    {
        let ghost before_pop = stack@;
        let ghost old_visited = visited@;
        let ghost old_count = count_visited(before_pop, old_visited);
        let current = stack.pop().unwrap();
        let ghost popped = stack@;
        assert(before_pop =~= popped.push(current));
        assert(before_pop[popped.len() as int] == current);
        assert(before_pop.contains(current));
        assert forall|x: i64| #[trigger] popped.contains(x) implies before_pop.contains(x) by {
            lemma_push_contains(popped, current, x);
        }
        proof {
            lemma_count_visited_push(popped, old_visited, current);
            assert(before_pop.last() == current);
            assert(before_pop.drop_last() =~= popped);
        }
        let ghost old_result = result@;
        let newly = !contains_id(&visited, current);
        if newly {
            visited.push(current);
            if current != task_id {
                let ghost old_result = result@;
                assert(!old_result.contains(current));
                result.push(current);
                proof {
                    assert forall|x: i64| #[trigger] result@.contains(x) <==> (visited@.contains(x)
                        && x != task_id) by {
                        lemma_push_contains(old_result, current, x);
                        lemma_push_contains(old_visited, current, x);
                    }
                }
            } else {
                proof {
                    assert forall|x: i64| #[trigger] result@.contains(x) <==> (visited@.contains(x)
                        && x != task_id) by {
                        lemma_push_contains(old_visited, current, x);
                    }
                }
            }
            proof {
                assert forall|x: i64| visited@.contains(x) implies u.contains(x) && reachable(
                    deps@,
                    task_id,
                    x,
                ) by {
                    lemma_push_contains(old_visited, current, x);
                }
                lemma_push_contains(old_visited, current, task_id);
                if old_visited.len() == 0 {
                    assert(popped.len() == 0);
                    assert(current == task_id);
                }
                lemma_nodup_subset_len(visited@, u);
                lemma_push_contains(old_visited, current, current);
            }
        }
        assert(visited@.contains(current));
        let ghost mid_visited = visited@;
        proof {
            assert(visited@ == (if !old_visited.contains(current) {
                old_visited.push(current)
            } else {
                old_visited
            }));
            assert(result@ == (if !old_visited.contains(current) && current != task_id {
                old_result.push(current)
            } else {
                old_result
            }));
        }
        let mut k: usize = 0;
        while k < deps.len()
            invariant
                u == universe(deps@, task_id),
                stack@ == push_prereqs(deps@, current, mid_visited, Seq::empty(), popped, k as int).1,
                k <= deps@.len(),
                visited@ == mid_visited,
                mid_visited.contains(current),
                reachable(deps@, task_id, current),
                stack@.len() >= popped.len(),
                stack@.subrange(0, popped.len() as int) == popped,
                count_visited(stack@, visited@) == count_visited(popped, visited@),
                forall|x: i64| #[trigger] stack@.contains(x) ==> u.contains(x) && reachable(deps@, task_id, x),
                forall|j: int|
                    0 <= j < k && deps@[j].task_id == current ==> visited@.contains(
                        #[trigger] deps@[j].depends_on,
                    ) || stack@.contains(deps@[j].depends_on),
            decreases deps@.len() - k,
        {
            if deps[k].task_id == current {
                let prereq = deps[k].depends_on;
                if !contains_id(&visited, prereq) {
                    let ghost before = stack@;
                    stack.push(prereq);
                    proof {
                        lemma_count_visited_push(before, visited@, prereq);
                        lemma_in_universe(deps@, task_id, k as int);
                        lemma_reach_step(deps@, task_id, current, k as int);
                        assert forall|x: i64| #[trigger] stack@.contains(x) implies u.contains(x)
                            && reachable(deps@, task_id, x) by {
                            lemma_push_contains(before, prereq, x);
                        }
                        assert forall|j: int|
                            0 <= j < k + 1 && deps@[j].task_id == current implies visited@.contains(
                            #[trigger] deps@[j].depends_on,
                        ) || stack@.contains(deps@[j].depends_on) by {
                            lemma_push_contains(before, prereq, deps@[j].depends_on);
                        }
                        assert(stack@.subrange(0, popped.len() as int) =~= popped);
                    }
                }
            }
            k = k + 1;
        }
        proof {
            assert(prereq_walk_step(deps@, task_id, prereq_walk(deps@, task_id, steps)) == (visited@, result@, stack@));
            steps = steps + 1;
            assert forall|x: i64| popped.contains(x) implies stack@.contains(x) by {
                let i = choose|i: int| 0 <= i < popped.len() && popped[i] == x;
                assert(stack@.subrange(0, popped.len() as int)[i] == x);
            }
            assert forall|kk: int|
                0 <= kk < deps@.len() && visited@.contains(
                    #[trigger] deps@[kk].task_id,
                ) implies (visited@.contains(deps@[kk].depends_on) || stack@.contains(
                deps@[kk].depends_on,
            )) by {
                lemma_push_contains(old_visited, current, deps@[kk].task_id);
                lemma_push_contains(old_visited, current, deps@[kk].depends_on);
                if deps@[kk].task_id != current {
                    assert(old_visited.contains(deps@[kk].task_id));
                    let t = deps@[kk].depends_on;
                    if t != current && !old_visited.contains(t) {
                        assert(before_pop.contains(t));
                        lemma_push_contains(popped, current, t);
                        assert(popped.contains(t));
                    }
                }
            }
            if !newly {
                assert(visited@ == old_visited);
                assert(count_visited(stack@, visited@) < old_count);
            }
        }
    }
    proof {
        assert forall|x: i64| #[trigger] result@.contains(x) <==> (x != task_id && reachable(
            deps@,
            task_id,
            x,
        )) by {
            if x != task_id && reachable(deps@, task_id, x) {
                lemma_closed_reach(deps@, visited@, task_id, x);
            }
        }
        lemma_prereqs_in_walk_order(deps@, task_id, steps);
    }
    result
}


/// The ids of a sequence of tasks.
pub open spec fn task_ids(tasks: Seq<Task>) -> Seq<i64> {
    tasks.map_values(|t: Task| t.id)
}

/// Every prerequisite of `id` is among `done`.
pub open spec fn ready(deps: Seq<Dependency>, done: Seq<i64>, id: i64) -> bool {
    forall|k: int|
        0 <= k < deps.len() && #[trigger] deps[k].task_id == id ==> done.contains(deps[k].depends_on)
}

/// `s` lists distinct tasks, each after all of its prerequisites.
pub open spec fn is_topo_prefix(tasks: Seq<Task>, deps: Seq<Dependency>, s: Seq<i64>) -> bool {
    &&& s.no_duplicates()
    &&& forall|i: int| 0 <= i < s.len() ==> task_ids(tasks).contains(#[trigger] s[i])
    &&& forall|i: int| 0 <= i < s.len() ==> ready(deps, s.take(i), #[trigger] s[i])
}

/// Some ordering of tasks that respects the dependencies reaches `id`.
pub open spec fn orderable(tasks: Seq<Task>, deps: Seq<Dependency>, id: i64) -> bool {
    exists|s: Seq<i64>| #[trigger] is_topo_prefix(tasks, deps, s) && s.contains(id)
}

/// `a` comes no later than `b` by manual order, ties broken by id.
pub open spec fn precedes(a: Task, b: Task) -> bool {
    a.manual_order < b.manual_order || (a.manual_order == b.manual_order && a.id <= b.id)
}

/// The number of edges among the first `m` whose dependent is `id` and whose
/// prerequisite is not in `done`.
pub open spec fn open_edges(deps: Seq<Dependency>, id: i64, done: Seq<i64>, m: int) -> nat
    decreases m,
{
    if m <= 0 {
        0
    } else {
        open_edges(deps, id, done, m - 1) + (if deps[m - 1].task_id == id && !done.contains(
            deps[m - 1].depends_on,
        ) {
            1nat
        } else {
            0nat
        })
    }
}

pub proof fn lemma_open_edges_mono(deps: Seq<Dependency>, id: i64, done: Seq<i64>, a: int, b: int)
    requires
        0 <= a <= b,
    ensures
        open_edges(deps, id, done, a) <= open_edges(deps, id, done, b),
    decreases b - a,
{
    if a < b {
        lemma_open_edges_mono(deps, id, done, a, b - 1);
    }
}

pub proof fn lemma_open_edges_zero(deps: Seq<Dependency>, id: i64, done: Seq<i64>, m: int)
    requires
        0 <= m <= deps.len(),
    ensures
        open_edges(deps, id, done, m) == 0 <==> forall|k: int|
            0 <= k < m && #[trigger] deps[k].task_id == id ==> done.contains(deps[k].depends_on),
    decreases m,
{
    if m > 0 {
        lemma_open_edges_zero(deps, id, done, m - 1);
    }
}

pub proof fn lemma_task_ids_index(tasks: Seq<Task>, i: int)
    requires
        0 <= i < tasks.len(),
    ensures
        task_ids(tasks)[i] == tasks[i].id,
        task_ids(tasks).contains(tasks[i].id),
{
    assert(task_ids(tasks)[i] == tasks[i].id);
}

/// Counts, for the task with id `id`, the edges whose prerequisite is not done.
fn count_open_edges(deps: &[Dependency], id: i64) -> (c: usize)
    ensures
        c == open_edges(deps@, id, Seq::<i64>::empty(), deps@.len() as int),
{
    let mut c: usize = 0;
    let mut k: usize = 0;
    while k < deps.len()
        invariant
            k <= deps@.len(),
            c == open_edges(deps@, id, Seq::<i64>::empty(), k as int),
            c <= k,
        decreases deps@.len() - k,
    {
        if deps[k].task_id == id {
            c = c + 1;
        }
        k = k + 1;
    }
    c
}

/// The index of the task with id `id`, if any.
pub(crate) fn find_index(tasks: &Vec<Task>, id: i64) -> (r: Option<usize>)
    requires
        task_ids(tasks@).no_duplicates(),
    ensures
        match r {
            Some(j) => j < tasks@.len() && tasks@[j as int].id == id,
            None => !task_ids(tasks@).contains(id),
        },
{
    let mut j: usize = 0;
    while j < tasks.len()
        invariant
            j <= tasks@.len(),
            forall|i: int| 0 <= i < j ==> tasks@[i].id != id,
        decreases tasks@.len() - j,
    {
        if tasks[j].id == id {
            return Some(j);
        }
        j = j + 1;
    }
    proof {
        if task_ids(tasks@).contains(id) {
            let i = choose|i: int| 0 <= i < task_ids(tasks@).len() && task_ids(tasks@)[i] == id;
            lemma_task_ids_index(tasks@, i);
        }
    }
    None
}

/// `res` orders `tasks` so that every task comes after its prerequisites,
/// taking at each step the ready task lowest in manual order (ties by id).
pub open spec fn topo_sorted(tasks: Seq<Task>, deps: Seq<Dependency>, res: Seq<Task>) -> bool {
    &&& res.len() == tasks.len()
    &&& forall|i: int| 0 <= i < res.len() ==> tasks.contains(#[trigger] res[i])
    &&& is_topo_prefix(tasks, deps, task_ids(res))
    &&& forall|m: int, j: int|
        0 <= m < res.len() && 0 <= j < tasks.len() && !task_ids(res).take(m).contains(tasks[j].id)
            && ready(deps, task_ids(res).take(m), tasks[j].id) ==> precedes(#[trigger] res[m], #[trigger] tasks[j])
}

/// Orders tasks so that every task comes after its prerequisites, choosing at
/// each step the ready task with the lowest manual order (ties by id).
///
/// A task is ready when every edge naming it as dependent has a prerequisite
/// already placed; an edge to a task outside `tasks` is never satisfied. When
/// some tasks can never be placed the result is `CycleDetected(a, b, ids)`
/// where `ids` lists exactly those tasks, `a` is the first and `b` the second
/// of them (0 when there is none).
pub fn topological_sort(tasks: Vec<Task>, deps: &[Dependency]) -> (r: Result<Vec<Task>, Error>)
    requires
        task_ids(tasks@).no_duplicates(),
    ensures
        match r {
            Ok(res) => topo_sorted(tasks@, deps@, res@),
            Err(Error::CycleDetected(a, b, ids)) => {
                &&& ids@.len() > 0
                &&& ids@.no_duplicates()
                &&& a == ids@[0]
                &&& b == (if ids@.len() > 1 {
                    ids@[1]
                } else {
                    0
                })
                &&& forall|x: i64| #[trigger]
                    ids@.contains(x) <==> (task_ids(tasks@).contains(x) && !orderable(
                        tasks@,
                        deps@,
                        x,
                    ))
            },
            Err(_) => false,
        },
{
    let n = tasks.len();
    let mut indeg: Vec<usize> = Vec::new();
    let mut done: Vec<bool> = Vec::new();
    let mut i: usize = 0;
    while i < n
        invariant
            n == tasks@.len(),
            i <= n,
            indeg@.len() == i,
            done@.len() == i,
            forall|j: int| 0 <= j < i ==> !#[trigger] done@[j],
            forall|j: int|
                0 <= j < i ==> #[trigger] indeg@[j] == open_edges(
                    deps@,
                    tasks@[j].id,
                    Seq::<i64>::empty(),
                    deps@.len() as int,
                ),
        decreases n - i,
    {
        let c = count_open_edges(deps, tasks[i].id);
        indeg.push(c);
        done.push(false);
        i = i + 1;
    }
    let mut result: Vec<Task> = Vec::new();
    let ghost mut order: Seq<int> = Seq::empty();
    assert(task_ids(result@) =~= Seq::<i64>::empty());
    loop
        invariant
            n == tasks@.len(),
            task_ids(tasks@).no_duplicates(),
            indeg@.len() == n,
            done@.len() == n,
            result@.len() == order.len(),
            result@.len() <= n,
            order.no_duplicates(),
            forall|m: int| 0 <= m < order.len() ==> 0 <= #[trigger] order[m] < n,
            forall|m: int| 0 <= m < order.len() ==> result@[m] == tasks@[#[trigger] order[m]],
            forall|j: int| 0 <= j < n ==> (#[trigger] done@[j] <==> order.contains(j)),
            forall|j: int|
                0 <= j < n ==> #[trigger] indeg@[j] == open_edges(
                    deps@,
                    tasks@[j].id,
                    task_ids(result@),
                    deps@.len() as int,
                ),
            is_topo_prefix(tasks@, deps@, task_ids(result@)),
            forall|m: int, j: int|
                0 <= m < result@.len() && 0 <= j < tasks@.len() && !task_ids(result@).take(
                    m,
                ).contains(tasks@[j].id) && ready(deps@, task_ids(result@).take(m), tasks@[j].id)
                    ==> precedes(#[trigger] result@[m], #[trigger] tasks@[j]),
        ensures
            forall|jj: int| 0 <= jj < n ==> #[trigger] done@[jj] || indeg@[jj] != 0,
        decreases n - result@.len(),
    {
        let ghost done_ids = task_ids(result@);
        proof {
            lemma_done_iff(tasks@, result@, order, done@);
        }
        // pick the ready task that comes first
        let mut best: Option<usize> = None;
        let mut j: usize = 0;
        while j < n
            invariant
                n == tasks@.len(),
                j <= n,
                indeg@.len() == n,
                done@.len() == n,
                match best {
                    Some(b) => b < j && !done@[b as int] && indeg@[b as int] == 0 && forall|jj: int|
                        0 <= jj < j && !done@[jj] && indeg@[jj] == 0 ==> precedes(
                            tasks@[b as int],
                            #[trigger] tasks@[jj],
                        ),
                    None => forall|jj: int| 0 <= jj < j ==> #[trigger] done@[jj] || indeg@[jj] != 0,
                },
            decreases n - j,
        {
            if !done[j] && indeg[j] == 0 {
                match best {
                    None => {
                        best = Some(j);
                    },
                    Some(b) => {
                        if tasks[j].manual_order < tasks[b].manual_order || (tasks[j].manual_order
                            == tasks[b].manual_order && tasks[j].id < tasks[b].id) {
                            best = Some(j);
                        }
                    },
                }
            }
            j = j + 1;
        }
        match best {
            None => {
                break;
            },
            Some(b) => {
                let chosen_id = tasks[b].id;
                let ghost old_result = result@;
                let ghost old_order = order;
                let ghost old_done = done@;
                proof {
                    lemma_open_edges_zero(deps@, chosen_id, done_ids, deps@.len() as int);
                    lemma_pick_keeps_greedy(tasks@, deps@, old_result, old_order, done@, indeg@, b as int);
                }
                done.set(b, true);
                result.push(tasks[b].clone());
                proof {
                    order = order.push(b as int);
                    lemma_pick_step(tasks@, deps@, old_result, result@, old_order, order, b as int);
                    assert forall|jj: int| 0 <= jj < n implies (#[trigger] done@[jj] <==> order.contains(
                        jj,
                    )) by {
                        lemma_push_contains(old_order, b as int, jj);
                    }
                    assert(!old_order.contains(b as int));
                    assert forall|x: int, y: int| 0 <= x < y < order.len() implies order[x] != order[y] by {
                        if y == old_order.len() {
                            assert(order[x] == old_order[x]);
                            assert(old_order.contains(order[x]));
                        } else {
                            assert(order[x] == old_order[x] && order[y] == old_order[y]);
                        }
                    }
                    lemma_nodup_range_len(order, n as int);
                }
                let ghost new_ids = task_ids(result@);
                // remove the chosen task's outgoing edges
                let mut k: usize = 0;
                while k < deps.len()
                    invariant
                        n == tasks@.len(),
                        task_ids(tasks@).no_duplicates(),
                        k <= deps@.len(),
                        indeg@.len() == n,
                        new_ids == done_ids.push(chosen_id),
                        !done_ids.contains(chosen_id),
                        forall|jj: int|
                            0 <= jj < n ==> #[trigger] indeg@[jj] == open_edges(
                                deps@,
                                tasks@[jj].id,
                                new_ids,
                                k as int,
                            ) + (open_edges(deps@, tasks@[jj].id, done_ids, deps@.len() as int)
                                - open_edges(deps@, tasks@[jj].id, done_ids, k as int)),
                    decreases deps@.len() - k,
                {
                    let ghost old_indeg = indeg@;
                    proof {
                        lemma_edge_step(tasks@, deps@, done_ids, chosen_id, k as int);
                    }
                    let dep_task = if deps[k].depends_on == chosen_id {
                        find_index(&tasks, deps[k].task_id)
                    } else {
                        None
                    };
                    match dep_task {
                        Some(jt) => {
                            proof {
                                lemma_open_edges_mono(
                                    deps@,
                                    tasks@[jt as int].id,
                                    done_ids,
                                    k + 1,
                                    deps@.len() as int,
                                );
                                assert(!done_ids.contains(chosen_id));
                            }
                            let d = indeg[jt] - 1;
                            indeg.set(jt, d);
                        },
                        None => {},
                    }
                    proof {
                        assert forall|jj: int| 0 <= jj < n implies #[trigger] indeg@[jj] == open_edges(
                            deps@,
                            tasks@[jj].id,
                            new_ids,
                            k + 1,
                        ) + (open_edges(deps@, tasks@[jj].id, done_ids, deps@.len() as int)
                            - open_edges(deps@, tasks@[jj].id, done_ids, k + 1)) by {
                            let id = tasks@[jj].id;
                            assert(open_edges(deps@, id, new_ids, k + 1) == open_edges(deps@, id, new_ids, k as int) + (if deps@[k as int].task_id == id && !new_ids.contains(deps@[k as int].depends_on) { 1nat } else { 0nat }));
                            assert(open_edges(deps@, id, done_ids, k + 1) == open_edges(deps@, id, done_ids, k as int) + (if deps@[k as int].task_id == id && !done_ids.contains(deps@[k as int].depends_on) { 1nat } else { 0nat }));
                            assert(new_ids.contains(deps@[k as int].depends_on) <==> (done_ids.contains(deps@[k as int].depends_on) || deps@[k as int].depends_on == chosen_id));
                            lemma_open_edges_mono(deps@, id, done_ids, k + 1, deps@.len() as int);
                            if deps@[k as int].depends_on == chosen_id && deps@[k as int].task_id == id {
                                lemma_task_ids_index(tasks@, jj);
                                match dep_task {
                                    Some(jt) => {
                                        lemma_task_ids_index(tasks@, jt as int);
                                        assert(jt == jj);
                                    },
                                    None => {},
                                }
                            }
                            match dep_task {
                                Some(jt) => {
                                    if jt != jj {
                                        assert(indeg@[jj] == old_indeg[jj]);
                                    }
                                },
                                None => {
                                    assert(indeg@[jj] == old_indeg[jj]);
                                },
                            }
                        }
                    }
                    k = k + 1;
                }
            },
        }
    }
    proof {
        lemma_done_iff(tasks@, result@, order, done@);
    }
    if result.len() == n {
        proof {
            assert forall|i: int| 0 <= i < result@.len() implies tasks@.contains(#[trigger] result@[i]) by {
                assert(result@[i] == tasks@[order[i]]);
            }
        }
        return Ok(result);
    }
    let mut ids: Vec<i64> = Vec::new();
    let mut j: usize = 0;
    while j < n
        invariant
            n == tasks@.len(),
            j <= n,
            done@.len() == n,
            task_ids(tasks@).no_duplicates(),
            ids@.no_duplicates(),
            forall|x: i64| #[trigger]
                ids@.contains(x) <==> exists|jj: int|
                    0 <= jj < j && !done@[jj] && #[trigger] tasks@[jj].id == x,
        decreases n - j,
    {
        if !done[j] {
            let ghost old_ids = ids@;
            proof {
                if old_ids.contains(tasks@[j as int].id) {
                    let jj = choose|jj: int| 0 <= jj < j && !done@[jj] && tasks@[jj].id == tasks@[j as int].id;
                    lemma_task_ids_index(tasks@, jj);
                    lemma_task_ids_index(tasks@, j as int);
                }
            }
            ids.push(tasks[j].id);
            proof {
                assert forall|x: i64| #[trigger]
                    ids@.contains(x) <==> exists|jj: int|
                        0 <= jj < j + 1 && !done@[jj] && #[trigger] tasks@[jj].id == x by {
                    lemma_push_contains(old_ids, tasks@[j as int].id, x);
                    if x == tasks@[j as int].id {
                        assert(0 <= j < j + 1 && !done@[j as int] && tasks@[j as int].id == x);
                    }
                }
            }
        } else {
            proof {
                assert forall|x: i64| #[trigger]
                    ids@.contains(x) <==> exists|jj: int|
                        0 <= jj < j + 1 && !done@[jj] && #[trigger] tasks@[jj].id == x by {
                    if exists|jj: int| 0 <= jj < j + 1 && !done@[jj] && #[trigger] tasks@[jj].id == x {
                        let jj = choose|jj: int| 0 <= jj < j + 1 && !done@[jj] && tasks@[jj].id == x;
                        assert(jj != j);
                    }
                }
            }
        }
        j = j + 1;
    }
    proof {
        lemma_stuck_unorderable(tasks@, deps@, result@, order, done@, indeg@, ids@);
    }
    let a = ids[0];
    let b = if ids.len() > 1 {
        ids[1]
    } else {
        0
    };
    Err(Error::CycleDetected(a, b, ids))
}

proof fn lemma_done_iff(tasks: Seq<Task>, result: Seq<Task>, order: Seq<int>, done: Seq<bool>)
    requires
        task_ids(tasks).no_duplicates(),
        done.len() == tasks.len(),
        result.len() == order.len(),
        forall|m: int| 0 <= m < order.len() ==> 0 <= #[trigger] order[m] < tasks.len(),
        forall|m: int| 0 <= m < order.len() ==> result[m] == tasks[#[trigger] order[m]],
        forall|j: int| 0 <= j < tasks.len() ==> (#[trigger] done[j] <==> order.contains(j)),
    ensures
        forall|j: int| 0 <= j < tasks.len() ==> (#[trigger] done[j] <==> task_ids(result).contains(tasks[j].id)),
{
    assert forall|j: int| 0 <= j < tasks.len() implies (#[trigger] done[j] <==> task_ids(result).contains(
        tasks[j].id,
    )) by {
        if done[j] {
            let m = choose|m: int| 0 <= m < order.len() && order[m] == j;
            assert(task_ids(result)[m] == result[m].id);
        }
        if task_ids(result).contains(tasks[j].id) {
            let m = choose|m: int| 0 <= m < task_ids(result).len() && task_ids(result)[m] == tasks[j].id;
            assert(task_ids(result)[m] == result[m].id);
            let jj = order[m];
            lemma_task_ids_index(tasks, jj);
            lemma_task_ids_index(tasks, j);
            assert(jj == j);
            assert(order.contains(j));
        }
    }
}

proof fn lemma_pick_keeps_greedy(
    tasks: Seq<Task>,
    deps: Seq<Dependency>,
    result: Seq<Task>,
    order: Seq<int>,
    done: Seq<bool>,
    indeg: Seq<usize>,
    b: int,
)
    requires
        task_ids(tasks).no_duplicates(),
        indeg.len() == tasks.len(),
        done.len() == tasks.len(),
        0 <= b < tasks.len(),
        !done[b],
        indeg[b] == 0,
        forall|j: int| 0 <= j < tasks.len() ==> (#[trigger] done[j] <==> task_ids(result).contains(tasks[j].id)),
        forall|j: int|
            0 <= j < tasks.len() ==> #[trigger] indeg[j] == open_edges(
                deps,
                tasks[j].id,
                task_ids(result),
                deps.len() as int,
            ),
        forall|jj: int|
            0 <= jj < tasks.len() && !done[jj] && indeg[jj] == 0 ==> precedes(tasks[b], #[trigger] tasks[jj]),
    ensures
        ready(deps, task_ids(result), tasks[b].id),
        !task_ids(result).contains(tasks[b].id),
        forall|j: int|
            0 <= j < tasks.len() && !task_ids(result).contains(tasks[j].id) && ready(
                deps,
                task_ids(result),
                tasks[j].id,
            ) ==> precedes(tasks[b], #[trigger] tasks[j]),
{
    lemma_open_edges_zero(deps, tasks[b].id, task_ids(result), deps.len() as int);
    assert forall|j: int|
        0 <= j < tasks.len() && !task_ids(result).contains(tasks[j].id) && ready(
            deps,
            task_ids(result),
            tasks[j].id,
        ) implies precedes(tasks[b], #[trigger] tasks[j]) by {
        lemma_open_edges_zero(deps, tasks[j].id, task_ids(result), deps.len() as int);
        assert(!done[j]);
        assert(indeg[j] == 0);
    }
}

proof fn lemma_take_push<A>(s: Seq<A>, x: A, m: int)
    requires
        0 <= m <= s.len(),
    ensures
        s.push(x).take(m) == s.take(m),
        s.push(x).take(s.len() as int) == s,
{
    assert(s.push(x).take(m) =~= s.take(m));
    assert(s.push(x).take(s.len() as int) =~= s);
}

proof fn lemma_pick_step(
    tasks: Seq<Task>,
    deps: Seq<Dependency>,
    old_result: Seq<Task>,
    result: Seq<Task>,
    old_order: Seq<int>,
    order: Seq<int>,
    b: int,
)
    requires
        task_ids(tasks).no_duplicates(),
        0 <= b < tasks.len(),
        result == old_result.push(tasks[b]),
        order == old_order.push(b),
        old_result.len() == old_order.len(),
        is_topo_prefix(tasks, deps, task_ids(old_result)),
        ready(deps, task_ids(old_result), tasks[b].id),
        !task_ids(old_result).contains(tasks[b].id),
        forall|j: int|
            0 <= j < tasks.len() && !task_ids(old_result).contains(tasks[j].id) && ready(
                deps,
                task_ids(old_result),
                tasks[j].id,
            ) ==> precedes(tasks[b], #[trigger] tasks[j]),
        forall|m: int, j: int|
            0 <= m < old_result.len() && 0 <= j < tasks.len() && !task_ids(old_result).take(
                m,
            ).contains(tasks[j].id) && ready(deps, task_ids(old_result).take(m), tasks[j].id)
                ==> precedes(#[trigger] old_result[m], #[trigger] tasks[j]),
    ensures
        task_ids(result) == task_ids(old_result).push(tasks[b].id),
        is_topo_prefix(tasks, deps, task_ids(result)),
        forall|m: int, j: int|
            0 <= m < result.len() && 0 <= j < tasks.len() && !task_ids(result).take(m).contains(
                tasks[j].id,
            ) && ready(deps, task_ids(result).take(m), tasks[j].id) ==> precedes(
                #[trigger] result[m],
                #[trigger] tasks[j],
            ),
{
    let old_ids = task_ids(old_result);
    let ids = task_ids(result);
    assert(ids =~= old_ids.push(tasks[b].id));
    lemma_task_ids_index(tasks, b);
    assert forall|i: int| 0 <= i < ids.len() implies task_ids(tasks).contains(#[trigger] ids[i]) by {
        if i < old_ids.len() {
            assert(ids[i] == old_ids[i]);
        }
    }
    assert forall|i: int| 0 <= i < ids.len() implies ready(deps, ids.take(i), #[trigger] ids[i]) by {
        lemma_take_push(old_ids, tasks[b].id, i);
        if i < old_ids.len() {
            assert(ids[i] == old_ids[i]);
        }
    }
    assert forall|a: int, c: int| 0 <= a < c < ids.len() implies ids[a] != ids[c] by {
        if c == old_ids.len() {
            assert(ids[a] == old_ids[a]);
        } else {
            assert(ids[a] == old_ids[a] && ids[c] == old_ids[c]);
        }
    }
    assert forall|m: int, j: int|
        0 <= m < result.len() && 0 <= j < tasks.len() && !ids.take(m).contains(tasks[j].id) && ready(
            deps,
            ids.take(m),
            tasks[j].id,
        ) implies precedes(#[trigger] result[m], #[trigger] tasks[j]) by {
        lemma_take_push(old_ids, tasks[b].id, m);
        if m < old_result.len() {
            assert(result[m] == old_result[m]);
        }
    }
}

proof fn lemma_edge_step(tasks: Seq<Task>, deps: Seq<Dependency>, done: Seq<i64>, chosen: i64, k: int)
    requires
        0 <= k < deps.len(),
        !done.contains(chosen),
    ensures
        forall|id: i64|
            #[trigger] open_edges(deps, id, done.push(chosen), k + 1) == open_edges(
                deps,
                id,
                done.push(chosen),
                k,
            ) + (if deps[k].task_id == id && !done.push(chosen).contains(deps[k].depends_on) {
                1nat
            } else {
                0nat
            }),
        forall|id: i64|
            #[trigger] open_edges(deps, id, done, k + 1) == open_edges(deps, id, done, k) + (if deps[k].task_id
                == id && !done.contains(deps[k].depends_on) {
                1nat
            } else {
                0nat
            }),
        forall|x: i64| #[trigger] done.push(chosen).contains(x) <==> (done.contains(x) || x == chosen),
{
    assert forall|x: i64| #[trigger] done.push(chosen).contains(x) <==> (done.contains(x) || x == chosen) by {
        lemma_push_contains(done, chosen, x);
    }
}

proof fn lemma_stuck_unorderable(
    tasks: Seq<Task>,
    deps: Seq<Dependency>,
    result: Seq<Task>,
    order: Seq<int>,
    done: Seq<bool>,
    indeg: Seq<usize>,
    ids: Seq<i64>,
)
    requires
        task_ids(tasks).no_duplicates(),
        indeg.len() == tasks.len(),
        done.len() == tasks.len(),
        result.len() < tasks.len(),
        result.len() == order.len(),
        forall|m: int| 0 <= m < order.len() ==> 0 <= #[trigger] order[m] < tasks.len(),
        forall|m: int| 0 <= m < order.len() ==> result[m] == tasks[#[trigger] order[m]],
        forall|j: int| 0 <= j < tasks.len() ==> (#[trigger] done[j] <==> order.contains(j)),
        forall|j: int| 0 <= j < tasks.len() ==> (#[trigger] done[j] <==> task_ids(result).contains(tasks[j].id)),
        forall|j: int|
            0 <= j < tasks.len() ==> #[trigger] indeg[j] == open_edges(
                deps,
                tasks[j].id,
                task_ids(result),
                deps.len() as int,
            ),
        forall|jj: int| 0 <= jj < tasks.len() ==> #[trigger] done[jj] || indeg[jj] != 0,
        is_topo_prefix(tasks, deps, task_ids(result)),
        ids.no_duplicates(),
        forall|x: i64| #[trigger]
            ids.contains(x) <==> exists|jj: int| 0 <= jj < tasks.len() && !done[jj] && #[trigger] tasks[jj].id == x,
    ensures
        ids.len() > 0,
        forall|x: i64| #[trigger]
            ids.contains(x) <==> (task_ids(tasks).contains(x) && !orderable(tasks, deps, x)),
{
    let done_ids = task_ids(result);
    // some task is not done: the order does not cover every index
    assert(ids.len() > 0) by {
        if forall|jj: int| 0 <= jj < tasks.len() ==> #[trigger] done[jj] {
            let dn = order.to_set();
            assert forall|jj: int| 0 <= jj < tasks.len() implies dn.contains(jj) by {
                assert(done[jj]);
            }
            assert(Set::new(|jj: int| 0 <= jj < tasks.len()).subset_of(dn));
            order.lemma_cardinality_of_set();
            lemma_range_set_len(tasks.len() as int);
            vstd::set_lib::lemma_len_subset(Set::new(|jj: int| 0 <= jj < tasks.len()), dn);
            assert(false);
        }
        let jj = choose|jj: int| 0 <= jj < tasks.len() && !done[jj];
        assert(ids.contains(tasks[jj].id));
    }
    assert forall|x: i64| #[trigger]
        ids.contains(x) <==> (task_ids(tasks).contains(x) && !orderable(tasks, deps, x)) by {
        if ids.contains(x) {
            let jj = choose|jj: int| 0 <= jj < tasks.len() && !done[jj] && #[trigger] tasks[jj].id == x;
            lemma_task_ids_index(tasks, jj);
            if orderable(tasks, deps, x) {
                let s = choose|s: Seq<i64>| #[trigger] is_topo_prefix(tasks, deps, s) && s.contains(x);
                lemma_prefix_within_done(tasks, deps, done, indeg, done_ids, s);
                assert(done_ids.contains(x));
                assert(done[jj]);
            }
        } else {
            if task_ids(tasks).contains(x) {
                let i = choose|i: int| 0 <= i < task_ids(tasks).len() && task_ids(tasks)[i] == x;
                lemma_task_ids_index(tasks, i);
                if !done[i] {
                    assert(ids.contains(x));
                }
                assert(done_ids.contains(x));
                assert(is_topo_prefix(tasks, deps, done_ids));
            }
        }
    }
}

proof fn lemma_nodup_range_len(order: Seq<int>, n: int)
    requires
        n >= 0,
        order.no_duplicates(),
        forall|m: int| 0 <= m < order.len() ==> 0 <= #[trigger] order[m] < n,
    ensures
        order.len() <= n,
{
    order.unique_seq_to_set();
    lemma_range_set_len(n);
    assert(order.to_set().subset_of(Set::new(|jj: int| 0 <= jj < n)));
    vstd::set_lib::lemma_len_subset(order.to_set(), Set::new(|jj: int| 0 <= jj < n));
}

proof fn lemma_range_set_len(n: int)
    requires
        n >= 0,
    ensures
        Set::new(|jj: int| 0 <= jj < n).finite(),
        Set::new(|jj: int| 0 <= jj < n).len() == n,
    decreases n,
{
    if n == 0 {
        assert(Set::new(|jj: int| 0 <= jj < n) =~= Set::empty());
    } else {
        lemma_range_set_len(n - 1);
        assert(Set::new(|jj: int| 0 <= jj < n) =~= Set::new(|jj: int| 0 <= jj < n - 1).insert(n - 1));
    }
}

/// Every topological prefix lies inside the set of placed tasks once no
/// unplaced task is ready.
proof fn lemma_prefix_within_done(
    tasks: Seq<Task>,
    deps: Seq<Dependency>,
    done: Seq<bool>,
    indeg: Seq<usize>,
    done_ids: Seq<i64>,
    s: Seq<i64>,
)
    requires
        task_ids(tasks).no_duplicates(),
        indeg.len() == tasks.len(),
        done.len() == tasks.len(),
        forall|j: int| 0 <= j < tasks.len() ==> (#[trigger] done[j] <==> done_ids.contains(tasks[j].id)),
        forall|j: int|
            0 <= j < tasks.len() ==> #[trigger] indeg[j] == open_edges(
                deps,
                tasks[j].id,
                done_ids,
                deps.len() as int,
            ),
        forall|jj: int| 0 <= jj < tasks.len() ==> #[trigger] done[jj] || indeg[jj] != 0,
        is_topo_prefix(tasks, deps, s),
    ensures
        forall|x: i64| s.contains(x) ==> done_ids.contains(x),
    decreases s.len(),
{
    if s.len() > 0 {
        let t = s.drop_last();
        assert forall|i: int| 0 <= i < t.len() implies ready(deps, t.take(i), #[trigger] t[i]) by {
            assert(t.take(i) =~= s.take(i));
            assert(t[i] == s[i]);
        }
        assert forall|i: int| 0 <= i < t.len() implies task_ids(tasks).contains(#[trigger] t[i]) by {
            assert(t[i] == s[i]);
        }
        assert(is_topo_prefix(tasks, deps, t));
        lemma_prefix_within_done(tasks, deps, done, indeg, done_ids, t);
        let last = s[s.len() - 1];
        assert(task_ids(tasks).contains(last));
        let j = choose|j: int| 0 <= j < task_ids(tasks).len() && task_ids(tasks)[j] == last;
        lemma_task_ids_index(tasks, j);
        assert(ready(deps, s.take(s.len() - 1), last));
        assert(s.take(s.len() - 1) =~= t);
        if !done[j] {
            assert forall|k: int| 0 <= k < deps.len() && #[trigger] deps[k].task_id == tasks[j].id implies done_ids.contains(
                deps[k].depends_on,
            ) by {
                assert(t.contains(deps[k].depends_on));
            }
            lemma_open_edges_zero(deps, tasks[j].id, done_ids, deps.len() as int);
            assert(indeg[j] == 0);
        }
        assert forall|x: i64| s.contains(x) implies done_ids.contains(x) by {
            assert(s =~= t.push(last));
            lemma_push_contains(t, last, x);
        }
    }
}


/// The task that a map built from `tasks` holds for `id`: the last one with
/// that id.
pub open spec fn task_by_id(tasks: Seq<Task>, id: i64) -> Option<Task>
    decreases tasks.len(),
{
    if tasks.len() == 0 {
        None
    } else if tasks.last().id == id {
        Some(tasks.last())
    } else {
        task_by_id(tasks.drop_last(), id)
    }
}

pub proof fn lemma_task_by_id(tasks: Seq<Task>, id: i64)
    ensures
        task_by_id(tasks, id) matches Some(t) ==> t.id == id && tasks.contains(t),
        task_by_id(tasks, id) is None <==> !task_ids(tasks).contains(id),
    decreases tasks.len(),
{
    if tasks.len() > 0 {
        lemma_task_by_id(tasks.drop_last(), id);
        let d = tasks.drop_last();
        if let Some(t) = task_by_id(d, id) {
            let i = choose|i: int| 0 <= i < d.len() && d[i] == t;
            assert(tasks[i] == t);
        }
        if tasks.last().id == id {
            assert(tasks[tasks.len() - 1] == tasks.last());
        }
        assert(task_ids(tasks) =~= task_ids(d).push(tasks.last().id));
        lemma_push_contains(task_ids(d), tasks.last().id, id);
    } else {
        assert(task_ids(tasks) =~= Seq::<i64>::empty());
    }
}

/// The conflict that an edge shows: its dependent has a lower manual order
/// than its prerequisite.
pub open spec fn edge_conflict(tasks: Seq<Task>, d: Dependency) -> Option<(i64, u64, i64, u64)> {
    match (task_by_id(tasks, d.task_id), task_by_id(tasks, d.depends_on)) {
        (Some(t), Some(p)) => if t.manual_order < p.manual_order {
            Some((t.id, t.manual_order, p.id, p.manual_order))
        } else {
            None
        },
        _ => None,
    }
}

/// The conflicts of the edges, in edge order.
pub open spec fn order_conflicts(tasks: Seq<Task>, deps: Seq<Dependency>) -> Seq<(i64, u64, i64, u64)>
    decreases deps.len(),
{
    if deps.len() == 0 {
        Seq::empty()
    } else {
        order_conflicts(tasks, deps.drop_last()) + match edge_conflict(tasks, deps.last()) {
            Some(c) => seq![c],
            None => Seq::empty(),
        }
    }
}

/// Finds the task that `task_by_id` names.
pub fn find_task_by_id(tasks: &Vec<Task>, id: i64) -> (r: Option<&Task>)
    ensures
        match task_by_id(tasks@, id) {
            Some(t) => r == Some(&t),
            None => r is None,
        },
{
    let mut i = tasks.len();
    assert(tasks@.take(tasks@.len() as int) =~= tasks@);
    while i > 0
        invariant
            i <= tasks@.len(),
            task_by_id(tasks@, id) == task_by_id(tasks@.take(i as int), id),
        decreases i,
    {
        assert(tasks@.take(i as int).drop_last() =~= tasks@.take(i - 1));
        if tasks[i - 1].id == id {
            return Some(&tasks[i - 1]);
        }
        i = i - 1;
    }
    None
}

/// Lists the edges whose dependent has a lower manual order than its
/// prerequisite, as (task id, task order, prerequisite id, prerequisite
/// order), in edge order.
pub fn find_order_conflicts(tasks: &Vec<Task>, deps: &[Dependency]) -> (r: Vec<(i64, u64, i64, u64)>)
    ensures
        r@ == order_conflicts(tasks@, deps@),
{
    let mut out: Vec<(i64, u64, i64, u64)> = Vec::new();
    let mut k: usize = 0;
    while k < deps.len()
        invariant
            k <= deps@.len(),
            out@ == order_conflicts(tasks@, deps@.take(k as int)),
        decreases deps@.len() - k,
    {
        let d = deps[k];
        assert(deps@.take(k + 1).drop_last() =~= deps@.take(k as int));
        let t = find_task_by_id(tasks, d.task_id);
        let p = find_task_by_id(tasks, d.depends_on);
        match (t, p) {
            (Some(t), Some(p)) => {
                if t.manual_order < p.manual_order {
                    out.push((t.id, t.manual_order, p.id, p.manual_order));
                }
            },
            _ => {},
        }
        proof {
            let ks = deps@.take(k + 1);
            assert(ks.last() == d);
            assert(order_conflicts(tasks@, ks) == order_conflicts(tasks@, deps@.take(k as int)) + match edge_conflict(tasks@, d) {
                Some(c) => seq![c],
                None => Seq::empty(),
            });
        }
        assert(out@ =~= order_conflicts(tasks@, deps@.take(k + 1)));
        k = k + 1;
    }
    assert(deps@.take(deps@.len() as int) =~= deps@);
    out
}


/// Reachability is transitive.
pub proof fn lemma_reach_trans(deps: Seq<Dependency>, x: i64, y: i64, z: i64)
    requires
        reachable(deps, x, y),
        reachable(deps, y, z),
    ensures
        reachable(deps, x, z),
{
    let q = choose|q: Seq<i64>| is_path(deps, q) && q[0] == y && q.last() == z;
    lemma_reach_along(deps, x, q);
}

/// Following a walk from where `x` reaches keeps `x` reaching.
proof fn lemma_reach_along(deps: Seq<Dependency>, x: i64, q: Seq<i64>)
    requires
        is_path(deps, q),
        reachable(deps, x, q[0]),
    ensures
        reachable(deps, x, q.last()),
    decreases q.len(),
{
    if q.len() > 1 {
        let q2 = q.drop_last();
        assert forall|i: int| 0 <= i < q2.len() - 1 implies #[trigger] has_edge(deps, q2[i], q2[i + 1]) by {
            assert(has_edge(deps, q[i], q[i + 1]));
        }
        lemma_reach_along(deps, x, q2);
        let j = q.len() - 2;
        assert(has_edge(deps, q[j], q[j + 1]));
        let k = choose|k: int| 0 <= k < deps.len() && deps[k].task_id == q[j] && deps[k].depends_on == q[j + 1];
        lemma_reach_step(deps, x, q2.last(), k);
    }
}

/// A walk in a graph whose every edge maps under `f` to an edge of `deps`
/// maps to a walk of `deps`.
pub proof fn lemma_reach_map(deps: Seq<Dependency>, deps2: Seq<Dependency>, f: spec_fn(i64) -> i64, a: i64, b: i64)
    requires
        forall|k: int| 0 <= k < deps2.len() ==> has_edge(deps, f((#[trigger] deps2[k]).task_id), f(deps2[k].depends_on)),
        reachable(deps2, a, b),
    ensures
        reachable(deps, f(a), f(b)),
{
    let p = choose|p: Seq<i64>| is_path(deps2, p) && p[0] == a && p.last() == b;
    lemma_path_map(deps, deps2, f, p);
}

proof fn lemma_path_map(deps: Seq<Dependency>, deps2: Seq<Dependency>, f: spec_fn(i64) -> i64, p: Seq<i64>)
    requires
        forall|k: int| 0 <= k < deps2.len() ==> has_edge(deps, f((#[trigger] deps2[k]).task_id), f(deps2[k].depends_on)),
        is_path(deps2, p),
    ensures
        reachable(deps, f(p[0]), f(p.last())),
    decreases p.len(),
{
    if p.len() == 1 {
        lemma_reach_refl(deps, f(p[0]));
    } else {
        let q = p.drop_last();
        assert forall|i: int| 0 <= i < q.len() - 1 implies #[trigger] has_edge(deps2, q[i], q[i + 1]) by {
            assert(has_edge(deps2, p[i], p[i + 1]));
        }
        lemma_path_map(deps, deps2, f, q);
        let j = p.len() - 2;
        assert(has_edge(deps2, p[j], p[j + 1]));
        let k2 = choose|k2: int| 0 <= k2 < deps2.len() && deps2[k2].task_id == p[j] && deps2[k2].depends_on == p[j + 1];
        assert(has_edge(deps, f(deps2[k2].task_id), f(deps2[k2].depends_on)));
        let k = choose|k: int| 0 <= k < deps.len() && deps[k].task_id == f(p[j]) && deps[k].depends_on == f(p[j + 1]);
        lemma_reach_step(deps, f(p[0]), f(q.last()), k);
    }
}

/// A walk in `deps` with the edge `e` added either avoids `e`, or reaches
/// its dependent and goes on from its prerequisite.
pub proof fn lemma_reach_push(deps: Seq<Dependency>, e: Dependency, a: i64, b: i64)
    requires
        reachable(deps.push(e), a, b),
    ensures
        reachable(deps, a, b) || (reachable(deps, a, e.task_id) && reachable(deps, e.depends_on, b)),
{
    let p = choose|p: Seq<i64>| is_path(deps.push(e), p) && p[0] == a && p.last() == b;
    lemma_path_push(deps, e, p);
}

proof fn lemma_path_push(deps: Seq<Dependency>, e: Dependency, p: Seq<i64>)
    requires
        is_path(deps.push(e), p),
    ensures
        reachable(deps, p[0], p.last()) || (reachable(deps, p[0], e.task_id) && reachable(deps, e.depends_on, p.last())),
    decreases p.len(),
{
    let g = deps.push(e);
    if p.len() == 1 {
        lemma_reach_refl(deps, p[0]);
    } else {
        let q = p.drop_last();
        assert forall|i: int| 0 <= i < q.len() - 1 implies #[trigger] has_edge(g, q[i], q[i + 1]) by {
            assert(has_edge(g, p[i], p[i + 1]));
        }
        lemma_path_push(deps, e, q);
        let j = p.len() - 2;
        assert(has_edge(g, p[j], p[j + 1]));
        let k = choose|k: int| 0 <= k < g.len() && g[k].task_id == p[j] && g[k].depends_on == p[j + 1];
        if k < deps.len() {
            assert(deps[k] == g[k]);
            if reachable(deps, p[0], q.last()) {
                lemma_reach_step(deps, p[0], q.last(), k);
            } else {
                lemma_reach_step(deps, e.depends_on, q.last(), k);
            }
        } else {
            assert(g[k] == e);
            lemma_reach_refl(deps, e.depends_on);
        }
    }
}

} // verus!
