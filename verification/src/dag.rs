//! Dependency edges that close no cycle can always be followed: every task
//! has a place in an order that puts prerequisites first.
//!
//! The order is built by depth: a task's depth is the number of other tasks
//! it reaches. Along an edge the depth strictly falls, so listing the tasks
//! depth by depth lists every prerequisite before its dependents.
use vstd::prelude::*;
use crate::graph::{
    has_edge, is_topo_prefix, lemma_push_contains, lemma_reach_refl, lemma_reach_step, lemma_reach_trans,
    orderable, reachable, ready, task_ids,
};
use crate::models::{Dependency, Task};

verus! {

/// How many members of `s` satisfy `p`.
pub open spec fn count_where(s: Seq<i64>, p: spec_fn(i64) -> bool) -> nat
    decreases s.len(),
{
    if s.len() == 0 {
        0
    } else {
        count_where(s.drop_last(), p) + if p(s.last()) {
            1nat
        } else {
            0nat
        }
    }
}

/// The tasks that `x` reaches, other than itself.
pub open spec fn strictly_below(deps: Seq<Dependency>, x: i64) -> spec_fn(i64) -> bool {
    |y: i64| y != x && reachable(deps, x, y)
}

/// The depth of `x`: how many of `ids` it reaches, other than itself.
pub open spec fn depth(ids: Seq<i64>, deps: Seq<Dependency>, x: i64) -> nat {
    count_where(ids, strictly_below(deps, x))
}

/// The members of `s` of depth `k`, in order.
pub open spec fn at_depth(s: Seq<i64>, ids: Seq<i64>, deps: Seq<Dependency>, k: nat) -> Seq<i64>
    decreases s.len(),
{
    if s.len() == 0 {
        s
    } else if depth(ids, deps, s.last()) == k {
        at_depth(s.drop_last(), ids, deps, k).push(s.last())
    } else {
        at_depth(s.drop_last(), ids, deps, k)
    }
}

/// The members of `ids` of depth below `k`, shallowest first.
pub open spec fn layers(ids: Seq<i64>, deps: Seq<Dependency>, k: nat) -> Seq<i64>
    decreases k,
{
    if k == 0 {
        Seq::empty()
    } else {
        layers(ids, deps, (k - 1) as nat) + at_depth(ids, ids, deps, (k - 1) as nat)
    }
}

proof fn lemma_count_mono(s: Seq<i64>, p: spec_fn(i64) -> bool, q: spec_fn(i64) -> bool)
    requires
        forall|w: i64| #[trigger] p(w) ==> q(w),
    ensures
        count_where(s, p) <= count_where(s, q),
    decreases s.len(),
{
    if s.len() > 0 {
        lemma_count_mono(s.drop_last(), p, q);
    }
}

proof fn lemma_count_strict(s: Seq<i64>, p: spec_fn(i64) -> bool, q: spec_fn(i64) -> bool, z: i64)
    requires
        forall|w: i64| #[trigger] p(w) ==> q(w),
        s.contains(z),
        q(z),
        !p(z),
    ensures
        count_where(s, p) < count_where(s, q),
    decreases s.len(),
{
    let d = s.drop_last();
    lemma_push_contains(d, s.last(), z);
    assert(s =~= d.push(s.last()));
    if s.last() == z {
        lemma_count_mono(d, p, q);
    } else {
        lemma_count_strict(d, p, q, z);
    }
}

proof fn lemma_count_bound(s: Seq<i64>, p: spec_fn(i64) -> bool, z: i64)
    requires
        s.contains(z),
        !p(z),
    ensures
        count_where(s, p) < s.len(),
    decreases s.len(),
{
    let d = s.drop_last();
    lemma_push_contains(d, s.last(), z);
    assert(s =~= d.push(s.last()));
    lemma_count_le(d, p);
    if s.last() != z {
        lemma_count_bound(d, p, z);
    }
}

proof fn lemma_count_le(s: Seq<i64>, p: spec_fn(i64) -> bool)
    ensures
        count_where(s, p) <= s.len(),
    decreases s.len(),
{
    if s.len() > 0 {
        lemma_count_le(s.drop_last(), p);
    }
}

/// Along an edge of an acyclic graph, the depth strictly falls.
proof fn lemma_depth_edge(ids: Seq<i64>, deps: Seq<Dependency>, k: int)
    requires
        forall|a: i64, b: i64| #[trigger] has_edge(deps, a, b) ==> !reachable(deps, b, a),
        0 <= k < deps.len(),
        ids.contains(deps[k].depends_on),
    ensures
        depth(ids, deps, deps[k].depends_on) < depth(ids, deps, deps[k].task_id),
{
    let y = deps[k].task_id;
    let z = deps[k].depends_on;
    assert(has_edge(deps, y, z));
    lemma_reach_refl(deps, y);
    lemma_reach_step(deps, y, y, k);
    lemma_reach_refl(deps, z);
    let p = strictly_below(deps, z);
    let q = strictly_below(deps, y);
    assert forall|w: i64| #[trigger] p(w) implies q(w) by {
        lemma_reach_trans(deps, y, z, w);
        if w == y {
            assert(reachable(deps, z, y));
        }
    }
    assert(z != y) by {
        if z == y {
            assert(reachable(deps, z, y));
        }
    }
    assert(q(z));
    assert(!p(z));
    lemma_count_strict(ids, p, q, z);
}

proof fn lemma_at_depth(s: Seq<i64>, ids: Seq<i64>, deps: Seq<Dependency>, k: nat, y: i64)
    ensures
        at_depth(s, ids, deps, k).contains(y) <==> (s.contains(y) && depth(ids, deps, y) == k),
        s.no_duplicates() ==> at_depth(s, ids, deps, k).no_duplicates(),
    decreases s.len(),
{
    if s.len() > 0 {
        let d = s.drop_last();
        lemma_at_depth(d, ids, deps, k, y);
        lemma_at_depth(d, ids, deps, k, s.last());
        assert(s =~= d.push(s.last()));
        lemma_push_contains(d, s.last(), y);
        let a = at_depth(d, ids, deps, k);
        lemma_push_contains(a, s.last(), y);
        if s.no_duplicates() {
            assert(d.no_duplicates()) by {
                assert forall|i: int, j: int| 0 <= i < d.len() && 0 <= j < d.len() && i != j implies d[i] != d[j] by {
                    assert(s[i] == d[i] && s[j] == d[j]);
                }
            }
            assert(!d.contains(s.last())) by {
                if d.contains(s.last()) {
                    let i = choose|i: int| 0 <= i < d.len() && d[i] == s.last();
                    assert(s[i] == s[s.len() - 1]);
                }
            }
            if depth(ids, deps, s.last()) == k {
                let b = a.push(s.last());
                assert forall|i: int, j: int| 0 <= i < b.len() && 0 <= j < b.len() && i != j implies b[i] != b[j] by {
                    if i < a.len() && j < a.len() {
                        assert(b[i] == a[i] && b[j] == a[j]);
                    } else if i < a.len() {
                        assert(a.contains(b[i]));
                    } else if j < a.len() {
                        assert(a.contains(b[j]));
                    }
                }
            }
        }
    }
}

proof fn lemma_layers(ids: Seq<i64>, deps: Seq<Dependency>, k: nat, y: i64)
    ensures
        layers(ids, deps, k).contains(y) <==> (ids.contains(y) && depth(ids, deps, y) < k),
        ids.no_duplicates() ==> layers(ids, deps, k).no_duplicates(),
    decreases k,
{
    if k > 0 {
        let k1 = (k - 1) as nat;
        let a = layers(ids, deps, k1);
        let b = at_depth(ids, ids, deps, k1);
        lemma_layers(ids, deps, k1, y);
        lemma_at_depth(ids, ids, deps, k1, y);
        let c = a + b;
        if c.contains(y) {
            let i = choose|i: int| 0 <= i < c.len() && c[i] == y;
            if i < a.len() {
                assert(a.contains(y));
            } else {
                assert(b[i - a.len()] == y);
                assert(b.contains(y));
            }
        }
        if ids.contains(y) && depth(ids, deps, y) < k {
            if depth(ids, deps, y) < k1 {
                let i = choose|i: int| 0 <= i < a.len() && a[i] == y;
                assert(c[i] == y);
            } else {
                let i = choose|i: int| 0 <= i < b.len() && b[i] == y;
                assert(c[a.len() + i] == y);
            }
        }
        if ids.no_duplicates() {
            lemma_at_depth(ids, ids, deps, k1, 0);
            assert forall|i: int, j: int| 0 <= i < c.len() && 0 <= j < c.len() && i != j implies c[i] != c[j] by {
                if i < a.len() && j < a.len() {
                    assert(c[i] == a[i] && c[j] == a[j]);
                } else if i >= a.len() && j >= a.len() {
                    assert(c[i] == b[i - a.len()] && c[j] == b[j - a.len()]);
                } else if i < a.len() {
                    lemma_layers(ids, deps, k1, c[i]);
                    lemma_at_depth(ids, ids, deps, k1, c[j]);
                    assert(a.contains(c[i]));
                    assert(b.contains(c[j]));
                } else {
                    lemma_layers(ids, deps, k1, c[j]);
                    lemma_at_depth(ids, ids, deps, k1, c[i]);
                    assert(a.contains(c[j]));
                    assert(b.contains(c[i]));
                }
            }
        }
    }
}

/// Layers list every prerequisite (within `ids`) before its dependents.
proof fn lemma_layers_ready(ids: Seq<i64>, deps: Seq<Dependency>, k: nat, i: int)
    requires
        forall|a: i64, b: i64| #[trigger] has_edge(deps, a, b) ==> !reachable(deps, b, a),
        forall|e: int| 0 <= e < deps.len() ==> ids.contains(#[trigger] deps[e].depends_on),
        0 <= i < layers(ids, deps, k).len(),
    ensures
        ready(deps, layers(ids, deps, k).take(i), layers(ids, deps, k)[i]),
    decreases k,
{
    let k1 = (k - 1) as nat;
    let a = layers(ids, deps, k1);
    let b = at_depth(ids, ids, deps, k1);
    let c = layers(ids, deps, k);
    assert(c == a + b);
    if i < a.len() {
        lemma_layers_ready(ids, deps, k1, i);
        assert(c.take(i) =~= a.take(i));
        assert(c[i] == a[i]);
    } else {
        let y = c[i];
        assert(y == b[i - a.len()]);
        lemma_at_depth(ids, ids, deps, k1, y);
        assert(b.contains(y));
        assert forall|e: int| 0 <= e < deps.len() && #[trigger] deps[e].task_id == y implies c.take(i).contains(
            deps[e].depends_on,
        ) by {
            let z = deps[e].depends_on;
            lemma_depth_edge(ids, deps, e);
            lemma_layers(ids, deps, k1, z);
            let j = choose|j: int| 0 <= j < a.len() && a[j] == z;
            assert(c.take(i)[j] == z);
        }
    }
}

/// When no edge closes a cycle and every prerequisite is among `ids` (the
/// ids of `tasks`, each once), every task of `tasks` has a place in an
/// order that puts prerequisites first.
pub proof fn lemma_dag_orderable(tasks: Seq<Task>, deps: Seq<Dependency>, ids: Seq<i64>, x: i64)
    requires
        forall|a: i64, b: i64| #[trigger] has_edge(deps, a, b) ==> !reachable(deps, b, a),
        forall|e: int| 0 <= e < deps.len() ==> ids.contains(#[trigger] deps[e].depends_on),
        ids.no_duplicates(),
        forall|y: i64| #[trigger] ids.contains(y) <==> task_ids(tasks).contains(y),
        task_ids(tasks).contains(x),
    ensures
        orderable(tasks, deps, x),
{
    let n = ids.len();
    let s = layers(ids, deps, n);
    lemma_layers(ids, deps, n, x);
    lemma_layers(ids, deps, n, 0);
    assert(!strictly_below(deps, x)(x));
    lemma_count_bound(ids, strictly_below(deps, x), x);
    assert(s.contains(x));
    assert forall|i: int| 0 <= i < s.len() implies task_ids(tasks).contains(#[trigger] s[i]) by {
        lemma_layers(ids, deps, n, s[i]);
        assert(s.contains(s[i]));
    }
    assert forall|i: int| 0 <= i < s.len() implies ready(deps, s.take(i), #[trigger] s[i]) by {
        lemma_layers_ready(ids, deps, n, i);
    }
    assert(is_topo_prefix(tasks, deps, s));
}

} // verus!
