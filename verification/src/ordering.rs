//! Manual ordering of tasks.
//!
//! A task's manual order is a floating-point number. The library holds it as
//! an *order key*: the `u64` that the float's bit pattern maps to under a
//! monotone encoding (negative floats flipped, positive floats with the top
//! bit set, negative zero folded onto zero), so that integer order on keys is
//! the order of the floats. The arithmetic on the floats themselves (adding
//! the gap, taking a midpoint) happens outside the library; this module
//! decides where a task goes, checks a midpoint, and renumbers orders.
use vstd::prelude::*;
use crate::error::Error;
use crate::models::Task;

verus! {

/// The sign bit of a double.
pub const SIGN_BIT: u64 = 0x8000_0000_0000_0000;

/// The key of the order 0.0.
pub const ZERO_KEY: u64 = 0x8000_0000_0000_0000;

/// The gap between consecutive default orders.
pub const ORDER_GAP: u64 = 10;

/// The order key of the double with bit pattern `bits`.
pub open spec fn key_of_bits(bits: u64) -> u64 {
    if bits == SIGN_BIT {
        ZERO_KEY
    } else if bits & SIGN_BIT != 0 {
        !bits
    } else {
        bits | SIGN_BIT
    }
}

/// The bit pattern of the double that order key `key` stands for.
pub open spec fn bits_of_key(key: u64) -> u64 {
    if key & SIGN_BIT != 0 {
        key & !SIGN_BIT
    } else {
        !key
    }
}

/// The value by which IEEE 754 orders a double: its magnitude bits, negated
/// when the sign bit is set.
pub open spec fn float_rank(bits: u64) -> int {
    if bits & SIGN_BIT != 0 {
        -((bits & !SIGN_BIT) as int)
    } else {
        (bits & !SIGN_BIT) as int
    }
}

proof fn lemma_key_rank(bits: u64)
    ensures
        float_rank(bits) >= 0 ==> key_of_bits(bits) as int == 0x8000_0000_0000_0000 + float_rank(bits),
        float_rank(bits) < 0 ==> key_of_bits(bits) as int == 0x7fff_ffff_ffff_ffff + float_rank(bits),
{
    let m = bits & !SIGN_BIT;
    assert(bits & SIGN_BIT != 0 ==> bits == m + 0x8000_0000_0000_0000) by (bit_vector)
        requires
            m == bits & !0x8000_0000_0000_0000u64,
    ;
    assert(bits & SIGN_BIT == 0 ==> bits == m) by (bit_vector)
        requires
            m == bits & !0x8000_0000_0000_0000u64,
    ;
    assert(bits & SIGN_BIT != 0 && bits != SIGN_BIT ==> !bits == 0xffff_ffff_ffff_ffff - bits) by (bit_vector);
    assert(bits & SIGN_BIT == 0 ==> bits | SIGN_BIT == bits + 0x8000_0000_0000_0000) by (bit_vector);
    assert(bits == SIGN_BIT ==> m == 0) by (bit_vector)
        requires
            m == bits & !0x8000_0000_0000_0000u64,
    ;
}

/// Order keys order doubles as IEEE 754 does: a key is below another exactly
/// when its double ranks below the other's, and two keys are equal exactly
/// when their doubles rank equal (so negative and positive zero share a
/// key).
pub proof fn lemma_key_order(a: u64, b: u64)
    ensures
        key_of_bits(a) < key_of_bits(b) <==> float_rank(a) < float_rank(b),
        key_of_bits(a) == key_of_bits(b) <==> float_rank(a) == float_rank(b),
{
    lemma_key_rank(a);
    lemma_key_rank(b);
}

/// Converting a key back to bits and again to a key gives the key back, for
/// every key but that of negative zero; converting bits to a key and back
/// gives the bits back, for every double but negative zero.
pub proof fn lemma_key_roundtrip(k: u64, bits: u64)
    ensures
        k != 0x7fff_ffff_ffff_ffff ==> key_of_bits(bits_of_key(k)) == k,
        bits != SIGN_BIT ==> bits_of_key(key_of_bits(bits)) == bits,
{
    assert(k != 0x7fff_ffff_ffff_ffffu64 ==> key_of_bits(bits_of_key(k)) == k) by (bit_vector);
    assert(bits != SIGN_BIT ==> bits_of_key(key_of_bits(bits)) == bits) by (bit_vector);
}

/// The order key of the double with bit pattern `bits`.
pub fn order_key_from_bits(bits: u64) -> (k: u64)
    ensures
        k == key_of_bits(bits),
{
    if bits == SIGN_BIT {
        ZERO_KEY
    } else if bits & SIGN_BIT != 0 {
        !bits
    } else {
        bits | SIGN_BIT
    }
}

/// The bit pattern of the double that `key` stands for.
pub fn bits_from_order_key(key: u64) -> (bits: u64)
    ensures
        bits == bits_of_key(key),
{
    if key & SIGN_BIT != 0 {
        key & !SIGN_BIT
    } else {
        !key
    }
}


/// Where a task goes in the manual order, as the floats outside compute it
/// from the keys given.
#[derive(PartialEq, Eq, Structural, Clone, Copy, Debug)]
pub enum OrderPlacement {
    /// The first gap, `ORDER_GAP`: no task has a positive order.
    First,
    /// One gap after the order with this key.
    After(u64),
    /// One gap before the order with this key.
    Before(u64),
    /// Midway between the orders with these keys, the first below the second.
    Between(u64, u64),
}

/// The first task in `tasks` with id `id`.
pub open spec fn first_with_id(tasks: Seq<Task>, id: i64) -> Option<Task>
    decreases tasks.len(),
{
    if tasks.len() == 0 {
        None
    } else if tasks[0].id == id {
        Some(tasks[0])
    } else {
        first_with_id(tasks.subrange(1, tasks.len() as int), id)
    }
}

/// The highest order key among the tasks of a non-empty `tasks`.
pub open spec fn max_order_key(tasks: Seq<Task>) -> u64
    decreases tasks.len(),
{
    if tasks.len() <= 1 {
        tasks[0].manual_order
    } else {
        let m = max_order_key(tasks.drop_last());
        if tasks.last().manual_order > m {
            tasks.last().manual_order
        } else {
            m
        }
    }
}

/// The highest order key of a non-empty `tasks` is at least every task's
/// key and is the key of one of them.
pub proof fn lemma_max_order_key(tasks: Seq<Task>)
    requires
        tasks.len() > 0,
    ensures
        forall|i: int| 0 <= i < tasks.len() ==> #[trigger] tasks[i].manual_order <= max_order_key(tasks),
        exists|i: int| 0 <= i < tasks.len() && #[trigger] tasks[i].manual_order == max_order_key(tasks),
    decreases tasks.len(),
{
    if tasks.len() == 1 {
        assert(tasks[0].manual_order == max_order_key(tasks));
    } else {
        let d = tasks.drop_last();
        lemma_max_order_key(d);
        assert forall|i: int| 0 <= i < tasks.len() implies #[trigger] tasks[i].manual_order <= max_order_key(tasks) by {
            if i < d.len() {
                assert(tasks[i] == d[i]);
            }
        }
        if tasks.last().manual_order > max_order_key(d) {
            assert(tasks[tasks.len() - 1].manual_order == max_order_key(tasks));
        } else {
            let j = choose|j: int| 0 <= j < d.len() && #[trigger] d[j].manual_order == max_order_key(d);
            assert(tasks[j] == d[j]);
            assert(tasks[j].manual_order == max_order_key(tasks));
        }
    }
}

/// The placement that `calculate_manual_order` gives for these hints:
/// `Err(Some(id))` when the task `id` is missing, `Err(None)` when the task
/// to go after is not below the task to go before.
pub open spec fn placement(tasks: Seq<Task>, after_id: Option<i64>, before_id: Option<i64>) -> Result<OrderPlacement, Option<i64>> {
    match (after_id, before_id) {
        (None, None) => Ok(
            if tasks.len() == 0 {
                OrderPlacement::First
            } else {
                OrderPlacement::After(max_order_key(tasks))
            },
        ),
        (Some(a), None) => match first_with_id(tasks, a) {
            Some(t) => Ok(OrderPlacement::After(t.manual_order)),
            None => Err(Some(a)),
        },
        (None, Some(b)) => match first_with_id(tasks, b) {
            Some(t) => Ok(OrderPlacement::Before(t.manual_order)),
            None => Err(Some(b)),
        },
        (Some(a), Some(b)) => match (first_with_id(tasks, a), first_with_id(tasks, b)) {
            (None, _) => Err(Some(a)),
            (Some(_), None) => Err(Some(b)),
            (Some(x), Some(y)) => if x.manual_order < y.manual_order {
                Ok(OrderPlacement::Between(x.manual_order, y.manual_order))
            } else {
                Err(None)
            },
        },
    }
}

/// Finds the first task with id `id`, or answers `TaskNotFound`.
fn find_task(tasks: &Vec<Task>, id: i64) -> (r: Result<&Task, Error>)
    ensures
        match first_with_id(tasks@, id) {
            Some(t) => r == Ok::<&Task, Error>(&t),
            None => r matches Err(Error::TaskNotFound(x)) && x == id,
        },
{
    let mut i: usize = 0;
    assert(tasks@.subrange(0, tasks@.len() as int) =~= tasks@);
    while i < tasks.len()
        invariant
            i <= tasks@.len(),
            first_with_id(tasks@, id) == first_with_id(tasks@.subrange(i as int, tasks@.len() as int), id),
        decreases tasks@.len() - i,
    {
        let ghost rest = tasks@.subrange(i as int, tasks@.len() as int);
        assert(rest.subrange(1, rest.len() as int) =~= tasks@.subrange(i + 1, tasks@.len() as int));
        if tasks[i].id == id {
            return Ok(&tasks[i]);
        }
        i = i + 1;
    }
    Err(Error::TaskNotFound(id))
}

/// Decides where a new or moved task goes in the manual order: with no hint,
/// one gap after the highest order (the first gap when there are no tasks); after a task, one gap after it; before a task, one gap before it;
/// between two tasks, midway, when the first is below the second.
pub fn calculate_manual_order(tasks: &Vec<Task>, after_id: Option<i64>, before_id: Option<i64>) -> (r: Result<OrderPlacement, Error>)
    ensures
        match placement(tasks@, after_id, before_id) {
            Ok(p) => r == Ok::<OrderPlacement, Error>(p),
            Err(Some(x)) => r matches Err(Error::TaskNotFound(y)) && x == y,
            Err(None) => r matches Err(Error::NotSupported(m)) && m@
                == "After task must have lower order than before task"@,
        },
        after_id is None && before_id is None && tasks@.len() == 0 ==> r == Ok::<OrderPlacement, Error>(
            OrderPlacement::First,
        ),
        after_id is None && before_id is None && tasks@.len() > 0 ==> (r matches Ok(OrderPlacement::After(k))
            && (forall|i: int| 0 <= i < tasks@.len() ==> #[trigger] tasks@[i].manual_order <= k) && (exists|i: int|
            0 <= i < tasks@.len() && #[trigger] tasks@[i].manual_order == k)),
{
    match (after_id, before_id) {
        (None, None) => {
            if tasks.len() == 0 {
                return Ok(OrderPlacement::First);
            }
            let mut m: u64 = tasks[0].manual_order;
            let mut i: usize = 1;
            assert(tasks@.take(1).len() == 1);
            while i < tasks.len()
                invariant
                    1 <= i <= tasks@.len(),
                    m == max_order_key(tasks@.take(i as int)),
                decreases tasks@.len() - i,
            {
                assert(tasks@.take(i + 1).drop_last() =~= tasks@.take(i as int));
                if tasks[i].manual_order > m {
                    m = tasks[i].manual_order;
                }
                i = i + 1;
            }
            assert(tasks@.take(tasks@.len() as int) =~= tasks@);
            proof {
                lemma_max_order_key(tasks@);
            }
            Ok(OrderPlacement::After(m))
        },
        (Some(after), None) => {
            let t = find_task(tasks, after)?;
            Ok(OrderPlacement::After(t.manual_order))
        },
        (None, Some(before)) => {
            let t = find_task(tasks, before)?;
            Ok(OrderPlacement::Before(t.manual_order))
        },
        (Some(after), Some(before)) => {
            let a = find_task(tasks, after)?;
            let b = find_task(tasks, before)?;
            if a.manual_order >= b.manual_order {
                return Err(
                    Error::NotSupported(
                        String::from_str("After task must have lower order than before task"),
                    ),
                );
            }
            Ok(OrderPlacement::Between(a.manual_order, b.manual_order))
        },
    }
}

/// Checks a midpoint computed between the orders with keys `a` and `b`: when
/// it equals either end the floats have no room left between them.
pub fn check_midpoint(a: u64, b: u64, mid: u64) -> (r: Result<u64, Error>)
    ensures
        mid == a || mid == b ==> r matches Err(Error::FloatPrecisionExhausted),
        !(mid == a || mid == b) ==> r == Ok::<u64, Error>(mid),
{
    if mid == a || mid == b {
        return Err(Error::FloatPrecisionExhausted);
    }
    Ok(mid)
}

/// Task index `x` sorts before task index `y`: a lower order key, or an
/// equal key and an earlier index.
pub open spec fn sorts_before(tasks: Seq<Task>, x: int, y: int) -> bool {
    ||| tasks[x].manual_order < tasks[y].manual_order
    ||| (tasks[x].manual_order == tasks[y].manual_order && x < y)
}

/// `p` lists the indices of `tasks` sorted by order key, equal keys in their
/// original order: the order a stable sort gives.
pub open spec fn stable_order(tasks: Seq<Task>, p: Seq<int>) -> bool {
    &&& p.len() == tasks.len()
    &&& forall|i: int| 0 <= i < p.len() ==> 0 <= #[trigger] p[i] < tasks.len()
    &&& forall|i: int, j: int| 0 <= i < j < p.len() ==> sorts_before(tasks, #[trigger] p[i], #[trigger] p[j])
}

/// Renumbers the manual orders: the tasks sorted by order (a stable sort),
/// each paired with its new order, `ORDER_GAP` times its 1-based position.
pub fn reindex_orders(tasks: &Vec<Task>) -> (r: Vec<(i64, u64)>)
    requires
        tasks@.len() * ORDER_GAP <= u64::MAX,
    ensures
        exists|p: Seq<int>|
            #[trigger] stable_order(tasks@, p) && r@.len() == p.len() && forall|i: int|
                0 <= i < r@.len() ==> #[trigger] r@[i] == (tasks@[p[i]].id, ((i + 1) * ORDER_GAP) as u64),
{
    let n = tasks.len();
    let mut out: Vec<usize> = Vec::new();
    let mut i: usize = 0;
    while i < n
        invariant
            n == tasks@.len(),
            i <= n,
            out@.len() == i,
            forall|j: int| 0 <= j < out@.len() ==> #[trigger] out@[j] < i,
            forall|a: int, b: int|
                0 <= a < b < out@.len() ==> sorts_before(tasks@, #[trigger] out@[a] as int, #[trigger] out@[b] as int),
        decreases n - i,
    {
        let key = tasks[i].manual_order;
        let mut pos: usize = 0;
        while pos < out.len() && tasks[out[pos]].manual_order <= key
            invariant
                n == tasks@.len(),
                i < n,
                key == tasks@[i as int].manual_order,
                pos <= out@.len(),
                forall|j: int| 0 <= j < out@.len() ==> #[trigger] out@[j] < i,
                forall|j: int| 0 <= j < pos ==> tasks@[#[trigger] out@[j] as int].manual_order <= key,
            decreases out@.len() - pos,
        {
            pos = pos + 1;
        }
        let ghost before = out@;
        proof {
            assert forall|j: int| pos <= j < before.len() implies tasks@[#[trigger] before[j] as int].manual_order > key by {
                if j > pos {
                    assert(sorts_before(tasks@, before[pos as int] as int, before[j] as int));
                }
            }
        }
        out.insert(pos, i);
        proof {
            before.insert_ensures(pos as int, i);
            assert forall|j: int| 0 <= j < out@.len() implies #[trigger] out@[j] < i + 1 by {
                if j < pos {
                    assert(out@[j] == before[j]);
                } else if j > pos {
                    assert(out@[j] == before[j - 1]);
                }
            }
            assert forall|a: int, b: int|
                0 <= a < b < out@.len() implies sorts_before(tasks@, #[trigger] out@[a] as int, #[trigger] out@[b] as int) by {
                if b < pos {
                    assert(out@[a] == before[a] && out@[b] == before[b]);
                } else if b == pos {
                    assert(out@[a] == before[a]);
                } else if a < pos {
                    assert(out@[a] == before[a] && out@[b] == before[b - 1]);
                } else if a == pos {
                    assert(out@[b] == before[b - 1]);
                } else {
                    assert(out@[a] == before[a - 1] && out@[b] == before[b - 1]);
                }
            }
        }
        i = i + 1;
    }
    let mut r: Vec<(i64, u64)> = Vec::new();
    let mut j: usize = 0;
    while j < n
        invariant
            n == tasks@.len(),
            n * ORDER_GAP <= u64::MAX,
            out@.len() == n,
            forall|q: int| 0 <= q < out@.len() ==> #[trigger] out@[q] < n,
            j <= n,
            r@.len() == j,
            forall|q: int|
                0 <= q < j ==> #[trigger] r@[q] == (tasks@[out@[q] as int].id, ((q + 1) * ORDER_GAP) as u64),
        decreases n - j,
    {
        assert(out@[j as int] < n);
        assert((j + 1) * ORDER_GAP <= n * ORDER_GAP) by (nonlinear_arith)
            requires
                j + 1 <= n,
        ;
        r.push((tasks[out[j]].id, (j as u64 + 1) * ORDER_GAP));
        j = j + 1;
    }
    proof {
        let p = out@.map_values(|x: usize| x as int);
        assert(stable_order(tasks@, p));
        assert forall|q: int| 0 <= q < r@.len() implies #[trigger] r@[q] == (tasks@[p[q]].id, ((q + 1) * ORDER_GAP) as u64) by {
            assert(p[q] == out@[q] as int);
        }
    }
    r
}

} // verus!
