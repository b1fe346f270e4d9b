//! Laws of the debouncer, stated over runs: sequences of timestamped
//! arrivals (`Put`) and firing passes (`Fire`) applied to a pending map.
//!
//! A run abstracts any driving loop: `Put { key, time }` is an arrival of
//! `key` at `time`, and `Fire { time }` is a pass that fires every key whose
//! deadline is at or before `time`, as `Debouncer::put` and `Debouncer::fire`
//! do.

use vstd::prelude::*;

use crate::debounce::fire_model;
use crate::debounce::put_model;

verus! {

/// One operation of a run: an arrival of a key, or a firing pass.
pub enum DebOp {
    Put { key: Seq<char>, time: int },
    Fire { time: int },
}

/// The time at which an operation happens.
pub open spec fn op_time(op: DebOp) -> int {
    match op {
        DebOp::Put { time, .. } => time,
        DebOp::Fire { time } => time,
    }
}

/// Whether an operation is an arrival of key `k`.
pub open spec fn is_put(op: DebOp, k: Seq<char>) -> bool {
    match op {
        DebOp::Put { key, .. } => key == k,
        DebOp::Fire { .. } => false,
    }
}

/// Whether an operation is a firing pass.
pub open spec fn is_fire(op: DebOp) -> bool {
    op is Fire
}

/// The pending map after one operation with delay `d`.
pub open spec fn step_state(m: Map<Seq<char>, int>, op: DebOp, d: int) -> Map<Seq<char>, int> {
    match op {
        DebOp::Put { key, time } => put_model(m, key, time, d),
        DebOp::Fire { time } => fire_model(m, time),
    }
}

/// The times at which key `k` fires during one operation: a firing pass at
/// `time` fires `k` exactly when `k` is pending with a deadline at or before
/// `time`.
pub open spec fn step_fired(m: Map<Seq<char>, int>, op: DebOp, k: Seq<char>) -> Seq<int> {
    match op {
        DebOp::Put { .. } => Seq::empty(),
        DebOp::Fire { time } => if m.dom().contains(k) && m[k] <= time {
            seq![time]
        } else {
            Seq::empty()
        },
    }
}

/// The pending map after a whole run.
pub open spec fn run_state(m: Map<Seq<char>, int>, ops: Seq<DebOp>, d: int) -> Map<Seq<char>, int>
    decreases ops.len(),
{
    if ops.len() == 0 {
        m
    } else {
        run_state(step_state(m, ops[0], d), ops.skip(1), d)
    }
}

/// The times at which key `k` fires during a run.
pub open spec fn run_fired(m: Map<Seq<char>, int>, ops: Seq<DebOp>, d: int, k: Seq<char>) -> Seq<
    int,
>
    decreases ops.len(),
{
    if ops.len() == 0 {
        Seq::empty()
    } else {
        step_fired(m, ops[0], k) + run_fired(step_state(m, ops[0], d), ops.skip(1), d, k)
    }
}

/// The operations' times never decrease along the run.
pub open spec fn times_ordered(ops: Seq<DebOp>) -> bool {
    forall|i: int, j: int|
        0 <= i < j < ops.len() ==> op_time(#[trigger] ops[i]) <= op_time(#[trigger] ops[j])
}

/// Some arrival of `k` occurs in the run.
pub open spec fn has_put(ops: Seq<DebOp>, k: Seq<char>) -> bool {
    exists|i: int| 0 <= i < ops.len() && is_put(#[trigger] ops[i], k)
}

/// Every arrival of `k` that another arrival of `k` follows is followed by
/// one less than `d` later: the inter-arrival gaps of `k` stay below `d`.
pub open spec fn gaps_within(ops: Seq<DebOp>, k: Seq<char>, d: int) -> bool {
    forall|i: int, j: int|
        0 <= i < j < ops.len() && #[trigger] is_put(ops[i], k) && #[trigger] is_put(ops[j], k)
            ==> (exists|l: int|
            i < l < ops.len() && #[trigger] is_put(ops[l], k) && op_time(ops[l]) < op_time(ops[i])
                + d)
}

/// The time of the last arrival of `k` in the run.
pub open spec fn last_put_time(ops: Seq<DebOp>, k: Seq<char>) -> int
    decreases ops.len(),
{
    if ops.len() == 0 {
        0
    } else if has_put(ops.skip(1), k) {
        last_put_time(ops.skip(1), k)
    } else if is_put(ops[0], k) {
        op_time(ops[0])
    } else {
        0
    }
}

/// The time of the first arrival of `k` in the run.
pub open spec fn first_put_time(ops: Seq<DebOp>, k: Seq<char>) -> int
    decreases ops.len(),
{
    if ops.len() == 0 {
        0
    } else if is_put(ops[0], k) {
        op_time(ops[0])
    } else {
        first_put_time(ops.skip(1), k)
    }
}

/// After the last arrival of `k`, the run holds a firing pass at or after
/// that arrival's time plus `d`.
pub open spec fn fire_covers(ops: Seq<DebOp>, k: Seq<char>, d: int) -> bool {
    exists|i: int|
        {
            &&& 0 <= i < ops.len()
            &&& is_fire(#[trigger] ops[i])
            &&& op_time(ops[i]) >= last_put_time(ops, k) + d
            &&& (forall|l: int| i <= l < ops.len() ==> !is_put(#[trigger] ops[l], k))
        }
}

proof fn lemma_ordered_skip(ops: Seq<DebOp>)
    requires
        ops.len() > 0,
        times_ordered(ops),
    ensures
        times_ordered(ops.skip(1)),
{
    let t = ops.skip(1);
    assert forall|i: int, j: int| 0 <= i < j < t.len() implies op_time(#[trigger] t[i]) <= op_time(
        #[trigger] t[j],
    ) by {
        assert(t[i] == ops[i + 1]);
        assert(t[j] == ops[j + 1]);
    }
}

proof fn lemma_gaps_skip(ops: Seq<DebOp>, k: Seq<char>, d: int)
    requires
        ops.len() > 0,
        gaps_within(ops, k, d),
    ensures
        gaps_within(ops.skip(1), k, d),
{
    let t = ops.skip(1);
    assert forall|i: int, j: int|
        0 <= i < j < t.len() && #[trigger] is_put(t[i], k) && #[trigger] is_put(
            t[j],
            k,
        ) implies (exists|l: int|
        i < l < t.len() && #[trigger] is_put(t[l], k) && op_time(t[l]) < op_time(t[i]) + d) by {
        assert(t[i] == ops[i + 1]);
        assert(t[j] == ops[j + 1]);
        assert(is_put(ops[i + 1], k) && is_put(ops[j + 1], k));
        let l = choose|l: int|
            i + 1 < l < ops.len() && #[trigger] is_put(ops[l], k) && op_time(ops[l]) < op_time(
                ops[i + 1],
            ) + d;
        assert(t[l - 1] == ops[l]);
        assert(i < l - 1 < t.len() && is_put(t[l - 1], k) && op_time(t[l - 1]) < op_time(t[i])
            + d);
    }
}

proof fn lemma_covers_skip(ops: Seq<DebOp>, k: Seq<char>, d: int)
    requires
        ops.len() > 0,
        fire_covers(ops, k, d),
        has_put(ops.skip(1), k),
    ensures
        fire_covers(ops.skip(1), k, d),
{
    let t = ops.skip(1);
    let i = choose|i: int|
        {
            &&& 0 <= i < ops.len()
            &&& is_fire(#[trigger] ops[i])
            &&& op_time(ops[i]) >= last_put_time(ops, k) + d
            &&& (forall|l: int| i <= l < ops.len() ==> !is_put(#[trigger] ops[l], k))
        };
    if i == 0 {
        let p = choose|p: int| 0 <= p < t.len() && is_put(#[trigger] t[p], k);
        assert(t[p] == ops[p + 1]);
        assert(!is_put(ops[p + 1], k));
        assert(false);
    }
    assert(t[i - 1] == ops[i]);
    assert forall|l: int| i - 1 <= l < t.len() implies !is_put(#[trigger] t[l], k) by {
        assert(t[l] == ops[l + 1]);
    }
    assert(last_put_time(ops, k) == last_put_time(t, k));
    assert(0 <= i - 1 < t.len() && is_fire(t[i - 1]) && op_time(t[i - 1]) >= last_put_time(t, k)
        + d);
}

proof fn lemma_first_put_time_lb(ops: Seq<DebOp>, k: Seq<char>)
    requires
        times_ordered(ops),
        has_put(ops, k),
    ensures
        ops.len() > 0,
        first_put_time(ops, k) >= op_time(ops[0]),
    decreases ops.len(),
{
    let p = choose|p: int| 0 <= p < ops.len() && is_put(#[trigger] ops[p], k);
    if !is_put(ops[0], k) {
        assert(p >= 1);
        assert(ops.skip(1)[p - 1] == ops[p]);
        assert(has_put(ops.skip(1), k));
        lemma_ordered_skip(ops);
        lemma_first_put_time_lb(ops.skip(1), k);
        assert(ops.skip(1)[0] == ops[1]);
        assert(op_time(ops[0]) <= op_time(ops[1]));
    }
}

proof fn lemma_first_put_time_min(ops: Seq<DebOp>, k: Seq<char>, j: int)
    requires
        times_ordered(ops),
        0 <= j < ops.len(),
        is_put(ops[j], k),
    ensures
        first_put_time(ops, k) <= op_time(ops[j]),
    decreases ops.len(),
{
    if is_put(ops[0], k) {
        if j > 0 {
            assert(op_time(ops[0]) <= op_time(ops[j]));
        }
    } else {
        assert(j >= 1);
        assert(ops.skip(1)[j - 1] == ops[j]);
        lemma_ordered_skip(ops);
        lemma_first_put_time_min(ops.skip(1), k, j - 1);
    }
}

proof fn lemma_no_put_no_fire(m: Map<Seq<char>, int>, ops: Seq<DebOp>, d: int, k: Seq<char>)
    requires
        !m.dom().contains(k),
        forall|i: int| 0 <= i < ops.len() ==> !is_put(#[trigger] ops[i], k),
    ensures
        run_fired(m, ops, d, k).len() == 0,
    decreases ops.len(),
{
    if ops.len() > 0 {
        let m1 = step_state(m, ops[0], d);
        match ops[0] {
            DebOp::Put { key, time } => {
                assert(key != k);
            },
            DebOp::Fire { time } => {},
        }
        assert(!m1.dom().contains(k));
        assert forall|i: int| 0 <= i < ops.skip(1).len() implies !is_put(
            #[trigger] ops.skip(1)[i],
            k,
        ) by {
            assert(ops.skip(1)[i] == ops[i + 1]);
        }
        lemma_no_put_no_fire(m1, ops.skip(1), d, k);
    }
}

proof fn lemma_pending_fires_once(m: Map<Seq<char>, int>, ops: Seq<DebOp>, d: int, k: Seq<char>)
    requires
        m.dom().contains(k),
        forall|i: int| 0 <= i < ops.len() ==> !is_put(#[trigger] ops[i], k),
        exists|i: int|
            0 <= i < ops.len() && is_fire(#[trigger] ops[i]) && op_time(ops[i]) >= m[k],
    ensures
        run_fired(m, ops, d, k).len() == 1,
        run_fired(m, ops, d, k)[0] >= m[k],
    decreases ops.len(),
{
    let w = choose|i: int|
        0 <= i < ops.len() && is_fire(#[trigger] ops[i]) && op_time(ops[i]) >= m[k];
    let m1 = step_state(m, ops[0], d);
    let rest = ops.skip(1);
    assert forall|i: int| 0 <= i < rest.len() implies !is_put(#[trigger] rest[i], k) by {
        assert(rest[i] == ops[i + 1]);
    }
    match ops[0] {
        DebOp::Put { key, time } => {
            assert(key != k);
            assert(m1.dom().contains(k) && m1[k] == m[k]);
            assert(w >= 1);
            assert(rest[w - 1] == ops[w]);
            assert(0 <= w - 1 < rest.len() && is_fire(rest[w - 1]) && op_time(rest[w - 1])
                >= m1[k]);
            lemma_pending_fires_once(m1, rest, d, k);
        },
        DebOp::Fire { time } => {
            if time >= m[k] {
                assert(step_fired(m, ops[0], k) == seq![time]);
                assert(!m1.dom().contains(k));
                lemma_no_put_no_fire(m1, rest, d, k);
            } else {
                assert(m1.dom().contains(k) && m1[k] == m[k]);
                assert(w >= 1);
                assert(rest[w - 1] == ops[w]);
                assert(0 <= w - 1 < rest.len() && is_fire(rest[w - 1]) && op_time(rest[w - 1])
                    >= m1[k]);
                lemma_pending_fires_once(m1, rest, d, k);
            }
        },
    }
}

proof fn lemma_burst_aux(m: Map<Seq<char>, int>, ops: Seq<DebOp>, d: int, k: Seq<char>)
    requires
        d >= 0,
        times_ordered(ops),
        gaps_within(ops, k, d),
        has_put(ops, k),
        fire_covers(ops, k, d),
        m.dom().contains(k) ==> m[k] > first_put_time(ops, k),
    ensures
        run_fired(m, ops, d, k).len() == 1,
        run_fired(m, ops, d, k)[0] >= last_put_time(ops, k) + d,
    decreases ops.len(),
{
    let rest = ops.skip(1);
    let m1 = step_state(m, ops[0], d);
    if is_put(ops[0], k) {
        let t0 = op_time(ops[0]);
        assert(m1.dom().contains(k) && m1[k] == t0 + d);
        if has_put(rest, k) {
            let p = choose|p: int| 0 <= p < rest.len() && is_put(#[trigger] rest[p], k);
            assert(rest[p] == ops[p + 1]);
            assert(is_put(ops[p + 1], k));
            let l = choose|l: int|
                0 < l < ops.len() && #[trigger] is_put(ops[l], k) && op_time(ops[l]) < op_time(
                    ops[0],
                ) + d;
            assert(rest[l - 1] == ops[l]);
            lemma_ordered_skip(ops);
            lemma_first_put_time_min(rest, k, l - 1);
            assert(first_put_time(rest, k) <= op_time(ops[l]) < m1[k]);
            lemma_gaps_skip(ops, k, d);
            lemma_covers_skip(ops, k, d);
            assert(last_put_time(ops, k) == last_put_time(rest, k));
            lemma_burst_aux(m1, rest, d, k);
        } else {
            assert(last_put_time(ops, k) == t0);
            let i = choose|i: int|
                {
                    &&& 0 <= i < ops.len()
                    &&& is_fire(#[trigger] ops[i])
                    &&& op_time(ops[i]) >= last_put_time(ops, k) + d
                    &&& (forall|l: int| i <= l < ops.len() ==> !is_put(#[trigger] ops[l], k))
                };
            assert(i >= 1);
            assert(rest[i - 1] == ops[i]);
            assert forall|j: int| 0 <= j < rest.len() implies !is_put(#[trigger] rest[j], k) by {
                if is_put(rest[j], k) {
                    assert(has_put(rest, k));
                }
            }
            assert(0 <= i - 1 < rest.len() && is_fire(rest[i - 1]) && op_time(rest[i - 1])
                >= m1[k]);
            lemma_pending_fires_once(m1, rest, d, k);
        }
    } else {
        let p = choose|p: int| 0 <= p < ops.len() && is_put(#[trigger] ops[p], k);
        assert(p >= 1);
        assert(rest[p - 1] == ops[p]);
        assert(has_put(rest, k));
        if m.dom().contains(k) {
            lemma_first_put_time_lb(ops, k);
        }
        match ops[0] {
            DebOp::Put { key, time } => {
                assert(key != k);
                assert(m1.dom().contains(k) ==> m1[k] == m[k]);
            },
            DebOp::Fire { time } => {
                if m.dom().contains(k) {
                    assert(op_time(ops[0]) <= first_put_time(ops, k) < m[k]);
                    assert(m1.dom().contains(k) && m1[k] == m[k]);
                }
            },
        }
        assert(first_put_time(rest, k) == first_put_time(ops, k));
        lemma_ordered_skip(ops);
        lemma_gaps_skip(ops, k, d);
        lemma_covers_skip(ops, k, d);
        assert(last_put_time(ops, k) == last_put_time(rest, k));
        lemma_burst_aux(m1, rest, d, k);
        assert(step_fired(m, ops[0], k).len() == 0);
    }
}

/// A burst of arrivals of one key fires exactly once: in a time-ordered run
/// whose arrivals of `k` each follow the previous one in less than the delay
/// `d`, and whose last arrival of `k` a firing pass at or after its time plus
/// `d` follows, `k` fires exactly once, at or after the last arrival's time
/// plus `d`.
pub proof fn lemma_burst_fires_once(ops: Seq<DebOp>, d: int, k: Seq<char>)
    requires
        d >= 0,
        times_ordered(ops),
        gaps_within(ops, k, d),
        has_put(ops, k),
        fire_covers(ops, k, d),
    ensures
        run_fired(Map::<Seq<char>, int>::empty(), ops, d, k).len() == 1,
        run_fired(Map::<Seq<char>, int>::empty(), ops, d, k)[0] >= last_put_time(ops, k) + d,
{
    lemma_burst_aux(Map::<Seq<char>, int>::empty(), ops, d, k);
}

/// Distinct keys fire independently: however the arrivals of two distinct
/// keys interleave in one run, each key that forms a covered burst fires
/// exactly once.
pub proof fn lemma_keys_independent(ops: Seq<DebOp>, d: int, k1: Seq<char>, k2: Seq<char>)
    requires
        d >= 0,
        k1 != k2,
        times_ordered(ops),
        gaps_within(ops, k1, d),
        has_put(ops, k1),
        fire_covers(ops, k1, d),
        gaps_within(ops, k2, d),
        has_put(ops, k2),
        fire_covers(ops, k2, d),
    ensures
        run_fired(Map::<Seq<char>, int>::empty(), ops, d, k1).len() == 1,
        run_fired(Map::<Seq<char>, int>::empty(), ops, d, k2).len() == 1,
{
    lemma_burst_aux(Map::<Seq<char>, int>::empty(), ops, d, k1);
    lemma_burst_aux(Map::<Seq<char>, int>::empty(), ops, d, k2);
}

/// The subsequence of a run that key `k` can see: its own arrivals and
/// every firing pass.
pub open spec fn visible_to(ops: Seq<DebOp>, k: Seq<char>) -> Seq<DebOp>
    decreases ops.len(),
{
    if ops.len() == 0 {
        Seq::empty()
    } else if is_put(ops[0], k) || is_fire(ops[0]) {
        seq![ops[0]] + visible_to(ops.skip(1), k)
    } else {
        visible_to(ops.skip(1), k)
    }
}

/// Whether two pending maps agree about key `k`.
pub open spec fn agree_on(m1: Map<Seq<char>, int>, m2: Map<Seq<char>, int>, k: Seq<char>) -> bool {
    (m1.dom().contains(k) <==> m2.dom().contains(k)) && (m1.dom().contains(k) ==> m1[k] == m2[k])
}

proof fn lemma_visible_run(
    m1: Map<Seq<char>, int>,
    m2: Map<Seq<char>, int>,
    ops: Seq<DebOp>,
    d: int,
    k: Seq<char>,
)
    requires
        agree_on(m1, m2, k),
    ensures
        run_fired(m1, ops, d, k) == run_fired(m2, visible_to(ops, k), d, k),
    decreases ops.len(),
{
    if ops.len() > 0 {
        let n1 = step_state(m1, ops[0], d);
        if is_put(ops[0], k) || is_fire(ops[0]) {
            let v = visible_to(ops, k);
            let n2 = step_state(m2, ops[0], d);
            assert(v[0] == ops[0]);
            assert(v.skip(1) =~= visible_to(ops.skip(1), k));
            assert(step_fired(m1, ops[0], k) == step_fired(m2, ops[0], k));
            assert(agree_on(n1, n2, k));
            lemma_visible_run(n1, n2, ops.skip(1), d, k);
        } else {
            match ops[0] {
                DebOp::Put { key, time } => {
                    assert(key != k);
                },
                DebOp::Fire { .. } => {
                    assert(false);
                },
            }
            assert(agree_on(n1, m2, k));
            assert(step_fired(m1, ops[0], k) == Seq::<int>::empty());
            lemma_visible_run(n1, m2, ops.skip(1), d, k);
            assert(run_fired(m1, ops, d, k) =~= run_fired(n1, ops.skip(1), d, k));
        }
    }
}

/// A key's firings depend only on what it can see — its own arrivals and
/// the firing passes: arrivals of other keys, however interleaved into the
/// run, leave the key's firings unchanged.
pub proof fn lemma_firings_independent_of_other_keys(ops: Seq<DebOp>, d: int, k: Seq<char>)
    ensures
        run_fired(Map::<Seq<char>, int>::empty(), ops, d, k) == run_fired(
            Map::<Seq<char>, int>::empty(),
            visible_to(ops, k),
            d,
            k,
        ),
{
    lemma_visible_run(Map::<Seq<char>, int>::empty(), Map::<Seq<char>, int>::empty(), ops, d, k);
}

/// An arrival of one key is invisible to every other key: it neither moves
/// the other key's deadline nor fires it.
pub proof fn lemma_put_frame(m: Map<Seq<char>, int>, k1: Seq<char>, k2: Seq<char>, t: int, d: int)
    requires
        k1 != k2,
    ensures
        step_fired(m, DebOp::Put { key: k2, time: t }, k1) == Seq::<int>::empty(),
        step_state(m, DebOp::Put { key: k2, time: t }, d).dom().contains(k1) <==> m.dom().contains(
            k1,
        ),
        m.dom().contains(k1) ==> step_state(m, DebOp::Put { key: k2, time: t }, d)[k1] == m[k1],
{
}

/// An arrival of `k` immediately followed by another resets the timer: the
/// run continues from the same pending map as after the later arrival alone,
/// and every key fires at the same times — only one firing results, not two.
pub proof fn lemma_repeat_put_resets(
    m: Map<Seq<char>, int>,
    k: Seq<char>,
    t1: int,
    t2: int,
    d: int,
    rest: Seq<DebOp>,
    q: Seq<char>,
)
    ensures
        run_state(m, seq![DebOp::Put { key: k, time: t1 }, DebOp::Put { key: k, time: t2 }] + rest, d)
            == run_state(m, seq![DebOp::Put { key: k, time: t2 }] + rest, d),
        run_fired(m, seq![DebOp::Put { key: k, time: t1 }, DebOp::Put { key: k, time: t2 }] + rest, d, q)
            == run_fired(m, seq![DebOp::Put { key: k, time: t2 }] + rest, d, q),
{
    let ops2 = seq![DebOp::Put { key: k, time: t1 }, DebOp::Put { key: k, time: t2 }] + rest;
    let ops1 = seq![DebOp::Put { key: k, time: t2 }] + rest;
    assert(ops2.skip(1) =~= ops1);
    assert(ops1.skip(1) =~= rest);
    let ma = put_model(m, k, t1, d);
    assert(put_model(ma, k, t2, d) =~= put_model(m, k, t2, d));
    let mb = put_model(m, k, t2, d);
    assert(ops2[0] == DebOp::Put { key: k, time: t1 });
    assert(ops1[0] == DebOp::Put { key: k, time: t2 });
    assert(step_state(m, ops2[0], d) == ma);
    assert(step_state(ma, ops1[0], d) == mb);
    assert(step_state(m, ops1[0], d) == mb);
    assert(run_state(m, ops2, d) == run_state(ma, ops1, d));
    assert(run_state(ma, ops1, d) == run_state(mb, rest, d));
    assert(run_state(m, ops1, d) == run_state(mb, rest, d));
    let x = run_fired(mb, rest, d, q);
    assert(step_fired(m, ops2[0], q) == Seq::<int>::empty());
    assert(step_fired(ma, ops1[0], q) == Seq::<int>::empty());
    assert(step_fired(m, ops1[0], q) == Seq::<int>::empty());
    assert(run_fired(m, ops2, d, q) == Seq::<int>::empty() + run_fired(ma, ops1, d, q));
    assert(run_fired(ma, ops1, d, q) == Seq::<int>::empty() + x);
    assert(run_fired(m, ops1, d, q) == Seq::<int>::empty() + x);
    assert(run_fired(m, ops2, d, q) =~= x);
    assert(run_fired(m, ops1, d, q) =~= x);
}

/// With a zero delay there is no coalescing window: an arrival of `k` fires
/// at the first firing pass at or after its own time.
pub proof fn lemma_zero_delay_immediate(m: Map<Seq<char>, int>, k: Seq<char>, t: int, tf: int)
    requires
        tf >= t,
    ensures
        run_fired(m, seq![DebOp::Put { key: k, time: t }, DebOp::Fire { time: tf }], 0, k) == seq![
            tf,
        ],
{
    let ops = seq![DebOp::Put { key: k, time: t }, DebOp::Fire { time: tf }];
    let m1 = put_model(m, k, t, 0);
    assert(m1.dom().contains(k) && m1[k] == t);
    let ops1 = seq![DebOp::Fire { time: tf }];
    assert(ops.skip(1) =~= ops1);
    assert(ops1.skip(1) =~= Seq::<DebOp>::empty());
    assert(ops[0] == DebOp::Put { key: k, time: t });
    assert(ops1[0] == DebOp::Fire { time: tf });
    assert(step_state(m, ops[0], 0) == m1);
    assert(step_fired(m, ops[0], k) == Seq::<int>::empty());
    assert(step_fired(m1, ops1[0], k) == seq![tf]);
    assert(run_fired(step_state(m1, ops1[0], 0), Seq::<DebOp>::empty(), 0, k)
        == Seq::<int>::empty());
    assert(run_fired(m1, ops1, 0, k) == seq![tf] + Seq::<int>::empty());
    assert(run_fired(m, ops, 0, k) == Seq::<int>::empty() + (seq![tf] + Seq::<int>::empty()));
    assert(run_fired(m, ops, 0, k) =~= seq![tf]);
}

/// With a zero delay each arrival is its own window: two arrivals of `k`,
/// each followed by its own firing pass, fire twice — once at each pass.
pub proof fn lemma_zero_delay_two_windows(m: Map<Seq<char>, int>, k: Seq<char>, t1: int, t2: int)
    requires
        t1 <= t2,
    ensures
        run_fired(
            m,
            seq![
                DebOp::Put { key: k, time: t1 },
                DebOp::Fire { time: t1 },
                DebOp::Put { key: k, time: t2 },
                DebOp::Fire { time: t2 },
            ],
            0,
            k,
        ) == seq![t1, t2],
{
    let ops = seq![
        DebOp::Put { key: k, time: t1 },
        DebOp::Fire { time: t1 },
        DebOp::Put { key: k, time: t2 },
        DebOp::Fire { time: t2 },
    ];
    let m1 = put_model(m, k, t1, 0);
    assert(m1.dom().contains(k) && m1[k] == t1);
    let m2 = fire_model(m1, t1);
    assert(!m2.dom().contains(k));
    let m3 = put_model(m2, k, t2, 0);
    assert(m3.dom().contains(k) && m3[k] == t2);
    let m4 = fire_model(m3, t2);
    let ops1 = seq![
        DebOp::Fire { time: t1 },
        DebOp::Put { key: k, time: t2 },
        DebOp::Fire { time: t2 },
    ];
    let ops2 = seq![DebOp::Put { key: k, time: t2 }, DebOp::Fire { time: t2 }];
    let ops3 = seq![DebOp::Fire { time: t2 }];
    assert(ops.skip(1) =~= ops1);
    assert(ops1.skip(1) =~= ops2);
    assert(ops2.skip(1) =~= ops3);
    assert(ops3.skip(1) =~= Seq::<DebOp>::empty());
    assert(ops[0] == DebOp::Put { key: k, time: t1 });
    assert(ops1[0] == DebOp::Fire { time: t1 });
    assert(ops2[0] == DebOp::Put { key: k, time: t2 });
    assert(ops3[0] == DebOp::Fire { time: t2 });
    assert(step_state(m, ops[0], 0) == m1);
    assert(step_state(m1, ops1[0], 0) == m2);
    assert(step_state(m2, ops2[0], 0) == m3);
    assert(step_state(m3, ops3[0], 0) == m4);
    assert(step_fired(m, ops[0], k) == Seq::<int>::empty());
    assert(step_fired(m1, ops1[0], k) == seq![t1]);
    assert(step_fired(m2, ops2[0], k) == Seq::<int>::empty());
    assert(step_fired(m3, ops3[0], k) == seq![t2]);
    assert(run_fired(m4, Seq::<DebOp>::empty(), 0, k) == Seq::<int>::empty());
    assert(run_fired(m3, ops3, 0, k) == seq![t2] + Seq::<int>::empty());
    assert(run_fired(m2, ops2, 0, k) == Seq::<int>::empty() + (seq![t2] + Seq::<int>::empty()));
    assert(run_fired(m1, ops1, 0, k) == seq![t1] + (Seq::<int>::empty() + (seq![t2]
        + Seq::<int>::empty())));
    assert(run_fired(m, ops, 0, k) == Seq::<int>::empty() + (seq![t1] + (Seq::<int>::empty() + (
    seq![t2] + Seq::<int>::empty()))));
    assert(run_fired(m, ops, 0, k) =~= seq![t1, t2]);
}

} // verus!
