//! The three execution strategies. All perform the identical logical
//! workload — create every order, read every order once by key, then
//! apply each order's fill — so that strategy choice affects timing
//! only, never the logical outcome. The outcome of that workload is
//! pinned to one mathematical map, `workload_outcome`, whatever the
//! registry discipline and whatever the scheduling order of the
//! task-fan-out units within a phase.

use vstd::prelude::*;
use crate::gen::{WorkItem, distinct_keys};
use crate::order::{Order, OrderStatus, spec_apply_fill};
use crate::registry::{Registry, map_wf};
use crate::shared_registry::{
    shared_contents, shared_evict_filled, shared_fill, shared_get, shared_insert, shared_new,
};
use crate::rng::rng_below;
use crate::gen::random_order;

verus! {

/// Every order of the workload is well-formed.
pub open spec fn orders_wf(items: Seq<WorkItem>) -> bool {
    forall|i: int| 0 <= i < items.len() ==> (#[trigger] items[i]).order.wf()
}

/// Registry contents after the create phase has inserted every order,
/// in workload order; a later duplicate key would win.
pub open spec fn after_creates(items: Seq<WorkItem>) -> Map<u64, Order>
    decreases items.len(),
{
    if items.len() == 0 {
        Map::empty()
    } else {
        after_creates(items.drop_last()).insert(items.last().key, items.last().order)
    }
}

/// One fill applied to the order under `key`, when present.
pub open spec fn fill_at(m: Map<u64, Order>, key: u64, quantity: u64) -> Map<u64, Order> {
    if m.contains_key(key) {
        m.insert(key, spec_apply_fill(m[key], quantity))
    } else {
        m
    }
}

/// Contents after the update phase has applied every fill, in
/// workload order.
pub open spec fn after_fills(m: Map<u64, Order>, items: Seq<WorkItem>) -> Map<u64, Order>
    decreases items.len(),
{
    if items.len() == 0 {
        m
    } else {
        fill_at(after_fills(m, items.drop_last()), items.last().key, items.last().fill)
    }
}

/// The logical outcome of the common workload: create everything,
/// then fill everything.
pub open spec fn workload_outcome(items: Seq<WorkItem>) -> Map<u64, Order> {
    after_fills(after_creates(items), items)
}

/// Creating well-formed orders yields a registry of well-formed
/// orders.
pub proof fn lemma_after_creates_wf(items: Seq<WorkItem>)
    requires
        orders_wf(items),
    ensures
        map_wf(after_creates(items)),
    decreases items.len(),
{
    if items.len() > 0 {
        assert(orders_wf(items.drop_last()));
        lemma_after_creates_wf(items.drop_last());
    }
}

/// One fill keeps a well-formed registry well-formed.
pub proof fn lemma_fill_at_wf(m: Map<u64, Order>, key: u64, quantity: u64)
    requires
        map_wf(m),
    ensures
        map_wf(fill_at(m, key, quantity)),
{
    if m.contains_key(key) {
        crate::order::lemma_fill_preserves_wf(m[key], quantity);
    }
}

/// The whole update phase keeps a well-formed registry well-formed.
pub proof fn lemma_after_fills_wf(m: Map<u64, Order>, items: Seq<WorkItem>)
    requires
        map_wf(m),
    ensures
        map_wf(after_fills(m, items)),
    decreases items.len(),
{
    if items.len() > 0 {
        lemma_after_fills_wf(m, items.drop_last());
        lemma_fill_at_wf(after_fills(m, items.drop_last()), items.last().key, items.last().fill);
    }
}

/// The common workload's outcome holds only well-formed orders: after
/// any number of fills, every surviving order still satisfies
/// `filled + remaining == quantity` with a matching status.
pub proof fn lemma_workload_outcome_wf(items: Seq<WorkItem>)
    requires
        orders_wf(items),
    ensures
        map_wf(workload_outcome(items)),
{
    lemma_after_creates_wf(items);
    lemma_after_fills_wf(after_creates(items), items);
}

/// The exclusive strategy: one thread of control owns an unshared
/// registry outright and performs the create, read and update phases
/// strictly in sequence. This is the latency baseline.
pub fn exclusive_run(items: &Vec<WorkItem>) -> (r: Registry)
    requires
        orders_wf(items@),
    ensures
        r@ == workload_outcome(items@),
{
    let n = items.len();
    let mut r = Registry::new();

    let mut i: usize = 0;
    while i < n
        invariant
            n == items@.len(),
            0 <= i <= n,
            orders_wf(items@),
            r@ == after_creates(items@.take(i as int)),
        decreases n - i,
    {
        let it = &items[i];
        r.insert(it.key, it.order.clone());
        proof {
            let pre = items@.take(i as int + 1);
            assert(pre.drop_last() =~= items@.take(i as int));
            assert(pre.last() == items@[i as int]);
        }
        i = i + 1;
    }
    proof {
        assert(items@.take(n as int) =~= items@);
        lemma_after_creates_wf(items@);
    }

    let mut i: usize = 0;
    while i < n
        invariant
            n == items@.len(),
            0 <= i <= n,
            r@ == after_creates(items@),
        decreases n - i,
    {
        let _lookup = r.get(items[i].key);
        i = i + 1;
    }

    let mut i: usize = 0;
    while i < n
        invariant
            n == items@.len(),
            0 <= i <= n,
            orders_wf(items@),
            map_wf(r@),
            r@ == after_fills(after_creates(items@), items@.take(i as int)),
        decreases n - i,
    {
        let it = &items[i];
        proof {
            let pre = items@.take(i as int + 1);
            assert(pre.drop_last() =~= items@.take(i as int));
            assert(pre.last() == items@[i as int]);
            lemma_fill_at_wf(r@, it.key, it.fill);
        }
        r.fill(it.key, it.fill);
        i = i + 1;
    }
    proof {
        assert(items@.take(n as int) =~= items@);
    }
    r
}

/// The shared-concurrent strategy: the same three phases, still driven
/// by a single thread of control here, but against the synchronized
/// sharded registry, isolating the overhead of its synchronization.
pub fn shared_run(items: &Vec<WorkItem>) -> (m: dashmap::DashMap<u64, Order>)
    requires
        orders_wf(items@),
    ensures
        shared_contents(m) == workload_outcome(items@),
{
    let n = items.len();
    let mut m = shared_new();

    let mut i: usize = 0;
    while i < n
        invariant
            n == items@.len(),
            0 <= i <= n,
            orders_wf(items@),
            shared_contents(m) == after_creates(items@.take(i as int)),
        decreases n - i,
    {
        let it = &items[i];
        shared_insert(&mut m, it.key, it.order.clone());
        proof {
            let pre = items@.take(i as int + 1);
            assert(pre.drop_last() =~= items@.take(i as int));
            assert(pre.last() == items@[i as int]);
        }
        i = i + 1;
    }
    proof {
        assert(items@.take(n as int) =~= items@);
        lemma_after_creates_wf(items@);
    }

    let mut i: usize = 0;
    while i < n
        invariant
            n == items@.len(),
            0 <= i <= n,
            shared_contents(m) == after_creates(items@),
        decreases n - i,
    {
        let _lookup = shared_get(&m, items[i].key);
        i = i + 1;
    }

    let mut i: usize = 0;
    while i < n
        invariant
            n == items@.len(),
            0 <= i <= n,
            orders_wf(items@),
            map_wf(shared_contents(m)),
            shared_contents(m) == after_fills(after_creates(items@), items@.take(i as int)),
        decreases n - i,
    {
        let it = &items[i];
        proof {
            let pre = items@.take(i as int + 1);
            assert(pre.drop_last() =~= items@.take(i as int));
            assert(pre.last() == items@[i as int]);
            lemma_fill_at_wf(shared_contents(m), it.key, it.fill);
        }
        shared_fill(&mut m, it.key, it.fill);
        i = i + 1;
    }
    proof {
        assert(items@.take(n as int) =~= items@);
    }
    m
}

/// Whether some workload item carries this registry key.
pub open spec fn has_key(items: Seq<WorkItem>, k: u64) -> bool {
    exists|i: int| 0 <= i < items.len() && (#[trigger] items[i]).key == k
}

/// Whether the unit index `v` appears somewhere in the schedule.
pub open spec fn appears(s: Seq<usize>, v: int) -> bool {
    exists|t: int| 0 <= t < s.len() && (#[trigger] s[t]) == v
}

/// A completion schedule for one phase of the task-fan-out strategy:
/// each of the `n` independently scheduled units appears exactly once.
pub open spec fn is_schedule(s: Seq<usize>, n: nat) -> bool {
    &&& s.len() == n
    &&& forall|t: int| 0 <= t < s.len() ==> (#[trigger] s[t]) < n
    &&& forall|t1: int, t2: int|
        0 <= t1 < t2 < s.len() ==> (#[trigger] s[t1]) != (#[trigger] s[t2])
    &&& forall|v: int| 0 <= v < n ==> #[trigger] appears(s, v)
}

/// Checks that `schedule` lists each unit index below `n` exactly
/// once, so it can stand for one possible completion order of a phase.
pub fn check_schedule(schedule: &Vec<usize>, n: usize) -> (ok: bool)
    ensures
        ok == is_schedule(schedule@, n as nat),
{
    if schedule.len() != n {
        return false;
    }
    let mut seen: Vec<bool> = Vec::new();
    let mut v: usize = 0;
    while v < n
        invariant
            0 <= v <= n,
            seen@.len() == v,
            forall|x: int| 0 <= x < v ==> !(#[trigger] seen@[x]),
        decreases n - v,
    {
        seen.push(false);
        v = v + 1;
    }
    let mut t: usize = 0;
    while t < n
        invariant
            0 <= t <= n,
            n == schedule@.len(),
            seen@.len() == n,
            forall|x: int|
                0 <= x < n ==> ((#[trigger] seen@[x]) <==> exists|u: int|
                    0 <= u < t && (#[trigger] schedule@[u]) == x),
            forall|u: int| 0 <= u < t ==> (#[trigger] schedule@[u]) < n,
            forall|u1: int, u2: int|
                0 <= u1 < u2 < t ==> (#[trigger] schedule@[u1]) != (#[trigger] schedule@[u2]),
        decreases n - t,
    {
        let idx = schedule[t];
        if idx >= n {
            proof {
                assert(!is_schedule(schedule@, n as nat)) by {
                    if is_schedule(schedule@, n as nat) {
                        assert(schedule@[t as int] < n);
                    }
                }
            }
            return false;
        }
        if seen[idx] {
            proof {
                assert(!is_schedule(schedule@, n as nat)) by {
                    let u = choose|u: int| 0 <= u < t && (#[trigger] schedule@[u]) == idx as int;
                    if is_schedule(schedule@, n as nat) {
                        assert(schedule@[u] != schedule@[t as int]);
                    }
                }
            }
            return false;
        }
        seen[idx] = true;
        proof {
            assert forall|x: int|
                0 <= x < n implies ((#[trigger] seen@[x]) <==> exists|u: int|
                    0 <= u < t + 1 && (#[trigger] schedule@[u]) == x) by {
                if x == idx as int {
                    assert(schedule@[t as int] == x);
                }
            }
        }
        t = t + 1;
    }
    let mut v: usize = 0;
    while v < n
        invariant
            0 <= v <= n,
            n == schedule@.len(),
            seen@.len() == n,
            forall|x: int|
                0 <= x < n ==> ((#[trigger] seen@[x]) <==> exists|u: int|
                    0 <= u < n && (#[trigger] schedule@[u]) == x),
            forall|u: int| 0 <= u < n ==> (#[trigger] schedule@[u]) < n,
            forall|u1: int, u2: int|
                0 <= u1 < u2 < n ==> (#[trigger] schedule@[u1]) != (#[trigger] schedule@[u2]),
            forall|x: int| 0 <= x < v ==> (#[trigger] seen@[x]),
        decreases n - v,
    {
        if !seen[v] {
            proof {
                assert(!is_schedule(schedule@, n as nat)) by {
                    if is_schedule(schedule@, n as nat) {
                        assert(appears(schedule@, v as int));
                        let u = choose|u: int|
                            0 <= u < schedule@.len() && (#[trigger] schedule@[u]) == v as int;
                        assert(seen@[v as int]);
                    }
                }
            }
            return false;
        }
        v = v + 1;
    }
    proof {
        assert forall|x: int| 0 <= x < n implies #[trigger] appears(schedule@, x) by {
            assert(seen@[x]);
            let u = choose|u: int| 0 <= u < n && (#[trigger] schedule@[u]) == x;
            assert(0 <= u < schedule@.len() && schedule@[u] == x);
        }
    }
    true
}

/// What the create phase builds, pointwise: each item's order sits
/// under its key, and nothing else is in the registry.
pub proof fn lemma_after_creates_char(items: Seq<WorkItem>)
    requires
        distinct_keys(items),
    ensures
        forall|i: int|
            0 <= i < items.len() ==> {
                let it = #[trigger] items[i];
                after_creates(items).contains_key(it.key) && after_creates(items)[it.key]
                    == it.order
            },
        forall|k: u64| #[trigger] after_creates(items).contains_key(k) ==> has_key(items, k),
    decreases items.len(),
{
    if items.len() > 0 {
        let prev = items.drop_last();
        assert(distinct_keys(prev));
        lemma_after_creates_char(prev);
        assert forall|i: int|
            0 <= i < items.len() implies {
            let it = #[trigger] items[i];
            after_creates(items).contains_key(it.key) && after_creates(items)[it.key] == it.order
        } by {
            if i < items.len() - 1 {
                assert(prev[i] == items[i]);
                assert(items[i].key != items.last().key);
            }
        }
        assert forall|k: u64| #[trigger] after_creates(items).contains_key(k) implies has_key(
            items,
            k,
        ) by {
            if k == items.last().key {
                assert(items[items.len() - 1].key == k);
            } else {
                assert(after_creates(prev).contains_key(k));
                let i = choose|i: int| 0 <= i < prev.len() && (#[trigger] prev[i]).key == k;
                assert(items[i].key == k);
            }
        }
    }
}

/// What the update phase does, pointwise, when no two items share a
/// key: each item's key is filled exactly once, every other key is
/// untouched, and the key set does not change.
pub proof fn lemma_after_fills_char(m: Map<u64, Order>, items: Seq<WorkItem>)
    requires
        distinct_keys(items),
    ensures
        after_fills(m, items).dom() == m.dom(),
        forall|i: int|
            0 <= i < items.len() && m.contains_key((#[trigger] items[i]).key) ==> after_fills(
                m,
                items,
            )[items[i].key] == spec_apply_fill(m[items[i].key], items[i].fill),
        forall|k: u64|
            m.contains_key(k) && !has_key(items, k) ==> #[trigger] after_fills(m, items)[k] == m[k],
    decreases items.len(),
{
    if items.len() == 0 {
        assert(after_fills(m, items).dom() =~= m.dom());
    } else {
        let prev = items.drop_last();
        let last = items.last();
        assert(distinct_keys(prev));
        lemma_after_fills_char(m, prev);
        let before = after_fills(m, prev);
        assert(after_fills(m, items) == fill_at(before, last.key, last.fill));
        assert(after_fills(m, items).dom() =~= m.dom());
        assert forall|i: int|
            0 <= i < items.len() && m.contains_key((#[trigger] items[i]).key) implies after_fills(
            m,
            items,
        )[items[i].key] == spec_apply_fill(m[items[i].key], items[i].fill) by {
            if i < items.len() - 1 {
                assert(prev[i] == items[i]);
                assert(items[i].key != last.key);
            } else {
                assert(!has_key(prev, last.key)) by {
                    if has_key(prev, last.key) {
                        let u = choose|u: int|
                            0 <= u < prev.len() && (#[trigger] prev[u]).key == last.key;
                        assert(items[u].key == items[items.len() - 1].key);
                        assert(false);
                    }
                }
                assert(before[last.key] == m[last.key]);
                assert(before.contains_key(last.key));
            }
        }
        assert forall|k: u64|
            m.contains_key(k) && !has_key(items, k) implies #[trigger] after_fills(m, items)[k]
            == m[k] by {
            assert(!has_key(prev, k)) by {
                if has_key(prev, k) {
                    let u = choose|u: int| 0 <= u < prev.len() && (#[trigger] prev[u]).key == k;
                    assert(items[u].key == k);
                }
            }
            assert(items[items.len() - 1].key != k);
        }
    }
}

/// The task-fan-out strategy's logical outcome. Each create, read and
/// update of each order is an independently scheduled unit of work
/// against the shared registry; a phase is a join point, so the next
/// phase starts only when every unit of the previous one has finished,
/// but the completion order of units inside a phase is unspecified.
/// This driver takes one completion order per phase and shows that the
/// outcome is the same `workload_outcome` whatever those orders are —
/// every unit works on the distinct key it derives from its own index.
pub fn fanout_run(
    items: &Vec<WorkItem>,
    create_order: &Vec<usize>,
    read_order: &Vec<usize>,
    update_order: &Vec<usize>,
) -> (m: dashmap::DashMap<u64, Order>)
    requires
        orders_wf(items@),
        distinct_keys(items@),
        is_schedule(create_order@, items@.len()),
        is_schedule(read_order@, items@.len()),
        is_schedule(update_order@, items@.len()),
    ensures
        shared_contents(m) == workload_outcome(items@),
{
    let n = items.len();
    let mut m = shared_new();
    let ghost ac = after_creates(items@);
    proof {
        lemma_after_creates_char(items@);
        lemma_after_creates_wf(items@);
    }

    let mut t: usize = 0;
    while t < n
        invariant
            n == items@.len(),
            0 <= t <= n,
            distinct_keys(items@),
            is_schedule(create_order@, n as nat),
            forall|u: int|
                0 <= u < t ==> {
                    let it = items@[(#[trigger] create_order@[u]) as int];
                    shared_contents(m).contains_key(it.key) && shared_contents(m)[it.key]
                        == it.order
                },
            forall|k: u64|
                #[trigger] shared_contents(m).contains_key(k) ==> exists|u: int|
                    0 <= u < t && items@[(#[trigger] create_order@[u]) as int].key == k,
        decreases n - t,
    {
        let idx = create_order[t];
        let it = &items[idx];
        shared_insert(&mut m, it.key, it.order.clone());
        proof {
            assert forall|u: int|
                0 <= u < t + 1 implies {
                let itu = items@[(#[trigger] create_order@[u]) as int];
                shared_contents(m).contains_key(itu.key) && shared_contents(m)[itu.key]
                    == itu.order
            } by {
                if u < t {
                    let prior = create_order@[u];
                    if items@[prior as int].key == items@[idx as int].key {
                        assert(prior != idx);
                        assert(false);
                    }
                }
            }
        }
        t = t + 1;
    }
    proof {
        assert forall|k: u64| ac.contains_key(k) implies shared_contents(m).contains_key(k) by {
            let i = choose|i: int| 0 <= i < items@.len() && (#[trigger] items@[i]).key == k;
            assert(appears(create_order@, i));
            let u = choose|u: int|
                0 <= u < create_order@.len() && (#[trigger] create_order@[u]) == i;
            assert(items@[(create_order@[u]) as int].key == k);
        };
        assert forall|k: u64| shared_contents(m).contains_key(k) implies ac.contains_key(k)
            && #[trigger] shared_contents(m)[k] == ac[k] by {
            let u = choose|u: int|
                0 <= u < items@.len() && items@[(#[trigger] create_order@[u]) as int].key == k;
            let i = create_order@[u] as int;
            assert(items@[i].key == k);
        };
        assert(shared_contents(m) =~= ac);
    }

    let mut t: usize = 0;
    while t < n
        invariant
            n == items@.len(),
            0 <= t <= n,
            is_schedule(read_order@, n as nat),
            shared_contents(m) == ac,
        decreases n - t,
    {
        let idx = read_order[t];
        let _lookup = shared_get(&m, items[idx].key);
        t = t + 1;
    }

    proof {
        lemma_after_fills_char(ac, items@);
    }
    let ghost af = after_fills(ac, items@);
    let mut t: usize = 0;
    while t < n
        invariant
            n == items@.len(),
            0 <= t <= n,
            orders_wf(items@),
            distinct_keys(items@),
            map_wf(shared_contents(m)),
            is_schedule(update_order@, n as nat),
            ac == after_creates(items@),
            forall|i: int|
                0 <= i < n ==> {
                    let it = #[trigger] items@[i];
                    ac.contains_key(it.key) && ac[it.key] == it.order
                },
            shared_contents(m).dom() == ac.dom(),
            forall|u: int|
                0 <= u < t ==> {
                    let it = items@[(#[trigger] update_order@[u]) as int];
                    shared_contents(m)[it.key] == spec_apply_fill(ac[it.key], it.fill)
                },
            forall|u: int|
                t <= u < n ==> {
                    let it = items@[(#[trigger] update_order@[u]) as int];
                    shared_contents(m)[it.key] == ac[it.key]
                },
        decreases n - t,
    {
        let idx = update_order[t];
        let it = &items[idx];
        proof {
            assert(ac.contains_key(it.key));
            assert(shared_contents(m).contains_key(it.key));
            assert(shared_contents(m)[it.key] == ac[it.key]);
        }
        shared_fill(&mut m, it.key, it.fill);
        proof {
            crate::order::lemma_fill_preserves_wf(ac[it.key], it.fill);
            assert forall|u: int|
                0 <= u < t + 1 implies {
                let itu = items@[(#[trigger] update_order@[u]) as int];
                shared_contents(m)[itu.key] == spec_apply_fill(ac[itu.key], itu.fill)
            } by {
                if u < t {
                    let prior = update_order@[u];
                    if items@[prior as int].key == items@[idx as int].key {
                        assert(prior != idx);
                        assert(false);
                    }
                }
            }
            assert forall|u: int|
                t + 1 <= u < n implies {
                let itu = items@[(#[trigger] update_order@[u]) as int];
                shared_contents(m)[itu.key] == ac[itu.key]
            } by {
                let later = update_order@[u];
                if items@[later as int].key == items@[idx as int].key {
                    assert(later != idx);
                    assert(false);
                }
            }
        }
        t = t + 1;
    }
    proof {
        assert forall|k: u64| shared_contents(m).contains_key(k) implies #[trigger] shared_contents(
            m,
        )[k] == af[k] by {
            let i = choose|i: int| 0 <= i < items@.len() && (#[trigger] items@[i]).key == k;
            assert(appears(update_order@, i));
            let u = choose|u: int|
                0 <= u < update_order@.len() && (#[trigger] update_order@[u]) == i;
            assert(items@[(update_order@[u]) as int].key == k);
            assert(shared_contents(m)[k] == spec_apply_fill(ac[k], items@[i].fill));
        };
        assert(shared_contents(m).dom() =~= af.dom());
        assert(shared_contents(m) =~= af);
    }
    m
}

/// No fully filled order remains in the snapshot.
pub open spec fn no_filled(m: Map<u64, Order>) -> bool {
    forall|k: u64| m.contains_key(k) ==> (#[trigger] m[k]).status != OrderStatus::Filled
}

/// How many batches pass between two cleanup sweeps unless configured
/// otherwise. A policy constant with no documented derivation; kept at
/// this value for report continuity.
pub const DEFAULT_CLEANUP_INTERVAL: usize = 1000;

/// The most recent batch, among the first `b`, that ended in a
/// cleanup sweep: the largest multiple of the interval not above
/// `b - 1`. Batch zero always sweeps, so once any batch has run this
/// is a batch index in `[0, b)`.
pub open spec fn last_sweep_batch(b: int, cleanup_interval: int) -> int {
    ((b - 1) / cleanup_interval) * cleanup_interval
}

proof fn lemma_last_sweep_bounds(b: int, ci: int)
    requires
        b >= 1,
        ci >= 1,
    ensures
        0 <= last_sweep_batch(b, ci) <= b - 1,
{
    let q = (b - 1) / ci;
    let r = (b - 1) % ci;
    vstd::arithmetic::div_mod::lemma_fundamental_div_mod(b - 1, ci);
    vstd::arithmetic::div_mod::lemma_div_pos_is_pos(b - 1, ci);
    assert(0 <= r < ci) by (nonlinear_arith)
        requires
            r == (b - 1) % ci,
            ci >= 1,
    ;
    assert(q * ci == ci * q) by (nonlinear_arith);
    assert(q * ci >= 0) by (nonlinear_arith)
        requires
            q >= 0,
            ci >= 1,
    ;
    assert(last_sweep_batch(b, ci) == (b - 1) - r);
}

proof fn lemma_last_sweep_step(b: int, ci: int)
    requires
        b >= 0,
        ci >= 1,
    ensures
        b % ci == 0 ==> last_sweep_batch(b + 1, ci) == b,
        (b >= 1 && b % ci != 0) ==> last_sweep_batch(b + 1, ci) == last_sweep_batch(b, ci),
{
    let q = b / ci;
    vstd::arithmetic::div_mod::lemma_fundamental_div_mod(b, ci);
    assert(q * ci == ci * q) by (nonlinear_arith);
    if b % ci == 0 {
        assert(last_sweep_batch(b + 1, ci) == q * ci);
    } else if b >= 1 {
        assert(0 <= b % ci < ci) by (nonlinear_arith)
            requires
                ci >= 1,
        ;
        assert(b - 1 == q * ci + ((b % ci) - 1));
        vstd::arithmetic::div_mod::lemma_fundamental_div_mod_converse(
            b - 1,
            ci,
            q,
            (b % ci) - 1,
        );
    }
}

/// The sustained-load variant: loops over batches, interleaving
/// create-then-fill per order instead of separating bulk phases, and
/// after every `cleanup_interval`-th batch sweeps out every fully
/// filled order. Which orders a sweep evicts depends on the drawn
/// fills, but whatever is drawn: every surviving order is well-formed
/// and sits under the key it was created with; everything created
/// after the last sweep is still present; and nothing fully filled
/// survives from the batches the last sweep covered — so when the
/// final batch ended in a sweep, nothing fully filled remains at all.
pub fn sustained_run(
    batch_size: usize,
    batches: usize,
    cleanup_interval: usize,
    instrument_count: u64,
    client_count: u64,
    rng: &mut rand::rngs::StdRng,
) -> (m: dashmap::DashMap<u64, Order>)
    requires
        cleanup_interval >= 1,
        instrument_count >= 1,
        client_count >= 1,
        (batches as int) * (batch_size as int) <= u64::MAX,
    ensures
        map_wf(shared_contents(m)),
        forall|k: u64|
            shared_contents(m).contains_key(k) ==> k < (batches as int) * (batch_size as int)
                && (#[trigger] shared_contents(m)[k]).order_id == k,
        batches >= 1 ==> forall|k: u64|
            (last_sweep_batch(batches as int, cleanup_interval as int) + 1) * (batch_size as int)
                <= k < (batches as int) * (batch_size as int)
                ==> #[trigger] shared_contents(m).contains_key(k),
        batches >= 1 ==> forall|k: u64|
            #[trigger] shared_contents(m).contains_key(k) && k < (last_sweep_batch(
                batches as int,
                cleanup_interval as int,
            ) + 1) * (batch_size as int) ==> shared_contents(m)[k].status != OrderStatus::Filled,
        (batches >= 1 && ((batches - 1) as int) % (cleanup_interval as int) == 0) ==> no_filled(
            shared_contents(m),
        ),
{
    let ghost ci = cleanup_interval as int;
    let ghost bs = batch_size as int;
    let mut m = shared_new();
    let mut b: usize = 0;
    while b < batches
        invariant
            cleanup_interval >= 1,
            instrument_count >= 1,
            client_count >= 1,
            ci == cleanup_interval as int,
            bs == batch_size as int,
            (batches as int) * bs <= u64::MAX,
            0 <= b <= batches,
            map_wf(shared_contents(m)),
            forall|k: u64|
                shared_contents(m).contains_key(k) ==> k < (b as int) * bs && (
                #[trigger] shared_contents(m)[k]).order_id == k,
            b >= 1 ==> forall|k: u64|
                (last_sweep_batch(b as int, ci) + 1) * bs <= k < (b as int) * bs
                    ==> #[trigger] shared_contents(m).contains_key(k),
            b >= 1 ==> forall|k: u64|
                #[trigger] shared_contents(m).contains_key(k) && k < (last_sweep_batch(b as int, ci)
                    + 1) * bs ==> shared_contents(m)[k].status != OrderStatus::Filled,
        decreases batches - b,
    {
        proof {
            assert((b as int) * bs + bs <= (batches as int) * bs) by (nonlinear_arith)
                requires
                    0 <= b < batches,
                    bs >= 0,
            ;
            assert((b as int) * bs >= 0) by (nonlinear_arith)
                requires
                    b >= 0,
                    bs >= 0,
            ;
            assert(((b as int) + 1) * bs == (b as int) * bs + bs) by (nonlinear_arith);
            if b >= 1 {
                lemma_last_sweep_bounds(b as int, ci);
                assert((last_sweep_batch(b as int, ci) + 1) * bs <= (b as int) * bs)
                    by (nonlinear_arith)
                    requires
                        last_sweep_batch(b as int, ci) + 1 <= b as int,
                        bs >= 0,
                ;
            }
        }
        let base: u64 = (b as u64) * (batch_size as u64);
        let mut i: usize = 0;
        while i < batch_size
            invariant
                instrument_count >= 1,
                client_count >= 1,
                ci == cleanup_interval as int,
                bs == batch_size as int,
                cleanup_interval >= 1,
                0 <= i <= batch_size,
                0 <= b,
                base == (b as int) * bs,
                base + batch_size <= u64::MAX,
                b >= 1 ==> (last_sweep_batch(b as int, ci) + 1) * bs <= base,
                map_wf(shared_contents(m)),
                forall|k: u64|
                    shared_contents(m).contains_key(k) ==> k < base + i && (
                    #[trigger] shared_contents(m)[k]).order_id == k,
                forall|k: u64|
                    base <= k < base + i ==> #[trigger] shared_contents(m).contains_key(k),
                b >= 1 ==> forall|k: u64|
                    (last_sweep_batch(b as int, ci) + 1) * bs <= k < base
                        ==> #[trigger] shared_contents(m).contains_key(k),
                b >= 1 ==> forall|k: u64|
                    #[trigger] shared_contents(m).contains_key(k) && k < (last_sweep_batch(
                        b as int,
                        ci,
                    ) + 1) * bs ==> shared_contents(m)[k].status != OrderStatus::Filled,
            decreases batch_size - i,
        {
            let key = base + (i as u64);
            let id = i as u64;
            let order = random_order(key, id % instrument_count, id % client_count, rng);
            let quantity = order.quantity;
            shared_insert(&mut m, key, order);
            let fill = rng_below(rng, 1, quantity + 1);
            proof {
                lemma_fill_at_wf(shared_contents(m), key, fill);
            }
            shared_fill(&mut m, key, fill);
            i = i + 1;
        }
        if b % cleanup_interval == 0 {
            shared_evict_filled(&mut m);
            proof {
                assert(no_filled(shared_contents(m)));
                assert(map_wf(shared_contents(m)));
                lemma_last_sweep_step(b as int, ci);
                assert(last_sweep_batch(b as int + 1, ci) == b as int);
            }
        } else {
            proof {
                assert(b >= 1) by {
                    if b == 0 {
                        assert(0int % ci == 0) by (nonlinear_arith)
                            requires
                                ci >= 1,
                        ;
                    }
                }
                lemma_last_sweep_step(b as int, ci);
                assert(last_sweep_batch(b as int + 1, ci) == last_sweep_batch(b as int, ci));
            }
        }
        b = b + 1;
    }
    proof {
        if batches >= 1 && ((batches - 1) as int) % ci == 0 {
            let q = ((batches - 1) as int) / ci;
            vstd::arithmetic::div_mod::lemma_fundamental_div_mod((batches - 1) as int, ci);
            assert(q * ci == ci * q) by (nonlinear_arith);
            assert(last_sweep_batch(batches as int, ci) == (batches - 1) as int);
            assert((last_sweep_batch(batches as int, ci) + 1) * bs == (batches as int) * bs)
                by (nonlinear_arith)
                requires
                    last_sweep_batch(batches as int, ci) + 1 == batches as int,
            ;
        }
    }
    m
}

/// All three execution strategies agree: given one workload, the final
/// key-to-order snapshot is the same mathematical map — the strategy
/// choice affects timing only, never the logical outcome. The
/// exclusive, shared-concurrent and task-fan-out drivers each ensure
/// their result equals `workload_outcome`, so any two runs over the
/// same items end in identical registries.
pub proof fn lemma_strategies_agree(
    a: Map<u64, Order>,
    b: Map<u64, Order>,
    items: Seq<WorkItem>,
)
    requires
        a == workload_outcome(items),
        b == workload_outcome(items),
    ensures
        a == b,
{
}

} // verus!
