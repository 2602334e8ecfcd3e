//! The workload generator: reproducible batches of synthetic orders
//! keyed by synthetic identifiers, plus the nested multi-exchange
//! variant and its flatten operation.
//!
//! Symbols and client identifiers cycle through bounded sets so the
//! workload exhibits realistic key-collision locality. Every random
//! attribute is drawn from the injectable seeded source, and the fill
//! each order will later receive is drawn here as part of the
//! workload, so that all execution strategies apply the identical
//! logical work.

use vstd::prelude::*;
use crate::order::{Order, OrderKind, OrderSide, OrderStatus};
use crate::registry::Registry;
use crate::rng::rng_below;
use crate::text::{push_decimal, spec_digits};

verus! {

/// How many distinct instrument symbols the flat workload cycles over.
pub const DEFAULT_INSTRUMENT_COUNT: u64 = 1000;

/// How many distinct client identifiers the flat workload cycles over.
pub const DEFAULT_CLIENT_COUNT: u64 = 100;

/// A label made of a fixed prefix and a decimal index.
pub open spec fn spec_label(prefix: Seq<char>, n: nat) -> Seq<char> {
    prefix + spec_digits(n)
}

/// The symbol of the instrument with a given index.
pub open spec fn spec_symbol_label(n: nat) -> Seq<char> {
    spec_label("STOCK_"@, n)
}

/// The identifier of the client with a given index.
pub open spec fn spec_client_label(n: nat) -> Seq<char> {
    spec_label("CLIENT_"@, n)
}

/// The conventional display form of a numeric registry lookup key.
pub open spec fn spec_order_key_label(n: nat) -> Seq<char> {
    spec_label("ORD_"@, n)
}

/// The label of the exchange with a given index.
pub open spec fn spec_exchange_label(n: nat) -> Seq<char> {
    spec_label("EXCHANGE_"@, n)
}

fn label_string(prefix: &str, n: u64) -> (r: String)
    ensures
        r@ == spec_label(prefix@, n as nat),
{
    let mut s = prefix.to_owned();
    push_decimal(n, &mut s);
    s
}

/// Renders `STOCK_{n}`.
pub fn symbol_label(n: u64) -> (r: String)
    ensures
        r@ == spec_symbol_label(n as nat),
{
    label_string("STOCK_", n)
}

/// Renders `CLIENT_{n}`.
pub fn client_label(n: u64) -> (r: String)
    ensures
        r@ == spec_client_label(n as nat),
{
    label_string("CLIENT_", n)
}

/// Renders `ORD_{n}`, the display form of a registry key.
pub fn order_key_label(n: u64) -> (r: String)
    ensures
        r@ == spec_order_key_label(n as nat),
{
    label_string("ORD_", n)
}

/// Renders `EXCHANGE_{n}`.
pub fn exchange_label(n: u64) -> (r: String)
    ensures
        r@ == spec_exchange_label(n as nat),
{
    label_string("EXCHANGE_", n)
}

/// One unit of workload: the registry key an order will live under,
/// the freshly created order, and the fill it will later receive.
pub struct WorkItem {
    pub key: u64,
    pub order: Order,
    pub fill: u64,
}

impl Clone for WorkItem {
    fn clone(&self) -> (r: Self)
        ensures
            r == *self,
    {
        WorkItem { key: self.key, order: self.order.clone(), fill: self.fill }
    }
}

/// A workload item holds a fresh well-formed order and a positive fill
/// no larger than the order's requested quantity.
pub open spec fn wf_item(it: WorkItem) -> bool {
    &&& it.order.wf()
    &&& it.order.filled_quantity == 0
    &&& it.order.status == OrderStatus::New
    &&& 1 <= it.fill <= it.order.quantity
}

/// No two workload items share a registry key.
pub open spec fn distinct_keys(items: Seq<WorkItem>) -> bool {
    forall|i: int, j: int|
        0 <= i < j < items.len() ==> (#[trigger] items[i]).key != (#[trigger] items[j]).key
}

/// A well-formed workload: distinct keys, every item well-formed.
pub open spec fn wf_workload(items: Seq<WorkItem>) -> bool {
    &&& distinct_keys(items)
    &&& forall|i: int| 0 <= i < items.len() ==> wf_item(#[trigger] items[i])
}

/// Creates one synthetic order. Side, kind, quantity, price and
/// timestamp are drawn uniformly from the fixed ranges; identity and
/// the bounded symbol and client labels come from the caller.
pub fn random_order(
    order_id: u64,
    symbol_index: u64,
    client_index: u64,
    rng: &mut rand::rngs::StdRng,
) -> (o: Order)
    ensures
        o.wf(),
        o.order_id == order_id,
        o.symbol@ == spec_symbol_label(symbol_index as nat),
        o.client_id@ == spec_client_label(client_index as nat),
        o.filled_quantity == 0,
        o.remaining_quantity == o.quantity,
        o.status == OrderStatus::New,
        1 <= o.quantity < 10000,
        10000 <= o.price_milli < 1000000,
        1600000000 <= o.timestamp < 1700000000,
{
    let side_draw = rng_below(rng, 0, 2);
    let kind_draw = rng_below(rng, 0, 4);
    let quantity = rng_below(rng, 1, 10000);
    let price_milli = rng_below(rng, 10000, 1000000);
    let timestamp = rng_below(rng, 1600000000, 1700000000);
    Order {
        order_id,
        symbol: symbol_label(symbol_index),
        side: if side_draw == 0 {
            OrderSide::Buy
        } else {
            OrderSide::Sell
        },
        kind: if kind_draw == 0 {
            OrderKind::Market
        } else if kind_draw == 1 {
            OrderKind::Limit
        } else if kind_draw == 2 {
            OrderKind::Stop
        } else {
            OrderKind::StopLimit
        },
        quantity,
        price_milli,
        filled_quantity: 0,
        remaining_quantity: quantity,
        status: OrderStatus::New,
        timestamp,
        client_id: client_label(client_index),
    }
}

/// Generates the flat workload: `size` orders keyed by their index,
/// with symbols and clients cycling through the bounded sets, and one
/// positive randomized fill per order.
pub fn generate(
    size: usize,
    instrument_count: u64,
    client_count: u64,
    rng: &mut rand::rngs::StdRng,
) -> (items: Vec<WorkItem>)
    requires
        instrument_count >= 1,
        client_count >= 1,
        size <= u64::MAX,
    ensures
        items@.len() == size,
        wf_workload(items@),
        forall|i: int|
            0 <= i < size ==> {
                let it = #[trigger] items@[i];
                &&& it.key == i
                &&& it.order.order_id == i
                &&& it.order.symbol@ == spec_symbol_label(((i as u64) % instrument_count) as nat)
                &&& it.order.client_id@ == spec_client_label(((i as u64) % client_count) as nat)
                &&& it.order.remaining_quantity == it.order.quantity
                &&& 1 <= it.order.quantity < 10000
                &&& 10000 <= it.order.price_milli < 1000000
                &&& 1600000000 <= it.order.timestamp < 1700000000
                &&& 1 <= it.fill <= it.order.quantity
            },
{
    let mut items: Vec<WorkItem> = Vec::new();
    let mut i: usize = 0;
    while i < size
        invariant
            instrument_count >= 1,
            client_count >= 1,
            size <= u64::MAX,
            0 <= i <= size,
            items@.len() == i,
            forall|m: int|
                0 <= m < i ==> {
                    let it = #[trigger] items@[m];
                    &&& it.key == m
                    &&& it.order.order_id == m
                    &&& wf_item(it)
                    &&& it.order.symbol@ == spec_symbol_label(
                        ((m as u64) % instrument_count) as nat,
                    )
                    &&& it.order.client_id@ == spec_client_label(((m as u64) % client_count) as nat)
                    &&& it.order.remaining_quantity == it.order.quantity
                    &&& 1 <= it.order.quantity < 10000
                    &&& 10000 <= it.order.price_milli < 1000000
                    &&& 1600000000 <= it.order.timestamp < 1700000000
                    &&& 1 <= it.fill <= it.order.quantity
                },
        decreases size - i,
    {
        let id = i as u64;
        let order = random_order(id, id % instrument_count, id % client_count, rng);
        let fill = rng_below(rng, 1, order.quantity + 1);
        items.push(WorkItem { key: id, order, fill });
        i = i + 1;
    }
    items
}

/// Generates the nested multi-exchange workload: `exchanges` groups of
/// `per_exchange` fresh orders each, the order at group `e`, slot `j`
/// carrying the process-unique identity `e * per_exchange + j`.
pub fn generate_nested(
    exchanges: usize,
    per_exchange: usize,
    instrument_count: u64,
    client_count: u64,
    rng: &mut rand::rngs::StdRng,
) -> (nested: Vec<Vec<Order>>)
    requires
        instrument_count >= 1,
        client_count >= 1,
        (exchanges as int) * (per_exchange as int) <= u64::MAX,
    ensures
        nested@.len() == exchanges,
        forall|e: int| 0 <= e < exchanges ==> (#[trigger] nested@[e])@.len() == per_exchange,
        forall|e: int, j: int|
            0 <= e < exchanges && 0 <= j < per_exchange ==> {
                let o = #[trigger] nested@[e]@[j];
                &&& o.wf()
                &&& o.order_id == e * per_exchange + j
                &&& o.filled_quantity == 0
                &&& o.status == OrderStatus::New
                &&& o.symbol@ == spec_symbol_label(((j as u64) % instrument_count) as nat)
                &&& o.client_id@ == spec_client_label(((j as u64) % client_count) as nat)
                &&& o.remaining_quantity == o.quantity
                &&& 1 <= o.quantity < 10000
                &&& 10000 <= o.price_milli < 1000000
                &&& 1600000000 <= o.timestamp < 1700000000
            },
{
    let mut nested: Vec<Vec<Order>> = Vec::new();
    let mut e: usize = 0;
    while e < exchanges
        invariant
            instrument_count >= 1,
            client_count >= 1,
            (exchanges as int) * (per_exchange as int) <= u64::MAX,
            0 <= e <= exchanges,
            nested@.len() == e,
            forall|a: int| 0 <= a < e ==> (#[trigger] nested@[a])@.len() == per_exchange,
            forall|a: int, j: int|
                0 <= a < e && 0 <= j < per_exchange ==> {
                    let o = #[trigger] nested@[a]@[j];
                    &&& o.wf()
                    &&& o.order_id == a * per_exchange + j
                    &&& o.filled_quantity == 0
                    &&& o.status == OrderStatus::New
                    &&& o.symbol@ == spec_symbol_label(((j as u64) % instrument_count) as nat)
                    &&& o.client_id@ == spec_client_label(((j as u64) % client_count) as nat)
                    &&& o.remaining_quantity == o.quantity
                    &&& 1 <= o.quantity < 10000
                    &&& 10000 <= o.price_milli < 1000000
                    &&& 1600000000 <= o.timestamp < 1700000000
                },
        decreases exchanges - e,
    {
        proof {
            assert((e as int) * (per_exchange as int) + (per_exchange as int) <= (exchanges as int)
                * (per_exchange as int)) by (nonlinear_arith)
                requires
                    0 <= e < exchanges,
            ;
            assert((e as int) * (per_exchange as int) >= 0) by (nonlinear_arith)
                requires
                    e >= 0,
                    per_exchange >= 0,
            ;
        }
        let base: u64 = (e as u64) * (per_exchange as u64);
        let mut group: Vec<Order> = Vec::new();
        let mut j: usize = 0;
        while j < per_exchange
            invariant
                instrument_count >= 1,
                client_count >= 1,
                0 <= j <= per_exchange,
                base == (e as int) * (per_exchange as int),
                base + per_exchange <= u64::MAX,
                group@.len() == j,
                forall|m: int|
                    0 <= m < j ==> {
                        let o = #[trigger] group@[m];
                        &&& o.wf()
                        &&& o.order_id == base + m
                        &&& o.filled_quantity == 0
                        &&& o.status == OrderStatus::New
                        &&& o.symbol@ == spec_symbol_label(((m as u64) % instrument_count) as nat)
                        &&& o.client_id@ == spec_client_label(((m as u64) % client_count) as nat)
                        &&& o.remaining_quantity == o.quantity
                        &&& 1 <= o.quantity < 10000
                        &&& 10000 <= o.price_milli < 1000000
                        &&& 1600000000 <= o.timestamp < 1700000000
                    },
            decreases per_exchange - j,
        {
            let jid = j as u64;
            let order = random_order(base + jid, jid % instrument_count, jid % client_count, rng);
            group.push(order);
            j = j + 1;
        }
        nested.push(group);
        e = e + 1;
    }
    nested
}

/// Flattens a nested workload into a single registry. The flat key of
/// the order at group `e`, slot `j` is `e * per_exchange + j`; by
/// construction the keys of different groups cannot collide, so the
/// registry holds exactly one entry per nested order.
pub fn flatten(nested: &Vec<Vec<Order>>, per_exchange: usize) -> (r: Registry)
    requires
        forall|e: int|
            0 <= e < nested@.len() ==> (#[trigger] nested@[e])@.len() == per_exchange,
        (nested@.len() as int) * (per_exchange as int) <= u64::MAX,
    ensures
        forall|k: u64|
            r@.contains_key(k) <==> k < nested@.len() * (per_exchange as int),
        forall|e: int, j: int|
            0 <= e < nested@.len() && 0 <= j < per_exchange ==> {
                &&& r@.contains_key((e * per_exchange + j) as u64)
                &&& r@[(e * per_exchange + j) as u64] == nested@[e]@[j]
            },
        r@.dom().len() == nested@.len() * (per_exchange as int),
{
    let exchanges = nested.len();
    let mut r = Registry::new();
    let mut next: u64 = 0;
    let mut e: usize = 0;
    while e < exchanges
        invariant
            exchanges == nested@.len(),
            forall|a: int|
                0 <= a < nested@.len() ==> (#[trigger] nested@[a])@.len() == per_exchange,
            (exchanges as int) * (per_exchange as int) <= u64::MAX,
            0 <= e <= exchanges,
            next == (e as int) * (per_exchange as int),
            forall|k: u64| r@.contains_key(k) <==> k < next,
            forall|k: u64|
                k < next ==> #[trigger] r@[k] == nested@[(k as int) / (per_exchange as int)]@[(
                k as int) % (per_exchange as int)],
            r@.dom().len() == next,
        decreases exchanges - e,
    {
        proof {
            assert((e as int) * (per_exchange as int) + (per_exchange as int) == ((e as int) + 1)
                * (per_exchange as int)) by (nonlinear_arith);
            assert(((e as int) + 1) * (per_exchange as int) <= (exchanges as int) * (
            per_exchange as int)) by (nonlinear_arith)
                requires
                    0 <= e < exchanges,
            ;
            assert((e as int) * (per_exchange as int) >= 0) by (nonlinear_arith)
                requires
                    e >= 0,
                    per_exchange >= 0,
            ;
        }
        let group = &nested[e];
        let mut j: usize = 0;
        while j < per_exchange
            invariant
                exchanges == nested@.len(),
                forall|a: int|
                    0 <= a < nested@.len() ==> (#[trigger] nested@[a])@.len() == per_exchange,
                0 <= e < exchanges,
                0 <= j <= per_exchange,
                group@ == nested@[e as int]@,
                next == (e as int) * (per_exchange as int) + j,
                next + (per_exchange - j) <= u64::MAX,
                forall|k: u64| r@.contains_key(k) <==> k < next,
                forall|k: u64|
                    k < next ==> #[trigger] r@[k] == nested@[(k as int) / (per_exchange as int)]@[(
                    k as int) % (per_exchange as int)],
                r@.dom().len() == next,
            decreases per_exchange - j,
        {
            let order = group[j].clone();
            proof {
                assert(!r@.contains_key(next));
                r.lemma_view_finite();
                vstd::set::axiom_set_insert_len(r@.dom(), next);
                vstd::arithmetic::div_mod::lemma_fundamental_div_mod_converse(
                    next as int,
                    per_exchange as int,
                    e as int,
                    j as int,
                );
            }
            r.insert(next, order);
            next = next + 1;
            j = j + 1;
        }
        e = e + 1;
    }
    proof {
        assert forall|a: int, j: int|
            0 <= a < nested@.len() && 0 <= j
                < per_exchange implies #[trigger] r@.contains_key((a * per_exchange + j) as u64) by {
            let k = a * per_exchange + j;
            assert(0 <= k && k < (exchanges as int) * (per_exchange as int)) by (nonlinear_arith)
                requires
                    k == a * per_exchange + j,
                    0 <= a < exchanges as int,
                    0 <= j < per_exchange as int,
            ;
            assert(((k as u64) as int) == k);
        }
        assert forall|a: int, j: int|
            0 <= a < nested@.len() && 0 <= j < per_exchange implies r@[(a * per_exchange + j) as u64]
            == nested@[a]@[j] by {
            let k = a * per_exchange + j;
            assert(0 <= k) by (nonlinear_arith)
                requires
                    k == a * per_exchange + j,
                    a >= 0,
                    j >= 0,
                    per_exchange >= 0,
            ;
            assert(k < (exchanges as int) * (per_exchange as int)) by (nonlinear_arith)
                requires
                    k == a * per_exchange + j,
                    0 <= a < exchanges as int,
                    0 <= j < per_exchange as int,
            ;
            assert(k <= u64::MAX);
            assert(((k as u64) as int) == k);
            assert(r@.contains_key(k as u64));
            vstd::arithmetic::div_mod::lemma_fundamental_div_mod_converse(
                k,
                per_exchange as int,
                a,
                j,
            );
            assert(r@[k as u64] == nested@[k / (per_exchange as int)]@[k % (per_exchange as int)]);
            assert(r@[k as u64] == nested@[a]@[j]);
        }
    }
    r
}

} // verus!
