//! The order model: a synthetic trade order and its fill-state transition.
//!
//! An order's fill state obeys one invariant at all times after
//! construction: `filled_quantity + remaining_quantity == quantity`, and
//! the lifecycle status is a pure function of the two quantities.

use vstd::prelude::*;

verus! {

/// Which side of the book an order sits on.
#[derive(Clone, Copy, Debug, PartialEq, Eq, Structural)]
pub enum OrderSide {
    Buy,
    Sell,
}

/// The four closed order kinds.
#[derive(Clone, Copy, Debug, PartialEq, Eq, Structural)]
pub enum OrderKind {
    Market,
    Limit,
    Stop,
    StopLimit,
}

/// Lifecycle status. `Cancelled` and `Rejected` are reachable only
/// through paths outside this workload; the fill transition and the
/// generator never produce them.
#[derive(Clone, Copy, Debug, PartialEq, Eq, Structural)]
pub enum OrderStatus {
    New,
    PartiallyFilled,
    Filled,
    Cancelled,
    Rejected,
}

/// A synthetic trade order. Prices are held in thousandths of a
/// currency unit so that all fields stay in exact integer arithmetic.
#[derive(Debug)]
pub struct Order {
    /// Process-unique numeric identity; not the registry lookup key.
    pub order_id: u64,
    /// Instrument symbol, drawn from a bounded synthetic set.
    pub symbol: String,
    pub side: OrderSide,
    pub kind: OrderKind,
    /// Requested quantity; always at least one.
    pub quantity: u64,
    /// Limit price in thousandths of a unit; always positive.
    pub price_milli: u64,
    pub filled_quantity: u64,
    pub remaining_quantity: u64,
    pub status: OrderStatus,
    /// Creation time in whole seconds.
    pub timestamp: u64,
    /// Originating client, drawn from a bounded synthetic set.
    pub client_id: String,
}

/// The status an order must carry for a given fill state: fully
/// filled once nothing remains, untouched while nothing is filled,
/// and partially filled in between.
pub open spec fn status_for(filled: u64, remaining: u64) -> OrderStatus {
    if remaining == 0 {
        OrderStatus::Filled
    } else if filled == 0 {
        OrderStatus::New
    } else {
        OrderStatus::PartiallyFilled
    }
}

/// The requested fill amount clamped so it never exceeds what remains.
pub open spec fn clamped_fill(o: Order, requested: u64) -> u64 {
    if requested <= o.remaining_quantity {
        requested
    } else {
        o.remaining_quantity
    }
}

/// The order after one fill of `requested`: filled grows and remaining
/// shrinks by the clamped amount, and the status is recomputed.
pub open spec fn spec_apply_fill(o: Order, requested: u64) -> Order {
    let amount = clamped_fill(o, requested);
    Order {
        filled_quantity: (o.filled_quantity + amount) as u64,
        remaining_quantity: (o.remaining_quantity - amount) as u64,
        status: status_for(
            (o.filled_quantity + amount) as u64,
            (o.remaining_quantity - amount) as u64,
        ),
        ..o
    }
}

/// The order after a whole sequence of fills, applied left to right.
pub open spec fn spec_apply_fills(o: Order, fills: Seq<u64>) -> Order
    decreases fills.len(),
{
    if fills.len() == 0 {
        o
    } else {
        spec_apply_fills(spec_apply_fill(o, fills[0]), fills.drop_first())
    }
}

impl Order {
    /// Well-formedness: a positive requested quantity and price, the
    /// fill-state invariant, and a status that matches the fill state.
    pub open spec fn wf(self) -> bool {
        &&& self.quantity >= 1
        &&& self.price_milli >= 1
        &&& self.filled_quantity + self.remaining_quantity == self.quantity
        &&& self.status == status_for(self.filled_quantity, self.remaining_quantity)
    }

    /// Whether the order still has anything left to fill or receive:
    /// the orders a cleanup sweep keeps.
    pub fn is_open(&self) -> (r: bool)
        ensures
            r == (self.status != OrderStatus::Filled),
    {
        match self.status {
            OrderStatus::Filled => false,
            _ => true,
        }
    }

    /// Apply one fill. The requested amount is clamped to what
    /// remains, so over-filling is impossible and zero is a no-op;
    /// there is no error path.
    pub fn apply_fill(&mut self, requested: u64)
        requires
            old(self).wf(),
        ensures
            *final(self) == spec_apply_fill(*old(self), requested),
            final(self).wf(),
    {
        let amount = if requested <= self.remaining_quantity {
            requested
        } else {
            self.remaining_quantity
        };
        self.filled_quantity = self.filled_quantity + amount;
        self.remaining_quantity = self.remaining_quantity - amount;
        self.status = if self.remaining_quantity == 0 {
            OrderStatus::Filled
        } else if self.filled_quantity == 0 {
            OrderStatus::New
        } else {
            OrderStatus::PartiallyFilled
        };
    }
}

impl Clone for Order {
    fn clone(&self) -> (r: Self)
        ensures
            r == *self,
    {
        Order {
            order_id: self.order_id,
            symbol: self.symbol.clone(),
            side: self.side,
            kind: self.kind,
            quantity: self.quantity,
            price_milli: self.price_milli,
            filled_quantity: self.filled_quantity,
            remaining_quantity: self.remaining_quantity,
            status: self.status,
            timestamp: self.timestamp,
            client_id: self.client_id.clone(),
        }
    }
}

/// One fill keeps an order well-formed, and in particular keeps
/// `filled + remaining == quantity` with a matching status.
pub proof fn lemma_fill_preserves_wf(o: Order, requested: u64)
    requires
        o.wf(),
    ensures
        spec_apply_fill(o, requested).wf(),
{
}

/// After any number of fills, `filled_quantity + remaining_quantity ==
/// quantity` still holds and the status still matches the fill state.
pub proof fn lemma_fills_preserve_wf(o: Order, fills: Seq<u64>)
    requires
        o.wf(),
    ensures
        spec_apply_fills(o, fills).wf(),
    decreases fills.len(),
{
    if fills.len() > 0 {
        lemma_fill_preserves_wf(o, fills[0]);
        lemma_fills_preserve_wf(spec_apply_fill(o, fills[0]), fills.drop_first());
    }
}

/// Clamping: requesting more than what remains behaves exactly like
/// requesting what remains.
pub proof fn lemma_fill_clamps(o: Order, requested: u64)
    requires
        requested > o.remaining_quantity,
    ensures
        spec_apply_fill(o, requested) == spec_apply_fill(o, o.remaining_quantity),
{
}

} // verus!
