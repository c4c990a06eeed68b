//! The orders service: the order table, the saga transitions that its
//! event handlers apply to it, and the decisions of its two write routes
//! (placing an order and paying for one).
//!
//! Every transition is conditional on the expected prior status, so a
//! redelivered event is a no-op and an event arriving late cannot move an
//! order backwards.

use vstd::prelude::*;
use vstd::pervasive::VecAdditionalExecFns;

use crate::codec::{json_safe, json_safe_char};
use crate::errors::AppError;
use crate::events::{EventType, OrderItem};
use crate::outbox::{spec_commit, CreateOutboxEntity, OutboxStore, OutboxTx, PendingWrite};
use crate::wire::{encode_pay_event, spec_pay_json};

verus! {

/// The saga stages of an order, in order of progress. `Rejected` is
/// terminal; `Preparing`, `EnRoute` and `Delivered` are reached only
/// through the delivery service's reports.
#[derive(Clone, Copy, PartialEq, Eq, Structural, Debug)]
pub enum OrderStatus {
    Pending,
    Reserved,
    Rejected,
    PaymentProcessing,
    PaymentSuccess,
    Preparing,
    EnRoute,
    Delivered,
}

impl OrderStatus {
    /// The status as the persisted text column spells it.
    pub open spec fn label_spec(self) -> Seq<char> {
        match self {
            OrderStatus::Pending => "PENDING"@,
            OrderStatus::Reserved => "RESERVED"@,
            OrderStatus::Rejected => "REJECTED"@,
            OrderStatus::PaymentProcessing => "PAYMENT_PROCESSING"@,
            OrderStatus::PaymentSuccess => "PAYMENT_SUCCESS"@,
            OrderStatus::Preparing => "PREPARING"@,
            OrderStatus::EnRoute => "EN_ROUTE"@,
            OrderStatus::Delivered => "DELIVERED"@,
        }
    }

    /// The status as the persisted text column spells it.
    pub fn label(self) -> (r: &'static str)
        ensures
            r@ == self.label_spec(),
    {
        match self {
            OrderStatus::Pending => "PENDING",
            OrderStatus::Reserved => "RESERVED",
            OrderStatus::Rejected => "REJECTED",
            OrderStatus::PaymentProcessing => "PAYMENT_PROCESSING",
            OrderStatus::PaymentSuccess => "PAYMENT_SUCCESS",
            OrderStatus::Preparing => "PREPARING",
            OrderStatus::EnRoute => "EN_ROUTE",
            OrderStatus::Delivered => "DELIVERED",
        }
    }
}

/// One row of the orders table, as far as the saga reads it.
#[derive(Clone, Copy, PartialEq, Eq, Structural, Debug)]
pub struct OrderEntity {
    pub id: i32,
    pub patient_id: i32,
    pub status: OrderStatus,
    pub payment_id: Option<u128>,
}

/// A row still to be inserted.
#[derive(Clone, Copy, PartialEq, Eq, Structural, Debug)]
pub struct CreateOrderEntity {
    pub patient_id: i32,
    pub status: OrderStatus,
}

/// One priced line item of an order.
#[derive(Clone, Copy, PartialEq, Eq, Structural, Debug)]
pub struct OrderItemEntity {
    pub order_id: i32,
    pub product_id: i32,
    pub quantity: i32,
    pub unit_price: u64,
    pub total_price: u64,
}

/// What a reservation confirmation does to one order: `Pending` advances
/// to `Reserved`; any other status is left alone, so replays and stale
/// events change nothing.
pub open spec fn spec_apply_reserved(o: OrderEntity) -> OrderEntity {
    if o.status is Pending {
        OrderEntity { status: OrderStatus::Reserved, ..o }
    } else {
        o
    }
}

/// What a reservation rejection does to one order: `Pending` moves to the
/// terminal `Rejected`; anything else is left alone.
pub open spec fn spec_apply_rejected(o: OrderEntity) -> OrderEntity {
    if o.status is Pending {
        OrderEntity { status: OrderStatus::Rejected, ..o }
    } else {
        o
    }
}

/// What a payment confirmation does to one order: `PaymentProcessing`
/// advances to `PaymentSuccess`; anything else is left alone.
pub open spec fn spec_apply_payment_success(o: OrderEntity) -> OrderEntity {
    if o.status is PaymentProcessing {
        OrderEntity { status: OrderStatus::PaymentSuccess, ..o }
    } else {
        o
    }
}

/// Whether a payment confirmation on this order asks for a delivery: only
/// the one transition out of `PaymentProcessing` does.
pub open spec fn spec_payment_success_emits(o: OrderEntity) -> bool {
    o.status is PaymentProcessing
}

/// [`spec_apply_reserved`], executably.
pub fn apply_order_reserved(o: &OrderEntity) -> (r: OrderEntity)
    ensures
        r == spec_apply_reserved(*o),
{
    if o.status == OrderStatus::Pending {
        OrderEntity { status: OrderStatus::Reserved, ..*o }
    } else {
        *o
    }
}

/// [`spec_apply_rejected`], executably.
pub fn apply_order_rejected(o: &OrderEntity) -> (r: OrderEntity)
    ensures
        r == spec_apply_rejected(*o),
{
    if o.status == OrderStatus::Pending {
        OrderEntity { status: OrderStatus::Rejected, ..*o }
    } else {
        *o
    }
}

/// [`spec_apply_payment_success`], executably.
pub fn apply_order_payment_success(o: &OrderEntity) -> (r: OrderEntity)
    ensures
        r == spec_apply_payment_success(*o),
{
    if o.status == OrderStatus::PaymentProcessing {
        OrderEntity { status: OrderStatus::PaymentSuccess, ..*o }
    } else {
        *o
    }
}

/// Idempotent replay: applying any saga transition twice is the same as
/// applying it once, and a replayed payment confirmation asks for no
/// second delivery.
pub proof fn lemma_transitions_idempotent(o: OrderEntity)
    ensures
        spec_apply_reserved(spec_apply_reserved(o)) == spec_apply_reserved(o),
        spec_apply_rejected(spec_apply_rejected(o)) == spec_apply_rejected(o),
        spec_apply_payment_success(spec_apply_payment_success(o)) == spec_apply_payment_success(
            o,
        ),
        !spec_payment_success_emits(spec_apply_payment_success(o)),
{
}

/// No regression: an order that has left `Pending` is never moved by a
/// late reservation outcome, and one that has left `PaymentProcessing` is
/// never moved by a late payment confirmation.
pub proof fn lemma_transitions_no_regress(o: OrderEntity)
    ensures
        !(o.status is Pending) ==> spec_apply_reserved(o) == o && spec_apply_rejected(o) == o,
        !(o.status is PaymentProcessing) ==> spec_apply_payment_success(o) == o,
{
}

/// Does some row of `s` belong to order `id`?
pub open spec fn has_order(s: Seq<OrderEntity>, id: int) -> bool {
    exists|i: int| 0 <= i < s.len() && s[i].id == id
}

/// The index of the row of order `id` (meaningful when `has_order` holds;
/// unique in a well-formed store).
pub open spec fn order_index_of(s: Seq<OrderEntity>, id: int) -> int {
    choose|i: int| 0 <= i < s.len() && s[i].id == id
}

/// The orders table after a reservation confirmation for `id`.
pub open spec fn spec_table_reserved(s: Seq<OrderEntity>, id: int) -> Seq<OrderEntity> {
    Seq::new(
        s.len(),
        |i: int|
            if s[i].id == id {
                spec_apply_reserved(s[i])
            } else {
                s[i]
            },
    )
}

/// The orders table after a reservation rejection for `id`.
pub open spec fn spec_table_rejected(s: Seq<OrderEntity>, id: int) -> Seq<OrderEntity> {
    Seq::new(
        s.len(),
        |i: int|
            if s[i].id == id {
                spec_apply_rejected(s[i])
            } else {
                s[i]
            },
    )
}

/// The orders table after a payment confirmation for `id`.
pub open spec fn spec_table_payment_success(s: Seq<OrderEntity>, id: int) -> Seq<OrderEntity> {
    Seq::new(
        s.len(),
        |i: int|
            if s[i].id == id {
                spec_apply_payment_success(s[i])
            } else {
                s[i]
            },
    )
}

/// The orders table of the orders service.
pub struct OrdersStore {
    orders: Vec<OrderEntity>,
    next_id: i32,
}

impl View for OrdersStore {
    type V = Seq<OrderEntity>;

    closed spec fn view(&self) -> Seq<OrderEntity> {
        self.orders@
    }
}

impl OrdersStore {
    /// The id the next created order will get.
    pub closed spec fn spec_next_id(&self) -> int {
        self.next_id as int
    }

    /// Store invariant: ids are positive, unique and below the next free
    /// id.
    pub open spec fn wf(self) -> bool {
        &&& 1 <= self.spec_next_id()
        &&& forall|i: int| 0 <= i < self@.len() ==> (#[trigger] self@[i]).id < self.spec_next_id()
        &&& forall|i: int| 0 <= i < self@.len() ==> 1 <= (#[trigger] self@[i]).id
        &&& forall|i: int, j: int|
            #![trigger self@[i].id, self@[j].id]
            0 <= i < j < self@.len() ==> self@[i].id != self@[j].id
    }

    /// An empty orders table; ids will start at 1.
    pub fn new() -> (r: OrdersStore)
        ensures
            r@ =~= Seq::<OrderEntity>::empty(),
            r.wf(),
            r.spec_next_id() == 1,
    {
        OrdersStore { orders: Vec::new(), next_id: 1 }
    }

    /// The id the next created order will get, for callers that must
    /// check the id space first.
    pub fn next_id(&self) -> (n: i32)
        ensures
            n as int == self.spec_next_id(),
    {
        self.next_id
    }

    /// How many orders the table holds.
    pub fn len(&self) -> (n: usize)
        ensures
            n == self@.len(),
    {
        self.orders.len()
    }

    /// Insert a new order row with a fresh id and no payment yet. (The
    /// bound on the next id is the machine limit of the id column.)
    pub fn create(&mut self, c: CreateOrderEntity) -> (r: OrderEntity)
        requires
            old(self).wf(),
            old(self).spec_next_id() < i32::MAX,
        ensures
            final(self).wf(),
            r.id == old(self).spec_next_id(),
            r.patient_id == c.patient_id,
            r.status == c.status,
            r.payment_id is None,
            final(self)@ == old(self)@.push(r),
            final(self).spec_next_id() == old(self).spec_next_id() + 1,
    {
        let r = OrderEntity {
            id: self.next_id,
            patient_id: c.patient_id,
            status: c.status,
            payment_id: None,
        };
        self.orders.push(r);
        self.next_id = self.next_id + 1;
        r
    }

    /// Look an order's row index up.
    pub fn find(&self, id: i32) -> (r: Option<usize>)
        ensures
            match r {
                Some(i) => i < self@.len() && self@[i as int].id == id && has_order(
                    self@,
                    id as int,
                ),
                None => !has_order(self@, id as int),
            },
    {
        let mut i: usize = 0;
        while i < self.orders.len()
            invariant
                i <= self@.len(),
                forall|j: int| 0 <= j < i ==> (#[trigger] self@[j]).id != id,
            decreases self@.len() - i,
        {
            if self.orders[i].id == id {
                return Some(i);
            }
            i += 1;
        }
        None
    }

    /// A copy of an order's row.
    pub fn get(&self, id: i32) -> (r: Option<OrderEntity>)
        requires
            self.wf(),
        ensures
            r matches Some(o) ==> has_order(self@, id as int) && o == self@[order_index_of(
                self@,
                id as int,
            )],
            r is None <==> !has_order(self@, id as int),
    {
        match self.find(id) {
            Some(i) => {
                let o = self.orders[i];
                proof {
                    let k = order_index_of(self@, id as int);
                    assert(0 <= k < self@.len() && self@[k].id == id);
                    assert(i as int == k) by {
                        if i as int != k {
                            assert(self@[i as int].id != self@[k].id);
                        }
                    }
                }
                Some(o)
            },
            None => None,
        }
    }

    /// Handler effect of a reservation confirmation: the order's row (if
    /// any) takes the conditional `Pending -> Reserved` step; a missing
    /// row means zero rows affected.
    pub fn mark_reserved(&mut self, order_id: i32)
        ensures
            final(self)@ == spec_table_reserved(old(self)@, order_id as int),
            final(self).spec_next_id() == old(self).spec_next_id(),
            old(self).wf() ==> final(self).wf(),
    {
        let ghost base = self@;
        let mut i: usize = 0;
        while i < self.orders.len()
            invariant
                base == old(self)@,
                i <= base.len(),
                self@.len() == base.len(),
                self.spec_next_id() == old(self).spec_next_id(),
                forall|t: int|
                    0 <= t < i ==> #[trigger] self@[t] == spec_table_reserved(
                        base,
                        order_id as int,
                    )[t],
                forall|t: int| i <= t < base.len() ==> #[trigger] self@[t] == base[t],
            decreases base.len() - i,
        {
            if self.orders[i].id == order_id {
                let updated = apply_order_reserved(&self.orders[i]);
                self.orders.set(i, updated);
            }
            i += 1;
        }
        proof {
            assert(self@ =~= spec_table_reserved(base, order_id as int));
            if old(self).wf() {
                assert forall|t: int| 0 <= t < self@.len() implies (#[trigger] self@[t]).id
                    < self.spec_next_id() && 1 <= self@[t].id by {
                    assert(self@[t].id == base[t].id);
                }
                assert forall|a: int, b: int|
                    #![trigger self@[a].id, self@[b].id]
                    0 <= a < b < self@.len() implies self@[a].id != self@[b].id by {
                    assert(self@[a].id == base[a].id && self@[b].id == base[b].id);
                }
            }
        }
    }

    /// Handler effect of a reservation rejection: the conditional
    /// `Pending -> Rejected` step on the order's row.
    pub fn mark_rejected(&mut self, order_id: i32)
        ensures
            final(self)@ == spec_table_rejected(old(self)@, order_id as int),
            final(self).spec_next_id() == old(self).spec_next_id(),
            old(self).wf() ==> final(self).wf(),
    {
        let ghost base = self@;
        let mut i: usize = 0;
        while i < self.orders.len()
            invariant
                base == old(self)@,
                i <= base.len(),
                self@.len() == base.len(),
                self.spec_next_id() == old(self).spec_next_id(),
                forall|t: int|
                    0 <= t < i ==> #[trigger] self@[t] == spec_table_rejected(
                        base,
                        order_id as int,
                    )[t],
                forall|t: int| i <= t < base.len() ==> #[trigger] self@[t] == base[t],
            decreases base.len() - i,
        {
            if self.orders[i].id == order_id {
                let updated = apply_order_rejected(&self.orders[i]);
                self.orders.set(i, updated);
            }
            i += 1;
        }
        proof {
            assert(self@ =~= spec_table_rejected(base, order_id as int));
            if old(self).wf() {
                assert forall|t: int| 0 <= t < self@.len() implies (#[trigger] self@[t]).id
                    < self.spec_next_id() && 1 <= self@[t].id by {
                    assert(self@[t].id == base[t].id);
                }
                assert forall|a: int, b: int|
                    #![trigger self@[a].id, self@[b].id]
                    0 <= a < b < self@.len() implies self@[a].id != self@[b].id by {
                    assert(self@[a].id == base[a].id && self@[b].id == base[b].id);
                }
            }
        }
    }

    /// Handler effect of a payment confirmation: the conditional
    /// `PaymentProcessing -> PaymentSuccess` step on the order's row.
    /// `emit` says whether the step was taken — exactly then does the
    /// handler schedule the delivery request, so a replay emits nothing.
    pub fn mark_payment_success(&mut self, order_id: i32) -> (emit: bool)
        requires
            old(self).wf(),
        ensures
            final(self)@ == spec_table_payment_success(old(self)@, order_id as int),
            final(self).spec_next_id() == old(self).spec_next_id(),
            final(self).wf(),
            emit <==> has_order(old(self)@, order_id as int) && spec_payment_success_emits(
                old(self)@[order_index_of(old(self)@, order_id as int)],
            ),
    {
        let ghost base = self@;
        let mut i: usize = 0;
        let mut emit = false;
        while i < self.orders.len()
            invariant
                old(self).wf(),
                base == old(self)@,
                i <= base.len(),
                self@.len() == base.len(),
                self.spec_next_id() == old(self).spec_next_id(),
                forall|t: int|
                    0 <= t < i ==> #[trigger] self@[t] == spec_table_payment_success(
                        base,
                        order_id as int,
                    )[t],
                forall|t: int| i <= t < base.len() ==> #[trigger] self@[t] == base[t],
                forall|t: int| 0 <= t < i ==> (#[trigger] base[t]).id != order_id || emit
                    == spec_payment_success_emits(base[t]),
                emit ==> has_order(base, order_id as int) && spec_payment_success_emits(
                    base[order_index_of(base, order_id as int)],
                ),
                !emit ==> forall|t: int|
                    0 <= t < i ==> !((#[trigger] base[t]).id == order_id
                        && spec_payment_success_emits(base[t])),
            decreases base.len() - i,
        {
            if self.orders[i].id == order_id {
                let row = self.orders[i];
                let updated = apply_order_payment_success(&row);
                self.orders.set(i, updated);
                if row.status == OrderStatus::PaymentProcessing {
                    emit = true;
                    proof {
                        let k = order_index_of(base, order_id as int);
                        assert(0 <= k < base.len() && base[k].id == order_id);
                        assert(k == i as int) by {
                            if k != i as int {
                                assert(base[k].id != base[i as int].id);
                            }
                        }
                    }
                }
            }
            i += 1;
        }
        proof {
            assert(self@ =~= spec_table_payment_success(base, order_id as int));
            if !emit && has_order(base, order_id as int) {
                let k = order_index_of(base, order_id as int);
                assert(0 <= k < base.len() && base[k].id == order_id);
            }
            assert forall|t: int| 0 <= t < self@.len() implies (#[trigger] self@[t]).id
                < self.spec_next_id() && 1 <= self@[t].id by {
                assert(self@[t].id == base[t].id);
            }
            assert forall|a: int, b: int|
                #![trigger self@[a].id, self@[b].id]
                0 <= a < b < self@.len() implies self@[a].id != self@[b].id by {
                assert(self@[a].id == base[a].id && self@[b].id == base[b].id);
            }
        }
        emit
    }

    /// The conditional update of the pay route: move the order to
    /// `PaymentProcessing` and attach the payment id, provided the order
    /// exists, is `Reserved`, and belongs to the calling patient. On any
    /// error the table is untouched — the surrounding transaction rolls
    /// back. Errors: a forbidden order belongs to someone else; anything
    /// else means no reserved row with this id was found.
    pub fn begin_payment(&mut self, order_id: i32, patient_id: i32, payment_id: u128) -> (r:
        Result<OrderEntity, AppError>)
        requires
            old(self).wf(),
        ensures
            final(self).wf(),
            final(self).spec_next_id() == old(self).spec_next_id(),
            match r {
                Ok(u) => {
                    let k = order_index_of(old(self)@, order_id as int);
                    &&& has_order(old(self)@, order_id as int)
                    &&& old(self)@[k].status is Reserved
                    &&& old(self)@[k].patient_id == patient_id
                    &&& u == (OrderEntity {
                        status: OrderStatus::PaymentProcessing,
                        payment_id: Some(payment_id),
                        ..old(self)@[k]
                    })
                    &&& final(self)@ == old(self)@.update(k, u)
                },
                Err(e) => {
                    &&& final(self)@ == old(self)@
                    &&& (e matches AppError::ForbiddenResource(_) <==> (has_order(
                        old(self)@,
                        order_id as int,
                    ) && old(self)@[order_index_of(old(self)@, order_id as int)].status is Reserved
                        && old(self)@[order_index_of(old(self)@, order_id as int)].patient_id
                        != patient_id))
                    &&& (e matches AppError::Other(_) <==> !(has_order(old(self)@, order_id as int)
                        && old(self)@[order_index_of(
                        old(self)@,
                        order_id as int,
                    )].status is Reserved))
                },
            },
            r is Ok <==> (has_order(old(self)@, order_id as int) && old(self)@[order_index_of(
                old(self)@,
                order_id as int,
            )].status is Reserved && old(self)@[order_index_of(
                old(self)@,
                order_id as int,
            )].patient_id == patient_id),
    {
        let idx = match self.find(order_id) {
            Some(i) => i,
            None => {
                return Err(AppError::Other(String::from_str("order not found or not reserved")));
            },
        };
        proof {
            let k = order_index_of(self@, order_id as int);
            assert(0 <= k < self@.len() && self@[k].id == order_id);
            assert(idx as int == k) by {
                if idx as int != k {
                    assert(self@[idx as int].id != self@[k].id);
                }
            }
        }
        let row = self.orders[idx];
        if row.status != OrderStatus::Reserved {
            return Err(AppError::Other(String::from_str("order not found or not reserved")));
        }
        if row.patient_id != patient_id {
            return Err(
                AppError::ForbiddenResource(String::from_str("order of another patient")),
            );
        }
        let updated = OrderEntity {
            status: OrderStatus::PaymentProcessing,
            payment_id: Some(payment_id),
            ..row
        };
        self.orders.set(idx, updated);
        proof {
            assert forall|a: int, b: int|
                #![trigger self@[a].id, self@[b].id]
                0 <= a < b < self@.len() implies self@[a].id != self@[b].id by {
                assert(self@[a].id == old(self)@[a].id && self@[b].id == old(self)@[b].id);
            }
            assert forall|t: int| 0 <= t < self@.len() implies (#[trigger] self@[t]).id
                < self.spec_next_id() && 1 <= self@[t].id by {
                assert(self@[t].id == old(self)@[t].id);
            }
        }
        Ok(updated)
    }
}

/// The items of `items` that ask for a positive quantity, in order.
pub open spec fn positive_items(items: Seq<OrderItem>) -> Seq<OrderItem>
    decreases items.len(),
{
    if items.len() == 0 {
        Seq::empty()
    } else {
        let init = positive_items(items.drop_last());
        if items.last().quantity > 0 {
            init.push(items.last())
        } else {
            init
        }
    }
}

/// The first listed price of a product.
pub open spec fn spec_price_of(prices: Seq<(i32, u64)>, pid: i32) -> Option<u64>
    decreases prices.len(),
{
    if prices.len() == 0 {
        None
    } else if prices[0].0 == pid {
        Some(prices[0].1)
    } else {
        spec_price_of(prices.drop_first(), pid)
    }
}

/// Keeping fewer requested items keeps a prefix of the positive ones.
proof fn lemma_positive_items_prefix(items: Seq<OrderItem>, k: int)
    requires
        0 <= k <= items.len(),
    ensures
        positive_items(items.subrange(0, k)).is_prefix_of(positive_items(items)),
    decreases items.len(),
{
    if k == items.len() {
        assert(items.subrange(0, k) =~= items);
    } else {
        let pre = items.drop_last();
        assert(items.subrange(0, k) =~= pre.subrange(0, k));
        lemma_positive_items_prefix(pre, k);
    }
}

/// Look a product's price up in the price list.
pub fn price_of(prices: &Vec<(i32, u64)>, pid: i32) -> (r: Option<u64>)
    ensures
        r == spec_price_of(prices@, pid),
{
    let len = prices.len();
    proof {
        assert(prices@.subrange(0, len as int) =~= prices@);
    }
    let mut i: usize = 0;
    while i < len
        invariant
            i <= len,
            len == prices@.len(),
            spec_price_of(prices@, pid) == spec_price_of(
                prices@.subrange(i as int, len as int),
                pid,
            ),
        decreases len - i,
    {
        proof {
            assert(prices@.subrange(i as int, len as int)[0] == prices@[i as int]);
            assert(prices@.subrange(i as int, len as int).drop_first() =~= prices@.subrange(
                i + 1,
                len as int,
            ));
        }
        if prices[i].0 == pid {
            return Some(prices[i].1);
        }
        i += 1;
    }
    proof {
        assert(prices@.subrange(len as int, len as int) =~= Seq::<(i32, u64)>::empty());
    }
    None
}

/// What the order route decides before anything is persisted: the new
/// order row, the items worth keeping, and their prices.
#[derive(Clone, Debug)]
pub struct OrderPlan {
    pub order: CreateOrderEntity,
    pub items: Vec<OrderItem>,
    pub unit_prices: Vec<u64>,
}

/// Plan a new order: drop the items without a positive quantity, price
/// the rest from the catalogue, and refuse the order if any kept item
/// has no price or its line total cannot be represented. Nothing is
/// persisted here; the caller runs the plan inside one transaction.
pub fn plan_order(patient_id: i32, requested: &Vec<OrderItem>, prices: &Vec<(i32, u64)>) -> (r:
    Result<OrderPlan, AppError>)
    ensures
        r matches Ok(plan) ==> ({
            &&& plan.order.patient_id == patient_id
            &&& plan.order.status is Pending
            &&& plan.items@ == positive_items(requested@)
            &&& plan.unit_prices@.len() == plan.items@.len()
            &&& forall|j: int|
                0 <= j < plan.items@.len() ==> Some(plan.unit_prices@[j]) == spec_price_of(
                    prices@,
                    (#[trigger] plan.items@[j]).product_id,
                ) && plan.items@[j].quantity as int * plan.unit_prices@[j] as int <= u64::MAX
        }),
        r is Ok <==> (forall|j: int|
            0 <= j < positive_items(requested@).len() ==> ((#[trigger] spec_price_of(
                prices@,
                positive_items(requested@)[j].product_id,
            )) is Some && positive_items(requested@)[j].quantity as int * spec_price_of(
                prices@,
                positive_items(requested@)[j].product_id,
            ).unwrap() as int <= u64::MAX)),
        r matches Err(e) ==> e matches AppError::Other(_),
{
    let mut items: Vec<OrderItem> = Vec::new();
    let mut unit_prices: Vec<u64> = Vec::new();
    let len = requested.len();
    proof {
        assert(requested@.subrange(0, 0) =~= Seq::<OrderItem>::empty());
    }
    let mut i: usize = 0;
    while i < len
        invariant
            i <= len,
            len == requested@.len(),
            items@ == positive_items(requested@.subrange(0, i as int)),
            unit_prices@.len() == items@.len(),
            forall|j: int|
                0 <= j < items@.len() ==> Some(unit_prices@[j]) == spec_price_of(
                    prices@,
                    (#[trigger] items@[j]).product_id,
                ) && items@[j].quantity as int * unit_prices@[j] as int <= u64::MAX,
        decreases len - i,
    {
        let it = requested[i];
        proof {
            assert(requested@.subrange(0, i + 1).drop_last() =~= requested@.subrange(
                0,
                i as int,
            ));
            assert(requested@.subrange(0, i + 1).last() == requested@[i as int]);
        }
        if it.quantity > 0 {
            let price = match price_of(prices, it.product_id) {
                None => {
                    proof {
                        lemma_positive_items_prefix(requested@, i + 1);
                        let pp = positive_items(requested@);
                        let k = items@.len() as int;
                        let pre1 = positive_items(requested@.subrange(0, i + 1));
                        assert(pre1 == items@.push(it));
                        assert(pre1 =~= pp.subrange(0, pre1.len() as int));
                        assert(pp[k] == pre1[k]);
                        assert(pp[k] == it);
                    }
                    return Err(
                        AppError::Other(String::from_str("missing price for a product")),
                    );
                },
                Some(p) => p,
            };
            proof {
                assert((it.quantity as u128) * (price as u128) <= u128::MAX) by (nonlinear_arith)
                    requires
                        0 <= it.quantity as u128 <= 0x7fffffffu128,
                        0 <= price as u128 <= 0xffffffffffffffffu128,
                ;
            }
            if (it.quantity as u128) * (price as u128) > u64::MAX as u128 {
                proof {
                    lemma_positive_items_prefix(requested@, i + 1);
                    let pp = positive_items(requested@);
                    let k = items@.len() as int;
                    let pre1 = positive_items(requested@.subrange(0, i + 1));
                    assert(pre1 == items@.push(it));
                    assert(pre1 =~= pp.subrange(0, pre1.len() as int));
                    assert(pp[k] == pre1[k]);
                    assert(pp[k] == it);
                }
                return Err(AppError::Other(String::from_str("order line total too large")));
            }
            items.push(it);
            unit_prices.push(price);
        }
        i += 1;
    }
    proof {
        assert(requested@.subrange(0, len as int) =~= requested@);
    }
    let plan = OrderPlan {
        order: CreateOrderEntity { patient_id, status: OrderStatus::Pending },
        items,
        unit_prices,
    };
    Ok(plan)
}

/// The priced rows of a planned order, once the order has its id. Each
/// line total is the quantity times the unit price.
pub fn order_item_rows(order_id: i32, items: &Vec<OrderItem>, unit_prices: &Vec<u64>) -> (rows:
    Vec<OrderItemEntity>)
    requires
        items@.len() == unit_prices@.len(),
        forall|j: int|
            0 <= j < items@.len() ==> (#[trigger] items@[j]).quantity >= 0 && items@[j].quantity
                as int * unit_prices@[j] as int <= u64::MAX,
    ensures
        rows@.len() == items@.len(),
        forall|j: int|
            0 <= j < items@.len() ==> #[trigger] rows@[j] == (OrderItemEntity {
                order_id,
                product_id: items@[j].product_id,
                quantity: items@[j].quantity,
                unit_price: unit_prices@[j],
                total_price: (items@[j].quantity as int * unit_prices@[j] as int) as u64,
            }),
{
    let mut rows: Vec<OrderItemEntity> = Vec::new();
    let len = items.len();
    let mut i: usize = 0;
    while i < len
        invariant
            i <= len,
            len == items@.len(),
            items@.len() == unit_prices@.len(),
            forall|j: int|
                0 <= j < items@.len() ==> (#[trigger] items@[j]).quantity >= 0
                    && items@[j].quantity as int * unit_prices@[j] as int <= u64::MAX,
            rows@.len() == i,
            forall|j: int|
                0 <= j < i ==> #[trigger] rows@[j] == (OrderItemEntity {
                    order_id,
                    product_id: items@[j].product_id,
                    quantity: items@[j].quantity,
                    unit_price: unit_prices@[j],
                    total_price: (items@[j].quantity as int * unit_prices@[j] as int) as u64,
                }),
        decreases len - i,
    {
        let it = items[i];
        let total = (it.quantity as u64) * unit_prices[i];
        rows.push(
            OrderItemEntity {
                order_id,
                product_id: it.product_id,
                quantity: it.quantity,
                unit_price: unit_prices[i],
                total_price: total,
            },
        );
        i += 1;
    }
    rows
}

/// The sum of the line totals of an order.
pub open spec fn spec_items_total(items: Seq<OrderItemEntity>) -> int
    decreases items.len(),
{
    if items.len() == 0 {
        0
    } else {
        spec_items_total(items.drop_last()) + items.last().total_price
    }
}

/// A sum of line totals never shrinks when lines are appended.
proof fn lemma_items_total_mono(items: Seq<OrderItemEntity>, j: int)
    requires
        0 <= j <= items.len(),
    ensures
        0 <= spec_items_total(items.subrange(0, j)) <= spec_items_total(items),
    decreases items.len(), items.len() - j,
{
    if items.len() == 0 {
        assert(items.subrange(0, 0) =~= items);
    } else if j == items.len() {
        assert(items.subrange(0, j) =~= items);
        lemma_items_total_mono(items.drop_last(), items.len() - 1);
        assert(items.drop_last().subrange(0, items.len() - 1) =~= items.drop_last());
    } else {
        let pre = items.drop_last();
        assert(items.subrange(0, j) =~= pre.subrange(0, j));
        lemma_items_total_mono(pre, j);
    }
}

/// Total an order's lines; `None` when the sum does not fit the money
/// type.
pub fn order_total(items: &Vec<OrderItemEntity>) -> (r: Option<u64>)
    ensures
        r matches Some(t) ==> t == spec_items_total(items@),
        r is Some <==> spec_items_total(items@) <= u64::MAX,
{
    let len = items.len();
    let mut acc: u64 = 0;
    proof {
        assert(items@.subrange(0, 0) =~= Seq::<OrderItemEntity>::empty());
    }
    let mut i: usize = 0;
    while i < len
        invariant
            i <= len,
            len == items@.len(),
            acc == spec_items_total(items@.subrange(0, i as int)),
        decreases len - i,
    {
        let t = items[i].total_price;
        proof {
            assert(items@.subrange(0, i + 1).drop_last() =~= items@.subrange(0, i as int));
            assert(items@.subrange(0, i + 1).last() == items@[i as int]);
            lemma_items_total_mono(items@, i + 1);
        }
        if t > u64::MAX - acc {
            return None;
        }
        acc = acc + t;
        i += 1;
    }
    proof {
        assert(items@.subrange(0, len as int) =~= items@);
    }
    Some(acc)
}

/// Relies on `uuid::Uuid::new_v4`: a freshly generated random
/// (version 4) UUID, taken as its 128-bit value. Nothing is promised of
/// the value — every caller must work for any id.
#[verifier::external_body]
pub fn fresh_payment_id() -> (r: u128) {
    uuid::Uuid::new_v4().as_u128()
}

/// The pay route: validate the provider, total the order's lines, take
/// the conditional `Reserved -> PaymentProcessing` step for the calling
/// patient, and commit the pay request event in the same transaction.
/// On any error nothing is changed. Errors, in the order checked: an
/// unknown provider; a sum that does not fit the money type (anything
/// else is `Other`); no reserved order with this id; an order of
/// another patient.
pub fn pay_for_order(
    orders: &mut OrdersStore,
    outbox: &mut OutboxStore,
    order_id: i32,
    patient_id: i32,
    payment_id: u128,
    items: &Vec<OrderItemEntity>,
    provider: &String,
) -> (r: Result<OrderEntity, AppError>)
    requires
        old(orders).wf(),
        old(outbox).wf(),
        old(outbox).spec_next_id() + 1 <= i32::MAX,
    ensures
        final(orders).wf(),
        final(outbox).wf(),
        r is Ok <==> (provider@ == "qr_payment"@ && spec_items_total(items@) <= u64::MAX
            && has_order(old(orders)@, order_id as int) && old(orders)@[order_index_of(
            old(orders)@,
            order_id as int,
        )].status is Reserved && old(orders)@[order_index_of(
            old(orders)@,
            order_id as int,
        )].patient_id == patient_id),
        r matches Ok(u) ==> ({
            let k = order_index_of(old(orders)@, order_id as int);
            &&& u == (OrderEntity {
                status: OrderStatus::PaymentProcessing,
                payment_id: Some(payment_id),
                ..old(orders)@[k]
            })
            &&& final(orders)@ == old(orders)@.update(k, u)
            &&& final(outbox)@ == old(outbox)@ + spec_commit(
                seq![
                    PendingWrite {
                        event_type: EventType::PayRequest,
                        payload: spec_pay_json(
                            payment_id as int,
                            order_id as int,
                            spec_items_total(items@),
                            provider@,
                        ),
                    },
                ],
                old(outbox).spec_next_id(),
            )
        }),
        r matches Err(e) ==> final(orders)@ == old(orders)@ && final(outbox)@ == old(outbox)@ && (
        {
            &&& (e matches AppError::InvalidPaymentProvider(_) <==> provider@ != "qr_payment"@)
            &&& (e matches AppError::Other(_) <==> (provider@ == "qr_payment"@ && (
            spec_items_total(items@) > u64::MAX || (spec_items_total(items@) <= u64::MAX && !(
            has_order(old(orders)@, order_id as int) && old(orders)@[order_index_of(
                old(orders)@,
                order_id as int,
            )].status is Reserved)))))
            &&& (e matches AppError::ForbiddenResource(_) <==> (provider@ == "qr_payment"@
                && spec_items_total(items@) <= u64::MAX && has_order(
                old(orders)@,
                order_id as int,
            ) && old(orders)@[order_index_of(old(orders)@, order_id as int)].status is Reserved
                && old(orders)@[order_index_of(old(orders)@, order_id as int)].patient_id
                != patient_id))
        }),
{
    proof {
        reveal_strlit("qr_payment");
    }
    if !(*provider == String::from_str("qr_payment")) {
        return Err(AppError::InvalidPaymentProvider(provider.clone()));
    }
    let amount = match order_total(items) {
        None => {
            return Err(AppError::Other(String::from_str("order total too large")));
        },
        Some(t) => t,
    };
    let updated = match orders.begin_payment(order_id, patient_id, payment_id) {
        Err(e) => {
            return Err(e);
        },
        Ok(u) => u,
    };
    proof {
        assert(json_safe(provider@)) by {
            assert(provider@ =~= "qr_payment"@);
            assert forall|j: int| 0 <= j < provider@.len() implies json_safe_char(
                #[trigger] provider@[j],
            ) by {
                assert(provider@[j] == "qr_payment"@[j]);
            }
        }
    }
    let payload = match encode_pay_event(payment_id, order_id, amount, provider) {
        None => {
            return Err(AppError::Other(String::from_str("provider needs escaping")));
        },
        Some(p) => p,
    };
    let mut tx = OutboxTx::begin();
    tx.enqueue(CreateOutboxEntity { event_type: EventType::PayRequest, payload });
    proof {
        assert(tx@ =~= seq![
            PendingWrite {
                event_type: EventType::PayRequest,
                payload: spec_pay_json(
                    payment_id as int,
                    order_id as int,
                    spec_items_total(items@),
                    provider@,
                ),
            },
        ]);
    }
    outbox.commit(tx);
    Ok(updated)
}

/// An order with its priced lines, as the read routes hand it out.
#[derive(Clone, Debug)]
pub struct OrderWithItems {
    pub order: OrderEntity,
    pub items: Vec<OrderItemEntity>,
}

/// The lines of `items` that belong to order `id`, in order.
pub open spec fn order_items_of(items: Seq<OrderItemEntity>, id: int) -> Seq<OrderItemEntity>
    decreases items.len(),
{
    if items.len() == 0 {
        Seq::empty()
    } else {
        let init = order_items_of(items.drop_last(), id);
        if items.last().order_id == id {
            init.push(items.last())
        } else {
            init
        }
    }
}

/// Collect the lines of one order.
pub fn items_for_order(items: &Vec<OrderItemEntity>, order_id: i32) -> (r: Vec<OrderItemEntity>)
    ensures
        r@ == order_items_of(items@, order_id as int),
{
    let mut r: Vec<OrderItemEntity> = Vec::new();
    let len = items.len();
    proof {
        assert(items@.subrange(0, 0) =~= Seq::<OrderItemEntity>::empty());
    }
    let mut i: usize = 0;
    while i < len
        invariant
            i <= len,
            len == items@.len(),
            r@ == order_items_of(items@.subrange(0, i as int), order_id as int),
        decreases len - i,
    {
        proof {
            assert(items@.subrange(0, i + 1).drop_last() =~= items@.subrange(0, i as int));
            assert(items@.subrange(0, i + 1).last() == items@[i as int]);
        }
        if items[i].order_id == order_id {
            r.push(items[i]);
        }
        i += 1;
    }
    proof {
        assert(items@.subrange(0, len as int) =~= items@);
    }
    r
}

impl OrdersStore {
    /// The row at a table index.
    pub fn row_at(&self, i: usize) -> (o: OrderEntity)
        requires
            i < self@.len(),
        ensures
            o == self@[i as int],
    {
        self.orders[i]
    }

    /// The read route for one order: the order and its lines, only for
    /// the patient who owns it. A missing order is any other error.
    pub fn get_order_by_id(&self, items: &Vec<OrderItemEntity>, id: i32, patient_id: i32) -> (r:
        Result<OrderWithItems, AppError>)
        requires
            self.wf(),
        ensures
            r is Ok <==> (has_order(self@, id as int) && self@[order_index_of(
                self@,
                id as int,
            )].patient_id == patient_id),
            r matches Ok(ow) ==> ow.order == self@[order_index_of(self@, id as int)] && ow.items@
                == order_items_of(items@, id as int),
            r matches Err(e) ==> ({
                &&& (e matches AppError::ForbiddenResource(_) <==> (has_order(self@, id as int)
                    && self@[order_index_of(self@, id as int)].patient_id != patient_id))
                &&& (e matches AppError::Other(_) <==> !has_order(self@, id as int))
            }),
    {
        let order = match self.get(id) {
            None => {
                return Err(AppError::Other(String::from_str("order not found")));
            },
            Some(o) => o,
        };
        if order.patient_id != patient_id {
            return Err(AppError::ForbiddenResource(String::from_str("order of another patient")));
        }
        Ok(OrderWithItems { order, items: items_for_order(items, id) })
    }

    /// The read route for all orders: each with its lines.
    pub fn all_with_items(&self, items: &Vec<OrderItemEntity>) -> (r: Vec<OrderWithItems>)
        ensures
            r@.len() == self@.len(),
            forall|i: int|
                0 <= i < self@.len() ==> (#[trigger] r@[i]).order == self@[i] && r@[i].items@
                    == order_items_of(items@, self@[i].id as int),
    {
        let mut r: Vec<OrderWithItems> = Vec::new();
        let len = self.orders.len();
        let mut i: usize = 0;
        while i < len
            invariant
                i <= len,
                len == self@.len(),
                r@.len() == i,
                forall|j: int|
                    0 <= j < i ==> (#[trigger] r@[j]).order == self@[j] && r@[j].items@
                        == order_items_of(items@, self@[j].id as int),
            decreases len - i,
        {
            let order = self.row_at(i);
            r.push(OrderWithItems { order, items: items_for_order(items, order.id) });
            i += 1;
        }
        r
    }
}

} // verus!
