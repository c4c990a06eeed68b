//! The durable consumer framework and every service's event handlers.
//!
//! Each handler takes the raw payload the broker delivered, parses it
//! strictly, applies its service's state transition, commits any outbox
//! write in the same step, and says how the delivery must be settled:
//! acknowledged only when handling succeeded, dead-lettered when the
//! payload is malformed — never silently dropped, never acknowledged on
//! failure. The supervisor policy is a fixed reconnect delay: on any
//! infrastructure failure the subscription is torn down and rebuilt.

use vstd::prelude::*;

use crate::delivery::{CreateDeliveryEntity, DeliveryStatus, DeliveryStore};
use crate::events::{EventType, OrderItem};
use crate::inventory::{spec_reserve, InventoryStore};
use crate::orders::{spec_table_payment_success, spec_table_rejected, spec_table_reserved,
    spec_payment_success_emits, order_index_of, has_order, OrdersStore};
use crate::outbox::{spec_commit, CreateOutboxEntity, OutboxStore, OutboxTx, PendingWrite};
use crate::payments::{has_payment, CreatePaymentEntity, PaymentStatus, PaymentsStore};
use crate::wire::{encode_order_id_event, parse_order_id_json, parse_order_requested,
    parse_pay_json, spec_order_id_json, spec_order_requested_json, spec_pay_json};
use crate::codec::json_safe;

verus! {

/// Seconds a supervisor waits before rebuilding a torn-down
/// subscription, and seconds the relay sleeps on an empty poll.
pub const RECONNECT_DELAY_SECS: u64 = 5;

/// Seconds the outbox relay sleeps when no entry is pending.
pub const POLL_DELAY_SECS: u64 = 5;

/// How a delivered message must be settled.
#[derive(Clone, Copy, PartialEq, Eq, Structural, Debug)]
pub enum AckAction {
    /// The handler succeeded: acknowledge, the message is done.
    Ack,
    /// The message can never be handled (malformed payload): route it to
    /// the dead-letter destination instead of retrying forever.
    DeadLetter,
}

/// What the supervisor does after one delivery or connection event.
#[derive(Clone, Copy, PartialEq, Eq, Structural, Debug)]
pub enum SupervisorAction {
    /// Keep consuming from the open subscription.
    Continue,
    /// Tear the subscription down and rebuild it after the fixed delay.
    RestartAfterDelay,
}

/// Settlement policy: acknowledge exactly the successfully handled
/// messages.
pub fn ack_decision(handled_ok: bool) -> (a: AckAction)
    ensures
        a is Ack <==> handled_ok,
{
    if handled_ok {
        AckAction::Ack
    } else {
        AckAction::DeadLetter
    }
}

/// Supervision policy: stay on a healthy connection, restart a broken
/// one after the fixed delay.
pub fn supervisor_decision(connection_ok: bool) -> (a: SupervisorAction)
    ensures
        a is Continue <==> connection_ok,
{
    if connection_ok {
        SupervisorAction::Continue
    } else {
        SupervisorAction::RestartAfterDelay
    }
}

/// The inventory service's consumer of order-requested events: try to
/// reserve every item atomically, all or nothing, and commit the
/// matching outcome event — reservation confirmed, or rejection with the
/// stock untouched — in the same transaction as the stock change. The
/// message is acknowledged in either outcome; only a malformed payload
/// is dead-lettered, with nothing changed.
pub fn reserve_stock(inv: &mut InventoryStore, outbox: &mut OutboxStore, payload: &Vec<u8>) -> (r:
    AckAction)
    requires
        old(inv).wf(),
        old(outbox).wf(),
        old(outbox).spec_next_id() + 1 <= i32::MAX,
    ensures
        final(inv).wf(),
        final(outbox).wf(),
        (forall|id: i32, items: Seq<OrderItem>|
            payload@ != spec_order_requested_json(id as int, items)) ==> (r is DeadLetter
            && final(inv)@ == old(inv)@ && final(outbox)@ == old(outbox)@),
        forall|id: i32, items: Seq<OrderItem>|
            payload@ == spec_order_requested_json(id as int, items) ==> (r is Ack && (
            match spec_reserve(old(inv)@, items) {
                Some(rows2) => final(inv)@ == rows2 && final(outbox)@ == old(outbox)@
                    + spec_commit(
                    seq![
                        PendingWrite {
                            event_type: EventType::OrderReserved,
                            payload: spec_order_id_json(id as int),
                        },
                    ],
                    old(outbox).spec_next_id(),
                ),
                None => final(inv)@ == old(inv)@ && final(outbox)@ == old(outbox)@ + spec_commit(
                    seq![
                        PendingWrite {
                            event_type: EventType::OrderRejected,
                            payload: spec_order_id_json(id as int),
                        },
                    ],
                    old(outbox).spec_next_id(),
                ),
            })),
{
    let ev = match parse_order_requested(payload) {
        None => {
            return AckAction::DeadLetter;
        },
        Some(ev) => ev,
    };
    let granted = inv.reserve(&ev.order_items);
    let mut tx = OutboxTx::begin();
    let outcome_payload = encode_order_id_event(ev.order_id);
    if granted {
        tx.enqueue(
            CreateOutboxEntity { event_type: EventType::OrderReserved, payload: outcome_payload },
        );
    } else {
        tx.enqueue(
            CreateOutboxEntity { event_type: EventType::OrderRejected, payload: outcome_payload },
        );
    }
    proof {
        assert(tx@ =~= seq![
            PendingWrite {
                event_type: if granted {
                    EventType::OrderReserved
                } else {
                    EventType::OrderRejected
                },
                payload: spec_order_id_json(ev.order_id as int),
            },
        ]);
    }
    outbox.commit(tx);
    AckAction::Ack
}

/// The orders service's consumer of reservation confirmations: the
/// conditional `Pending -> Reserved` step on the order's row.
pub fn order_reserved(orders: &mut OrdersStore, payload: &Vec<u8>) -> (r: AckAction)
    requires
        old(orders).wf(),
    ensures
        final(orders).wf(),
        (forall|id: i32| payload@ != spec_order_id_json(id as int)) ==> (r is DeadLetter && final(orders)@ == old(orders)@),
        forall|id: i32|
            payload@ == spec_order_id_json(id as int) ==> (r is Ack && final(orders)@
                == spec_table_reserved(old(orders)@, id as int)),
{
    match parse_order_id_json(payload) {
        None => AckAction::DeadLetter,
        Some(id) => {
            orders.mark_reserved(id);
            AckAction::Ack
        },
    }
}

/// The orders service's consumer of reservation rejections: the
/// conditional `Pending -> Rejected` step on the order's row.
pub fn order_rejected(orders: &mut OrdersStore, payload: &Vec<u8>) -> (r: AckAction)
    requires
        old(orders).wf(),
    ensures
        final(orders).wf(),
        (forall|id: i32| payload@ != spec_order_id_json(id as int)) ==> (r is DeadLetter && final(orders)@ == old(orders)@),
        forall|id: i32|
            payload@ == spec_order_id_json(id as int) ==> (r is Ack && final(orders)@
                == spec_table_rejected(old(orders)@, id as int)),
{
    match parse_order_id_json(payload) {
        None => AckAction::DeadLetter,
        Some(id) => {
            orders.mark_rejected(id);
            AckAction::Ack
        },
    }
}

/// The orders service's consumer of payment confirmations: the
/// conditional `PaymentProcessing -> PaymentSuccess` step, and — exactly
/// when that step was taken — a delivery request committed in the same
/// transaction. A replay takes no step and schedules no second delivery.
pub fn order_payment_success(orders: &mut OrdersStore, outbox: &mut OutboxStore, payload: &Vec<
    u8,
>) -> (r: AckAction)
    requires
        old(orders).wf(),
        old(outbox).wf(),
        old(outbox).spec_next_id() + 1 <= i32::MAX,
    ensures
        final(orders).wf(),
        final(outbox).wf(),
        (forall|pid: u128, oid: i32, amt: u64, prov: Seq<char>|
            !(json_safe(prov) && payload@ == spec_pay_json(
                pid as int,
                oid as int,
                amt as int,
                prov,
            ))) ==> (r is DeadLetter && final(orders)@ == old(orders)@ && final(outbox)@ == old(
            outbox,
        )@),
        forall|pid: u128, oid: i32, amt: u64, prov: Seq<char>|
            json_safe(prov) && payload@ == spec_pay_json(pid as int, oid as int, amt as int, prov)
                ==> (r is Ack && final(orders)@ == spec_table_payment_success(
                old(orders)@,
                oid as int,
            ) && (if has_order(old(orders)@, oid as int) && spec_payment_success_emits(
                old(orders)@[order_index_of(old(orders)@, oid as int)],
            ) {
                final(outbox)@ == old(outbox)@ + spec_commit(
                    seq![
                        PendingWrite {
                            event_type: EventType::DeliveryOrderSuccess,
                            payload: spec_order_id_json(oid as int),
                        },
                    ],
                    old(outbox).spec_next_id(),
                )
            } else {
                final(outbox)@ == old(outbox)@
            })),
{
    let parsed = match parse_pay_json(payload) {
        None => {
            return AckAction::DeadLetter;
        },
        Some(p) => p,
    };
    let oid = parsed.1;
    let emit = orders.mark_payment_success(oid);
    if emit {
        let mut tx = OutboxTx::begin();
        tx.enqueue(
            CreateOutboxEntity {
                event_type: EventType::DeliveryOrderSuccess,
                payload: encode_order_id_event(oid),
            },
        );
        proof {
            assert(tx@ =~= seq![
                PendingWrite {
                    event_type: EventType::DeliveryOrderSuccess,
                    payload: spec_order_id_json(oid as int),
                },
            ]);
        }
        outbox.commit(tx);
    }
    AckAction::Ack
}

/// The payments service's consumer of pay requests: create the pending
/// payment — unless one with this id already exists, so a redelivered
/// request creates nothing and is still acknowledged.
pub fn pay_request(payments: &mut PaymentsStore, payload: &Vec<u8>) -> (r: AckAction)
    requires
        old(payments).wf(),
    ensures
        final(payments).wf(),
        (forall|pid: u128, oid: i32, amt: u64, prov: Seq<char>|
            !(json_safe(prov) && payload@ == spec_pay_json(
                pid as int,
                oid as int,
                amt as int,
                prov,
            ))) ==> (r is DeadLetter && final(payments)@ == old(payments)@),
        forall|pid: u128, oid: i32, amt: u64, prov: Seq<char>|
            json_safe(prov) && payload@ == spec_pay_json(pid as int, oid as int, amt as int, prov)
                ==> (r is Ack && (if has_payment(old(payments)@, pid) {
                final(payments)@ == old(payments)@
            } else {
                final(payments)@.len() == old(payments)@.len() + 1 && final(payments)@.last().id
                    == pid && final(payments)@.last().order_id == oid && final(payments)@.last().amount == amt && final(payments)@.last().provider == prov && final(payments)@.last().status is Pending && final(payments)@.subrange(
                    0,
                    old(payments)@.len() as int,
                ) == old(payments)@
            })),
{
    let parsed = match parse_pay_json(payload) {
        None => {
            return AckAction::DeadLetter;
        },
        Some(p) => p,
    };
    let (pid, oid, amt, prov) = parsed;
    let created = payments.create(
        CreatePaymentEntity {
            id: pid,
            order_id: oid,
            amount: amt,
            provider: prov,
            status: PaymentStatus::Pending,
        },
    );
    proof {
        if created {
            assert(payments@.subrange(0, old(payments)@.len() as int) =~= old(payments)@);
        }
    }
    AckAction::Ack
}

/// The delivery service's consumer of delivery requests: create the
/// delivery in `Preparing` — unless the order already has one, so a
/// redelivered event creates no second delivery and is still
/// acknowledged.
pub fn order_success(delivery: &mut DeliveryStore, payload: &Vec<u8>) -> (r: AckAction)
    requires
        old(delivery).wf(),
        old(delivery).spec_next_id() < i32::MAX,
    ensures
        final(delivery).wf(),
        (forall|id: i32| payload@ != spec_order_id_json(id as int)) ==> (r is DeadLetter && final(delivery)@ == old(delivery)@),
        forall|id: i32|
            payload@ == spec_order_id_json(id as int) ==> (r is Ack && (
            if crate::delivery::has_delivery_for_order(old(delivery)@, id as int) {
                final(delivery)@ == old(delivery)@
            } else {
                final(delivery)@.len() == old(delivery)@.len() + 1 && final(delivery)@.last().order_id
                    == id && final(delivery)@.last().status is Preparing && final(delivery)@.subrange(0, old(delivery)@.len() as int) == old(delivery)@
            })),
{
    match parse_order_id_json(payload) {
        None => AckAction::DeadLetter,
        Some(id) => {
            let created = delivery.create_for_order(
                CreateDeliveryEntity { order_id: id, status: DeliveryStatus::Preparing },
            );
            proof {
                if created is Some {
                    assert(delivery@.subrange(0, old(delivery)@.len() as int) =~= old(
                        delivery,
                    )@);
                }
            }
            AckAction::Ack
        },
    }
}

} // verus!
