//! The domain events that the services exchange, and the naming scheme that
//! maps each event type to its broker destination (one queue per event type,
//! named `<service>.<event_name>`).

use vstd::prelude::*;

verus! {

/// A single line item of an order: a product and the quantity requested.
#[derive(Clone, Copy, PartialEq, Eq, Structural, Debug)]
pub struct OrderItem {
    pub product_id: i32,
    pub quantity: i32,
}

/// Emitted by the orders service when an order has been placed; consumed by
/// the inventory service, which tries to reserve the listed items.
#[derive(Clone, PartialEq, Debug)]
pub struct OrderRequestedEvent {
    pub order_id: i32,
    pub order_items: Vec<OrderItem>,
}

/// Emitted by the inventory service when every item of an order could be
/// reserved; consumed by the orders service.
#[derive(Clone, Copy, PartialEq, Eq, Structural, Debug)]
pub struct OrderReservedEvent {
    pub order_id: i32,
}

/// Emitted by the inventory service when some item of an order was not
/// available; consumed by the orders service.
#[derive(Clone, Copy, PartialEq, Eq, Structural, Debug)]
pub struct OrderRejectedEvent {
    pub order_id: i32,
}

/// Emitted by the orders service when a patient asks to pay; consumed by the
/// payments service, which creates the pending payment.
///
/// The payment id is a 128-bit identifier (the value of a UUID); the amount
/// is in minor currency units.
#[derive(Clone, PartialEq, Debug)]
pub struct OrderPayRequestEvent {
    pub payment_id: u128,
    pub order_id: i32,
    pub amount: u64,
    pub provider: String,
}

/// Emitted by the payments service when a payment has been confirmed;
/// consumed by the orders service, which advances the order and asks for
/// delivery.
#[derive(Clone, PartialEq, Debug)]
pub struct OrderPaymentSuccessEvent {
    pub payment_id: u128,
    pub order_id: i32,
    pub amount: u64,
    pub provider: String,
}

/// Emitted by the orders service once payment succeeded; consumed by the
/// delivery service, which creates the delivery.
#[derive(Clone, Copy, PartialEq, Eq, Structural, Debug)]
pub struct DeliveryOrderSuccessEvent {
    pub order_id: i32,
}

/// The closed set of event types of the saga. Each one owns a broker queue
/// named after it; the mapping is `wire_name`.
#[derive(Clone, Copy, PartialEq, Eq, Structural, Debug)]
pub enum EventType {
    OrderRequested,
    OrderReserved,
    OrderRejected,
    PayRequest,
    PaymentSuccess,
    DeliveryOrderSuccess,
}

impl EventType {
    /// The queue (and routing key) that carries this event type, as a
    /// sequence of characters.
    pub open spec fn wire_name_spec(self) -> Seq<char> {
        match self {
            EventType::OrderRequested => "inventory.order_requested"@,
            EventType::OrderReserved => "orders.order_reserved"@,
            EventType::OrderRejected => "orders.order_rejected"@,
            EventType::PayRequest => "payments.pay_request"@,
            EventType::PaymentSuccess => "orders.payment_success"@,
            EventType::DeliveryOrderSuccess => "delivery.order_success"@,
        }
    }

    /// The queue (and routing key) that carries this event type.
    pub fn wire_name(self) -> (r: &'static str)
        ensures
            r@ == self.wire_name_spec(),
    {
        match self {
            EventType::OrderRequested => "inventory.order_requested",
            EventType::OrderReserved => "orders.order_reserved",
            EventType::OrderRejected => "orders.order_rejected",
            EventType::PayRequest => "payments.pay_request",
            EventType::PaymentSuccess => "orders.payment_success",
            EventType::DeliveryOrderSuccess => "delivery.order_success",
        }
    }
}

} // verus!
