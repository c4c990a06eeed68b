use medbook_saga::consumers::{
    ack_decision, order_payment_success, order_rejected, order_reserved, order_success,
    pay_request, reserve_stock, supervisor_decision, AckAction, SupervisorAction,
    POLL_DELAY_SECS, RECONNECT_DELAY_SECS,
};
use medbook_saga::delivery::{parse_delivery_status, DeliveryStatus, DeliveryStore};
use medbook_saga::errors::AppError;
use medbook_saga::events::{EventType, OrderItem, OrderRequestedEvent};
use medbook_saga::inventory::{InventoryEntity, InventoryStore};
use medbook_saga::orders::{
    fresh_payment_id, order_item_rows, order_total, pay_for_order, plan_order, CreateOrderEntity,
    OrderItemEntity, OrderStatus, OrdersStore,
};
use medbook_saga::outbox::{OutboxStatus, OutboxStore};
use medbook_saga::payments::{confirm_payment, PaymentStatus, PaymentsStore};
use medbook_saga::wire::encode_order_requested;

fn seeded_inventory(total: i32) -> InventoryStore {
    let mut inv = InventoryStore::new();
    assert!(inv.add_row(InventoryEntity {
        product_id: 1,
        total_quantity: total,
        reserved_quantity: 0,
        sold_quantity: 0,
    }));
    inv
}

fn pending_order(orders: &mut OrdersStore) -> i32 {
    let created = orders.create(CreateOrderEntity { patient_id: 77, status: OrderStatus::Pending });
    assert_eq!(created.status, OrderStatus::Pending);
    created.id
}

#[test]
fn saga_progression_reserves_stock_and_order() {
    // Sufficient stock: the end-to-end effect of one saga pass is a
    // reservation of 2 units, an order in RESERVED, and no rejection
    // event anywhere.
    let mut inv = seeded_inventory(5);
    let mut inv_outbox = OutboxStore::new();
    let mut orders = OrdersStore::new();
    let order_id = pending_order(&mut orders);
    assert_eq!(order_id, 1);

    let payload = encode_order_requested(&OrderRequestedEvent {
        order_id,
        order_items: vec![OrderItem { product_id: 1, quantity: 2 }],
    });
    let ack = reserve_stock(&mut inv, &mut inv_outbox, &payload);
    assert_eq!(ack, AckAction::Ack);
    assert_eq!(inv.rows()[0].reserved_quantity, 2);

    // Exactly one outbox entry: the confirmation, no rejection.
    assert_eq!(inv_outbox.len(), 1);
    let entry = inv_outbox.entry_at(0);
    assert_eq!(entry.event_type, EventType::OrderReserved);

    // The relay publishes it and marks it processed.
    let job = inv_outbox.next_pending().expect("confirmation pending");
    inv_outbox.relay_step(job.id, true);
    assert_eq!(inv_outbox.entry_at(0).status, OutboxStatus::Processed);

    // The orders service consumes it.
    let ack2 = order_reserved(&mut orders, &job.payload);
    assert_eq!(ack2, AckAction::Ack);
    assert_eq!(orders.get(order_id).unwrap().status, OrderStatus::Reserved);
}

#[test]
fn saga_rejection_leaves_stock_untouched() {
    let mut inv = seeded_inventory(1);
    let mut inv_outbox = OutboxStore::new();
    let mut orders = OrdersStore::new();
    let order_id = pending_order(&mut orders);

    let payload = encode_order_requested(&OrderRequestedEvent {
        order_id,
        order_items: vec![OrderItem { product_id: 1, quantity: 2 }],
    });
    assert_eq!(reserve_stock(&mut inv, &mut inv_outbox, &payload), AckAction::Ack);
    assert_eq!(inv.rows()[0].reserved_quantity, 0);
    assert_eq!(inv.rows()[0].total_quantity, 1);

    assert_eq!(inv_outbox.len(), 1);
    let entry = inv_outbox.entry_at(0);
    assert_eq!(entry.event_type, EventType::OrderRejected);

    assert_eq!(order_rejected(&mut orders, &entry.payload), AckAction::Ack);
    assert_eq!(orders.get(order_id).unwrap().status, OrderStatus::Rejected);
}

#[test]
fn malformed_payload_is_dead_lettered() {
    let mut inv = seeded_inventory(5);
    let mut inv_outbox = OutboxStore::new();
    let bad = b"{\"order_id\":1,".to_vec();
    assert_eq!(reserve_stock(&mut inv, &mut inv_outbox, &bad), AckAction::DeadLetter);
    assert_eq!(inv.rows()[0].reserved_quantity, 0);
    assert_eq!(inv_outbox.len(), 0);
}

#[test]
fn redelivered_reservation_is_idempotent() {
    // Applying OrderReservedEvent{order_id} twice must not change
    // anything after the first application.
    let mut orders = OrdersStore::new();
    let order_id = pending_order(&mut orders);
    let payload = medbook_saga::wire::encode_order_id_event(order_id);
    assert_eq!(order_reserved(&mut orders, &payload), AckAction::Ack);
    let after_first = orders.get(order_id).unwrap();
    assert_eq!(after_first.status, OrderStatus::Reserved);
    assert_eq!(order_reserved(&mut orders, &payload), AckAction::Ack);
    assert_eq!(orders.get(order_id).unwrap(), after_first);
}

#[test]
fn stale_reservation_outcome_cannot_regress_an_order() {
    let mut orders = OrdersStore::new();
    let order_id = pending_order(&mut orders);
    let payload = medbook_saga::wire::encode_order_id_event(order_id);
    assert_eq!(order_reserved(&mut orders, &payload), AckAction::Ack);
    // A late rejection for the same order changes nothing: the order has
    // left Pending.
    assert_eq!(order_rejected(&mut orders, &payload), AckAction::Ack);
    assert_eq!(orders.get(order_id).unwrap().status, OrderStatus::Reserved);
}

#[test]
fn payment_leg_end_to_end() {
    let mut orders = OrdersStore::new();
    let mut orders_outbox = OutboxStore::new();
    let order_id = pending_order(&mut orders);
    let reserved_payload = medbook_saga::wire::encode_order_id_event(order_id);
    order_reserved(&mut orders, &reserved_payload);

    let items = vec![OrderItemEntity {
        order_id,
        product_id: 1,
        quantity: 2,
        unit_price: 125,
        total_price: 250,
    }];
    let payment_id = fresh_payment_id();
    let updated = pay_for_order(
        &mut orders,
        &mut orders_outbox,
        order_id,
        77,
        payment_id,
        &items,
        &String::from("qr_payment"),
    )
    .expect("reserved order, right patient, known provider");
    assert_eq!(updated.status, OrderStatus::PaymentProcessing);
    assert_eq!(updated.payment_id, Some(payment_id));
    assert_eq!(orders_outbox.len(), 1);
    let pay_entry = orders_outbox.entry_at(0);
    assert_eq!(pay_entry.event_type, EventType::PayRequest);

    // The payments service consumes the pay request; a replay creates no
    // second payment.
    let mut payments = PaymentsStore::new();
    assert_eq!(pay_request(&mut payments, &pay_entry.payload), AckAction::Ack);
    assert_eq!(pay_request(&mut payments, &pay_entry.payload), AckAction::Ack);
    let stored = payments.get(payment_id).expect("payment created once");
    assert_eq!(stored.order_id, order_id);
    assert_eq!(stored.amount, 250);
    assert_eq!(stored.provider, "qr_payment");
    assert_eq!(stored.status, PaymentStatus::Pending);

    // Confirmation emits the payment success event; confirming again
    // fails and emits nothing further.
    let mut payments_outbox = OutboxStore::new();
    let confirmed = confirm_payment(&mut payments, &mut payments_outbox, payment_id)
        .expect("pending payment");
    assert_eq!(confirmed.status, PaymentStatus::Success);
    assert_eq!(payments_outbox.len(), 1);
    let success_entry = payments_outbox.entry_at(0);
    assert_eq!(success_entry.event_type, EventType::PaymentSuccess);
    assert!(confirm_payment(&mut payments, &mut payments_outbox, payment_id).is_err());
    assert_eq!(payments_outbox.len(), 1);

    // The orders service consumes the confirmation: the order advances
    // and exactly one delivery request is scheduled, replays included.
    assert_eq!(
        order_payment_success(&mut orders, &mut orders_outbox, &success_entry.payload),
        AckAction::Ack
    );
    assert_eq!(orders.get(order_id).unwrap().status, OrderStatus::PaymentSuccess);
    assert_eq!(orders_outbox.len(), 2);
    let delivery_entry = orders_outbox.entry_at(1);
    assert_eq!(delivery_entry.event_type, EventType::DeliveryOrderSuccess);
    assert_eq!(
        order_payment_success(&mut orders, &mut orders_outbox, &success_entry.payload),
        AckAction::Ack
    );
    assert_eq!(orders_outbox.len(), 2);

    // The delivery service creates the delivery once, replays included.
    let mut delivery = DeliveryStore::new();
    assert_eq!(order_success(&mut delivery, &delivery_entry.payload), AckAction::Ack);
    assert_eq!(order_success(&mut delivery, &delivery_entry.payload), AckAction::Ack);
    let d = delivery.get(1).expect("one delivery");
    assert_eq!(d.order_id, order_id);
    assert_eq!(d.status, DeliveryStatus::Preparing);
}

#[test]
fn pay_for_order_error_paths() {
    let mut orders = OrdersStore::new();
    let mut outbox = OutboxStore::new();
    let order_id = pending_order(&mut orders);
    let items: Vec<OrderItemEntity> = vec![];

    // Unknown provider.
    let e = pay_for_order(&mut orders, &mut outbox, order_id, 77, 1, &items, &String::from("cash"))
        .unwrap_err();
    assert!(matches!(e, AppError::InvalidPaymentProvider(_)));
    assert_eq!(e.status_code(), 400);

    // Not reserved yet.
    let e2 = pay_for_order(
        &mut orders,
        &mut outbox,
        order_id,
        77,
        1,
        &items,
        &String::from("qr_payment"),
    )
    .unwrap_err();
    assert!(matches!(e2, AppError::Other(_)));
    assert_eq!(e2.status_code(), 500);

    // Reserved, but another patient's order.
    order_reserved(&mut orders, &medbook_saga::wire::encode_order_id_event(order_id));
    let e3 = pay_for_order(
        &mut orders,
        &mut outbox,
        order_id,
        78,
        1,
        &items,
        &String::from("qr_payment"),
    )
    .unwrap_err();
    assert!(matches!(e3, AppError::ForbiddenResource(_)));
    assert_eq!(e3.status_code(), 403);
    assert_eq!(outbox.len(), 0);
    assert_eq!(orders.get(order_id).unwrap().status, OrderStatus::Reserved);
}

#[test]
fn plan_order_filters_prices_and_reports_missing() {
    let prices = vec![(1, 100u64), (2, 250u64)];
    let requested = vec![
        OrderItem { product_id: 1, quantity: 2 },
        OrderItem { product_id: 2, quantity: 0 },
        OrderItem { product_id: 1, quantity: -1 },
    ];
    let plan = plan_order(77, &requested, &prices).expect("all kept items priced");
    assert_eq!(plan.order.patient_id, 77);
    assert_eq!(plan.order.status, OrderStatus::Pending);
    assert_eq!(plan.items, vec![OrderItem { product_id: 1, quantity: 2 }]);
    assert_eq!(plan.unit_prices, vec![100]);

    let rows = order_item_rows(9, &plan.items, &plan.unit_prices);
    assert_eq!(
        rows,
        vec![OrderItemEntity {
            order_id: 9,
            product_id: 1,
            quantity: 2,
            unit_price: 100,
            total_price: 200,
        }]
    );

    let missing = plan_order(
        77,
        &vec![OrderItem { product_id: 3, quantity: 1 }],
        &prices,
    )
    .unwrap_err();
    assert!(matches!(missing, AppError::Other(_)));
}

#[test]
fn order_total_detects_overflow() {
    let line = |t: u64| OrderItemEntity {
        order_id: 1,
        product_id: 1,
        quantity: 1,
        unit_price: t,
        total_price: t,
    };
    assert_eq!(order_total(&vec![line(200), line(50)]), Some(250));
    assert_eq!(order_total(&vec![]), Some(0));
    assert_eq!(order_total(&vec![line(u64::MAX), line(1)]), None);
}

#[test]
fn delivery_status_route_validates_labels() {
    let mut delivery = DeliveryStore::new();
    let payload = medbook_saga::wire::encode_order_id_event(4);
    order_success(&mut delivery, &payload);

    assert_eq!(parse_delivery_status(&String::from("EN_ROUTE")), Some(DeliveryStatus::EnRoute));
    assert_eq!(parse_delivery_status(&String::from("SHIPPED")), None);

    let updated = delivery.update_status(1, &String::from("EN_ROUTE")).expect("known status");
    assert_eq!(updated.status, DeliveryStatus::EnRoute);
    let bad = delivery.update_status(1, &String::from("SHIPPED")).unwrap_err();
    assert!(matches!(bad, AppError::BadDeliveryState(_)));
    assert_eq!(bad.status_code(), 400);
    let missing = delivery.update_status(9, &String::from("DELIVERED")).unwrap_err();
    assert!(matches!(missing, AppError::Other(_)));
}

#[test]
fn read_routes_and_error_codes() {
    let mut inv = InventoryStore::new();
    assert!(inv.add_row(InventoryEntity {
        product_id: 7,
        total_quantity: 3,
        reserved_quantity: 1,
        sold_quantity: 0,
    }));
    let found = medbook_saga::inventory::get_inventory_by_product_id(&inv, 7).expect("row");
    assert_eq!(found.total_quantity, 3);
    let missing = medbook_saga::inventory::get_inventory_by_product_id(&inv, 8).unwrap_err();
    assert_eq!(missing, AppError::ProductNotFound(8));
    assert_eq!(missing.status_code(), 404);

    assert_eq!(AppError::ServiceUnreachable(String::from("products")).status_code(), 503);

    let mut orders = OrdersStore::new();
    let order_id = pending_order(&mut orders);
    let items = vec![
        OrderItemEntity { order_id, product_id: 1, quantity: 1, unit_price: 5, total_price: 5 },
        OrderItemEntity { order_id: 99, product_id: 2, quantity: 1, unit_price: 7, total_price: 7 },
    ];
    let ow = orders.get_order_by_id(&items, order_id, 77).expect("owner reads own order");
    assert_eq!(ow.items.len(), 1);
    assert_eq!(ow.items[0].unit_price, 5);
    assert!(matches!(
        orders.get_order_by_id(&items, order_id, 78).unwrap_err(),
        AppError::ForbiddenResource(_)
    ));
    assert!(matches!(orders.get_order_by_id(&items, 5, 77).unwrap_err(), AppError::Other(_)));

    let all = orders.all_with_items(&items);
    assert_eq!(all.len(), 1);
    assert_eq!(all[0].order.id, order_id);
    assert_eq!(all[0].items.len(), 1);
}

#[test]
fn policies_and_names() {
    assert_eq!(ack_decision(true), AckAction::Ack);
    assert_eq!(ack_decision(false), AckAction::DeadLetter);
    assert_eq!(supervisor_decision(true), SupervisorAction::Continue);
    assert_eq!(supervisor_decision(false), SupervisorAction::RestartAfterDelay);
    assert_eq!(RECONNECT_DELAY_SECS, 5);
    assert_eq!(POLL_DELAY_SECS, 5);

    assert_eq!(EventType::OrderRequested.wire_name(), "inventory.order_requested");
    assert_eq!(EventType::OrderReserved.wire_name(), "orders.order_reserved");
    assert_eq!(EventType::OrderRejected.wire_name(), "orders.order_rejected");
    assert_eq!(EventType::PayRequest.wire_name(), "payments.pay_request");
    assert_eq!(EventType::PaymentSuccess.wire_name(), "orders.payment_success");
    assert_eq!(EventType::DeliveryOrderSuccess.wire_name(), "delivery.order_success");

    assert_eq!(OrderStatus::PaymentProcessing.label(), "PAYMENT_PROCESSING");
    assert_eq!(PaymentStatus::Success.label(), "SUCCESS");
    assert_eq!(DeliveryStatus::Preparing.label(), "PREPARING");
}
