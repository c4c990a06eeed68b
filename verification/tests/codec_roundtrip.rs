use medbook_saga::events::{
    DeliveryOrderSuccessEvent, OrderItem, OrderPayRequestEvent, OrderRejectedEvent,
    OrderRequestedEvent, OrderReservedEvent,
};
use medbook_saga::wire::{
    encode_delivery_order_success, encode_order_id_event, encode_order_rejected,
    encode_order_requested, encode_order_reserved, encode_pay_event, encode_pay_request,
    parse_delivery_order_success, parse_order_id_json, parse_order_rejected,
    parse_order_requested, parse_order_reserved, parse_pay_json, parse_pay_request,
};

#[test]
fn order_id_payload_exact_bytes() {
    assert_eq!(encode_order_id_event(1), b"{\"order_id\":1}".to_vec());
    assert_eq!(encode_order_id_event(0), b"{\"order_id\":0}".to_vec());
    assert_eq!(encode_order_id_event(-42), b"{\"order_id\":-42}".to_vec());
    assert_eq!(
        encode_order_id_event(i32::MIN),
        b"{\"order_id\":-2147483648}".to_vec()
    );
}

#[test]
fn order_id_payload_round_trip() {
    for id in [0, 1, -1, 123456789, i32::MAX, i32::MIN] {
        let bytes = encode_order_id_event(id);
        assert_eq!(parse_order_id_json(&bytes), Some(id));
    }
}

#[test]
fn order_id_payload_rejects_noncanonical() {
    assert!(parse_order_id_json(&b"{\"order_id\":01}".to_vec()).is_none());
    assert!(parse_order_id_json(&b"{\"order_id\": 1}".to_vec()).is_none());
    assert!(parse_order_id_json(&b"{\"order_id\":1} ".to_vec()).is_none());
    assert!(parse_order_id_json(&b"{\"order_id\":}".to_vec()).is_none());
    assert!(parse_order_id_json(&b"{\"order_id\":2147483648}".to_vec()).is_none());
    assert!(parse_order_id_json(&b"{\"order_id\":-0}".to_vec()).is_none());
    assert!(parse_order_id_json(&b"".to_vec()).is_none());
    assert!(parse_order_id_json(&b"garbage".to_vec()).is_none());
}

#[test]
fn order_requested_exact_bytes() {
    let ev = OrderRequestedEvent {
        order_id: 1,
        order_items: vec![OrderItem { product_id: 1, quantity: 2 }],
    };
    assert_eq!(
        encode_order_requested(&ev),
        b"{\"order_id\":1,\"order_items\":[{\"product_id\":1,\"quantity\":2}]}".to_vec()
    );
}

#[test]
fn order_requested_round_trip() {
    let ev = OrderRequestedEvent {
        order_id: -7,
        order_items: vec![
            OrderItem { product_id: 3, quantity: 1 },
            OrderItem { product_id: 1, quantity: 250 },
            OrderItem { product_id: 2, quantity: 0 },
        ],
    };
    let bytes = encode_order_requested(&ev);
    let back = parse_order_requested(&bytes).expect("canonical payload");
    assert_eq!(back.order_id, ev.order_id);
    assert_eq!(back.order_items, ev.order_items);
}

#[test]
fn order_requested_empty_items_round_trip() {
    let ev = OrderRequestedEvent { order_id: 5, order_items: vec![] };
    let bytes = encode_order_requested(&ev);
    assert_eq!(bytes, b"{\"order_id\":5,\"order_items\":[]}".to_vec());
    let back = parse_order_requested(&bytes).expect("canonical payload");
    assert_eq!(back.order_items.len(), 0);
}

#[test]
fn order_requested_rejects_trailing_comma_and_junk() {
    assert!(parse_order_requested(
        &b"{\"order_id\":1,\"order_items\":[{\"product_id\":1,\"quantity\":2},]}".to_vec()
    )
    .is_none());
    assert!(parse_order_requested(&b"{\"order_id\":1,\"order_items\":[]}x".to_vec()).is_none());
    assert!(parse_order_requested(&b"{\"order_id\":1}".to_vec()).is_none());
}

#[test]
fn pay_payload_exact_bytes() {
    let bytes = encode_pay_event(0, 1, 250, &String::from("qr_payment")).expect("safe provider");
    assert_eq!(
        bytes,
        b"{\"payment_id\":\"00000000-0000-0000-0000-000000000000\",\"order_id\":1,\"amount\":250,\"provider\":\"qr_payment\"}".to_vec()
    );
}

#[test]
fn pay_payload_round_trip() {
    let pid: u128 = 0x0123456789abcdef0123456789abcdef;
    let bytes =
        encode_pay_event(pid, -3, u64::MAX, &String::from("qr_payment")).expect("safe provider");
    let (p, o, a, prov) = parse_pay_json(&bytes).expect("canonical payload");
    assert_eq!(p, pid);
    assert_eq!(o, -3);
    assert_eq!(a, u64::MAX);
    assert_eq!(prov, "qr_payment");
}

#[test]
fn pay_payload_uuid_rendering() {
    let bytes = encode_pay_event(u128::MAX, 1, 1, &String::from("p")).expect("safe provider");
    let text = String::from_utf8(bytes).expect("ascii payload");
    assert!(text.contains("\"payment_id\":\"ffffffff-ffff-ffff-ffff-ffffffffffff\""));
}

#[test]
fn pay_payload_rejects_uppercase_hex_and_bad_uuid() {
    let good = encode_pay_event(u128::MAX, 1, 1, &String::from("p")).expect("safe provider");
    let upper = String::from_utf8(good.clone()).unwrap().replace("ffff", "FFFF");
    assert!(parse_pay_json(&upper.into_bytes()).is_none());
    let mut short = good.clone();
    short.remove(20);
    assert!(parse_pay_json(&short).is_none());
}

#[test]
fn provider_needing_escapes_is_refused() {
    assert!(encode_pay_event(1, 1, 1, &String::from("a\"b")).is_none());
    assert!(encode_pay_event(1, 1, 1, &String::from("a\\b")).is_none());
    assert!(encode_pay_event(1, 1, 1, &String::from("a\nb")).is_none());
    assert!(encode_pay_event(1, 1, 1, &String::from("snail@pace")).is_some());
}

#[test]
fn typed_event_round_trips() {
    let reserved = OrderReservedEvent { order_id: 11 };
    assert_eq!(parse_order_reserved(&encode_order_reserved(&reserved)), Some(reserved));
    let rejected = OrderRejectedEvent { order_id: 12 };
    assert_eq!(parse_order_rejected(&encode_order_rejected(&rejected)), Some(rejected));
    let delivery = DeliveryOrderSuccessEvent { order_id: 13 };
    assert_eq!(
        parse_delivery_order_success(&encode_delivery_order_success(&delivery)),
        Some(delivery)
    );
    let pay = OrderPayRequestEvent {
        payment_id: 42,
        order_id: 11,
        amount: 999,
        provider: String::from("qr_payment"),
    };
    let bytes = encode_pay_request(&pay).expect("safe provider");
    let back = parse_pay_request(&bytes).expect("canonical payload");
    assert_eq!(back, pay);
}
