use medbook_saga::events::OrderItem;
use medbook_saga::inventory::{conditional_reserve, sort_items, InventoryEntity, InventoryStore};

fn store_with(rows: &[InventoryEntity]) -> InventoryStore {
    let mut s = InventoryStore::new();
    for r in rows {
        assert!(s.add_row(*r));
    }
    s
}

fn row(product_id: i32, total: i32, reserved: i32, sold: i32) -> InventoryEntity {
    InventoryEntity {
        product_id,
        total_quantity: total,
        reserved_quantity: reserved,
        sold_quantity: sold,
    }
}

#[test]
fn no_oversell_two_competing_requests() {
    // Stock of 5; requests for 3 and 4 units: exactly one is granted and
    // reserved + sold never exceeds the total.
    let mut s = store_with(&[row(1, 5, 0, 0)]);
    let first = s.reserve(&vec![OrderItem { product_id: 1, quantity: 3 }]);
    let second = s.reserve(&vec![OrderItem { product_id: 1, quantity: 4 }]);
    assert!(first);
    assert!(!second);
    let rows = s.rows();
    assert_eq!(rows[0].reserved_quantity, 3);
    assert!(rows[0].reserved_quantity + rows[0].sold_quantity <= rows[0].total_quantity);
}

#[test]
fn both_fail_after_depletion() {
    let mut s = store_with(&[row(1, 5, 5, 0)]);
    assert!(!s.reserve(&vec![OrderItem { product_id: 1, quantity: 3 }]));
    assert!(!s.reserve(&vec![OrderItem { product_id: 1, quantity: 4 }]));
    let rows = s.rows();
    assert_eq!(rows[0].reserved_quantity, 5);
    assert_eq!(rows[0].total_quantity, 5);
}

#[test]
fn multi_item_reservation_is_all_or_nothing() {
    // The second item is unavailable, so the first must not stay
    // reserved either.
    let mut s = store_with(&[row(1, 10, 0, 0), row(2, 1, 0, 1)]);
    let granted = s.reserve(&vec![
        OrderItem { product_id: 1, quantity: 2 },
        OrderItem { product_id: 2, quantity: 1 },
    ]);
    assert!(!granted);
    let rows = s.rows();
    assert_eq!(rows[0].reserved_quantity, 0);
    assert_eq!(rows[1].reserved_quantity, 0);
}

#[test]
fn reservation_outcome_ignores_item_arrival_order() {
    let items_a = vec![
        OrderItem { product_id: 2, quantity: 1 },
        OrderItem { product_id: 1, quantity: 2 },
    ];
    let items_b = vec![
        OrderItem { product_id: 1, quantity: 2 },
        OrderItem { product_id: 2, quantity: 1 },
    ];
    let mut s1 = store_with(&[row(1, 3, 0, 0), row(2, 3, 0, 0)]);
    let mut s2 = store_with(&[row(1, 3, 0, 0), row(2, 3, 0, 0)]);
    assert!(s1.reserve(&items_a));
    assert!(s2.reserve(&items_b));
    assert_eq!(s1.rows(), s2.rows());
}

#[test]
fn unknown_product_rejects_whole_order() {
    let mut s = store_with(&[row(1, 5, 0, 0)]);
    assert!(!s.reserve(&vec![
        OrderItem { product_id: 1, quantity: 1 },
        OrderItem { product_id: 9, quantity: 1 },
    ]));
    assert_eq!(s.rows()[0].reserved_quantity, 0);
}

#[test]
fn negative_quantity_never_grants() {
    let mut s = store_with(&[row(1, 5, 0, 0)]);
    assert!(!s.reserve(&vec![OrderItem { product_id: 1, quantity: -2 }]));
    assert_eq!(s.rows()[0].reserved_quantity, 0);
}

#[test]
fn conditional_reserve_boundary() {
    let r = row(1, 7, 1, 1);
    // 5 units available: exactly 5 can still be taken.
    let granted = conditional_reserve(&r, 5).expect("5 of 5 available");
    assert_eq!(granted.reserved_quantity, 6);
    assert_eq!(granted.total_quantity, 7);
    assert_eq!(granted.sold_quantity, 1);
    assert!(conditional_reserve(&r, 6).is_none());
    let noop = conditional_reserve(&r, 0).expect("zero is always available");
    assert_eq!(noop, r);
}

#[test]
fn add_row_refuses_duplicates_and_bad_counters() {
    let mut s = store_with(&[row(1, 5, 0, 0)]);
    assert!(!s.add_row(row(1, 3, 0, 0)));
    assert!(!s.add_row(row(2, 3, 2, 2)));
    assert!(s.add_row(row(2, 4, 2, 2)));
}

#[test]
fn sort_items_orders_by_product_then_quantity() {
    let sorted = sort_items(&vec![
        OrderItem { product_id: 3, quantity: 1 },
        OrderItem { product_id: 1, quantity: 9 },
        OrderItem { product_id: 1, quantity: 2 },
    ]);
    assert_eq!(
        sorted,
        vec![
            OrderItem { product_id: 1, quantity: 2 },
            OrderItem { product_id: 1, quantity: 9 },
            OrderItem { product_id: 3, quantity: 1 },
        ]
    );
}

#[test]
fn available_counts_free_stock() {
    let s = store_with(&[row(4, 10, 3, 2)]);
    let rec = s.get(4).expect("row exists");
    assert_eq!(rec.available(), 5);
}
