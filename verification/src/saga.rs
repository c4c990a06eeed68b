//! The choreography's end-to-end laws: what one pass of the saga — a
//! reservation outcome travelling from the inventory service through the
//! outbox to the orders service — does to the two services' states.

use vstd::prelude::*;
use vstd::relations::sorted_by;
use vstd::seq_lib::lemma_sorted_unique;

use crate::events::OrderItem;
use crate::inventory::{
    has_product, index_of, item_leq, lemma_item_leq_total, lemma_no_oversell, rows_wf,
    same_products_no_release, spec_conditional_reserve, spec_reserve, spec_reserve_many,
    spec_sorted_items, InventoryEntity,
};
use crate::orders::{spec_table_rejected, spec_table_reserved, OrderEntity, OrderStatus};

verus! {

/// A granted single-item order takes exactly the requested quantity from
/// exactly the requested product: the grant succeeds precisely when the
/// product exists with enough stock, and then only that row changes,
/// its reservation growing by the quantity.
pub proof fn lemma_reserve_single_item(rows: Seq<InventoryEntity>, item: OrderItem)
    ensures
        spec_reserve(rows, seq![item]) is Some <==> (has_product(rows, item.product_id as int)
            && 0 <= item.quantity && item.quantity <= rows[index_of(
            rows,
            item.product_id as int,
        )].spec_available()),
        spec_reserve(rows, seq![item]) matches Some(rows2) ==> ({
            let k = index_of(rows, item.product_id as int);
            rows2 == rows.update(
                k,
                InventoryEntity {
                    reserved_quantity: (rows[k].reserved_quantity + item.quantity) as i32,
                    ..rows[k]
                },
            )
        }),
{
    let single = seq![item];
    lemma_item_leq_total();
    single.lemma_sort_by_ensures(item_leq());
    assert(sorted_by(single, item_leq()));
    lemma_sorted_unique(single, single.sort_by(item_leq()), item_leq());
    assert(spec_sorted_items(single) == single);
    assert(single[0] == item);
    assert(single.drop_first() =~= Seq::<OrderItem>::empty());
    assert(single.len() == 1);
    assert(spec_reserve(rows, single) == crate::inventory::spec_reserve_seq(rows, single));
    match crate::inventory::spec_reserve_item(rows, item) {
        Some(r2) => {
            assert(crate::inventory::spec_reserve_seq(r2, single.drop_first()) == Some(r2));
            assert(crate::inventory::spec_reserve_seq(rows, single) == Some(r2));
            let k = index_of(rows, item.product_id as int);
            assert(spec_conditional_reserve(rows[k], item.quantity as int) is Some);
        },
        None => {
            assert(crate::inventory::spec_reserve_seq(rows, single) is None);
            if has_product(rows, item.product_id as int) {
                let k = index_of(rows, item.product_id as int);
                assert(spec_conditional_reserve(rows[k], item.quantity as int) is None);
            }
        },
    }
}

/// Saga progression: when the stock suffices, the reservation is
/// granted, nothing is released or oversold, and the reservation
/// confirmation — applied by the orders service's handler — moves
/// exactly the pending order to `Reserved`, touching no other row and
/// no other field.
pub proof fn lemma_saga_progression(
    inv: Seq<InventoryEntity>,
    orders: Seq<OrderEntity>,
    order_id: i32,
    items: Seq<OrderItem>,
)
    requires
        rows_wf(inv),
        spec_reserve(inv, items) is Some,
    ensures
        rows_wf(spec_reserve(inv, items).unwrap()),
        same_products_no_release(inv, spec_reserve(inv, items).unwrap()),
        spec_table_reserved(orders, order_id as int).len() == orders.len(),
        forall|i: int|
            0 <= i < orders.len() && orders[i].id != order_id
                ==> #[trigger] spec_table_reserved(orders, order_id as int)[i] == orders[i],
        forall|i: int|
            0 <= i < orders.len() && orders[i].id == order_id && orders[i].status is Pending
                ==> #[trigger] spec_table_reserved(orders, order_id as int)[i] == (OrderEntity {
                status: OrderStatus::Reserved,
                ..orders[i]
            }),
        forall|i: int|
            0 <= i < orders.len() && orders[i].id == order_id && !(orders[i].status is Pending)
                ==> #[trigger] spec_table_reserved(orders, order_id as int)[i] == orders[i],
{
    lemma_no_oversell(inv, seq![items]);
    let fin = spec_reserve(inv, items).unwrap();
    assert(spec_reserve_many(inv, seq![items]) == fin) by {
        assert(seq![items].len() == 1);
        assert(seq![items][0] == items);
        assert(seq![items].drop_first() =~= Seq::<Seq<OrderItem>>::empty());
        assert(spec_reserve_many(fin, Seq::<Seq<OrderItem>>::empty()) == fin);
    }
}

/// Saga rejection: when any item cannot be reserved the whole
/// reservation fails — the engine leaves the stock exactly as it was —
/// and the rejection event moves exactly the pending order to the
/// terminal `Rejected`, touching no other row and no other field.
pub proof fn lemma_saga_rejection(
    inv: Seq<InventoryEntity>,
    orders: Seq<OrderEntity>,
    order_id: i32,
    items: Seq<OrderItem>,
)
    requires
        spec_reserve(inv, items) is None,
    ensures
        spec_table_rejected(orders, order_id as int).len() == orders.len(),
        forall|i: int|
            0 <= i < orders.len() && orders[i].id != order_id
                ==> #[trigger] spec_table_rejected(orders, order_id as int)[i] == orders[i],
        forall|i: int|
            0 <= i < orders.len() && orders[i].id == order_id && orders[i].status is Pending
                ==> #[trigger] spec_table_rejected(orders, order_id as int)[i] == (OrderEntity {
                status: OrderStatus::Rejected,
                ..orders[i]
            }),
        forall|i: int|
            0 <= i < orders.len() && orders[i].id == order_id && !(orders[i].status is Pending)
                ==> #[trigger] spec_table_rejected(orders, order_id as int)[i] == orders[i],
{
}

/// Idempotent replay at the table level: applying the same reservation
/// outcome twice leaves the table exactly as one application did.
pub proof fn lemma_table_replay_idempotent(orders: Seq<OrderEntity>, order_id: i32)
    ensures
        spec_table_reserved(spec_table_reserved(orders, order_id as int), order_id as int)
            == spec_table_reserved(orders, order_id as int),
        spec_table_rejected(spec_table_rejected(orders, order_id as int), order_id as int)
            == spec_table_rejected(orders, order_id as int),
{
    let once = spec_table_reserved(orders, order_id as int);
    assert(spec_table_reserved(once, order_id as int) =~= once);
    let once2 = spec_table_rejected(orders, order_id as int);
    assert(spec_table_rejected(once2, order_id as int) =~= once2);
}

} // verus!
