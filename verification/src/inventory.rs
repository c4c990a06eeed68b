//! The stock reservation engine of the inventory service.
//!
//! One product is one [`InventoryEntity`] row whose invariant
//! `reserved + sold <= total` is the no-overselling guarantee. Stock is
//! taken only through [`conditional_reserve`], the model of a single atomic
//! conditional update: the availability check and the increment are one
//! step, so no check-then-act race exists. A multi-item reservation
//! processes its items in ascending `(product_id, quantity)` order and is
//! all-or-nothing: if any item is unavailable the store is left unchanged.

use vstd::prelude::*;
use vstd::pervasive::VecAdditionalExecFns;
use vstd::relations::{sorted_by, total_ordering};
use vstd::seq_lib::lemma_sorted_unique;

use crate::errors::AppError;
use crate::events::OrderItem;

verus! {

/// One row of the inventory table: the stock counters of one product.
#[derive(Clone, Copy, PartialEq, Eq, Structural, Debug)]
pub struct InventoryEntity {
    pub product_id: i32,
    pub total_quantity: i32,
    pub reserved_quantity: i32,
    pub sold_quantity: i32,
}

impl InventoryEntity {
    /// Row invariant: counters are non-negative and what is reserved or
    /// already sold never exceeds the total stock.
    pub open spec fn wf(self) -> bool {
        &&& 0 <= self.total_quantity
        &&& 0 <= self.reserved_quantity
        &&& 0 <= self.sold_quantity
        &&& self.reserved_quantity + self.sold_quantity <= self.total_quantity
    }

    /// How many units are still free to reserve.
    pub open spec fn spec_available(self) -> int {
        self.total_quantity - self.reserved_quantity - self.sold_quantity
    }

    /// How many units are still free to reserve.
    pub fn available(&self) -> (r: i32)
        requires
            self.wf(),
        ensures
            r == self.spec_available(),
    {
        self.total_quantity - self.reserved_quantity - self.sold_quantity
    }
}

/// Every row well formed, no product twice.
pub open spec fn rows_wf(rows: Seq<InventoryEntity>) -> bool {
    &&& forall|i: int| 0 <= i < rows.len() ==> (#[trigger] rows[i]).wf()
    &&& forall|i: int, j: int|
        #![trigger rows[i].product_id, rows[j].product_id]
        0 <= i < j < rows.len() ==> rows[i].product_id != rows[j].product_id
}

/// What one atomic conditional update does to one row: if the requested
/// quantity is non-negative and available, the reservation grows by it;
/// otherwise the update touches zero rows.
pub open spec fn spec_conditional_reserve(rec: InventoryEntity, qty: int) -> Option<
    InventoryEntity,
> {
    if 0 <= qty && qty <= rec.spec_available() {
        Some(
            InventoryEntity {
                reserved_quantity: (rec.reserved_quantity + qty) as i32,
                ..rec
            },
        )
    } else {
        None
    }
}

/// The atomic conditional update on one row: reserve `qty` units if and
/// only if they are available. `None` means the predicate failed and the
/// row is untouched. A negative request never succeeds, so the row
/// invariant survives any input.
pub fn conditional_reserve(rec: &InventoryEntity, qty: i32) -> (r: Option<InventoryEntity>)
    requires
        rec.wf(),
    ensures
        r == spec_conditional_reserve(*rec, qty as int),
        r matches Some(u) ==> u.wf(),
{
    if qty >= 0 && qty <= rec.total_quantity - rec.reserved_quantity - rec.sold_quantity {
        Some(
            InventoryEntity {
                reserved_quantity: rec.reserved_quantity + qty,
                ..*rec
            },
        )
    } else {
        None
    }
}

/// The fixed processing order of line items: ascending product id, ties
/// broken by quantity. A total order, so every multiset of items has
/// exactly one sorted arrangement.
pub open spec fn item_le(a: OrderItem, b: OrderItem) -> bool {
    a.product_id < b.product_id || (a.product_id == b.product_id && a.quantity <= b.quantity)
}

/// `item_le` as a first-class relation, shared by every spec that sorts.
pub open spec fn item_leq() -> spec_fn(OrderItem, OrderItem) -> bool {
    |a: OrderItem, b: OrderItem| item_le(a, b)
}

/// `item_le` compares totally: the sorted arrangement of a multiset of
/// items is unique.
pub proof fn lemma_item_leq_total()
    ensures
        total_ordering(item_leq()),
{
}

/// `item_le`, executably.
pub fn item_le_exec(a: &OrderItem, b: &OrderItem) -> (r: bool)
    ensures
        r == item_le(*a, *b),
{
    a.product_id < b.product_id || (a.product_id == b.product_id && a.quantity <= b.quantity)
}

/// The items in the engine's deterministic processing order.
pub open spec fn spec_sorted_items(items: Seq<OrderItem>) -> Seq<OrderItem> {
    items.sort_by(item_leq())
}

/// Does some row of `rows` belong to product `pid`?
pub open spec fn has_product(rows: Seq<InventoryEntity>, pid: int) -> bool {
    exists|i: int| 0 <= i < rows.len() && rows[i].product_id == pid
}

/// The index of the row of product `pid` (meaningful when `has_product`
/// holds; unique in a well-formed store).
pub open spec fn index_of(rows: Seq<InventoryEntity>, pid: int) -> int {
    choose|i: int| 0 <= i < rows.len() && rows[i].product_id == pid
}

/// What reserving one line item does to the table: the conditional update
/// on the item's row. `None` when the product is unknown or the quantity
/// unavailable — zero rows affected.
pub open spec fn spec_reserve_item(rows: Seq<InventoryEntity>, item: OrderItem) -> Option<
    Seq<InventoryEntity>,
> {
    if has_product(rows, item.product_id as int) {
        let i = index_of(rows, item.product_id as int);
        match spec_conditional_reserve(rows[i], item.quantity as int) {
            Some(u) => Some(rows.update(i, u)),
            None => None,
        }
    } else {
        None
    }
}

/// Reserving a sequence of items one after the other, failing as a whole
/// as soon as one item fails.
pub open spec fn spec_reserve_seq(rows: Seq<InventoryEntity>, items: Seq<OrderItem>) -> Option<
    Seq<InventoryEntity>,
>
    decreases items.len(),
{
    if items.len() == 0 {
        Some(rows)
    } else {
        match spec_reserve_item(rows, items[0]) {
            Some(rows2) => spec_reserve_seq(rows2, items.drop_first()),
            None => None,
        }
    }
}

/// The whole reservation: the items in deterministic order, all or
/// nothing.
pub open spec fn spec_reserve(rows: Seq<InventoryEntity>, items: Seq<OrderItem>) -> Option<
    Seq<InventoryEntity>,
> {
    spec_reserve_seq(rows, spec_sorted_items(items))
}

/// Evaluating a sequence of items splits at any point: run the first `k`,
/// then the rest from where they left the table.
pub proof fn lemma_reserve_seq_split(rows: Seq<InventoryEntity>, items: Seq<OrderItem>, k: int)
    requires
        0 <= k <= items.len(),
    ensures
        spec_reserve_seq(rows, items) == match spec_reserve_seq(rows, items.subrange(0, k)) {
            Some(mid) => spec_reserve_seq(mid, items.subrange(k, items.len() as int)),
            None => None,
        },
    decreases k,
{
    if k == 0 {
        assert(items.subrange(0, 0) =~= Seq::<OrderItem>::empty());
        assert(items.subrange(0, items.len() as int) =~= items);
    } else {
        let head = items[0];
        assert(items.subrange(0, k)[0] == head);
        assert(items.subrange(0, k).len() != 0);
        match spec_reserve_item(rows, head) {
            Some(rows2) => {
                lemma_reserve_seq_split(rows2, items.drop_first(), k - 1);
                assert(items.subrange(0, k).drop_first() =~= items.drop_first().subrange(
                    0,
                    k - 1,
                ));
                assert(items.drop_first().subrange(k - 1, items.drop_first().len() as int)
                    =~= items.subrange(k, items.len() as int));
            },
            None => {
                assert(spec_reserve_item(rows, items.subrange(0, k)[0]) is None);
            },
        }
    }
}

/// Sort line items into the engine's deterministic processing order
/// (insertion sort).
pub fn sort_items(items: &Vec<OrderItem>) -> (r: Vec<OrderItem>)
    ensures
        sorted_by(r@, item_leq()),
        r@.to_multiset() == items@.to_multiset(),
        r@ == spec_sorted_items(items@),
{
    broadcast use vstd::seq_lib::group_to_multiset_ensures;
    broadcast use vstd::seq_lib::to_multiset_insert;
    broadcast use vstd::seq_lib::to_multiset_build;

    let mut out: Vec<OrderItem> = Vec::new();
    let mut idx: usize = 0;
    proof {
        assert(items@.subrange(0, 0) =~= Seq::<OrderItem>::empty());
        assert(out@.to_multiset() =~= items@.subrange(0, 0).to_multiset());
    }
    while idx < items.len()
        invariant
            idx <= items@.len(),
            sorted_by(out@, item_leq()),
            out@.to_multiset() == items@.subrange(0, idx as int).to_multiset(),
        decreases items@.len() - idx,
    {
        let x = items[idx];
        let mut j: usize = 0;
        while j < out.len() && item_le_exec(&out[j], &x)
            invariant
                j <= out@.len(),
                forall|t: int| 0 <= t < j ==> item_le(#[trigger] out@[t], x),
            decreases out@.len() - j,
        {
            j += 1;
        }
        let ghost pre = out@;
        out.insert(j, x);
        proof {
            broadcast use vstd::seq_lib::group_to_multiset_ensures;
            broadcast use vstd::seq_lib::to_multiset_insert;
            broadcast use vstd::seq_lib::to_multiset_build;

            assert(out@ == pre.insert(j as int, x));
            assert forall|a: int, b: int|
                0 <= a < b < out@.len() implies item_leq()(out@[a], out@[b]) by {
                if b < j {
                    assert(item_leq()(pre[a], pre[b]));
                } else if b == j {
                    assert(item_le(pre[a], x));
                } else if a < j {
                    assert(out@[b] == pre[b - 1]);
                    assert(a <= b - 1);
                    if a < b - 1 {
                        assert(item_leq()(pre[a], pre[b - 1]));
                    }
                } else if a == j {
                    assert(out@[b] == pre[b - 1] && b - 1 >= j);
                    assert(!item_le(pre[j as int], x));
                    assert(item_le(x, pre[j as int]));
                    if b - 1 > j {
                        assert(item_leq()(pre[j as int], pre[b - 1]));
                    }
                } else {
                    assert(out@[a] == pre[a - 1] && out@[b] == pre[b - 1]);
                    assert(item_leq()(pre[a - 1], pre[b - 1]));
                }
            }
            assert(items@.subrange(0, idx + 1) =~= items@.subrange(0, idx as int).push(x));
            assert(pre.insert(j as int, x).to_multiset() == pre.to_multiset().insert(x));
            assert(items@.subrange(0, idx as int).push(x).to_multiset() == items@.subrange(
                0,
                idx as int,
            ).to_multiset().insert(x));
            assert(out@.to_multiset() == items@.subrange(0, idx + 1).to_multiset());
        }
        idx += 1;
    }
    proof {
        assert(items@.subrange(0, items@.len() as int) =~= items@);
        lemma_item_leq_total();
        items@.lemma_sort_by_ensures(item_leq());
        lemma_sorted_unique(out@, items@.sort_by(item_leq()), item_leq());
        assert(out@ =~= spec_sorted_items(items@));
    }
    out
}

/// Apply one line item to the rows: find the product's row and run the
/// conditional update on it. `false` leaves the rows untouched.
fn apply_item(rows: &mut Vec<InventoryEntity>, item: OrderItem) -> (ok: bool)
    requires
        rows_wf(old(rows)@),
    ensures
        rows_wf(final(rows)@),
        ok ==> Some(final(rows)@) == spec_reserve_item(old(rows)@, item),
        !ok ==> final(rows)@ == old(rows)@ && spec_reserve_item(old(rows)@, item) is None,
{
    let ghost rows0 = rows@;
    let mut i: usize = 0;
    while i < rows.len()
        invariant
            rows@ == old(rows)@,
            rows0 == old(rows)@,
            i <= rows0.len(),
            rows_wf(rows0),
            forall|t: int| 0 <= t < i ==> (#[trigger] rows0[t]).product_id != item.product_id,
        decreases rows0.len() - i,
    {
        if rows[i].product_id == item.product_id {
            proof {
                assert(has_product(rows0, item.product_id as int));
                let k = index_of(rows0, item.product_id as int);
                assert(0 <= k < rows0.len() && rows0[k].product_id == item.product_id);
                assert(k == i as int) by {
                    if k != i as int {
                        assert(rows0[k].product_id != rows0[i as int].product_id);
                    }
                }
            }
            match conditional_reserve(&rows[i], item.quantity) {
                Some(u) => {
                    rows.set(i, u);
                    proof {
                        assert(rows@ =~= rows0.update(i as int, u));
                        assert forall|a: int| 0 <= a < rows@.len() implies (
                        #[trigger] rows@[a]).wf() by {
                            if a != i as int {
                                assert(rows@[a] == rows0[a]);
                            }
                        }
                        assert forall|a: int, b: int|
                            #![trigger rows@[a].product_id, rows@[b].product_id]
                            0 <= a < b < rows@.len() implies rows@[a].product_id
                            != rows@[b].product_id by {
                            assert(rows@[a].product_id == rows0[a].product_id);
                            assert(rows@[b].product_id == rows0[b].product_id);
                        }
                    }
                    return true;
                },
                None => {
                    return false;
                },
            }
        }
        i += 1;
    }
    proof {
        assert(!has_product(rows0, item.product_id as int));
    }
    false
}

/// The inventory table of the inventory service: one row per product.
pub struct InventoryStore {
    rows: Vec<InventoryEntity>,
}

impl View for InventoryStore {
    type V = Seq<InventoryEntity>;

    closed spec fn view(&self) -> Seq<InventoryEntity> {
        self.rows@
    }
}

impl InventoryStore {
    /// Store invariant: every row is well formed and no product appears
    /// twice.
    pub open spec fn wf(self) -> bool {
        rows_wf(self@)
    }

    /// An empty inventory.
    pub fn new() -> (r: InventoryStore)
        ensures
            r@ =~= Seq::<InventoryEntity>::empty(),
            r.wf(),
    {
        InventoryStore { rows: Vec::new() }
    }

    /// Add the row of a new product. Rejected (`false`, store unchanged)
    /// when the product already has a row or the counters break the row
    /// invariant.
    pub fn add_row(&mut self, row: InventoryEntity) -> (added: bool)
        requires
            old(self).wf(),
        ensures
            final(self).wf(),
            added ==> final(self)@ == old(self)@.push(row),
            !added ==> final(self)@ == old(self)@,
            added <==> (!has_product(old(self)@, row.product_id as int) && row.wf()),
    {
        let wf_row = row.total_quantity >= 0 && row.reserved_quantity >= 0 && row.sold_quantity
            >= 0 && row.sold_quantity <= row.total_quantity - row.reserved_quantity;
        if !wf_row {
            return false;
        }
        if self.find_row(row.product_id).is_some() {
            return false;
        }
        self.rows.push(row);
        proof {
            assert forall|i: int, j: int|
                #![trigger self@[i].product_id, self@[j].product_id]
                0 <= i < j < self@.len() implies self@[i].product_id != self@[j].product_id by {
                if j == self@.len() - 1 {
                    assert(!has_product(old(self)@, row.product_id as int));
                    assert(self@[i] == old(self)@[i]);
                }
            }
        }
        true
    }

    /// A copy of all rows, for read-only views of the inventory.
    pub fn rows(&self) -> (r: Vec<InventoryEntity>)
        ensures
            r@ == self@,
    {
        self.rows.clone()
    }

    /// Look the row of a product up; `Some(i)` is its index.
    pub fn find_row(&self, pid: i32) -> (r: Option<usize>)
        ensures
            match r {
                Some(i) => i < self@.len() && self@[i as int].product_id == pid && has_product(
                    self@,
                    pid as int,
                ),
                None => !has_product(self@, pid as int),
            },
    {
        let mut i: usize = 0;
        while i < self.rows.len()
            invariant
                i <= self@.len(),
                forall|j: int| 0 <= j < i ==> (#[trigger] self@[j]).product_id != pid,
            decreases self@.len() - i,
        {
            if self.rows[i].product_id == pid {
                return Some(i);
            }
            i += 1;
        }
        None
    }

    /// A copy of the row of a product, if it has one.
    pub fn get(&self, pid: i32) -> (r: Option<InventoryEntity>)
        requires
            self.wf(),
        ensures
            r matches Some(rec) ==> has_product(self@, pid as int) && rec == self@[index_of(
                self@,
                pid as int,
            )],
            r is None <==> !has_product(self@, pid as int),
    {
        match self.find_row(pid) {
            Some(i) => {
                let rec = self.rows[i];
                proof {
                    let k = index_of(self@, pid as int);
                    assert(0 <= k < self@.len() && self@[k].product_id == pid);
                    assert(i as int == k) by {
                        if i as int != k {
                            assert(self@[i as int].product_id != self@[k].product_id);
                        }
                    }
                }
                Some(rec)
            },
            None => None,
        }
    }

    /// Reserve every item of an order, in the engine's deterministic
    /// order, all or nothing: on success (`true`) the store holds the
    /// updated rows; on rejection (`false`) it is exactly as it was, with
    /// no partial reservation left behind.
    pub fn reserve(&mut self, items: &Vec<OrderItem>) -> (granted: bool)
        requires
            old(self).wf(),
        ensures
            final(self).wf(),
            granted <==> spec_reserve(old(self)@, items@) is Some,
            granted ==> Some(final(self)@) == spec_reserve(old(self)@, items@),
            !granted ==> final(self)@ == old(self)@,
    {
        let ghost rows0 = self@;
        let sorted = sort_items(items);
        let mut scratch = self.rows.clone();
        let mut k: usize = 0;
        while k < sorted.len()
            invariant
                self@ == old(self)@,
                rows0 == old(self)@,
                rows_wf(rows0),
                k <= sorted@.len(),
                rows_wf(scratch@),
                sorted@ == spec_sorted_items(items@),
                Some(scratch@) == spec_reserve_seq(rows0, sorted@.subrange(0, k as int)),
            decreases sorted@.len() - k,
        {
            let item = sorted[k];
            let ghost mid = scratch@;
            let ok = apply_item(&mut scratch, item);
            if !ok {
                proof {
                    lemma_reserve_seq_split(rows0, sorted@, k as int);
                    assert(sorted@.subrange(k as int, sorted@.len() as int)[0] == item);
                    assert(spec_reserve_seq(mid, sorted@.subrange(k as int, sorted@.len() as int))
                        is None);
                    assert(spec_reserve(rows0, items@) is None);
                }
                return false;
            }
            proof {
                lemma_reserve_seq_split(rows0, sorted@, k as int);
                assert(sorted@.subrange(0, k + 1).subrange(0, k as int) =~= sorted@.subrange(
                    0,
                    k as int,
                ));
                lemma_reserve_seq_split(rows0, sorted@.subrange(0, k + 1), k as int);
                assert(sorted@.subrange(0, k + 1).subrange(k as int, k + 1) =~= seq![item]);
                assert(spec_reserve_seq(mid, seq![item]) == Some(scratch@)) by {
                    assert(seq![item].len() == 1);
                    assert(seq![item][0] == item);
                    assert(spec_reserve_item(mid, item) == Some(scratch@));
                    assert(seq![item].drop_first() =~= Seq::<OrderItem>::empty());
                    assert(spec_reserve_seq(scratch@, seq![item].drop_first()) == Some(
                        scratch@,
                    ));
                }
            }
            k += 1;
        }
        proof {
            assert(sorted@.subrange(0, sorted@.len() as int) =~= sorted@);
            assert(Some(scratch@) == spec_reserve(rows0, items@));
        }
        self.rows = scratch;
        true
    }
}

/// `b` is `a` after some reservations: the same products with the same
/// totals and sales, and nothing released — reservations only grow.
pub open spec fn same_products_no_release(
    a: Seq<InventoryEntity>,
    b: Seq<InventoryEntity>,
) -> bool {
    &&& b.len() == a.len()
    &&& forall|i: int|
        #![trigger b[i]]
        0 <= i < a.len() ==> b[i].product_id == a[i].product_id && b[i].total_quantity
            == a[i].total_quantity && b[i].sold_quantity == a[i].sold_quantity
            && b[i].reserved_quantity >= a[i].reserved_quantity
}

/// One granted item keeps the table well formed and only grows one
/// reservation.
proof fn lemma_reserve_item_frame(rows: Seq<InventoryEntity>, item: OrderItem)
    requires
        rows_wf(rows),
        spec_reserve_item(rows, item) is Some,
    ensures
        rows_wf(spec_reserve_item(rows, item).unwrap()),
        same_products_no_release(rows, spec_reserve_item(rows, item).unwrap()),
{
    let i = index_of(rows, item.product_id as int);
    let u = spec_conditional_reserve(rows[i], item.quantity as int).unwrap();
    let r2 = spec_reserve_item(rows, item).unwrap();
    assert(r2 == rows.update(i, u));
    assert forall|a: int| 0 <= a < r2.len() implies (#[trigger] r2[a]).wf() by {
        if a != i {
            assert(r2[a] == rows[a]);
        }
    }
    assert forall|a: int, b: int|
        #![trigger r2[a].product_id, r2[b].product_id]
        0 <= a < b < r2.len() implies r2[a].product_id != r2[b].product_id by {
        assert(r2[a].product_id == rows[a].product_id);
        assert(r2[b].product_id == rows[b].product_id);
    }
}

/// A granted sequence of items keeps the table well formed and never
/// releases stock.
proof fn lemma_reserve_seq_frame(rows: Seq<InventoryEntity>, items: Seq<OrderItem>)
    requires
        rows_wf(rows),
        spec_reserve_seq(rows, items) is Some,
    ensures
        rows_wf(spec_reserve_seq(rows, items).unwrap()),
        same_products_no_release(rows, spec_reserve_seq(rows, items).unwrap()),
    decreases items.len(),
{
    if items.len() == 0 {
    } else {
        let mid = spec_reserve_item(rows, items[0]).unwrap();
        lemma_reserve_item_frame(rows, items[0]);
        lemma_reserve_seq_frame(mid, items.drop_first());
        let fin = spec_reserve_seq(rows, items).unwrap();
        assert forall|i: int|
            #![trigger fin[i]]
            0 <= i < rows.len() implies fin[i].product_id == rows[i].product_id
            && fin[i].total_quantity == rows[i].total_quantity && fin[i].sold_quantity
            == rows[i].sold_quantity && fin[i].reserved_quantity
            >= rows[i].reserved_quantity by {
            assert(mid[i].product_id == rows[i].product_id);
            assert(fin[i].product_id == mid[i].product_id);
        }
    }
}

/// Reservation requests folded over the table, each one all-or-nothing: a
/// rejected request leaves the table as it was.
pub open spec fn spec_reserve_many(
    rows: Seq<InventoryEntity>,
    reqs: Seq<Seq<OrderItem>>,
) -> Seq<InventoryEntity>
    decreases reqs.len(),
{
    if reqs.len() == 0 {
        rows
    } else {
        let next = match spec_reserve(rows, reqs[0]) {
            Some(r) => r,
            None => rows,
        };
        spec_reserve_many(next, reqs.drop_first())
    }
}

/// No overselling: whatever sequence of reservation requests runs against
/// the table, every row keeps `reserved + sold <= total`; products,
/// totals and sales are untouched and reservations only grow. In
/// particular the stock ever granted for a product — the growth of its
/// reservation counter — never exceeds what was available at the start.
pub proof fn lemma_no_oversell(rows: Seq<InventoryEntity>, reqs: Seq<Seq<OrderItem>>)
    requires
        rows_wf(rows),
    ensures
        rows_wf(spec_reserve_many(rows, reqs)),
        same_products_no_release(rows, spec_reserve_many(rows, reqs)),
        forall|i: int|
            #![trigger spec_reserve_many(rows, reqs)[i]]
            0 <= i < rows.len() ==> spec_reserve_many(rows, reqs)[i].reserved_quantity
                - rows[i].reserved_quantity <= rows[i].total_quantity - rows[i].sold_quantity
                - rows[i].reserved_quantity,
    decreases reqs.len(),
{
    if reqs.len() == 0 {
    } else {
        let next = match spec_reserve(rows, reqs[0]) {
            Some(r) => r,
            None => rows,
        };
        if spec_reserve(rows, reqs[0]) is Some {
            lemma_reserve_seq_frame(rows, spec_sorted_items(reqs[0]));
        }
        lemma_no_oversell(next, reqs.drop_first());
        let fin = spec_reserve_many(rows, reqs);
        assert forall|i: int|
            #![trigger fin[i]]
            0 <= i < rows.len() implies fin[i].product_id == rows[i].product_id
            && fin[i].total_quantity == rows[i].total_quantity && fin[i].sold_quantity
            == rows[i].sold_quantity && fin[i].reserved_quantity
            >= rows[i].reserved_quantity by {
            assert(next[i].product_id == rows[i].product_id);
            assert(fin[i].product_id == next[i].product_id);
        }
    }
}

/// Deterministic ordering: a reservation depends only on the multiset of
/// line items, never on their arrival order, because the engine always
/// processes them in its own fixed order. Concurrent multi-item
/// reservations therefore take rows in one global order and cannot
/// deadlock on each other.
pub proof fn lemma_reserve_order_deterministic(
    rows: Seq<InventoryEntity>,
    items1: Seq<OrderItem>,
    items2: Seq<OrderItem>,
)
    requires
        items1.to_multiset() == items2.to_multiset(),
    ensures
        spec_reserve(rows, items1) == spec_reserve(rows, items2),
{
    lemma_item_leq_total();
    items1.lemma_sort_by_ensures(item_leq());
    items2.lemma_sort_by_ensures(item_leq());
    lemma_sorted_unique(items1.sort_by(item_leq()), items2.sort_by(item_leq()), item_leq());
    assert(spec_sorted_items(items1) =~= spec_sorted_items(items2));
}

/// The inventory read route: the row of one product, or a not-found
/// error naming the product.
pub fn get_inventory_by_product_id(inv: &InventoryStore, id: i32) -> (r: Result<
    InventoryEntity,
    AppError,
>)
    requires
        inv.wf(),
    ensures
        r is Ok <==> has_product(inv@, id as int),
        r matches Ok(rec) ==> rec == inv@[index_of(inv@, id as int)],
        r matches Err(e) ==> e == AppError::ProductNotFound(id),
{
    match inv.get(id) {
        Some(rec) => Ok(rec),
        None => Err(AppError::ProductNotFound(id)),
    }
}

} // verus!
