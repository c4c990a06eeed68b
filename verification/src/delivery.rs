//! The delivery service: the delivery table, the handler that creates a
//! delivery when an order's payment succeeded, and the externally driven
//! status update of a delivery on its way.

use vstd::prelude::*;
use vstd::pervasive::VecAdditionalExecFns;

use crate::errors::AppError;

verus! {

/// The lifecycle of a delivery.
#[derive(Clone, Copy, PartialEq, Eq, Structural, Debug)]
pub enum DeliveryStatus {
    Preparing,
    EnRoute,
    Delivered,
}

impl DeliveryStatus {
    /// The status as the persisted text column spells it.
    pub open spec fn label_spec(self) -> Seq<char> {
        match self {
            DeliveryStatus::Preparing => "PREPARING"@,
            DeliveryStatus::EnRoute => "EN_ROUTE"@,
            DeliveryStatus::Delivered => "DELIVERED"@,
        }
    }

    /// The status as the persisted text column spells it.
    pub fn label(self) -> (r: &'static str)
        ensures
            r@ == self.label_spec(),
    {
        match self {
            DeliveryStatus::Preparing => "PREPARING",
            DeliveryStatus::EnRoute => "EN_ROUTE",
            DeliveryStatus::Delivered => "DELIVERED",
        }
    }
}

/// Parse a requested status label. Exactly the three lifecycle labels
/// are accepted; anything else is a bad delivery state.
pub fn parse_delivery_status(label: &String) -> (r: Option<DeliveryStatus>)
    ensures
        r == Some(DeliveryStatus::Preparing) <==> label@ == "PREPARING"@,
        r == Some(DeliveryStatus::EnRoute) <==> label@ == "EN_ROUTE"@,
        r == Some(DeliveryStatus::Delivered) <==> label@ == "DELIVERED"@,
        r is None <==> (label@ != "PREPARING"@ && label@ != "EN_ROUTE"@ && label@
            != "DELIVERED"@),
{
    proof {
        reveal_strlit("PREPARING");
        reveal_strlit("EN_ROUTE");
        reveal_strlit("DELIVERED");
        assert("PREPARING"@.len() == 9 && "EN_ROUTE"@.len() == 8 && "DELIVERED"@.len() == 9);
        assert("PREPARING"@[0] == 'P' && "DELIVERED"@[0] == 'D');
    }
    if *label == String::from_str("PREPARING") {
        Some(DeliveryStatus::Preparing)
    } else if *label == String::from_str("EN_ROUTE") {
        Some(DeliveryStatus::EnRoute)
    } else if *label == String::from_str("DELIVERED") {
        Some(DeliveryStatus::Delivered)
    } else {
        None
    }
}

/// One row of the delivery table, as far as the saga reads it.
#[derive(Clone, Copy, PartialEq, Eq, Structural, Debug)]
pub struct DeliveryEntity {
    pub id: i32,
    pub order_id: i32,
    pub status: DeliveryStatus,
}

/// A row still to be inserted.
#[derive(Clone, Copy, PartialEq, Eq, Structural, Debug)]
pub struct CreateDeliveryEntity {
    pub order_id: i32,
    pub status: DeliveryStatus,
}

/// Does some row of `s` deliver order `order_id`?
pub open spec fn has_delivery_for_order(s: Seq<DeliveryEntity>, order_id: int) -> bool {
    exists|i: int| 0 <= i < s.len() && s[i].order_id == order_id
}

/// Does some row of `s` have delivery id `id`?
pub open spec fn has_delivery(s: Seq<DeliveryEntity>, id: int) -> bool {
    exists|i: int| 0 <= i < s.len() && s[i].id == id
}

/// The index of the row of delivery `id` (meaningful when `has_delivery`
/// holds; unique in a well-formed store).
pub open spec fn delivery_index_of(s: Seq<DeliveryEntity>, id: int) -> int {
    choose|i: int| 0 <= i < s.len() && s[i].id == id
}

/// The delivery table of the delivery service.
pub struct DeliveryStore {
    rows: Vec<DeliveryEntity>,
    next_id: i32,
}

impl View for DeliveryStore {
    type V = Seq<DeliveryEntity>;

    closed spec fn view(&self) -> Seq<DeliveryEntity> {
        self.rows@
    }
}

impl DeliveryStore {
    /// The id the next created delivery will get.
    pub closed spec fn spec_next_id(&self) -> int {
        self.next_id as int
    }

    /// Store invariant: ids are positive, unique and below the next free
    /// id.
    pub open spec fn wf(self) -> bool {
        &&& 1 <= self.spec_next_id()
        &&& forall|i: int| 0 <= i < self@.len() ==> (#[trigger] self@[i]).id < self.spec_next_id()
        &&& forall|i: int| 0 <= i < self@.len() ==> 1 <= (#[trigger] self@[i]).id
        &&& forall|i: int, j: int|
            #![trigger self@[i].id, self@[j].id]
            0 <= i < j < self@.len() ==> self@[i].id != self@[j].id
    }

    /// An empty delivery table; ids will start at 1.
    pub fn new() -> (r: DeliveryStore)
        ensures
            r@ =~= Seq::<DeliveryEntity>::empty(),
            r.wf(),
            r.spec_next_id() == 1,
    {
        DeliveryStore { rows: Vec::new(), next_id: 1 }
    }

    /// The id the next created delivery will get, for callers that must
    /// check the id space first.
    pub fn next_id(&self) -> (n: i32)
        ensures
            n as int == self.spec_next_id(),
    {
        self.next_id
    }

    /// Look a delivery's row index up by delivery id.
    pub fn find(&self, id: i32) -> (r: Option<usize>)
        ensures
            match r {
                Some(i) => i < self@.len() && self@[i as int].id == id && has_delivery(
                    self@,
                    id as int,
                ),
                None => !has_delivery(self@, id as int),
            },
    {
        let mut i: usize = 0;
        while i < self.rows.len()
            invariant
                i <= self@.len(),
                forall|j: int| 0 <= j < i ==> (#[trigger] self@[j]).id != id,
            decreases self@.len() - i,
        {
            if self.rows[i].id == id {
                return Some(i);
            }
            i += 1;
        }
        None
    }

    /// A copy of a delivery's row.
    pub fn get(&self, id: i32) -> (r: Option<DeliveryEntity>)
        requires
            self.wf(),
        ensures
            r matches Some(d) ==> has_delivery(self@, id as int) && d == self@[delivery_index_of(
                self@,
                id as int,
            )],
            r is None <==> !has_delivery(self@, id as int),
    {
        match self.find(id) {
            Some(i) => {
                let d = self.rows[i];
                proof {
                    let k = delivery_index_of(self@, id as int);
                    assert(0 <= k < self@.len() && self@[k].id == id);
                    assert(i as int == k) by {
                        if i as int != k {
                            assert(self@[i as int].id != self@[k].id);
                        }
                    }
                }
                Some(d)
            },
            None => None,
        }
    }

    /// Handler effect of an order's payment success: create the delivery
    /// with a fresh id — unless the order already has one, so a
    /// redelivered event creates no second delivery. (The bound on the
    /// next id is the machine limit of the id column.)
    pub fn create_for_order(&mut self, c: CreateDeliveryEntity) -> (r: Option<DeliveryEntity>)
        requires
            old(self).wf(),
            old(self).spec_next_id() < i32::MAX,
        ensures
            final(self).wf(),
            r is Some <==> !has_delivery_for_order(old(self)@, c.order_id as int),
            r matches Some(d) ==> d.id == old(self).spec_next_id() && d.order_id == c.order_id
                && d.status == c.status && final(self)@ == old(self)@.push(d)
                && final(self).spec_next_id() == old(self).spec_next_id() + 1,
            r is None ==> final(self)@ == old(self)@
                && final(self).spec_next_id() == old(self).spec_next_id(),
    {
        let mut i: usize = 0;
        while i < self.rows.len()
            invariant
                self@ == old(self)@,
                self.spec_next_id() == old(self).spec_next_id(),
                old(self).wf(),
                old(self).spec_next_id() < i32::MAX,
                i <= self@.len(),
                forall|j: int| 0 <= j < i ==> (#[trigger] self@[j]).order_id != c.order_id,
            decreases self@.len() - i,
        {
            if self.rows[i].order_id == c.order_id {
                return None;
            }
            i += 1;
        }
        let d = DeliveryEntity { id: self.next_id, order_id: c.order_id, status: c.status };
        self.rows.push(d);
        self.next_id = self.next_id + 1;
        Some(d)
    }

    /// The externally driven status update: set the named delivery to a
    /// parsed lifecycle status. A label outside the lifecycle is a bad
    /// delivery state; a missing row is any other error; in both cases
    /// the table is untouched.
    pub fn update_status(&mut self, id: i32, label: &String) -> (r: Result<
        DeliveryEntity,
        AppError,
    >)
        requires
            old(self).wf(),
        ensures
            final(self).wf(),
            final(self).spec_next_id() == old(self).spec_next_id(),
            r is Ok <==> ((label@ == "PREPARING"@ || label@ == "EN_ROUTE"@ || label@
                == "DELIVERED"@) && has_delivery(old(self)@, id as int)),
            match r {
                Ok(d) => {
                    let k = delivery_index_of(old(self)@, id as int);
                    &&& d.id == id
                    &&& d.order_id == old(self)@[k].order_id
                    &&& d.status.label_spec() == label@
                    &&& final(self)@ == old(self)@.update(k, d)
                },
                Err(e) => {
                    &&& final(self)@ == old(self)@
                    &&& (e matches AppError::BadDeliveryState(_) <==> (label@ != "PREPARING"@
                        && label@ != "EN_ROUTE"@ && label@ != "DELIVERED"@))
                    &&& (e matches AppError::Other(_) <==> ((label@ == "PREPARING"@ || label@
                        == "EN_ROUTE"@ || label@ == "DELIVERED"@) && !has_delivery(
                        old(self)@,
                        id as int,
                    )))
                },
            },
    {
        let status = match parse_delivery_status(label) {
            Some(s) => s,
            None => {
                return Err(AppError::BadDeliveryState(label.clone()));
            },
        };
        let idx = match self.find(id) {
            Some(i) => i,
            None => {
                return Err(AppError::Other(String::from_str("delivery not found")));
            },
        };
        proof {
            let k = delivery_index_of(self@, id as int);
            assert(0 <= k < self@.len() && self@[k].id == id);
            assert(idx as int == k) by {
                if idx as int != k {
                    assert(self@[idx as int].id != self@[k].id);
                }
            }
        }
        let d = DeliveryEntity { id, order_id: self.rows[idx].order_id, status };
        self.rows.set(idx, d);
        proof {
            assert forall|a: int, b: int|
                #![trigger self@[a].id, self@[b].id]
                0 <= a < b < self@.len() implies self@[a].id != self@[b].id by {
                assert(self@[a].id == old(self)@[a].id && self@[b].id == old(self)@[b].id);
            }
            assert forall|t: int| 0 <= t < self@.len() implies (#[trigger] self@[t]).id
                < self.spec_next_id() && 1 <= self@[t].id by {
                assert(self@[t].id == old(self)@[t].id);
            }
        }
        Ok(d)
    }
}

} // verus!
