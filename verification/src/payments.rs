//! The payments service: the payment table, the pay-request handler's
//! effect on it, and the confirmation step that emits the saga's payment
//! success event.

use vstd::prelude::*;
use vstd::pervasive::VecAdditionalExecFns;

use crate::codec::json_safe;
use crate::errors::AppError;
use crate::events::EventType;
use crate::outbox::{spec_commit, CreateOutboxEntity, OutboxStore, OutboxTx, PendingWrite};
use crate::wire::{encode_pay_event, spec_pay_json};

verus! {

/// The lifecycle of a payment.
#[derive(Clone, Copy, PartialEq, Eq, Structural, Debug)]
pub enum PaymentStatus {
    Pending,
    Success,
}

impl PaymentStatus {
    /// The status as the persisted text column spells it.
    pub open spec fn label_spec(self) -> Seq<char> {
        match self {
            PaymentStatus::Pending => "PENDING"@,
            PaymentStatus::Success => "SUCCESS"@,
        }
    }

    /// The status as the persisted text column spells it.
    pub fn label(self) -> (r: &'static str)
        ensures
            r@ == self.label_spec(),
    {
        match self {
            PaymentStatus::Pending => "PENDING",
            PaymentStatus::Success => "SUCCESS",
        }
    }
}

/// One row of the payments table, as far as the saga reads it. The id is
/// the 128-bit value of the payment UUID that the orders service minted.
#[derive(Clone, PartialEq, Debug)]
pub struct PaymentEntity {
    pub id: u128,
    pub order_id: i32,
    pub amount: u64,
    pub provider: String,
    pub status: PaymentStatus,
}

/// A row still to be inserted.
#[derive(Clone, PartialEq, Debug)]
pub struct CreatePaymentEntity {
    pub id: u128,
    pub order_id: i32,
    pub amount: u64,
    pub provider: String,
    pub status: PaymentStatus,
}

/// The mathematical value of a payment row.
#[verifier::ext_equal]
pub struct PaymentRecord {
    pub id: u128,
    pub order_id: i32,
    pub amount: u64,
    pub provider: Seq<char>,
    pub status: PaymentStatus,
}

impl View for PaymentEntity {
    type V = PaymentRecord;

    open spec fn view(&self) -> PaymentRecord {
        PaymentRecord {
            id: self.id,
            order_id: self.order_id,
            amount: self.amount,
            provider: self.provider@,
            status: self.status,
        }
    }
}

impl View for CreatePaymentEntity {
    type V = PaymentRecord;

    open spec fn view(&self) -> PaymentRecord {
        PaymentRecord {
            id: self.id,
            order_id: self.order_id,
            amount: self.amount,
            provider: self.provider@,
            status: self.status,
        }
    }
}

/// Does some row of `s` belong to payment `id`?
pub open spec fn has_payment(s: Seq<PaymentRecord>, id: u128) -> bool {
    exists|i: int| 0 <= i < s.len() && s[i].id == id
}

/// The index of the row of payment `id` (meaningful when `has_payment`
/// holds; unique in a well-formed store).
pub open spec fn payment_index_of(s: Seq<PaymentRecord>, id: u128) -> int {
    choose|i: int| 0 <= i < s.len() && s[i].id == id
}

/// The payments table of the payments service.
pub struct PaymentsStore {
    payments: Vec<PaymentEntity>,
}

impl View for PaymentsStore {
    type V = Seq<PaymentRecord>;

    closed spec fn view(&self) -> Seq<PaymentRecord> {
        Seq::new(self.payments@.len(), |i: int| self.payments@[i]@)
    }
}

impl PaymentsStore {
    /// Store invariant: payment ids are unique.
    pub open spec fn wf(self) -> bool {
        forall|i: int, j: int|
            #![trigger self@[i].id, self@[j].id]
            0 <= i < j < self@.len() ==> self@[i].id != self@[j].id
    }

    /// An empty payments table.
    pub fn new() -> (r: PaymentsStore)
        ensures
            r@ =~= Seq::<PaymentRecord>::empty(),
            r.wf(),
    {
        PaymentsStore { payments: Vec::new() }
    }

    /// Look a payment's row index up.
    pub fn find(&self, id: u128) -> (r: Option<usize>)
        ensures
            match r {
                Some(i) => i < self@.len() && self@[i as int].id == id && has_payment(self@, id),
                None => !has_payment(self@, id),
            },
    {
        let mut i: usize = 0;
        while i < self.payments.len()
            invariant
                i <= self@.len(),
                forall|j: int| 0 <= j < i ==> (#[trigger] self@[j]).id != id,
            decreases self@.len() - i,
        {
            if self.payments[i].id == id {
                return Some(i);
            }
            i += 1;
        }
        None
    }

    /// A copy of a payment's row.
    pub fn get(&self, id: u128) -> (r: Option<PaymentEntity>)
        requires
            self.wf(),
        ensures
            r matches Some(p) ==> has_payment(self@, id) && p@ == self@[payment_index_of(
                self@,
                id,
            )],
            r is None <==> !has_payment(self@, id),
    {
        match self.find(id) {
            Some(i) => {
                let e = &self.payments[i];
                let p = PaymentEntity {
                    id: e.id,
                    order_id: e.order_id,
                    amount: e.amount,
                    provider: e.provider.clone(),
                    status: e.status,
                };
                proof {
                    let k = payment_index_of(self@, id);
                    assert(0 <= k < self@.len() && self@[k].id == id);
                    assert(i as int == k) by {
                        if i as int != k {
                            assert(self@[i as int].id != self@[k].id);
                        }
                    }
                    assert(p@ =~= self@[k]);
                }
                Some(p)
            },
            None => None,
        }
    }

    /// A copy of every payment row, for the read route that lists them.
    pub fn all(&self) -> (r: Vec<PaymentEntity>)
        ensures
            r@.len() == self@.len(),
            forall|i: int| 0 <= i < self@.len() ==> (#[trigger] r@[i]@) == self@[i],
    {
        let mut r: Vec<PaymentEntity> = Vec::new();
        let len = self.payments.len();
        let mut i: usize = 0;
        while i < len
            invariant
                i <= len,
                len == self@.len(),
                r@.len() == i,
                forall|j: int| 0 <= j < i ==> (#[trigger] r@[j]@) == self@[j],
            decreases len - i,
        {
            let e = &self.payments[i];
            let p = PaymentEntity {
                id: e.id,
                order_id: e.order_id,
                amount: e.amount,
                provider: e.provider.clone(),
                status: e.status,
            };
            proof {
                assert(p@ =~= self@[i as int]);
            }
            r.push(p);
            i += 1;
        }
        r
    }

    /// Handler effect of a pay request: insert the pending payment,
    /// unless a payment with this id already exists — a redelivered pay
    /// request creates nothing.
    pub fn create(&mut self, c: CreatePaymentEntity) -> (created: bool)
        requires
            old(self).wf(),
        ensures
            final(self).wf(),
            created <==> !has_payment(old(self)@, c.id),
            created ==> final(self)@ == old(self)@.push(c@),
            !created ==> final(self)@ == old(self)@,
    {
        if self.find(c.id).is_some() {
            return false;
        }
        let ghost base = self@;
        let entity = PaymentEntity {
            id: c.id,
            order_id: c.order_id,
            amount: c.amount,
            provider: c.provider,
            status: c.status,
        };
        let ghost entv = entity@;
        self.payments.push(entity);
        proof {
            assert(self@ =~= base.push(entv));
            assert(entv =~= c@);
            assert forall|a: int, b: int|
                #![trigger self@[a].id, self@[b].id]
                0 <= a < b < self@.len() implies self@[a].id != self@[b].id by {
                if b < base.len() {
                    assert(self@[a] == base[a] && self@[b] == base[b]);
                } else {
                    assert(self@[a] == base[a]);
                    assert(!has_payment(base, c.id));
                }
            }
        }
        true
    }

    /// The confirmation step: move the payment from `Pending` to
    /// `Success` and hand back the updated row, whose fields feed the
    /// payment success event. Exactly the payments that exist and are
    /// still `Pending` succeed; everything else is an error and the table
    /// is untouched, so confirming twice emits no second event.
    pub fn mock_pay(&mut self, id: u128) -> (r: Result<PaymentEntity, AppError>)
        requires
            old(self).wf(),
        ensures
            final(self).wf(),
            r is Ok <==> (has_payment(old(self)@, id) && old(self)@[payment_index_of(
                old(self)@,
                id,
            )].status is Pending),
            match r {
                Ok(p) => {
                    let k = payment_index_of(old(self)@, id);
                    &&& p@ == (PaymentRecord { status: PaymentStatus::Success, ..old(self)@[k] })
                    &&& final(self)@ == old(self)@.update(k, p@)
                },
                Err(e) => final(self)@ == old(self)@ && e matches AppError::Other(_),
            },
    {
        let idx = match self.find(id) {
            Some(i) => i,
            None => {
                return Err(AppError::Other(String::from_str("payment not found")));
            },
        };
        proof {
            let k = payment_index_of(self@, id);
            assert(0 <= k < self@.len() && self@[k].id == id);
            assert(idx as int == k) by {
                if idx as int != k {
                    assert(self@[idx as int].id != self@[k].id);
                }
            }
        }
        if self.payments[idx].status != PaymentStatus::Pending {
            return Err(AppError::Other(String::from_str("payment is not pending")));
        }
        let e = &self.payments[idx];
        let updated = PaymentEntity {
            id: e.id,
            order_id: e.order_id,
            amount: e.amount,
            provider: e.provider.clone(),
            status: PaymentStatus::Success,
        };
        let result = PaymentEntity {
            id: updated.id,
            order_id: updated.order_id,
            amount: updated.amount,
            provider: updated.provider.clone(),
            status: updated.status,
        };
        let ghost updv = updated@;
        let ghost prev = self@;
        self.payments.set(idx, updated);
        proof {
            assert(self@[idx as int] == updv);
            assert(updv =~= (PaymentRecord {
                status: PaymentStatus::Success,
                ..prev[idx as int]
            }));
            assert(result@ =~= updv);
            assert(self@ =~= prev.update(idx as int, updv));
            assert forall|a: int, b: int|
                #![trigger self@[a].id, self@[b].id]
                0 <= a < b < self@.len() implies self@[a].id != self@[b].id by {
                assert(self@[a].id == prev[a].id && self@[b].id == prev[b].id);
            }
        }
        Ok(result)
    }
}

/// The payment confirmation flow: move the payment to `Success` and
/// commit the payment success event — built from the payment's own
/// fields — in the same transaction. Exactly the pending payments whose
/// provider needs no escaping succeed; on any error nothing changes.
pub fn confirm_payment(payments: &mut PaymentsStore, outbox: &mut OutboxStore, id: u128) -> (r:
    Result<PaymentEntity, AppError>)
    requires
        old(payments).wf(),
        old(outbox).wf(),
        old(outbox).spec_next_id() + 1 <= i32::MAX,
    ensures
        final(payments).wf(),
        final(outbox).wf(),
        r is Ok <==> (has_payment(old(payments)@, id) && old(payments)@[payment_index_of(
            old(payments)@,
            id,
        )].status is Pending && json_safe(
            old(payments)@[payment_index_of(old(payments)@, id)].provider,
        )),
        r matches Ok(p) ==> ({
            let k = payment_index_of(old(payments)@, id);
            &&& p@ == (PaymentRecord { status: PaymentStatus::Success, ..old(payments)@[k] })
            &&& final(payments)@ == old(payments)@.update(k, p@)
            &&& final(outbox)@ == old(outbox)@ + spec_commit(
                seq![
                    PendingWrite {
                        event_type: EventType::PaymentSuccess,
                        payload: spec_pay_json(
                            old(payments)@[k].id as int,
                            old(payments)@[k].order_id as int,
                            old(payments)@[k].amount as int,
                            old(payments)@[k].provider,
                        ),
                    },
                ],
                old(outbox).spec_next_id(),
            )
        }),
        r matches Err(e) ==> final(payments)@ == old(payments)@ && final(outbox)@ == old(outbox)@
            && e matches AppError::Other(_),
{
    let p0 = match self_get(payments, id) {
        None => {
            return Err(AppError::Other(String::from_str("payment not found")));
        },
        Some(p) => p,
    };
    if p0.status != PaymentStatus::Pending {
        return Err(AppError::Other(String::from_str("payment is not pending")));
    }
    let payload = match encode_pay_event(p0.id, p0.order_id, p0.amount, &p0.provider) {
        None => {
            return Err(AppError::Other(String::from_str("provider needs escaping")));
        },
        Some(pl) => pl,
    };
    let updated = match payments.mock_pay(id) {
        Err(e) => {
            return Err(e);
        },
        Ok(u) => u,
    };
    let mut tx = OutboxTx::begin();
    tx.enqueue(CreateOutboxEntity { event_type: EventType::PaymentSuccess, payload });
    proof {
        let k = payment_index_of(old(payments)@, id);
        assert(tx@ =~= seq![
            PendingWrite {
                event_type: EventType::PaymentSuccess,
                payload: spec_pay_json(
                    old(payments)@[k].id as int,
                    old(payments)@[k].order_id as int,
                    old(payments)@[k].amount as int,
                    old(payments)@[k].provider,
                ),
            },
        ]);
    }
    outbox.commit(tx);
    Ok(updated)
}

/// `PaymentsStore::get`, as a free helper for the confirmation flow.
fn self_get(payments: &PaymentsStore, id: u128) -> (r: Option<PaymentEntity>)
    requires
        payments.wf(),
    ensures
        r matches Some(p) ==> has_payment(payments@, id) && p@ == payments@[payment_index_of(
            payments@,
            id,
        )],
        r is None <==> !has_payment(payments@, id),
{
    payments.get(id)
}

} // verus!
