//! The transactional outbox and its relay.
//!
//! A service never publishes straight to the broker. A business
//! transaction collects its events in an [`OutboxTx`]; committing the
//! transaction appends them to the [`OutboxStore`] as `Pending` entries,
//! and aborting it leaves the store exactly as it was — "mutate state"
//! and "schedule an event" are one atomic step. The relay then drains the
//! store: it always picks the pending entry with the lowest id
//! ([`OutboxStore::next_pending`]), hands its payload to the broker, and
//! records the outcome with [`OutboxStore::relay_step`] — the entry turns
//! `Processed` only when the publish succeeded, stays `Pending` to be
//! retried otherwise, and is never dropped. A crash between a successful
//! publish and `relay_step` re-publishes the entry on the next cycle, so
//! delivery is at-least-once and every consumer must tolerate duplicates.

use vstd::prelude::*;

use crate::events::EventType;

verus! {

/// The lifecycle of an outbox entry. `Processed` is terminal: it is never
/// reverted and the relay never publishes such an entry again.
#[derive(Clone, Copy, PartialEq, Eq, Structural, Debug)]
pub enum OutboxStatus {
    Pending,
    Processed,
}

/// One persisted outbox row.
#[derive(Clone, PartialEq, Debug)]
pub struct OutboxEntity {
    pub id: i32,
    pub event_type: EventType,
    pub payload: Vec<u8>,
    pub status: OutboxStatus,
}

/// A row still to be inserted: what a business transaction writes.
#[derive(Clone, PartialEq, Debug)]
pub struct CreateOutboxEntity {
    pub event_type: EventType,
    pub payload: Vec<u8>,
}

/// The mathematical value of an outbox row.
#[verifier::ext_equal]
pub struct OutboxRecord {
    pub id: int,
    pub event_type: EventType,
    pub payload: Seq<u8>,
    pub status: OutboxStatus,
}

/// The mathematical value of a row still to be inserted.
#[verifier::ext_equal]
pub struct PendingWrite {
    pub event_type: EventType,
    pub payload: Seq<u8>,
}

impl View for OutboxEntity {
    type V = OutboxRecord;

    open spec fn view(&self) -> OutboxRecord {
        OutboxRecord {
            id: self.id as int,
            event_type: self.event_type,
            payload: self.payload@,
            status: self.status,
        }
    }
}

impl View for CreateOutboxEntity {
    type V = PendingWrite;

    open spec fn view(&self) -> PendingWrite {
        PendingWrite { event_type: self.event_type, payload: self.payload@ }
    }
}

/// A byte-for-byte copy of a payload.
pub fn copy_bytes(v: &Vec<u8>) -> (r: Vec<u8>)
    ensures
        r@ == v@,
{
    let mut r: Vec<u8> = Vec::new();
    let mut i: usize = 0;
    while i < v.len()
        invariant
            i <= v@.len(),
            r@ == v@.subrange(0, i as int),
        decreases v@.len() - i,
    {
        r.push(v[i]);
        proof {
            assert(r@ =~= v@.subrange(0, i + 1));
        }
        i += 1;
    }
    proof {
        assert(v@.subrange(0, v@.len() as int) =~= v@);
    }
    r
}

/// The outbox writes of one still-open business transaction. They become
/// store entries only through [`OutboxStore::commit`]; dropping the
/// transaction through [`OutboxStore::abort`] discards them all.
pub struct OutboxTx {
    writes: Vec<CreateOutboxEntity>,
}

impl View for OutboxTx {
    type V = Seq<PendingWrite>;

    closed spec fn view(&self) -> Seq<PendingWrite> {
        Seq::new(self.writes@.len(), |i: int| self.writes@[i]@)
    }
}

impl OutboxTx {
    /// Open a business transaction with no event scheduled yet.
    pub fn begin() -> (tx: OutboxTx)
        ensures
            tx@ =~= Seq::<PendingWrite>::empty(),
    {
        OutboxTx { writes: Vec::new() }
    }

    /// Schedule one event inside the transaction.
    pub fn enqueue(&mut self, entry: CreateOutboxEntity)
        ensures
            final(self)@ =~= old(self)@.push(entry@),
    {
        self.writes.push(entry);
        proof {
            assert(self@ =~= old(self)@.push(entry@));
        }
    }

    /// How many events the transaction has scheduled so far.
    pub fn len(&self) -> (n: usize)
        ensures
            n == self@.len(),
    {
        self.writes.len()
    }
}

/// The entries that committing `writes` appends when the next free id is
/// `next`: each write in order, as a `Pending` entry with consecutive
/// ids.
pub open spec fn spec_commit(writes: Seq<PendingWrite>, next: int) -> Seq<OutboxRecord> {
    Seq::new(
        writes.len(),
        |k: int|
            OutboxRecord {
                id: next + k,
                event_type: writes[k].event_type,
                payload: writes[k].payload,
                status: OutboxStatus::Pending,
            },
    )
}

/// An entry of `s` at an index before `i` is already `Processed`.
pub open spec fn no_pending_before(s: Seq<OutboxRecord>, i: int) -> bool {
    forall|j: int| 0 <= j < i ==> !((#[trigger] s[j]).status is Pending)
}

/// What recording a successful publish of entry `id` does to the store:
/// that entry turns `Processed`; every other field of every entry stays.
pub open spec fn spec_mark_processed(s: Seq<OutboxRecord>, id: int) -> Seq<OutboxRecord> {
    Seq::new(
        s.len(),
        |i: int|
            if s[i].id == id {
                OutboxRecord { status: OutboxStatus::Processed, ..s[i] }
            } else {
                s[i]
            },
    )
}

/// The outbox table of one service.
pub struct OutboxStore {
    entries: Vec<OutboxEntity>,
    next_id: i32,
}

impl View for OutboxStore {
    type V = Seq<OutboxRecord>;

    closed spec fn view(&self) -> Seq<OutboxRecord> {
        Seq::new(self.entries@.len(), |i: int| self.entries@[i]@)
    }
}

impl OutboxStore {
    /// The id the next committed entry will get.
    pub closed spec fn spec_next_id(&self) -> int {
        self.next_id as int
    }

    /// Store invariant: ids are positive, strictly increasing in table
    /// order, and below the next free id.
    pub open spec fn wf(self) -> bool {
        &&& 1 <= self.spec_next_id()
        &&& forall|i: int| 0 <= i < self@.len() ==> (#[trigger] self@[i]).id < self.spec_next_id()
        &&& forall|i: int, j: int|
            #![trigger self@[i].id, self@[j].id]
            0 <= i < j < self@.len() ==> self@[i].id < self@[j].id
        &&& forall|i: int| 0 <= i < self@.len() ==> 1 <= (#[trigger] self@[i]).id
    }

    /// An empty outbox; ids will start at 1.
    pub fn new() -> (r: OutboxStore)
        ensures
            r@ =~= Seq::<OutboxRecord>::empty(),
            r.wf(),
            r.spec_next_id() == 1,
    {
        OutboxStore { entries: Vec::new(), next_id: 1 }
    }

    /// The id the next committed entry will get, for callers that must
    /// check the id space before committing.
    pub fn next_id(&self) -> (n: i32)
        ensures
            n as int == self.spec_next_id(),
    {
        self.next_id
    }

    /// How many entries the store holds.
    pub fn len(&self) -> (n: usize)
        ensures
            n == self@.len(),
    {
        self.entries.len()
    }

    /// A copy of the entry at a table index.
    pub fn entry_at(&self, i: usize) -> (r: OutboxEntity)
        requires
            i < self@.len(),
        ensures
            r@ == self@[i as int],
    {
        let e = &self.entries[i];
        OutboxEntity {
            id: e.id,
            event_type: e.event_type,
            payload: copy_bytes(&e.payload),
            status: e.status,
        }
    }

    /// Commit a business transaction: its writes become `Pending` entries
    /// with fresh, consecutive, increasing ids, appended after every
    /// existing entry. Nothing else changes. (The bound on the next id is
    /// the machine limit of the id column.)
    pub fn commit(&mut self, tx: OutboxTx)
        requires
            old(self).wf(),
            old(self).spec_next_id() + tx@.len() <= i32::MAX,
        ensures
            final(self).wf(),
            final(self)@ == old(self)@ + spec_commit(tx@, old(self).spec_next_id()),
            final(self).spec_next_id() == old(self).spec_next_id() + tx@.len(),
    {
        let ghost base = self@;
        let ghost next0 = self.spec_next_id();
        let ghost txv = tx@;
        let ghost n = txv.len();
        let OutboxTx { writes } = tx;
        let mut k: usize = 0;
        proof {
            assert(txv.subrange(0, 0) =~= Seq::<PendingWrite>::empty());
            assert(base + spec_commit(txv.subrange(0, 0), next0) =~= base);
        }
        while k < writes.len()
            invariant
                k <= writes@.len(),
                n == writes@.len(),
                n == txv.len(),
                base == old(self)@,
                next0 == old(self).spec_next_id(),
                forall|t: int| 0 <= t < writes@.len() ==> #[trigger] writes@[t]@ == txv[t],
                next0 + n <= i32::MAX,
                self.spec_next_id() == next0 + k,
                self@ == base + spec_commit(txv.subrange(0, k as int), next0),
                self.wf(),
            decreases writes@.len() - k,
        {
            let w = &writes[k];
            let entry = OutboxEntity {
                id: self.next_id,
                event_type: w.event_type,
                payload: copy_bytes(&w.payload),
                status: OutboxStatus::Pending,
            };
            let ghost entv = entry@;
            let ghost elen = self.entries@.len();
            let ghost pre_view = self@;
            self.entries.push(entry);
            self.next_id = self.next_id + 1;
            proof {
                assert(writes@[k as int]@ == txv[k as int]);
                assert(entv.payload == txv[k as int].payload);
                assert(entv.id == next0 + k);
                assert(pre_view == base + spec_commit(txv.subrange(0, k as int), next0));
                assert(pre_view.len() == elen);
                assert(txv.subrange(0, k as int).len() == k);
                assert(spec_commit(txv.subrange(0, k as int), next0).len() == k);
                assert(elen == base.len() + k);
                let post = base + spec_commit(txv.subrange(0, k + 1), next0);
                assert(post.len() == elen + 1);
                assert(self@.len() == elen + 1);
                assert forall|t: int| 0 <= t < post.len() implies self@[t] == post[t] by {
                    if t < elen {
                        assert(self@[t] == pre_view[t]);
                        if t >= base.len() {
                            assert(txv.subrange(0, k as int)[t - base.len()] == txv.subrange(
                                0,
                                k + 1,
                            )[t - base.len()]);
                        }
                    } else {
                        assert(self@[t] == entv);
                        assert(post[t] =~= entv);
                    }
                }
                assert(self@ =~= post);
                assert forall|t: int| 0 <= t < self@.len() implies (#[trigger] self@[t]).id
                    < self.spec_next_id() by {
                    if t < elen {
                        assert(self@[t] == pre_view[t]);
                        assert(pre_view[t].id < next0 + k);
                    }
                }
                assert forall|a: int, b: int|
                    #![trigger self@[a].id, self@[b].id]
                    0 <= a < b < self@.len() implies self@[a].id < self@[b].id by {
                    if b < elen {
                        assert(self@[a] == pre_view[a] && self@[b] == pre_view[b]);
                        assert(pre_view[a].id < pre_view[b].id);
                    } else {
                        assert(self@[a] == pre_view[a]);
                        assert(pre_view[a].id < next0 + k);
                        assert(self@[b].id == next0 + k);
                    }
                }
                assert forall|t: int| 0 <= t < self@.len() implies 1 <= (
                #[trigger] self@[t]).id by {
                    if t < elen {
                        assert(self@[t] == pre_view[t]);
                        assert(1 <= pre_view[t].id);
                    }
                }
            }
            k += 1;
        }
        proof {
            assert(txv.subrange(0, n as int) =~= txv);
        }
    }

    /// Roll the business transaction back: none of its outbox writes is
    /// observable afterwards — the store is exactly as it was.
    pub fn abort(&mut self, tx: OutboxTx)
        ensures
            final(self)@ == old(self)@,
            final(self).spec_next_id() == old(self).spec_next_id(),
            final(self).wf() == old(self).wf(),
    {
        let _discarded = tx;
    }

    /// The entry the relay should publish next: the pending entry with
    /// the lowest id (the first in table order), if any is pending.
    pub fn next_pending(&self) -> (r: Option<OutboxEntity>)
        ensures
            r matches Some(e) ==> exists|i: int|
                0 <= i < self@.len() && e@ == #[trigger] self@[i] && self@[i].status is Pending
                    && no_pending_before(self@, i),
            r is None ==> no_pending_before(self@, self@.len() as int),
    {
        let mut i: usize = 0;
        while i < self.entries.len()
            invariant
                i <= self@.len(),
                no_pending_before(self@, i as int),
            decreases self@.len() - i,
        {
            if self.entries[i].status == OutboxStatus::Pending {
                let e = self.entry_at(i);
                return Some(e);
            }
            i += 1;
        }
        None
    }

    /// Record the outcome of one publish attempt on entry `id`. On
    /// success the entry turns `Processed`; on failure nothing changes,
    /// so the entry stays `Pending` and the next poll retries it. In
    /// either case no entry is created, dropped or otherwise altered.
    pub fn relay_step(&mut self, id: i32, publish_ok: bool)
        ensures
            publish_ok ==> final(self)@ == spec_mark_processed(old(self)@, id as int),
            !publish_ok ==> final(self)@ == old(self)@,
            final(self).spec_next_id() == old(self).spec_next_id(),
            old(self).wf() ==> final(self).wf(),
    {
        if !publish_ok {
            return ;
        }
        let ghost base = self@;
        let mut i: usize = 0;
        while i < self.entries.len()
            invariant
                base == old(self)@,
                i <= base.len(),
                self@.len() == base.len(),
                self.spec_next_id() == old(self).spec_next_id(),
                forall|t: int|
                    0 <= t < i ==> #[trigger] self@[t] == spec_mark_processed(base, id as int)[t],
                forall|t: int| i <= t < base.len() ==> #[trigger] self@[t] == base[t],
            decreases base.len() - i,
        {
            if self.entries[i].id == id {
                let updated = OutboxEntity {
                    id: self.entries[i].id,
                    event_type: self.entries[i].event_type,
                    payload: copy_bytes(&self.entries[i].payload),
                    status: OutboxStatus::Processed,
                };
                let ghost updv = updated@;
                let ghost prev = self@;
                self.entries.set(i, updated);
                proof {
                    assert(prev[i as int] == base[i as int]);
                    assert(base[i as int].id == id as int);
                    assert(updv.id == base[i as int].id);
                    assert(updv.payload == base[i as int].payload);
                    assert(self@.len() == prev.len());
                    assert(self@[i as int] == updv);
                    assert(updv =~= spec_mark_processed(base, id as int)[i as int]);
                    assert forall|t: int| 0 <= t < prev.len() && t != i implies #[trigger] self@[t]
                        == prev[t] by {}
                }
            } else {
                proof {
                    assert(self@[i as int] == base[i as int]);
                    assert(base[i as int].id != id as int);
                    assert(self@[i as int] == spec_mark_processed(base, id as int)[i as int]);
                }
            }
            i += 1;
        }
        proof {
            assert(self@ =~= spec_mark_processed(base, id as int));
            if old(self).wf() {
                assert forall|t: int| 0 <= t < self@.len() implies (#[trigger] self@[t]).id
                    < self.spec_next_id() by {
                    assert(self@[t].id == base[t].id);
                }
                assert forall|a: int, b: int|
                    #![trigger self@[a].id, self@[b].id]
                    0 <= a < b < self@.len() implies self@[a].id < self@[b].id by {
                    assert(self@[a].id == base[a].id && self@[b].id == base[b].id);
                }
                assert forall|t: int| 0 <= t < self@.len() implies 1 <= (
                #[trigger] self@[t]).id by {
                    assert(self@[t].id == base[t].id);
                }
            }
        }
    }
}

/// At-least-once, never dropped: recording a publish outcome keeps every
/// entry — same id, type and payload — and changes at most one status:
/// the published entry's, from `Pending` to `Processed`. An entry already
/// `Processed` never reverts, and an entry other than the published one
/// keeps its status, so a pending entry stays pending — and is picked
/// again by the next poll — until a successful publish of exactly that
/// entry marks it processed.
pub proof fn lemma_at_least_once(s: Seq<OutboxRecord>, id: int)
    ensures
        spec_mark_processed(s, id).len() == s.len(),
        forall|i: int|
            #![trigger spec_mark_processed(s, id)[i]]
            0 <= i < s.len() ==> spec_mark_processed(s, id)[i].id == s[i].id
                && spec_mark_processed(s, id)[i].event_type == s[i].event_type
                && spec_mark_processed(s, id)[i].payload == s[i].payload,
        forall|i: int|
            #![trigger spec_mark_processed(s, id)[i]]
            0 <= i < s.len() && s[i].id != id ==> spec_mark_processed(s, id)[i].status
                == s[i].status,
        forall|i: int|
            #![trigger spec_mark_processed(s, id)[i]]
            0 <= i < s.len() && s[i].status is Processed ==> spec_mark_processed(
                s,
                id,
            )[i].status is Processed,
        forall|i: int|
            #![trigger spec_mark_processed(s, id)[i]]
            0 <= i < s.len() && spec_mark_processed(s, id)[i].status is Processed ==> (
            s[i].status is Processed || s[i].id == id),
{
}

} // verus!
