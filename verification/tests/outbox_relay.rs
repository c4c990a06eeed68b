use medbook_saga::events::EventType;
use medbook_saga::outbox::{CreateOutboxEntity, OutboxStatus, OutboxStore, OutboxTx};

fn write(event_type: EventType, payload: &[u8]) -> CreateOutboxEntity {
    CreateOutboxEntity { event_type, payload: payload.to_vec() }
}

#[test]
fn commit_appends_pending_entries_with_increasing_ids() {
    let mut store = OutboxStore::new();
    let mut tx = OutboxTx::begin();
    tx.enqueue(write(EventType::OrderReserved, b"{\"order_id\":1}"));
    tx.enqueue(write(EventType::OrderRejected, b"{\"order_id\":2}"));
    assert_eq!(tx.len(), 2);
    store.commit(tx);
    assert_eq!(store.len(), 2);
    let first = store.entry_at(0);
    let second = store.entry_at(1);
    assert_eq!(first.id, 1);
    assert_eq!(second.id, 2);
    assert_eq!(first.event_type, EventType::OrderReserved);
    assert_eq!(second.event_type, EventType::OrderRejected);
    assert_eq!(first.payload, b"{\"order_id\":1}".to_vec());
    assert_eq!(first.status, OutboxStatus::Pending);
    assert_eq!(second.status, OutboxStatus::Pending);
}

#[test]
fn aborted_transaction_leaves_no_entry() {
    // The outbox write of a rolled-back business transaction is never
    // observable.
    let mut store = OutboxStore::new();
    let mut tx = OutboxTx::begin();
    tx.enqueue(write(EventType::OrderReserved, b"{\"order_id\":7}"));
    store.abort(tx);
    assert_eq!(store.len(), 0);
    assert!(store.next_pending().is_none());
    // The next committed transaction still gets the first id.
    let mut tx2 = OutboxTx::begin();
    tx2.enqueue(write(EventType::OrderReserved, b"{\"order_id\":8}"));
    store.commit(tx2);
    assert_eq!(store.entry_at(0).id, 1);
}

#[test]
fn entry_is_retried_until_published_and_never_dropped() {
    let mut store = OutboxStore::new();
    let mut tx = OutboxTx::begin();
    tx.enqueue(write(EventType::PayRequest, b"x"));
    store.commit(tx);

    // A failed publish leaves the entry pending: the next poll sees it
    // again.
    let e = store.next_pending().expect("one pending entry");
    assert_eq!(e.id, 1);
    store.relay_step(e.id, false);
    let again = store.next_pending().expect("still pending after a failure");
    assert_eq!(again.id, 1);
    assert_eq!(again.status, OutboxStatus::Pending);

    // A successful publish marks it processed; it stays in the table and
    // never reverts.
    store.relay_step(again.id, true);
    assert!(store.next_pending().is_none());
    assert_eq!(store.len(), 1);
    assert_eq!(store.entry_at(0).status, OutboxStatus::Processed);
    store.relay_step(1, true);
    assert_eq!(store.entry_at(0).status, OutboxStatus::Processed);
}

#[test]
fn relay_picks_the_lowest_pending_id() {
    let mut store = OutboxStore::new();
    let mut tx = OutboxTx::begin();
    tx.enqueue(write(EventType::OrderReserved, b"a"));
    tx.enqueue(write(EventType::OrderReserved, b"b"));
    store.commit(tx);
    let e = store.next_pending().expect("two pending");
    assert_eq!(e.id, 1);
    store.relay_step(1, true);
    let e2 = store.next_pending().expect("second still pending");
    assert_eq!(e2.id, 2);
    assert_eq!(e2.payload, b"b".to_vec());
}

#[test]
fn marking_an_unknown_id_changes_nothing() {
    let mut store = OutboxStore::new();
    let mut tx = OutboxTx::begin();
    tx.enqueue(write(EventType::OrderReserved, b"a"));
    store.commit(tx);
    store.relay_step(99, true);
    assert_eq!(store.entry_at(0).status, OutboxStatus::Pending);
}
