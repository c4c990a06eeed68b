//! The payloads of the saga's events: one canonical JSON rendering per
//! event type, an encoder and a strict parser for each. A parser accepts
//! exactly the canonical bytes — its contract says both that whatever it
//! accepts is canonical and that every canonical payload is accepted —
//! so parsing an encoded event always gives the event back, and any
//! other input is malformed.

use vstd::prelude::*;

use crate::codec::{
    is_digit, json_safe, parse_i32_dec, parse_json_string, parse_u64_dec, parse_uuid,
    push_i32_dec, push_json_string, push_u64_dec, push_uuid, spec_idec, spec_json_string,
    spec_udec, spec_uuid_hyphenated, tok_amount, tok_amount_vec, tok_item_product,
    tok_item_product_vec, tok_item_quantity, tok_item_quantity_vec, tok_order_id,
    tok_order_id_vec, tok_order_items, tok_order_items_vec, tok_pay_order_id,
    tok_pay_order_id_vec, tok_payment_id, tok_payment_id_vec, tok_provider, tok_provider_vec,
};
use crate::events::{
    DeliveryOrderSuccessEvent, OrderItem, OrderPayRequestEvent, OrderPaymentSuccessEvent,
    OrderRejectedEvent, OrderRequestedEvent, OrderReservedEvent,
};

verus! {

/// Peeling a concatenation: if a stretch of `s` is `a + b`, its front is
/// `a` and the rest is `b`.
pub proof fn lemma_peel(s: Seq<u8>, off: int, a: Seq<u8>, b: Seq<u8>)
    requires
        0 <= off,
        off + a.len() + b.len() <= s.len(),
        s.subrange(off, off + a.len() + b.len()) == a + b,
    ensures
        s.subrange(off, off + a.len()) == a,
        s.subrange(off + a.len(), off + a.len() + b.len()) == b,
{
    assert(s.subrange(off, off + a.len()) =~= a) by {
        assert forall|t: int| 0 <= t < a.len() implies s.subrange(off, off + a.len())[t]
            == a[t] by {
            assert(s.subrange(off, off + a.len() + b.len())[t] == s[off + t]);
            assert((a + b)[t] == a[t]);
        }
    }
    assert(s.subrange(off + a.len(), off + a.len() + b.len()) =~= b) by {
        assert forall|t: int|
            0 <= t < b.len() implies s.subrange(off + a.len(), off + a.len() + b.len())[t]
            == b[t] by {
            assert(s.subrange(off, off + a.len() + b.len())[a.len() + t] == s[off + a.len() + t]);
            assert((a + b)[a.len() + t] == b[t]);
        }
    }
}

/// Does the fixed fragment `t` stand at `pos` of `s`?
pub fn eat(s: &Vec<u8>, pos: usize, t: &Vec<u8>) -> (r: bool)
    requires
        pos <= s@.len(),
    ensures
        r <==> (pos + t@.len() <= s@.len() && s@.subrange(pos as int, pos + t@.len()) == t@),
{
    let len = s.len();
    if t.len() > len - pos {
        return false;
    }
    let mut i: usize = 0;
    while i < t.len()
        invariant
            i <= t@.len(),
            len == s@.len(),
            pos + t@.len() <= s@.len(),
            forall|j: int| 0 <= j < i ==> s@[pos + j] == #[trigger] t@[j],
        decreases t@.len() - i,
    {
        if s[pos + i] != t[i] {
            proof {
                assert(s@.subrange(pos as int, pos + t@.len()) != t@) by {
                    if s@.subrange(pos as int, pos + t@.len()) == t@ {
                        assert(s@.subrange(pos as int, pos + t@.len())[i as int] == s@[pos + i]);
                    }
                }
            }
            return false;
        }
        i += 1;
    }
    proof {
        assert(s@.subrange(pos as int, pos + t@.len()) =~= t@);
    }
    true
}

/// The payload shared by the reservation outcomes and the delivery
/// request: a JSON object with the order id alone.
pub open spec fn spec_order_id_json(order_id: int) -> Seq<u8> {
    tok_order_id() + spec_idec(order_id) + seq![125u8]
}

/// One line item as JSON.
pub open spec fn spec_item_json(it: OrderItem) -> Seq<u8> {
    tok_item_product() + spec_idec(it.product_id as int) + tok_item_quantity() + spec_idec(
        it.quantity as int,
    ) + seq![125u8]
}

/// A comma-separated list of line items.
pub open spec fn spec_items_json(items: Seq<OrderItem>) -> Seq<u8>
    decreases items.len(),
{
    if items.len() == 0 {
        Seq::empty()
    } else if items.len() == 1 {
        spec_item_json(items[0])
    } else {
        spec_items_json(items.drop_last()) + seq![44u8] + spec_item_json(items.last())
    }
}

/// The order-requested payload: the order id and its line items.
pub open spec fn spec_order_requested_json(order_id: int, items: Seq<OrderItem>) -> Seq<u8> {
    tok_order_id() + spec_idec(order_id) + tok_order_items() + spec_items_json(items) + seq![
        93u8,
        125u8,
    ]
}

/// The payload shared by the pay request and the payment confirmation:
/// payment id, order id, amount in minor units, provider.
pub open spec fn spec_pay_json(
    payment_id: int,
    order_id: int,
    amount: int,
    provider: Seq<char>,
) -> Seq<u8> {
    tok_payment_id() + spec_uuid_hyphenated(payment_id) + tok_pay_order_id() + spec_idec(order_id)
        + tok_amount() + spec_udec(amount) + tok_provider() + spec_json_string(provider) + seq![
        125u8,
    ]
}

/// A non-empty item list decomposes at the front: the first item, a
/// comma, the rest.
pub proof fn lemma_items_json_front(items: Seq<OrderItem>)
    requires
        items.len() >= 2,
    ensures
        spec_items_json(items) == spec_item_json(items[0]) + seq![44u8] + spec_items_json(
            items.drop_first(),
        ),
    decreases items.len(),
{
    if items.len() == 2 {
        assert(items.drop_last() =~= seq![items[0]]);
        assert(items.drop_first() =~= seq![items[1]]);
        assert(seq![items[0]][0] == items[0]);
        assert(seq![items[1]][0] == items[1]);
        assert(spec_items_json(seq![items[0]]) == spec_item_json(items[0]));
        assert(spec_items_json(seq![items[1]]) == spec_item_json(items[1]));
        assert(items.last() == items[1]);
        assert(spec_items_json(items) =~= spec_item_json(items[0]) + seq![44u8]
            + spec_items_json(items.drop_first()));
    } else {
        lemma_items_json_front(items.drop_last());
        assert(items.drop_last().drop_first() =~= items.drop_first().drop_last());
        assert(items.drop_first().last() == items.last());
        assert(items.drop_last()[0] == items[0]);
        assert(items.drop_first().len() >= 2);
        assert(spec_items_json(items.drop_first()) == spec_items_json(
            items.drop_first().drop_last(),
        ) + seq![44u8] + spec_item_json(items.drop_first().last()));
        assert(spec_items_json(items) =~= spec_item_json(items[0]) + seq![44u8]
            + spec_items_json(items.drop_first()));
    }
}

/// Encode the order-id-only payload.
pub fn encode_order_id_event(order_id: i32) -> (r: Vec<u8>)
    ensures
        r@ == spec_order_id_json(order_id as int),
{
    let mut out: Vec<u8> = Vec::new();
    let t = tok_order_id_vec();
    let mut i: usize = 0;
    while i < t.len()
        invariant
            i <= t@.len(),
            t@ == tok_order_id(),
            out@ == t@.subrange(0, i as int),
        decreases t@.len() - i,
    {
        out.push(t[i]);
        proof {
            assert(out@ =~= t@.subrange(0, i + 1));
        }
        i += 1;
    }
    proof {
        assert(out@ =~= tok_order_id());
    }
    push_i32_dec(&mut out, order_id);
    out.push(125);
    proof {
        assert(out@ =~= spec_order_id_json(order_id as int));
    }
    out
}

/// Append a whole buffer.
pub fn push_all(out: &mut Vec<u8>, t: &Vec<u8>)
    ensures
        final(out)@ == old(out)@ + t@,
{
    let mut i: usize = 0;
    while i < t.len()
        invariant
            i <= t@.len(),
            out@ == old(out)@ + t@.subrange(0, i as int),
        decreases t@.len() - i,
    {
        out.push(t[i]);
        proof {
            assert(out@ =~= old(out)@ + t@.subrange(0, i + 1));
        }
        i += 1;
    }
    proof {
        assert(out@ =~= old(out)@ + t@);
    }
}

/// Encode one line item.
fn push_item_json(out: &mut Vec<u8>, it: &OrderItem)
    ensures
        final(out)@ == old(out)@ + spec_item_json(*it),
{
    let t1 = tok_item_product_vec();
    let t2 = tok_item_quantity_vec();
    push_all(out, &t1);
    push_i32_dec(out, it.product_id);
    push_all(out, &t2);
    push_i32_dec(out, it.quantity);
    out.push(125);
    proof {
        assert(out@ =~= old(out)@ + spec_item_json(*it));
    }
}

/// Encode the order-requested payload.
pub fn encode_order_requested(ev: &OrderRequestedEvent) -> (r: Vec<u8>)
    ensures
        r@ == spec_order_requested_json(ev.order_id as int, ev.order_items@),
{
    let mut out: Vec<u8> = Vec::new();
    let t1 = tok_order_id_vec();
    let t2 = tok_order_items_vec();
    push_all(&mut out, &t1);
    push_i32_dec(&mut out, ev.order_id);
    push_all(&mut out, &t2);
    let ghost head = out@;
    let mut i: usize = 0;
    while i < ev.order_items.len()
        invariant
            i <= ev.order_items@.len(),
            head == tok_order_id() + spec_idec(ev.order_id as int) + tok_order_items(),
            out@ == head + spec_items_json(ev.order_items@.subrange(0, i as int)),
        decreases ev.order_items@.len() - i,
    {
        if i > 0 {
            out.push(44);
        }
        push_item_json(&mut out, &ev.order_items[i]);
        proof {
            let sub1 = ev.order_items@.subrange(0, i as int);
            let sub2 = ev.order_items@.subrange(0, i + 1);
            assert(sub2.drop_last() =~= sub1);
            assert(sub2.last() == ev.order_items@[i as int]);
            if i == 0 {
                assert(sub2.len() == 1);
                assert(sub2[0] == ev.order_items@[0]);
                assert(spec_items_json(sub2) == spec_item_json(ev.order_items@[0]));
                assert(spec_items_json(sub1) =~= Seq::<u8>::empty());
                assert(out@ =~= head + spec_items_json(sub2));
            } else {
                assert(spec_items_json(sub2) == spec_items_json(sub1) + seq![44u8]
                    + spec_item_json(ev.order_items@[i as int]));
                assert(out@ =~= head + spec_items_json(sub2));
            }
        }
        i += 1;
    }
    out.push(93);
    out.push(125);
    proof {
        assert(ev.order_items@.subrange(0, ev.order_items@.len() as int) =~= ev.order_items@);
        assert(out@ =~= spec_order_requested_json(ev.order_id as int, ev.order_items@));
    }
    out
}

/// Encode the pay payload; refused only when the provider needs escaping.
pub fn encode_pay_event(payment_id: u128, order_id: i32, amount: u64, provider: &String) -> (r:
    Option<Vec<u8>>)
    ensures
        r is Some <==> json_safe(provider@),
        r matches Some(v) ==> v@ == spec_pay_json(
            payment_id as int,
            order_id as int,
            amount as int,
            provider@,
        ),
{
    let mut out: Vec<u8> = Vec::new();
    let t1 = tok_payment_id_vec();
    let t2 = tok_pay_order_id_vec();
    let t3 = tok_amount_vec();
    let t4 = tok_provider_vec();
    push_all(&mut out, &t1);
    push_uuid(&mut out, payment_id);
    push_all(&mut out, &t2);
    push_i32_dec(&mut out, order_id);
    push_all(&mut out, &t3);
    push_u64_dec(&mut out, amount);
    push_all(&mut out, &t4);
    if !push_json_string(&mut out, provider) {
        return None;
    }
    out.push(125);
    proof {
        assert(out@ =~= spec_pay_json(
            payment_id as int,
            order_id as int,
            amount as int,
            provider@,
        ));
    }
    Some(out)
}

/// Parse the order-id-only payload; the whole input must be one
/// canonical payload.
pub fn parse_order_id_json(s: &Vec<u8>) -> (r: Option<i32>)
    ensures
        r matches Some(id) ==> s@ == spec_order_id_json(id as int),
        forall|id: i32| s@ == spec_order_id_json(id as int) ==> r == Some(id),
{
    let t = tok_order_id_vec();
    proof {
        assert forall|id: i32| s@ == spec_order_id_json(id as int) implies (12 + spec_idec(
            id as int,
        ).len() + 1 == s@.len() && s@.subrange(0, 12) == tok_order_id() && s@.subrange(
            12,
            12 + spec_idec(id as int).len() as int,
        ) == spec_idec(id as int) && s@[12 + spec_idec(id as int).len() as int] == 125) by {
            let num = spec_idec(id as int);
            assert(s@ =~= tok_order_id() + (num + seq![125u8]));
            assert(s@.subrange(0, s@.len() as int) =~= s@);
            lemma_peel(s@, 0, tok_order_id(), num + seq![125u8]);
            lemma_peel(s@, 12, num, seq![125u8]);
            assert(s@.subrange(12 + num.len() as int, 12 + num.len() as int + 1)[0] == s@[12
                + num.len() as int]);
        }
    }
    if !eat(s, 0, &t) {
        return None;
    }
    match parse_i32_dec(s, 12) {
        None => {
            proof {
                assert forall|id: i32| s@ == spec_order_id_json(id as int) implies false by {
                    let num = spec_idec(id as int);
                    assert(!is_digit(s@[12 + num.len() as int]));
                }
            }
            None
        },
        Some((id, p)) => {
            if p < s.len() && s[p] == 125 && p + 1 == s.len() {
                proof {
                    assert(s@ =~= spec_order_id_json(id as int)) by {
                        let num = spec_idec(id as int);
                        assert(s@.subrange(12, p as int) == num);
                        assert(num.len() == p - 12);
                        assert forall|t2: int|
                            0 <= t2 < s@.len() implies s@[t2] == spec_order_id_json(id as int)[
                        t2] by {
                            if t2 < 12 {
                                assert(s@.subrange(0, 12)[t2] == s@[t2]);
                            } else if t2 < p {
                                assert(s@.subrange(12, p as int)[t2 - 12] == s@[t2]);
                            }
                        }
                    }
                }
                Some(id)
            } else {
                proof {
                    assert forall|id2: i32| s@ == spec_order_id_json(id2 as int) implies false by {
                        let num = spec_idec(id2 as int);
                        assert(!is_digit(s@[12 + num.len() as int]));
                    }
                }
                None
            }
        },
    }
}

/// Parse one line item at `pos`.
#[verifier::rlimit(100)]
pub fn parse_item(s: &Vec<u8>, pos: usize) -> (r: Option<(OrderItem, usize)>)
    requires
        pos <= s@.len(),
    ensures
        r matches Some(p) ==> pos < p.1 <= s@.len() && s@.subrange(pos as int, p.1 as int)
            == spec_item_json(p.0),
        forall|it: OrderItem, e: int|
            pos <= e <= s@.len() && s@.subrange(pos as int, e) == spec_item_json(it) ==> (
            r matches Some(p) && p.0 == it && p.1 == e),
{
    let t1 = tok_item_product_vec();
    let t2 = tok_item_quantity_vec();
    let len = s.len();
    proof {
        assert(len == s@.len());
    }
    proof {
        assert forall|it: OrderItem, e: int|
            pos <= e <= s@.len() && s@.subrange(pos as int, e) == spec_item_json(it) implies ({
            let n1 = spec_idec(it.product_id as int);
            let n2 = spec_idec(it.quantity as int);
            &&& e == pos + 14 + n1.len() + 12 + n2.len() + 1
            &&& s@.subrange(pos as int, pos + 14) == tok_item_product()
            &&& s@.subrange(pos + 14, pos + 14 + n1.len() as int) == n1
            &&& s@.subrange(
                pos + 14 + n1.len() as int,
                pos + 14 + n1.len() as int + 12,
            ) == tok_item_quantity()
            &&& s@.subrange(
                pos + 14 + n1.len() as int + 12,
                pos + 14 + n1.len() as int + 12 + n2.len() as int,
            ) == n2
            &&& s@[pos + 14 + n1.len() as int] == 44
            &&& s@[e - 1] == 125
        }) by {
            let n1 = spec_idec(it.product_id as int);
            let n2 = spec_idec(it.quantity as int);
            let rest1 = n1 + (tok_item_quantity() + (n2 + seq![125u8]));
            assert(s@.subrange(pos as int, e) =~= tok_item_product() + rest1);
            lemma_peel_at(s@, pos as int, e, tok_item_product(), rest1);
            lemma_peel_at(s@, pos + 14, e, n1, tok_item_quantity() + (n2 + seq![125u8]));
            lemma_peel_at(
                s@,
                pos + 14 + n1.len() as int,
                e,
                tok_item_quantity(),
                n2 + seq![125u8],
            );
            lemma_peel_at(s@, pos + 14 + n1.len() as int + 12, e, n2, seq![125u8]);
            assert(s@.subrange(pos + 14 + n1.len() as int, pos + 14 + n1.len() as int + 12)[0] == s@[pos
                + 14 + n1.len() as int]);
            assert(tok_item_quantity()[0] == 44);
            assert(s@.subrange(e - 1, e)[0] == s@[e - 1]);
        }
    }
    if !eat(s, pos, &t1) {
        return None;
    }
    let (pid, p1) = match parse_i32_dec(s, pos + 14) {
        None => {
            proof {
                assert forall|it: OrderItem, e: int|
                    pos <= e <= s@.len() && s@.subrange(pos as int, e) == spec_item_json(
                        it,
                    ) implies false by {
                    let n1 = spec_idec(it.product_id as int);
                    assert(!is_digit(s@[pos + 14 + n1.len() as int]));
                }
            }
            return None;
        },
        Some(pr) => pr,
    };
    if !eat(s, p1, &t2) {
        proof {
            assert forall|it: OrderItem, e: int|
                pos <= e <= s@.len() && s@.subrange(pos as int, e) == spec_item_json(
                    it,
                ) implies false by {
                let n1 = spec_idec(it.product_id as int);
                assert(!is_digit(s@[pos + 14 + n1.len() as int]));
                assert(p1 == pos + 14 + n1.len() as int);
            }
        }
        return None;
    }
    let (qty, p2) = match parse_i32_dec(s, p1 + 12) {
        None => {
            proof {
                assert forall|it: OrderItem, e: int|
                    pos <= e <= s@.len() && s@.subrange(pos as int, e) == spec_item_json(
                        it,
                    ) implies false by {
                    let n1 = spec_idec(it.product_id as int);
                    let n2 = spec_idec(it.quantity as int);
                    assert(!is_digit(s@[pos + 14 + n1.len() as int]));
                    assert(p1 == pos + 14 + n1.len() as int);
                    assert(s@[pos + 14 + n1.len() as int + 12 + n2.len() as int] == 125);
                }
            }
            return None;
        },
        Some(pr) => pr,
    };
    if p2 < s.len() && s[p2] == 125 {
        let it = OrderItem { product_id: pid, quantity: qty };
        proof {
            assert(s@.subrange(pos as int, p2 + 1) =~= spec_item_json(it)) by {
                let n1 = spec_idec(pid as int);
                let n2 = spec_idec(qty as int);
                assert(s@.subrange(pos as int, pos + 14) == tok_item_product());
                assert(s@.subrange(pos + 14, p1 as int) == n1);
                assert(s@.subrange(p1 as int, p1 + 12) == tok_item_quantity());
                assert(s@.subrange(p1 + 12, p2 as int) == n2);
                assert forall|t3: int|
                    0 <= t3 < p2 + 1 - pos implies s@.subrange(pos as int, p2 + 1)[t3]
                    == spec_item_json(it)[t3] by {
                    if t3 < 14 {
                        assert(s@.subrange(pos as int, pos + 14)[t3] == s@[pos + t3]);
                    } else if t3 < 14 + n1.len() {
                        assert(s@.subrange(pos + 14, p1 as int)[t3 - 14] == s@[pos + t3]);
                    } else if t3 < 14 + n1.len() + 12 {
                        assert(s@.subrange(p1 as int, p1 + 12)[t3 - 14 - n1.len()] == s@[pos
                            + t3]);
                    } else if t3 < 14 + n1.len() + 12 + n2.len() {
                        assert(s@.subrange(p1 + 12, p2 as int)[t3 - 14 - n1.len() - 12] == s@[pos
                            + t3]);
                    }
                }
            }
        }
        Some((it, p2 + 1))
    } else {
        proof {
            assert forall|it: OrderItem, e: int|
                pos <= e <= s@.len() && s@.subrange(pos as int, e) == spec_item_json(
                    it,
                ) implies false by {
                let n1 = spec_idec(it.product_id as int);
                let n2 = spec_idec(it.quantity as int);
                assert(!is_digit(s@[pos + 14 + n1.len() as int]));
                assert(p1 == pos + 14 + n1.len() as int);
                assert(s@[pos + 14 + n1.len() as int + 12 + n2.len() as int] == 125);
                assert(p2 == pos + 14 + n1.len() as int + 12 + n2.len() as int);
            }
        }
        None
    }
}

/// Peeling inside a stretch: if `s` between `off` and `e` is `a + b`,
/// its front is `a` and the rest is `b`.
pub proof fn lemma_peel_at(s: Seq<u8>, off: int, e: int, a: Seq<u8>, b: Seq<u8>)
    requires
        0 <= off,
        off + a.len() + b.len() == e,
        e <= s.len(),
        s.subrange(off, e) == a + b,
    ensures
        s.subrange(off, off + a.len()) == a,
        s.subrange(off + a.len(), e) == b,
{
    lemma_peel(s, off, a, b);
}

/// Decomposing a canonical list of two or more items inside `s`: the
/// first item, a comma, the remaining list.
pub proof fn lemma_items_decompose(s: Seq<u8>, pos: int, e: int, items: Seq<OrderItem>)
    requires
        0 <= pos <= e <= s.len(),
        s.subrange(pos, e) == spec_items_json(items),
        items.len() >= 2,
    ensures
        pos + spec_item_json(items[0]).len() + 1 <= e,
        s.subrange(pos, pos + spec_item_json(items[0]).len() as int) == spec_item_json(items[0]),
        s[pos + spec_item_json(items[0]).len() as int] == 44,
        s.subrange(pos + spec_item_json(items[0]).len() as int + 1, e) == spec_items_json(
            items.drop_first(),
        ),
{
    lemma_items_json_front(items);
    let a = spec_item_json(items[0]);
    let rest = spec_items_json(items.drop_first());
    assert(s.subrange(pos, e) =~= a + (seq![44u8] + rest));
    lemma_peel_at(s, pos, e, a, seq![44u8] + rest);
    lemma_peel_at(s, pos + a.len() as int, e, seq![44u8], rest);
    assert(s.subrange(pos + a.len() as int, pos + a.len() as int + 1)[0] == s[pos
        + a.len() as int]);
}

/// Parse a list of line items at `pos`; a successful parse stops exactly
/// at the closing bracket.
#[verifier::rlimit(100)]
pub fn parse_items(s: &Vec<u8>, pos: usize) -> (r: Option<(Vec<OrderItem>, usize)>)
    requires
        pos <= s@.len(),
    ensures
        r matches Some(p) ==> pos <= p.1 < s@.len() && s@.subrange(pos as int, p.1 as int)
            == spec_items_json(p.0@) && s@[p.1 as int] == 93,
        forall|items: Seq<OrderItem>, e: int|
            pos <= e < s@.len() && s@.subrange(pos as int, e) == spec_items_json(items) && s@[e]
                == 93 ==> (r matches Some(p) && p.0@ == items && p.1 == e),
    decreases s@.len() - pos,
{
    let len = s.len();
    proof {
        assert(len == s@.len());
        assert forall|items: Seq<OrderItem>, e: int|
            pos <= e < s@.len() && s@.subrange(pos as int, e) == spec_items_json(items) && s@[e]
                == 93 implies ((items.len() == 0 ==> e == pos) && (items.len() > 0 ==> (pos < e
            && s@[pos as int] == 123))) by {
            if items.len() > 0 {
                if items.len() >= 2 {
                    lemma_items_json_front(items);
                } else {
                    assert(spec_items_json(items) == spec_item_json(items[0]));
                }
                assert(spec_item_json(items[0]).len() >= 14);
                assert(spec_items_json(items)[0] == spec_item_json(items[0])[0]);
                assert(spec_item_json(items[0])[0] == tok_item_product()[0]);
                assert(spec_items_json(items).len() >= spec_item_json(items[0]).len());
                assert(spec_items_json(items).len() == e - pos);
                assert(e - pos >= 14);
                assert(s@.subrange(pos as int, e)[0] == s@[pos as int]);
            }
        }
    }
    if pos < len && s[pos] == 93 {
        let v: Vec<OrderItem> = Vec::new();
        proof {
            assert(s@.subrange(pos as int, pos as int) =~= spec_items_json(v@));
        }
        return Some((v, pos));
    }
    let (it, p1) = match parse_item(s, pos) {
        None => {
            proof {
                assert forall|items: Seq<OrderItem>, e: int|
                    pos <= e < s@.len() && s@.subrange(pos as int, e) == spec_items_json(items)
                        && s@[e] == 93 implies false by {
                    if items.len() == 0 {
                        assert(s@[pos as int] == 93 && pos < s@.len());
                    } else if items.len() == 1 {
                        assert(s@.subrange(pos as int, e) == spec_item_json(items[0]));
                    } else {
                        lemma_items_decompose(s@, pos as int, e, items);
                    }
                }
            }
            return None;
        },
        Some(pr) => pr,
    };
    proof {
        assert forall|items: Seq<OrderItem>, e: int|
            pos <= e < s@.len() && s@.subrange(pos as int, e) == spec_items_json(items) && s@[e]
                == 93 implies ((items.len() == 1 ==> (it == items[0] && p1 == e)) && (items.len()
            >= 2 ==> (it == items[0] && p1 == pos + spec_item_json(items[0]).len() && s@[p1 as int]
            == 44 && s@.subrange(p1 + 1, e) == spec_items_json(items.drop_first())
            && items.drop_first().len() >= 1))) by {
            if items.len() == 0 {
                assert(s@[pos as int] == 93 && pos < s@.len());
            } else if items.len() == 1 {
                assert(s@.subrange(pos as int, e) == spec_item_json(items[0]));
            } else {
                lemma_items_decompose(s@, pos as int, e, items);
            }
        }
    }
    if p1 < len && s[p1] == 44 {
        match parse_items(s, p1 + 1) {
            None => {
                proof {
                    assert forall|items: Seq<OrderItem>, e: int|
                        pos <= e < s@.len() && s@.subrange(pos as int, e) == spec_items_json(
                            items,
                        ) && s@[e] == 93 implies false by {
                        if items.len() == 1 {
                            assert(s@[p1 as int] == 93);
                        } else {
                            assert(items.len() >= 2);
                            lemma_items_decompose(s@, pos as int, e, items);
                            assert(s@.subrange(p1 + 1, e) == spec_items_json(
                                items.drop_first(),
                            ));
                            assert(p1 + 1 <= e);
                        }
                    }
                }
                return None;
            },
            Some((rest, e2)) => {
                if rest.len() == 0 {
                    proof {
                        assert forall|items: Seq<OrderItem>, e: int|
                            pos <= e < s@.len() && s@.subrange(pos as int, e) == spec_items_json(
                                items,
                            ) && s@[e] == 93 implies false by {
                            if items.len() == 1 {
                                assert(s@[p1 as int] == 93);
                            } else {
                                assert(items.len() >= 2);
                                lemma_items_decompose(s@, pos as int, e, items);
                                assert(s@.subrange(p1 + 1, e) == spec_items_json(
                                    items.drop_first(),
                                ));
                                assert(p1 + 1 <= e);
                                assert(rest@ == items.drop_first());
                            }
                        }
                    }
                    return None;
                }
                let mut v: Vec<OrderItem> = Vec::new();
                v.push(it);
                let mut rest2 = rest;
                v.append(&mut rest2);
                proof {
                    assert(v@.len() >= 2);
                    assert(v@[0] == it);
                    assert(v@.drop_first() =~= rest@);
                    lemma_items_json_front(v@);
                    assert(s@.subrange(pos as int, e2 as int) =~= spec_items_json(v@)) by {
                        let a = spec_item_json(it);
                        let rj = spec_items_json(rest@);
                        assert(s@.subrange(pos as int, p1 as int) == a);
                        assert(s@.subrange(p1 + 1, e2 as int) == rj);
                        assert(spec_items_json(v@) == a + seq![44u8] + rj);
                        assert forall|t3: int|
                            0 <= t3 < e2 - pos implies s@.subrange(pos as int, e2 as int)[t3]
                            == spec_items_json(v@)[t3] by {
                            if t3 < p1 - pos {
                                assert(s@.subrange(pos as int, p1 as int)[t3] == s@[pos + t3]);
                            } else if t3 == p1 - pos {
                                assert(s@[p1 as int] == 44);
                            } else {
                                assert(s@.subrange(p1 + 1, e2 as int)[t3 - (p1 - pos) - 1]
                                    == s@[pos + t3]);
                            }
                        }
                    }
                    assert forall|items: Seq<OrderItem>, e: int|
                        pos <= e < s@.len() && s@.subrange(pos as int, e) == spec_items_json(
                            items,
                        ) && s@[e] == 93 implies (v@ == items && e2 as int == e) by {
                        if items.len() == 1 {
                            assert(s@[p1 as int] == 93);
                        }
                        assert(items.len() >= 2);
                        lemma_items_decompose(s@, pos as int, e, items);
                        assert(s@.subrange(p1 + 1, e) == spec_items_json(items.drop_first()));
                        assert(p1 + 1 <= e);
                        assert(rest@ == items.drop_first() && e2 as int == e);
                        assert(v@ =~= items);
                    }
                }
                Some((v, e2))
            },
        }
    } else if p1 < len && s[p1] == 93 {
        let mut v: Vec<OrderItem> = Vec::new();
        v.push(it);
        proof {
            assert(v@ =~= seq![it]);
            assert(v@.len() == 1 && v@[0] == it);
            assert(spec_items_json(v@) == spec_item_json(it));
            assert(s@.subrange(pos as int, p1 as int) == spec_item_json(it));
            assert forall|items: Seq<OrderItem>, e: int|
                pos <= e < s@.len() && s@.subrange(pos as int, e) == spec_items_json(items)
                    && s@[e] == 93 implies (v@ == items && p1 as int == e) by {
                if items.len() >= 2 {
                    lemma_items_decompose(s@, pos as int, e, items);
                    assert(it == items[0] && p1 as int == pos + spec_item_json(items[0]).len());
                    assert(s@[p1 as int] == 44);
                }
                assert(items.len() == 1);
                assert(it == items[0] && p1 as int == e);
                assert(v@ =~= items);
            }
        }
        Some((v, p1))
    } else {
        proof {
            assert forall|items: Seq<OrderItem>, e: int|
                pos <= e < s@.len() && s@.subrange(pos as int, e) == spec_items_json(items)
                    && s@[e] == 93 implies false by {
                if items.len() == 1 {
                    assert(p1 as int == e && s@[e] == 93 && e < s@.len());
                } else {
                    assert(items.len() >= 2);
                    lemma_items_decompose(s@, pos as int, e, items);
                    assert(it == items[0] && p1 as int == pos + spec_item_json(items[0]).len());
                    assert(s@[p1 as int] == 44);
                    assert(p1 < s@.len()) by {
                        assert(p1 + 1 <= e);
                    }
                }
            }
        }
        None
    }
}

/// Parse the order-requested payload; the whole input must be one
/// canonical payload.
#[verifier::rlimit(100)]
pub fn parse_order_requested(s: &Vec<u8>) -> (r: Option<OrderRequestedEvent>)
    ensures
        r matches Some(ev) ==> s@ == spec_order_requested_json(ev.order_id as int, ev.order_items@),
        forall|id: i32, items: Seq<OrderItem>|
            s@ == spec_order_requested_json(id as int, items) ==> (r matches Some(ev)
                && ev.order_id == id && ev.order_items@ == items),
{
    let t1 = tok_order_id_vec();
    let t2 = tok_order_items_vec();
    let len = s.len();
    proof {
        assert(len == s@.len());
        assert forall|id: i32, items: Seq<OrderItem>|
            s@ == spec_order_requested_json(id as int, items) implies ({
            let num = spec_idec(id as int);
            let ij = spec_items_json(items);
            let x1 = 12 + num.len() as int;
            let x2 = x1 + 16;
            let x3 = x2 + ij.len() as int;
            &&& s@.len() == x3 + 2
            &&& s@.subrange(0, 12) == tok_order_id()
            &&& s@.subrange(12, x1) == num
            &&& s@[x1] == 44
            &&& s@.subrange(x1, x2) == tok_order_items()
            &&& s@.subrange(x2, x3) == ij
            &&& s@[x3] == 93
            &&& s@[x3 + 1] == 125
        }) by {
            let num = spec_idec(id as int);
            let ij = spec_items_json(items);
            let x1 = 12 + num.len() as int;
            let x2 = x1 + 16;
            let x3 = x2 + ij.len() as int;
            assert(s@ =~= tok_order_id() + (num + (tok_order_items() + (ij + seq![
                93u8,
                125u8,
            ]))));
            assert(s@.subrange(0, s@.len() as int) =~= s@);
            lemma_peel(s@, 0, tok_order_id(), num + (tok_order_items() + (ij + seq![93u8, 125u8])));
            lemma_peel_at(s@, 12, s@.len() as int, num, tok_order_items() + (ij + seq![
                93u8,
                125u8,
            ]));
            lemma_peel_at(s@, x1, s@.len() as int, tok_order_items(), ij + seq![93u8, 125u8]);
            lemma_peel_at(s@, x2, s@.len() as int, ij, seq![93u8, 125u8]);
            assert(s@.subrange(x1, x2)[0] == s@[x1]);
            assert(tok_order_items()[0] == 44);
            assert(s@.subrange(x3, s@.len() as int)[0] == s@[x3]);
            assert(s@.subrange(x3, s@.len() as int)[1] == s@[x3 + 1]);
        }
    }
    if !eat(s, 0, &t1) {
        return None;
    }
    let (id, p1) = match parse_i32_dec(s, 12) {
        None => {
            proof {
                assert forall|id: i32, items: Seq<OrderItem>|
                    s@ == spec_order_requested_json(id as int, items) implies false by {
                    let num = spec_idec(id as int);
                    assert(!is_digit(s@[12 + num.len() as int]));
                }
            }
            return None;
        },
        Some(pr) => pr,
    };
    if !eat(s, p1, &t2) {
        proof {
            assert forall|id2: i32, items: Seq<OrderItem>|
                s@ == spec_order_requested_json(id2 as int, items) implies false by {
                let num = spec_idec(id2 as int);
                assert(!is_digit(s@[12 + num.len() as int]));
                assert(p1 as int == 12 + num.len() as int);
            }
        }
        return None;
    }
    let (items, p2) = match parse_items(s, p1 + 16) {
        None => {
            proof {
                assert forall|id2: i32, items: Seq<OrderItem>|
                    s@ == spec_order_requested_json(id2 as int, items) implies false by {
                    let num = spec_idec(id2 as int);
                    let ij = spec_items_json(items);
                    assert(!is_digit(s@[12 + num.len() as int]));
                    assert(p1 as int == 12 + num.len() as int);
                    assert(s@.subrange(p1 + 16, p1 + 16 + ij.len() as int) == ij);
                    assert(s@[p1 + 16 + ij.len() as int] == 93);
                }
            }
            return None;
        },
        Some(pr) => pr,
    };
    if len - p2 == 2 && s[p2] == 93 && s[p2 + 1] == 125 {
        let ev = OrderRequestedEvent { order_id: id, order_items: items };
        proof {
            assert(s@ =~= spec_order_requested_json(id as int, ev.order_items@)) by {
                let num = spec_idec(id as int);
                let ij = spec_items_json(ev.order_items@);
                assert(s@.subrange(0, 12) == tok_order_id());
                assert(s@.subrange(12, p1 as int) == num);
                assert(s@.subrange(p1 as int, p1 + 16) == tok_order_items());
                assert(s@.subrange(p1 + 16, p2 as int) == ij);
                assert forall|t3: int|
                    0 <= t3 < s@.len() implies s@[t3] == spec_order_requested_json(
                    id as int,
                    ev.order_items@,
                )[t3] by {
                    if t3 < 12 {
                        assert(s@.subrange(0, 12)[t3] == s@[t3]);
                    } else if t3 < p1 as int {
                        assert(s@.subrange(12, p1 as int)[t3 - 12] == s@[t3]);
                    } else if t3 < p1 + 16 {
                        assert(s@.subrange(p1 as int, p1 + 16)[t3 - p1] == s@[t3]);
                    } else if t3 < p2 as int {
                        assert(s@.subrange(p1 + 16, p2 as int)[t3 - p1 - 16] == s@[t3]);
                    }
                }
            }
            assert forall|id2: i32, items2: Seq<OrderItem>|
                s@ == spec_order_requested_json(id2 as int, items2) implies (id == id2
                && ev.order_items@ == items2) by {
                let num = spec_idec(id2 as int);
                let ij = spec_items_json(items2);
                assert(!is_digit(s@[12 + num.len() as int]));
                assert(id == id2 && p1 as int == 12 + num.len() as int);
                assert(s@.subrange(p1 + 16, p1 + 16 + ij.len() as int) == ij);
                assert(s@[p1 + 16 + ij.len() as int] == 93);
                assert(ev.order_items@ == items2);
            }
        }
        Some(ev)
    } else {
        proof {
            assert forall|id2: i32, items2: Seq<OrderItem>|
                s@ == spec_order_requested_json(id2 as int, items2) implies false by {
                let num = spec_idec(id2 as int);
                let ij = spec_items_json(items2);
                assert(!is_digit(s@[12 + num.len() as int]));
                assert(p1 as int == 12 + num.len() as int);
                assert(s@.subrange(p1 + 16, p1 + 16 + ij.len() as int) == ij);
                assert(s@[p1 + 16 + ij.len() as int] == 93);
                assert(items@ == items2 && p2 as int == p1 + 16 + ij.len() as int);
            }
        }
        None
    }
}


/// Decomposing a canonical pay payload: where each fixed fragment and
/// each variable part stands.
#[verifier::rlimit(100)]
pub proof fn lemma_pay_shape(s: Seq<u8>, pid: u128, oid: i32, amt: u64, prov: Seq<char>)
    requires
        json_safe(prov),
        s == spec_pay_json(pid as int, oid as int, amt as int, prov),
    ensures
        ({
            let uu = spec_uuid_hyphenated(pid as int);
            let num = spec_idec(oid as int);
            let am = spec_udec(amt as int);
            let pj = spec_json_string(prov);
            let x1 = 15 + uu.len() as int;
            let x2 = x1 + 13;
            let x3 = x2 + num.len() as int;
            let x4 = x3 + 10;
            let x5 = x4 + am.len() as int;
            let x6 = x5 + 12;
            let x7 = x6 + pj.len() as int;
            &&& s.len() == x7 + 1
            &&& uu.len() == 36
            &&& s.subrange(0, 15) == tok_payment_id()
            &&& s.subrange(15, x1) == uu
            &&& s.subrange(x1, x2) == tok_pay_order_id()
            &&& s.subrange(x2, x3) == num
            &&& s[x3] == 44
            &&& s.subrange(x3, x4) == tok_amount()
            &&& s.subrange(x4, x5) == am
            &&& s[x5] == 44
            &&& s.subrange(x5, x6) == tok_provider()
            &&& s.subrange(x6, x7) == pj
            &&& s[x7] == 125
        }),
{
    let uu = spec_uuid_hyphenated(pid as int);
    let num = spec_idec(oid as int);
    let am = spec_udec(amt as int);
    let pj = spec_json_string(prov);
    let x1 = 15 + uu.len() as int;
    let x2 = x1 + 13;
    let x3 = x2 + num.len() as int;
    let x4 = x3 + 10;
    let x5 = x4 + am.len() as int;
    let x6 = x5 + 12;
    let x7 = x6 + pj.len() as int;
    assert(uu.len() == 36) by {
        crate::codec::lemma_pow16_values();
        crate::codec::lemma_hex_fixed_shape(pid as int, 32);
    }
    assert(s =~= tok_payment_id() + (uu + (tok_pay_order_id() + (num + (tok_amount() + (am + (
    tok_provider() + (pj + seq![125u8]))))))));
    assert(s.subrange(0, s.len() as int) =~= s);
    lemma_peel(s, 0, tok_payment_id(), uu + (tok_pay_order_id() + (num + (tok_amount() + (am + (
    tok_provider() + (pj + seq![125u8])))))));
    lemma_peel_at(s, 15, s.len() as int, uu, tok_pay_order_id() + (num + (tok_amount() + (am + (
    tok_provider() + (pj + seq![125u8]))))));
    lemma_peel_at(s, x1, s.len() as int, tok_pay_order_id(), num + (tok_amount() + (am + (
    tok_provider() + (pj + seq![125u8])))));
    lemma_peel_at(s, x2, s.len() as int, num, tok_amount() + (am + (tok_provider() + (pj + seq![
        125u8,
    ]))));
    lemma_peel_at(s, x3, s.len() as int, tok_amount(), am + (tok_provider() + (pj + seq![125u8])));
    lemma_peel_at(s, x4, s.len() as int, am, tok_provider() + (pj + seq![125u8]));
    lemma_peel_at(s, x5, s.len() as int, tok_provider(), pj + seq![125u8]);
    lemma_peel_at(s, x6, s.len() as int, pj, seq![125u8]);
    assert(s.subrange(x3, x4)[0] == s[x3]);
    assert(tok_amount()[0] == 44);
    assert(s.subrange(x5, x6)[0] == s[x5]);
    assert(tok_provider()[0] == 44);
    assert(s.subrange(x7, x7 + 1)[0] == s[x7]);
}


/// Assembling a pay payload from verified pieces.
proof fn lemma_pay_assemble(
    s: Seq<u8>,
    pid: u128,
    oid: i32,
    amt: u64,
    provv: Seq<char>,
    p1: int,
    p2: int,
    p3: int,
    p4: int,
)
    requires
        s.subrange(0, 15) == tok_payment_id(),
        15 <= p1 <= p2 <= p3 <= p4 < s.len(),
        s.subrange(15, p1) == spec_uuid_hyphenated(pid as int),
        s.subrange(p1, p1 + 13) == tok_pay_order_id(),
        p1 + 13 <= p2,
        s.subrange(p1 + 13, p2) == spec_idec(oid as int),
        s.subrange(p2, p2 + 10) == tok_amount(),
        p2 + 10 <= p3,
        s.subrange(p2 + 10, p3) == spec_udec(amt as int),
        s.subrange(p3, p3 + 12) == tok_provider(),
        p3 + 12 <= p4,
        s.subrange(p3 + 12, p4) == spec_json_string(provv),
        s[p4] == 125,
        s.len() == p4 + 1,
    ensures
        s == spec_pay_json(pid as int, oid as int, amt as int, provv),
{
    assert(s =~= spec_pay_json(pid as int, oid as int, amt as int, provv)) by {
        assert forall|t5: int|
            0 <= t5 < s.len() implies s[t5] == spec_pay_json(
            pid as int,
            oid as int,
            amt as int,
            provv,
        )[t5] by {
            if t5 < 15 {
                assert(s.subrange(0, 15)[t5] == s[t5]);
            } else if t5 < p1 {
                assert(s.subrange(15, p1)[t5 - 15] == s[t5]);
            } else if t5 < p1 + 13 {
                assert(s.subrange(p1, p1 + 13)[t5 - p1] == s[t5]);
            } else if t5 < p2 {
                assert(s.subrange(p1 + 13, p2)[t5 - p1 - 13] == s[t5]);
            } else if t5 < p2 + 10 {
                assert(s.subrange(p2, p2 + 10)[t5 - p2] == s[t5]);
            } else if t5 < p3 {
                assert(s.subrange(p2 + 10, p3)[t5 - p2 - 10] == s[t5]);
            } else if t5 < p3 + 12 {
                assert(s.subrange(p3, p3 + 12)[t5 - p3] == s[t5]);
            } else if t5 < p4 {
                assert(s.subrange(p3 + 12, p4)[t5 - p3 - 12] == s[t5]);
            }
        }
    }
}

/// Parse the head of a pay payload: the payment id and the order id.
pub fn parse_pay_head(s: &Vec<u8>) -> (r: Option<(u128, i32, usize)>)
    ensures
        r matches Some(p) ==> (s@.subrange(0, 15) == tok_payment_id() && 51 <= s@.len()
            && s@.subrange(15, 51) == spec_uuid_hyphenated(p.0 as int) && s@.subrange(51, 64)
            == tok_pay_order_id() && 64 < p.2 <= s@.len() && s@.subrange(64, p.2 as int)
            == spec_idec(p.1 as int) && (p.2 == s@.len() || !is_digit(s@[p.2 as int]))),
        forall|pid: u128, oid: i32, amt: u64, prov: Seq<char>|
            json_safe(prov) && s@ == spec_pay_json(pid as int, oid as int, amt as int, prov)
                ==> (r matches Some(p) && p.0 == pid && p.1 == oid && p.2 as int == 64
                + spec_idec(oid as int).len()),
{
    let t1 = tok_payment_id_vec();
    let t2 = tok_pay_order_id_vec();
    let len = s.len();
    proof {
        assert(len == s@.len());
        assert forall|pid: u128, oid: i32, amt: u64, prov: Seq<char>|
            json_safe(prov) && s@ == spec_pay_json(
                pid as int,
                oid as int,
                amt as int,
                prov,
            ) implies (s@.subrange(0, 15) == tok_payment_id() && 51 <= s@.len() && s@.subrange(
            15,
            51,
        ) == spec_uuid_hyphenated(pid as int) && s@.subrange(51, 64) == tok_pay_order_id()
            && s@.subrange(64, 64 + spec_idec(oid as int).len() as int) == spec_idec(oid as int)
            && !is_digit(s@[64 + spec_idec(oid as int).len() as int]) && 64 + spec_idec(
            oid as int,
        ).len() < s@.len()) by {
            lemma_pay_shape(s@, pid, oid, amt, prov);
        }
    }
    if !eat(s, 0, &t1) {
        return None;
    }
    let (pid, p1) = match parse_uuid(s, 15) {
        None => {
            return None;
        },
        Some(pr) => pr,
    };
    if !eat(s, p1, &t2) {
        return None;
    }
    match parse_i32_dec(s, p1 + 13) {
        None => {
            None
        },
        Some((oid, p2)) => {
            Some((pid, oid, p2))
        },
    }
}

/// Parse the pay payload into its four fields; the whole input must be
/// one canonical payload.
#[verifier::rlimit(100)]
pub fn parse_pay_json(s: &Vec<u8>) -> (r: Option<(u128, i32, u64, String)>)
    ensures
        r matches Some(p) ==> json_safe(p.3@) && s@ == spec_pay_json(
            p.0 as int,
            p.1 as int,
            p.2 as int,
            p.3@,
        ),
        forall|pid: u128, oid: i32, amt: u64, prov: Seq<char>|
            json_safe(prov) && s@ == spec_pay_json(pid as int, oid as int, amt as int, prov)
                ==> (r matches Some(p) && p.0 == pid && p.1 == oid && p.2 == amt && p.3@
                == prov),
{
    let t3 = tok_amount_vec();
    let t4 = tok_provider_vec();
    let len = s.len();
    proof {
        assert(len == s@.len());
    }
    let (pid, oid, p2) = match parse_pay_head(s) {
        None => {
            return None;
        },
        Some(pr) => pr,
    };
    if !eat(s, p2, &t3) {
        proof {
            assert forall|pid2: u128, oid2: i32, amt2: u64, prov2: Seq<char>|
                json_safe(prov2) && s@ == spec_pay_json(
                    pid2 as int,
                    oid2 as int,
                    amt2 as int,
                    prov2,
                ) implies false by {
                lemma_pay_shape(s@, pid2, oid2, amt2, prov2);
                assert(p2 as int == 64 + spec_idec(oid2 as int).len() as int);
            }
        }
        return None;
    }
    let (amt, p3) = match parse_u64_dec(s, p2 + 10) {
        None => {
            proof {
                assert forall|pid2: u128, oid2: i32, amt2: u64, prov2: Seq<char>|
                    json_safe(prov2) && s@ == spec_pay_json(
                        pid2 as int,
                        oid2 as int,
                        amt2 as int,
                        prov2,
                    ) implies false by {
                    lemma_pay_shape(s@, pid2, oid2, amt2, prov2);
                    assert(p2 as int == 64 + spec_idec(oid2 as int).len() as int);
                    assert(!is_digit(s@[p2 + 10 + spec_udec(amt2 as int).len() as int]));
                }
            }
            return None;
        },
        Some(pr) => pr,
    };
    if !eat(s, p3, &t4) {
        proof {
            assert forall|pid2: u128, oid2: i32, amt2: u64, prov2: Seq<char>|
                json_safe(prov2) && s@ == spec_pay_json(
                    pid2 as int,
                    oid2 as int,
                    amt2 as int,
                    prov2,
                ) implies false by {
                lemma_pay_shape(s@, pid2, oid2, amt2, prov2);
                assert(p2 as int == 64 + spec_idec(oid2 as int).len() as int);
                assert(!is_digit(s@[p2 + 10 + spec_udec(amt2 as int).len() as int]));
                assert(amt == amt2 && p3 as int == p2 + 10 + spec_udec(amt2 as int).len() as int);
            }
        }
        return None;
    }
    let (prov, p4) = match parse_json_string(s, p3 + 12) {
        None => {
            proof {
                assert forall|pid2: u128, oid2: i32, amt2: u64, prov2: Seq<char>|
                    json_safe(prov2) && s@ == spec_pay_json(
                        pid2 as int,
                        oid2 as int,
                        amt2 as int,
                        prov2,
                    ) implies false by {
                    lemma_pay_shape(s@, pid2, oid2, amt2, prov2);
                    assert(p2 as int == 64 + spec_idec(oid2 as int).len() as int);
                    assert(!is_digit(s@[p2 + 10 + spec_udec(amt2 as int).len() as int]));
                    assert(amt == amt2 && p3 as int == p2 + 10 + spec_udec(
                        amt2 as int,
                    ).len() as int);
                    assert(s@.subrange(p3 + 12, p3 + 12 + spec_json_string(prov2).len() as int)
                        == spec_json_string(prov2));
                }
            }
            return None;
        },
        Some(pr) => pr,
    };
    if p4 < len && len - p4 == 1 && s[p4] == 125 {
        proof {
            lemma_pay_assemble(
                s@,
                pid,
                oid,
                amt,
                prov@,
                51,
                p2 as int,
                p3 as int,
                p4 as int,
            );
            assert forall|pid2: u128, oid2: i32, amt2: u64, prov2: Seq<char>|
                json_safe(prov2) && s@ == spec_pay_json(
                    pid2 as int,
                    oid2 as int,
                    amt2 as int,
                    prov2,
                ) implies (pid == pid2 && oid == oid2 && amt == amt2 && prov@ == prov2) by {
                lemma_pay_shape(s@, pid2, oid2, amt2, prov2);
                assert(p2 as int == 64 + spec_idec(oid2 as int).len() as int);
                assert(!is_digit(s@[p2 + 10 + spec_udec(amt2 as int).len() as int]));
                assert(amt == amt2 && p3 as int == p2 + 10 + spec_udec(amt2 as int).len() as int);
                assert(s@.subrange(p3 + 12, p3 + 12 + spec_json_string(prov2).len() as int)
                    == spec_json_string(prov2));
                assert(prov@ == prov2 && p4 as int == p3 + 12 + spec_json_string(
                    prov2,
                ).len() as int);
            }
        }
        Some((pid, oid, amt, prov))
    } else {
        proof {
            assert forall|pid2: u128, oid2: i32, amt2: u64, prov2: Seq<char>|
                json_safe(prov2) && s@ == spec_pay_json(
                    pid2 as int,
                    oid2 as int,
                    amt2 as int,
                    prov2,
                ) implies false by {
                lemma_pay_shape(s@, pid2, oid2, amt2, prov2);
                assert(p2 as int == 64 + spec_idec(oid2 as int).len() as int);
                assert(!is_digit(s@[p2 + 10 + spec_udec(amt2 as int).len() as int]));
                assert(amt == amt2 && p3 as int == p2 + 10 + spec_udec(amt2 as int).len() as int);
                assert(s@.subrange(p3 + 12, p3 + 12 + spec_json_string(prov2).len() as int)
                    == spec_json_string(prov2));
                assert(prov2 == prov@ && p4 as int == p3 + 12 + spec_json_string(
                    prov2,
                ).len() as int);
            }
        }
        None
    }
}

/// Encode a reservation confirmation.
pub fn encode_order_reserved(ev: &OrderReservedEvent) -> (r: Vec<u8>)
    ensures
        r@ == spec_order_id_json(ev.order_id as int),
{
    encode_order_id_event(ev.order_id)
}

/// Parse a reservation confirmation; the whole input must be canonical.
pub fn parse_order_reserved(s: &Vec<u8>) -> (r: Option<OrderReservedEvent>)
    ensures
        r matches Some(ev) ==> s@ == spec_order_id_json(ev.order_id as int),
        forall|id: i32|
            s@ == spec_order_id_json(id as int) ==> (r matches Some(ev) && ev.order_id == id),
{
    match parse_order_id_json(s) {
        Some(id) => Some(OrderReservedEvent { order_id: id }),
        None => None,
    }
}

/// Encode a reservation rejection.
pub fn encode_order_rejected(ev: &OrderRejectedEvent) -> (r: Vec<u8>)
    ensures
        r@ == spec_order_id_json(ev.order_id as int),
{
    encode_order_id_event(ev.order_id)
}

/// Parse a reservation rejection; the whole input must be canonical.
pub fn parse_order_rejected(s: &Vec<u8>) -> (r: Option<OrderRejectedEvent>)
    ensures
        r matches Some(ev) ==> s@ == spec_order_id_json(ev.order_id as int),
        forall|id: i32|
            s@ == spec_order_id_json(id as int) ==> (r matches Some(ev) && ev.order_id == id),
{
    match parse_order_id_json(s) {
        Some(id) => Some(OrderRejectedEvent { order_id: id }),
        None => None,
    }
}

/// Encode a delivery request.
pub fn encode_delivery_order_success(ev: &DeliveryOrderSuccessEvent) -> (r: Vec<u8>)
    ensures
        r@ == spec_order_id_json(ev.order_id as int),
{
    encode_order_id_event(ev.order_id)
}

/// Parse a delivery request; the whole input must be canonical.
pub fn parse_delivery_order_success(s: &Vec<u8>) -> (r: Option<DeliveryOrderSuccessEvent>)
    ensures
        r matches Some(ev) ==> s@ == spec_order_id_json(ev.order_id as int),
        forall|id: i32|
            s@ == spec_order_id_json(id as int) ==> (r matches Some(ev) && ev.order_id == id),
{
    match parse_order_id_json(s) {
        Some(id) => Some(DeliveryOrderSuccessEvent { order_id: id }),
        None => None,
    }
}

/// Encode a pay request; refused only when the provider needs escaping.
pub fn encode_pay_request(ev: &OrderPayRequestEvent) -> (r: Option<Vec<u8>>)
    ensures
        r is Some <==> json_safe(ev.provider@),
        r matches Some(v) ==> v@ == spec_pay_json(
            ev.payment_id as int,
            ev.order_id as int,
            ev.amount as int,
            ev.provider@,
        ),
{
    encode_pay_event(ev.payment_id, ev.order_id, ev.amount, &ev.provider)
}

/// Parse a pay request; the whole input must be canonical.
pub fn parse_pay_request(s: &Vec<u8>) -> (r: Option<OrderPayRequestEvent>)
    ensures
        r matches Some(ev) ==> json_safe(ev.provider@) && s@ == spec_pay_json(
            ev.payment_id as int,
            ev.order_id as int,
            ev.amount as int,
            ev.provider@,
        ),
        forall|pid: u128, oid: i32, amt: u64, prov: Seq<char>|
            json_safe(prov) && s@ == spec_pay_json(pid as int, oid as int, amt as int, prov)
                ==> (r matches Some(ev) && ev.payment_id == pid && ev.order_id == oid
                && ev.amount == amt && ev.provider@ == prov),
{
    match parse_pay_json(s) {
        Some((payment_id, order_id, amount, provider)) => Some(
            OrderPayRequestEvent { payment_id, order_id, amount, provider },
        ),
        None => None,
    }
}

/// Encode a payment confirmation; refused only when the provider needs
/// escaping.
pub fn encode_payment_success(ev: &OrderPaymentSuccessEvent) -> (r: Option<Vec<u8>>)
    ensures
        r is Some <==> json_safe(ev.provider@),
        r matches Some(v) ==> v@ == spec_pay_json(
            ev.payment_id as int,
            ev.order_id as int,
            ev.amount as int,
            ev.provider@,
        ),
{
    encode_pay_event(ev.payment_id, ev.order_id, ev.amount, &ev.provider)
}

/// Parse a payment confirmation; the whole input must be canonical.
pub fn parse_payment_success(s: &Vec<u8>) -> (r: Option<OrderPaymentSuccessEvent>)
    ensures
        r matches Some(ev) ==> json_safe(ev.provider@) && s@ == spec_pay_json(
            ev.payment_id as int,
            ev.order_id as int,
            ev.amount as int,
            ev.provider@,
        ),
        forall|pid: u128, oid: i32, amt: u64, prov: Seq<char>|
            json_safe(prov) && s@ == spec_pay_json(pid as int, oid as int, amt as int, prov)
                ==> (r matches Some(ev) && ev.payment_id == pid && ev.order_id == oid
                && ev.amount == amt && ev.provider@ == prov),
{
    match parse_pay_json(s) {
        Some((payment_id, order_id, amount, provider)) => Some(
            OrderPaymentSuccessEvent { payment_id, order_id, amount, provider },
        ),
        None => None,
    }
}

} // verus!
