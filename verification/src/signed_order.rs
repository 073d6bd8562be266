//! Canonical byte layout of orders for signing, and an append-only,
//! hash-chained audit log of order lifecycle events.
//!
//! Digests are 32-byte values computed by the caller (SHA-256 of the
//! canonical bytes); this module fixes what is hashed and how the chain of
//! event heads is linked and checked.

use vstd::prelude::*;
use vstd::utf8::encode_utf8;

verus! {

/// Buy or sell side of an order.
#[derive(Debug, Clone, Copy, PartialEq, Eq, Structural, Hash)]
pub enum OrderSide {
    Buy,
    Sell,
}

/// Byte tag of a side.
pub open spec fn side_tag(side: OrderSide) -> u8 {
    match side {
        OrderSide::Buy => 1,
        OrderSide::Sell => 2,
    }
}

impl OrderSide {
    /// Raw byte tag used inside the canonical payload.
    pub fn tag(self) -> (t: u8)
        ensures
            t == side_tag(self),
    {
        match self {
            OrderSide::Buy => 1,
            OrderSide::Sell => 2,
        }
    }
}

/// Little-endian bytes of `x`.
pub open spec fn le_bytes(x: u64) -> Seq<u8> {
    seq![
        x as u8,
        (x >> 8u64) as u8,
        (x >> 16u64) as u8,
        (x >> 24u64) as u8,
        (x >> 32u64) as u8,
        (x >> 40u64) as u8,
        (x >> 48u64) as u8,
        (x >> 56u64) as u8,
    ]
}

/// `b` preceded by its length as eight little-endian bytes.
pub open spec fn len_prefixed(b: Seq<u8>) -> Seq<u8> {
    le_bytes(b.len() as u64) + b
}

/// Append the little-endian bytes of `x` to `buf`.
fn push_u64_le(buf: &mut Vec<u8>, x: u64)
    ensures
        final(buf)@ == old(buf)@ + le_bytes(x),
{
    buf.push(#[verifier::truncate] (x as u8));
    buf.push(#[verifier::truncate] ((x >> 8u64) as u8));
    buf.push(#[verifier::truncate] ((x >> 16u64) as u8));
    buf.push(#[verifier::truncate] ((x >> 24u64) as u8));
    buf.push(#[verifier::truncate] ((x >> 32u64) as u8));
    buf.push(#[verifier::truncate] ((x >> 40u64) as u8));
    buf.push(#[verifier::truncate] ((x >> 48u64) as u8));
    buf.push(#[verifier::truncate] ((x >> 56u64) as u8));
    proof {
        assert(final(buf)@ =~= old(buf)@ + le_bytes(x));
    }
}

/// Append `bytes` to `buf`.
pub(crate) fn push_bytes(buf: &mut Vec<u8>, bytes: &[u8])
    ensures
        final(buf)@ == old(buf)@ + bytes@,
{
    let ghost start = buf@;
    let mut i: usize = 0;
    while i < bytes.len()
        invariant
            0 <= i <= bytes@.len(),
            buf@ == start + bytes@.take(i as int),
        decreases bytes@.len() - i,
    {
        buf.push(bytes[i]);
        i = i + 1;
        proof {
            assert(buf@ =~= start + bytes@.take(i as int));
        }
    }
    proof {
        assert(bytes@.take(i as int) =~= bytes@);
    }
}

/// Append `bytes` preceded by its length.
fn push_len(buf: &mut Vec<u8>, bytes: &[u8])
    ensures
        final(buf)@ == old(buf)@ + len_prefixed(bytes@),
{
    push_u64_le(buf, bytes.len() as u64);
    push_bytes(buf, bytes);
    proof {
        assert(final(buf)@ =~= old(buf)@ + len_prefixed(bytes@));
    }
}

/// Signed-order payload: plain data without cryptographic material.
#[derive(Debug, Clone)]
pub struct OrderPayload {
    pub order_id: u64,
    pub trader_id: String,
    pub instrument: String,
    pub side: OrderSide,
    pub quantity: u64,
    pub limit_price_micros: u64,
    pub timestamp_unix: u64,
    pub venue: String,
}

/// UTF-8 bytes of a string.
pub open spec fn utf8(s: &String) -> Seq<u8> {
    encode_utf8(s@)
}

/// The canonical byte layout of a payload: order id, trader id, instrument,
/// side tag, quantity, limit price, timestamp, venue; integers as eight
/// little-endian bytes, strings as UTF-8 preceded by their byte length.
pub open spec fn payload_bytes(p: OrderPayload) -> Seq<u8> {
    le_bytes(p.order_id) + len_prefixed(utf8(&p.trader_id)) + len_prefixed(utf8(&p.instrument))
        + seq![side_tag(p.side)] + le_bytes(p.quantity) + le_bytes(p.limit_price_micros) + le_bytes(
        p.timestamp_unix,
    ) + len_prefixed(utf8(&p.venue))
}

impl OrderPayload {
    /// Canonical byte serialisation used for hashing and signing.
    pub fn canonical_bytes(&self) -> (b: Vec<u8>)
        ensures
            b@ == payload_bytes(*self),
    {
        let mut buf: Vec<u8> = Vec::new();
        push_u64_le(&mut buf, self.order_id);
        push_len(&mut buf, self.trader_id.as_str().as_bytes());
        push_len(&mut buf, self.instrument.as_str().as_bytes());
        buf.push(self.side.tag());
        push_u64_le(&mut buf, self.quantity);
        push_u64_le(&mut buf, self.limit_price_micros);
        push_u64_le(&mut buf, self.timestamp_unix);
        push_len(&mut buf, self.venue.as_str().as_bytes());
        proof {
            assert(buf@ =~= payload_bytes(*self));
        }
        buf
    }
}

/// Regulatory audit event categories.
#[non_exhaustive]
#[derive(Debug, Clone, Copy, PartialEq, Eq, Structural, Hash)]
pub enum AuditEventKind {
    OrderAccepted,
    OrderRejected,
    OrderPartiallyFilled,
    OrderFullyFilled,
    OrderCancelled,
    OrderExpired,
}

/// Byte tag of an event kind.
pub open spec fn kind_tag(kind: AuditEventKind) -> u8 {
    match kind {
        AuditEventKind::OrderAccepted => 1,
        AuditEventKind::OrderRejected => 2,
        AuditEventKind::OrderPartiallyFilled => 3,
        AuditEventKind::OrderFullyFilled => 4,
        AuditEventKind::OrderCancelled => 5,
        AuditEventKind::OrderExpired => 6,
    }
}

impl AuditEventKind {
    /// Byte tag used inside canonical byte layouts.
    pub fn tag(self) -> (t: u8)
        ensures
            t == kind_tag(self),
    {
        match self {
            AuditEventKind::OrderAccepted => 1,
            AuditEventKind::OrderRejected => 2,
            AuditEventKind::OrderPartiallyFilled => 3,
            AuditEventKind::OrderFullyFilled => 4,
            AuditEventKind::OrderCancelled => 5,
            AuditEventKind::OrderExpired => 6,
        }
    }
}

/// One entry of an [`OrderAuditLog`].
#[derive(Debug, Clone)]
pub struct AuditEvent {
    pub sequence: u64,
    pub kind: AuditEventKind,
    pub order_digest: [u8; 32],
    pub prev_hash: [u8; 32],
    pub timestamp_unix: u64,
}

/// The canonical layout of an event, whose digest is the event's head:
/// sequence, kind tag, order digest, previous head, timestamp.
pub open spec fn event_bytes(e: AuditEvent) -> Seq<u8> {
    le_bytes(e.sequence) + seq![kind_tag(e.kind)] + e.order_digest@ + e.prev_hash@ + le_bytes(
        e.timestamp_unix,
    )
}

impl AuditEvent {
    /// Canonical bytes of this event; its head is their SHA-256 digest.
    pub fn canonical_bytes(&self) -> (b: Vec<u8>)
        ensures
            b@ == event_bytes(*self),
            b@.len() == 81,
    {
        let mut buf: Vec<u8> = Vec::new();
        push_u64_le(&mut buf, self.sequence);
        buf.push(self.kind.tag());
        push_bytes(&mut buf, self.order_digest.as_slice());
        push_bytes(&mut buf, self.prev_hash.as_slice());
        push_u64_le(&mut buf, self.timestamp_unix);
        proof {
            assert(buf@ =~= event_bytes(*self));
        }
        buf
    }
}

/// The all-zero digest that precedes the first event.
pub open spec fn zero_digest() -> Seq<u8> {
    Seq::new(32, |i: int| 0u8)
}

/// `events` form a chain: each event records the head of the one before it
/// (the zero digest for the first), where `heads[i]` is the head of
/// `events[i]`, and `head` is the head of the last event (zero if none).
pub open spec fn chain_links(
    events: Seq<AuditEvent>,
    heads: Seq<Seq<u8>>,
    head: Seq<u8>,
) -> bool {
    &&& forall|i: int|
        0 <= i < events.len() ==> (#[trigger] events[i]).prev_hash@ == (if i == 0 {
            zero_digest()
        } else {
            heads[i - 1]
        })
    &&& head == (if events.len() == 0 {
        zero_digest()
    } else {
        heads[events.len() - 1]
    })
}

/// Append-only hash chain of order lifecycle events.
#[derive(Debug, Clone)]
pub struct OrderAuditLog {
    events: Vec<AuditEvent>,
    head: [u8; 32],
}

/// Byte-wise equality of two digests.
fn digest_eq(a: &[u8; 32], b: &[u8; 32]) -> (r: bool)
    ensures
        r == (a@ == b@),
{
    let mut i: usize = 0;
    while i < 32
        invariant
            0 <= i <= 32,
            a@.len() == 32,
            b@.len() == 32,
            forall|k: int| 0 <= k < i ==> a@[k] == b@[k],
        decreases 32 - i,
    {
        if a[i] != b[i] {
            return false;
        }
        i = i + 1;
    }
    proof {
        assert(a@ =~= b@);
    }
    true
}

impl OrderAuditLog {
    /// The events, in insertion order.
    pub closed spec fn event_seq(&self) -> Seq<AuditEvent> {
        self.events@
    }

    /// The current head digest.
    pub closed spec fn head_digest(&self) -> Seq<u8> {
        self.head@
    }

    /// Empty log, whose head is the zero digest.
    pub fn new() -> (l: Self)
        ensures
            l.event_seq() == Seq::<AuditEvent>::empty(),
            l.head_digest() == zero_digest(),
    {
        let l = OrderAuditLog { events: Vec::new(), head: [0u8; 32] };
        proof {
            assert(l.head@ =~= zero_digest());
        }
        l
    }

    /// The current head digest.
    pub fn head(&self) -> (h: [u8; 32])
        ensures
            h@ == self.head_digest(),
    {
        self.head
    }

    /// All events, in insertion order.
    pub fn events(&self) -> (e: &[AuditEvent])
        ensures
            e@ == self.event_seq(),
    {
        self.events.as_slice()
    }

    /// The event that appending an outcome of kind `kind` for the order
    /// with digest `order_digest` at `timestamp_unix` records: the next
    /// sequence number, linked to the current head.
    pub fn next_event(&self, kind: AuditEventKind, order_digest: [u8; 32], timestamp_unix: u64) -> (e:
        AuditEvent)
        requires
            self.event_seq().len() <= u64::MAX,
        ensures
            e == (AuditEvent {
                sequence: self.event_seq().len() as u64,
                kind,
                order_digest,
                prev_hash: e.prev_hash,
                timestamp_unix,
            }),
            e.prev_hash@ == self.head_digest(),
    {
        AuditEvent {
            sequence: self.events.len() as u64,
            kind,
            order_digest,
            prev_hash: self.head,
            timestamp_unix,
        }
    }

    /// Append `event`, whose head digest is `event_head`; the log's head
    /// becomes `event_head`.
    pub fn push_event(&mut self, event: AuditEvent, event_head: [u8; 32])
        ensures
            final(self).event_seq() == old(self).event_seq().push(event),
            final(self).head_digest() == event_head@,
    {
        self.head = event_head;
        self.events.push(event);
    }

    /// Check the chain given the recomputed head digest of every event
    /// (`heads[i]` of `events()[i]`).
    pub fn verify_with_heads(&self, heads: &[[u8; 32]]) -> (ok: bool)
        requires
            heads@.len() == self.event_seq().len(),
        ensures
            ok == chain_links(
                self.event_seq(),
                Seq::new(heads@.len(), |i: int| heads@[i]@),
                self.head_digest(),
            ),
    {
        let ghost hs = Seq::new(heads@.len(), |i: int| heads@[i]@);
        let mut prev: [u8; 32] = [0u8; 32];
        let mut i: usize = 0;
        proof {
            assert(prev@ =~= zero_digest());
        }
        while i < self.events.len()
            invariant
                0 <= i <= self.events@.len(),
                heads@.len() == self.events@.len(),
                hs == Seq::new(heads@.len(), |i: int| heads@[i]@),
                prev@ == (if i == 0 {
                    zero_digest()
                } else {
                    hs[i - 1]
                }),
                forall|k: int|
                    0 <= k < i ==> (#[trigger] self.events@[k]).prev_hash@ == (if k == 0 {
                        zero_digest()
                    } else {
                        hs[k - 1]
                    }),
            decreases self.events@.len() - i,
        {
            if !digest_eq(&self.events[i].prev_hash, &prev) {
                return false;
            }
            prev = heads[i];
            i = i + 1;
        }
        digest_eq(&prev, &self.head)
    }
}

impl Default for OrderAuditLog {
    fn default() -> (l: Self)
        ensures
            l.event_seq() == Seq::<AuditEvent>::empty(),
            l.head_digest() == zero_digest(),
    {
        OrderAuditLog::new()
    }
}

/// Appending the next event, linked to the current head, with its head
/// keeps a valid chain valid and an invalid chain invalid.
pub proof fn law_append_keeps_chain(
    events: Seq<AuditEvent>,
    heads: Seq<Seq<u8>>,
    head: Seq<u8>,
    e: AuditEvent,
    h: Seq<u8>,
)
    requires
        heads.len() == events.len(),
        e.prev_hash@ == head,
    ensures
        chain_links(events.push(e), heads.push(h), h) == chain_links(events, heads, head),
{
    let ev2 = events.push(e);
    let hs2 = heads.push(h);
    let n = events.len() as int;
    assert(ev2[n] == e);
    if chain_links(events, heads, head) {
        assert forall|i: int| 0 <= i < ev2.len() implies (#[trigger] ev2[i]).prev_hash@ == (if i
            == 0 {
            zero_digest()
        } else {
            hs2[i - 1]
        }) by {
            if i < n {
                assert(ev2[i] == events[i]);
            }
        }
    }
    if chain_links(ev2, hs2, h) {
        assert forall|i: int| 0 <= i < events.len() implies (#[trigger] events[i]).prev_hash@ == (
        if i == 0 {
            zero_digest()
        } else {
            heads[i - 1]
        }) by {
            assert(ev2[i] == events[i]);
            if i > 0 {
                assert(hs2[i - 1] == heads[i - 1]);
            }
        }
        assert(ev2[n].prev_hash@ == (if n == 0 {
            zero_digest()
        } else {
            hs2[n - 1]
        }));
        if n > 0 {
            assert(hs2[n - 1] == heads[n - 1]);
        }
    }
}

/// Eight little-endian bytes determine the integer.
proof fn lemma_le_bytes_injective(x: u64, y: u64)
    requires
        le_bytes(x) == le_bytes(y),
    ensures
        x == y,
{
    let a = le_bytes(x);
    let b = le_bytes(y);
    assert(a[0] == b[0] && a[1] == b[1] && a[2] == b[2] && a[3] == b[3]);
    assert(a[4] == b[4] && a[5] == b[5] && a[6] == b[6] && a[7] == b[7]);
    assert(x == y) by (bit_vector)
        requires
            x as u8 == y as u8,
            (x >> 8u64) as u8 == (y >> 8u64) as u8,
            (x >> 16u64) as u8 == (y >> 16u64) as u8,
            (x >> 24u64) as u8 == (y >> 24u64) as u8,
            (x >> 32u64) as u8 == (y >> 32u64) as u8,
            (x >> 40u64) as u8 == (y >> 40u64) as u8,
            (x >> 48u64) as u8 == (y >> 48u64) as u8,
            (x >> 56u64) as u8 == (y >> 56u64) as u8,
    ;
}

/// Equal concatenations with equal-length heads have equal heads and tails.
proof fn lemma_split_eq(a: Seq<u8>, r1: Seq<u8>, b: Seq<u8>, r2: Seq<u8>)
    requires
        a + r1 == b + r2,
        a.len() == b.len(),
    ensures
        a == b,
        r1 == r2,
{
    assert(a =~= (a + r1).take(a.len() as int));
    assert(b =~= (b + r2).take(b.len() as int));
    assert(r1 =~= (a + r1).skip(a.len() as int));
    assert(r2 =~= (b + r2).skip(b.len() as int));
}

/// Peel an integer off the front of two equal byte strings.
proof fn lemma_peel_u64(x: u64, r1: Seq<u8>, y: u64, r2: Seq<u8>)
    requires
        le_bytes(x) + r1 == le_bytes(y) + r2,
    ensures
        x == y,
        r1 == r2,
{
    lemma_split_eq(le_bytes(x), r1, le_bytes(y), r2);
    lemma_le_bytes_injective(x, y);
}

/// Peel a length-prefixed string off the front of two equal byte strings.
proof fn lemma_peel_len_prefixed(s: Seq<u8>, r1: Seq<u8>, t: Seq<u8>, r2: Seq<u8>)
    requires
        len_prefixed(s) + r1 == len_prefixed(t) + r2,
        s.len() <= u64::MAX,
        t.len() <= u64::MAX,
    ensures
        s == t,
        r1 == r2,
{
    assert(len_prefixed(s) + r1 =~= le_bytes(s.len() as u64) + (s + r1));
    assert(len_prefixed(t) + r2 =~= le_bytes(t.len() as u64) + (t + r2));
    lemma_peel_u64(s.len() as u64, s + r1, t.len() as u64, t + r2);
    lemma_split_eq(s, r1, t, r2);
}

/// The bytes of a payload after its identifier, field by field.
spec fn after_id(p: OrderPayload) -> Seq<u8> {
    len_prefixed(utf8(&p.trader_id)) + after_trader(p)
}

/// The bytes of a payload after the trader identifier.
spec fn after_trader(p: OrderPayload) -> Seq<u8> {
    len_prefixed(utf8(&p.instrument)) + after_instrument(p)
}

/// The bytes of a payload after the instrument.
spec fn after_instrument(p: OrderPayload) -> Seq<u8> {
    seq![side_tag(p.side)] + after_side(p)
}

/// The bytes of a payload after the side tag.
spec fn after_side(p: OrderPayload) -> Seq<u8> {
    le_bytes(p.quantity) + after_quantity(p)
}

/// The bytes of a payload after the quantity.
spec fn after_quantity(p: OrderPayload) -> Seq<u8> {
    le_bytes(p.limit_price_micros) + after_price(p)
}

/// The bytes of a payload after the limit price.
spec fn after_price(p: OrderPayload) -> Seq<u8> {
    le_bytes(p.timestamp_unix) + len_prefixed(utf8(&p.venue))
}

/// A payload's bytes, split after its identifier.
proof fn lemma_payload_fields(p: OrderPayload)
    ensures
        payload_bytes(p) == le_bytes(p.order_id) + after_id(p),
{
    assert(payload_bytes(p) =~= le_bytes(p.order_id) + after_id(p));
}

/// The canonical bytes of a payload determine it: two payloads (with
/// strings shorter than `2^64` bytes) that serialise alike are alike, so
/// any change to a signed field changes what is signed.
pub proof fn law_payload_bytes_determine_payload(p: OrderPayload, q: OrderPayload)
    requires
        payload_bytes(p) == payload_bytes(q),
        utf8(&p.trader_id).len() <= u64::MAX,
        utf8(&p.instrument).len() <= u64::MAX,
        utf8(&p.venue).len() <= u64::MAX,
        utf8(&q.trader_id).len() <= u64::MAX,
        utf8(&q.instrument).len() <= u64::MAX,
        utf8(&q.venue).len() <= u64::MAX,
    ensures
        p.order_id == q.order_id,
        p.trader_id@ == q.trader_id@,
        p.instrument@ == q.instrument@,
        p.side == q.side,
        p.quantity == q.quantity,
        p.limit_price_micros == q.limit_price_micros,
        p.timestamp_unix == q.timestamp_unix,
        p.venue@ == q.venue@,
{
    lemma_payload_fields(p);
    lemma_payload_fields(q);
    lemma_peel_u64(p.order_id, after_id(p), q.order_id, after_id(q));
    lemma_peel_len_prefixed(utf8(&p.trader_id), after_trader(p), utf8(&q.trader_id), after_trader(q));
    lemma_peel_len_prefixed(
        utf8(&p.instrument),
        after_instrument(p),
        utf8(&q.instrument),
        after_instrument(q),
    );
    lemma_split_eq(seq![side_tag(p.side)], after_side(p), seq![side_tag(q.side)], after_side(q));
    assert(side_tag(p.side) == seq![side_tag(p.side)][0]);
    lemma_peel_u64(p.quantity, after_quantity(p), q.quantity, after_quantity(q));
    lemma_peel_u64(p.limit_price_micros, after_price(p), q.limit_price_micros, after_price(q));
    lemma_peel_u64(
        p.timestamp_unix,
        len_prefixed(utf8(&p.venue)),
        q.timestamp_unix,
        len_prefixed(utf8(&q.venue)),
    );
    assert(len_prefixed(utf8(&p.venue)) + Seq::<u8>::empty() =~= len_prefixed(utf8(&p.venue)));
    assert(len_prefixed(utf8(&q.venue)) + Seq::<u8>::empty() =~= len_prefixed(utf8(&q.venue)));
    lemma_peel_len_prefixed(utf8(&p.venue), Seq::empty(), utf8(&q.venue), Seq::empty());
    vstd::utf8::encode_utf8_decode_utf8(p.trader_id@);
    vstd::utf8::encode_utf8_decode_utf8(q.trader_id@);
    vstd::utf8::encode_utf8_decode_utf8(p.instrument@);
    vstd::utf8::encode_utf8_decode_utf8(q.instrument@);
    vstd::utf8::encode_utf8_decode_utf8(p.venue@);
    vstd::utf8::encode_utf8_decode_utf8(q.venue@);
}

/// The canonical bytes of a payload, as held in memory, determine it: two
/// payloads whose canonical bytes are one buffer's contents are alike.
pub proof fn law_canonical_bytes_determine_payload(p: OrderPayload, q: OrderPayload, bytes: Vec<u8>)
    requires
        bytes@ == payload_bytes(p),
        bytes@ == payload_bytes(q),
    ensures
        p.order_id == q.order_id,
        p.trader_id@ == q.trader_id@,
        p.instrument@ == q.instrument@,
        p.side == q.side,
        p.quantity == q.quantity,
        p.limit_price_micros == q.limit_price_micros,
        p.timestamp_unix == q.timestamp_unix,
        p.venue@ == q.venue@,
{
    assert(bytes@.len() == bytes.len());
    assert(payload_bytes(p).len() == 57 + utf8(&p.trader_id).len() + utf8(&p.instrument).len()
        + utf8(&p.venue).len());
    assert(payload_bytes(q).len() == 57 + utf8(&q.trader_id).len() + utf8(&q.instrument).len()
        + utf8(&q.venue).len());
    law_payload_bytes_determine_payload(p, q);
}

/// The canonical bytes of an audit event determine it, so altering any
/// recorded field of an event changes the bytes its head is taken over.
pub proof fn law_event_bytes_determine_event(e: AuditEvent, f: AuditEvent)
    requires
        event_bytes(e) == event_bytes(f),
    ensures
        e.sequence == f.sequence,
        e.kind == f.kind,
        e.order_digest@ == f.order_digest@,
        e.prev_hash@ == f.prev_hash@,
        e.timestamp_unix == f.timestamp_unix,
{
    let rest = |x: AuditEvent| x.order_digest@ + (x.prev_hash@ + le_bytes(x.timestamp_unix));
    assert(event_bytes(e) =~= le_bytes(e.sequence) + (seq![kind_tag(e.kind)] + rest(e)));
    assert(event_bytes(f) =~= le_bytes(f.sequence) + (seq![kind_tag(f.kind)] + rest(f)));
    lemma_peel_u64(e.sequence, seq![kind_tag(e.kind)] + rest(e), f.sequence, seq![kind_tag(f.kind)] + rest(f));
    lemma_split_eq(seq![kind_tag(e.kind)], rest(e), seq![kind_tag(f.kind)], rest(f));
    assert(kind_tag(e.kind) == seq![kind_tag(e.kind)][0]);
    lemma_split_eq(
        e.order_digest@,
        e.prev_hash@ + le_bytes(e.timestamp_unix),
        f.order_digest@,
        f.prev_hash@ + le_bytes(f.timestamp_unix),
    );
    lemma_split_eq(e.prev_hash@, le_bytes(e.timestamp_unix), f.prev_hash@, le_bytes(f.timestamp_unix));
    assert(le_bytes(e.timestamp_unix) + Seq::<u8>::empty() =~= le_bytes(e.timestamp_unix));
    assert(le_bytes(f.timestamp_unix) + Seq::<u8>::empty() =~= le_bytes(f.timestamp_unix));
    lemma_peel_u64(e.timestamp_unix, Seq::empty(), f.timestamp_unix, Seq::empty());
}

} // verus!
