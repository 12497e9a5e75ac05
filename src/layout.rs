//! The packed batch format: what a batch of events encodes to, and what a
//! byte sequence decodes to.
//!
//! A batch is a 4-byte record count followed by the records back to back.
//! A record is an 8-byte timestamp, a 2-byte payload length, the payload and,
//! under [`LayoutPolicy::Aligned4`], zero padding up to the next multiple of
//! four bytes. Multi-byte fields are little-endian, the byte order of every
//! target the format is exchanged on. Because the count header is itself four
//! bytes long, rounding a record's size up to a multiple of four keeps every
//! record start at a multiple of four from the batch base.
use vstd::bytes::*;
use vstd::prelude::*;

verus! {

/// Size of the record count at the start of a batch.
pub const HEADER_SIZE: usize = 4;

/// Size of the fixed part of a record: timestamp and payload length.
pub const RECORD_HEADER_SIZE: usize = 10;

/// The largest payload a single record can carry.
pub const MAX_PAYLOAD: usize = 65535;

/// The padding rule between records, fixed per deployment target.
#[derive(Clone, Copy, Debug, PartialEq, Eq, Structural)]
pub enum LayoutPolicy {
    /// No padding: the next record starts right after this record's payload.
    Packed,
    /// Each record is padded so that the next one starts at a multiple of four.
    Aligned4,
}

/// One event: a timestamp and its payload bytes.
pub type Event = (u64, Seq<u8>);

pub open spec fn align_up4(n: int) -> int {
    (n + 3) / 4 * 4
}

/// Number of bytes one record with a payload of `payload_len` bytes takes.
pub open spec fn record_size(payload_len: int, policy: LayoutPolicy) -> int {
    match policy {
        LayoutPolicy::Packed => 10 + payload_len,
        LayoutPolicy::Aligned4 => align_up4(10 + payload_len),
    }
}

pub open spec fn zeros(n: int) -> Seq<u8> {
    Seq::new(n as nat, |i: int| 0u8)
}

/// The bytes of one record.
pub open spec fn encode_record(e: Event, policy: LayoutPolicy) -> Seq<u8> {
    spec_u64_to_le_bytes(e.0) + spec_u16_to_le_bytes(e.1.len() as u16) + e.1 + zeros(
        record_size(e.1.len() as int, policy) - 10 - e.1.len(),
    )
}

/// The bytes of a sequence of records, without the count header.
pub open spec fn encode_records(events: Seq<Event>, policy: LayoutPolicy) -> Seq<u8>
    decreases events.len(),
{
    if events.len() == 0 {
        Seq::empty()
    } else {
        encode_record(events[0], policy) + encode_records(events.skip(1), policy)
    }
}

/// The bytes of a whole batch.
pub open spec fn encode_batch(events: Seq<Event>, policy: LayoutPolicy) -> Seq<u8> {
    spec_u32_to_le_bytes(events.len() as u32) + encode_records(events, policy)
}

/// Events that fit the format: a count that fits the header and payloads
/// that fit the length field.
pub open spec fn valid_events(events: Seq<Event>) -> bool {
    &&& events.len() <= u32::MAX
    &&& forall|i: int| 0 <= i < events.len() ==> #[trigger] events[i].1.len() <= MAX_PAYLOAD
}

/// The payload length stored in the record that starts `b`.
pub open spec fn stored_length(b: Seq<u8>) -> int {
    spec_u16_from_le_bytes(b.subrange(8, 10)) as int
}

/// What is left of `b` after a record of `size` bytes at its start; empty
/// when the last record's padding lies beyond the end of `b`.
pub open spec fn after_record(b: Seq<u8>, size: int) -> Seq<u8> {
    if size <= b.len() {
        b.subrange(size, b.len() as int)
    } else {
        Seq::empty()
    }
}

/// The `n` records at the start of `b`, or `None` when a record's header or
/// payload runs past the end of `b`. Padding bytes are not read.
pub open spec fn decode_records(b: Seq<u8>, n: nat, policy: LayoutPolicy) -> Option<Seq<Event>>
    decreases n,
{
    if n == 0 {
        Some(Seq::empty())
    } else if b.len() < 10 || b.len() < 10 + stored_length(b) {
        None
    } else {
        let len = stored_length(b);
        let e: Event = (spec_u64_from_le_bytes(b.subrange(0, 8)), b.subrange(10, 10 + len));
        match decode_records(after_record(b, record_size(len, policy)), (n - 1) as nat, policy) {
            Some(rest) => Some(seq![e] + rest),
            None => None,
        }
    }
}

/// The count stored in the header of a batch.
pub open spec fn stored_count(b: Seq<u8>) -> nat {
    spec_u32_from_le_bytes(b.subrange(0, 4)) as nat
}

/// The events of a batch, or `None` when `b` does not hold a whole batch.
pub open spec fn decode_batch(b: Seq<u8>, policy: LayoutPolicy) -> Option<Seq<Event>> {
    if b.len() < 4 {
        None
    } else {
        decode_records(b.subrange(4, b.len() as int), stored_count(b), policy)
    }
}

pub proof fn lemma_record_size_bounds(len: int, policy: LayoutPolicy)
    requires
        0 <= len,
    ensures
        10 + len <= record_size(len, policy) <= 13 + len,
        policy == LayoutPolicy::Aligned4 ==> record_size(len, policy) % 4 == 0,
{
}

pub proof fn lemma_encode_record_len(e: Event, policy: LayoutPolicy)
    requires
        e.1.len() <= MAX_PAYLOAD,
    ensures
        encode_record(e, policy).len() == record_size(e.1.len() as int, policy),
{
    lemma_auto_spec_u64_to_from_le_bytes();
    lemma_auto_spec_u16_to_from_le_bytes();
    lemma_record_size_bounds(e.1.len() as int, policy);
}

/// Appending an event appends its record.
pub proof fn lemma_encode_records_push(events: Seq<Event>, e: Event, policy: LayoutPolicy)
    ensures
        encode_records(events.push(e), policy) == encode_records(events, policy) + encode_record(
            e,
            policy,
        ),
    decreases events.len(),
{
    if events.len() == 0 {
        assert(events.push(e).skip(1) =~= Seq::<Event>::empty());
        assert(events.push(e)[0] == e);
        assert(encode_records(Seq::<Event>::empty(), policy) == Seq::<u8>::empty());
        assert(encode_records(events.push(e), policy) =~= encode_record(e, policy));
    } else {
        lemma_encode_records_push(events.skip(1), e, policy);
        assert(events.push(e).skip(1) =~= events.skip(1).push(e));
        assert(events.push(e)[0] == events[0]);
        assert(encode_records(events.push(e), policy) =~= encode_records(events, policy)
            + encode_record(e, policy));
    }
}

/// Decoding the records of `events`, followed by any bytes, gives back `events`.
pub proof fn lemma_decode_encode_records(events: Seq<Event>, tail: Seq<u8>, policy: LayoutPolicy)
    requires
        forall|i: int| 0 <= i < events.len() ==> #[trigger] events[i].1.len() <= MAX_PAYLOAD,
    ensures
        decode_records(encode_records(events, policy) + tail, events.len(), policy) == Some(
            events,
        ),
    decreases events.len(),
{
    if events.len() > 0 {
        let e = events[0];
        let rest = events.skip(1);
        let rec = encode_record(e, policy);
        let b = encode_records(events, policy) + tail;
        let after = encode_records(rest, policy) + tail;
        assert(e.1.len() <= MAX_PAYLOAD);
        lemma_encode_record_len(e, policy);
        lemma_auto_spec_u64_to_from_le_bytes();
        lemma_auto_spec_u16_to_from_le_bytes();
        assert(b =~= rec + after);
        let len = e.1.len() as int;
        assert(b.subrange(0, 8) =~= spec_u64_to_le_bytes(e.0));
        assert(b.subrange(8, 10) =~= spec_u16_to_le_bytes(e.1.len() as u16));
        assert(stored_length(b) == len);
        assert(b.subrange(10, 10 + len) =~= e.1);
        assert(after_record(b, record_size(len, policy)) =~= after);
        assert forall|i: int| 0 <= i < rest.len() implies #[trigger] rest[i].1.len()
            <= MAX_PAYLOAD by {
            assert(rest[i] == events[i + 1]);
        }
        lemma_decode_encode_records(rest, tail, policy);
        assert(seq![e] + rest =~= events);
    }
}

/// Decoding an encoded batch gives back its events.
pub proof fn lemma_decode_encode_batch(events: Seq<Event>, policy: LayoutPolicy)
    requires
        valid_events(events),
    ensures
        decode_batch(encode_batch(events, policy), policy) == Some(events),
{
    let b = encode_batch(events, policy);
    lemma_auto_spec_u32_to_from_le_bytes();
    assert(b.subrange(0, 4) =~= spec_u32_to_le_bytes(events.len() as u32));
    assert(b.subrange(4, b.len() as int) =~= encode_records(events, policy) + Seq::<u8>::empty());
    lemma_decode_encode_records(events, Seq::empty(), policy);
}

/// A successful decode of `n` records yields exactly `n` events.
pub proof fn lemma_decode_records_len(b: Seq<u8>, n: nat, policy: LayoutPolicy)
    requires
        decode_records(b, n, policy) is Some,
    ensures
        decode_records(b, n, policy)->Some_0.len() == n,
    decreases n,
{
    if n > 0 {
        let len = stored_length(b);
        lemma_decode_records_len(after_record(b, record_size(len, policy)), (n - 1) as nat, policy);
    }
}

/// The count header of an encoded batch is the number of its events.
pub proof fn lemma_count_header(events: Seq<Event>, policy: LayoutPolicy)
    requires
        valid_events(events),
    ensures
        encode_batch(events, policy).len() >= 4,
        stored_count(encode_batch(events, policy)) == events.len(),
{
    lemma_auto_spec_u32_to_from_le_bytes();
    let b = encode_batch(events, policy);
    assert(b.subrange(0, 4) =~= spec_u32_to_le_bytes(events.len() as u32));
}

/// Appending one event to a batch raises its stored count by exactly one.
pub proof fn lemma_push_increments_count(events: Seq<Event>, e: Event, policy: LayoutPolicy)
    requires
        valid_events(events),
        events.len() < u32::MAX,
        e.1.len() <= MAX_PAYLOAD,
    ensures
        stored_count(encode_batch(events.push(e), policy)) == stored_count(
            encode_batch(events, policy),
        ) + 1,
{
    assert forall|i: int| 0 <= i < events.push(e).len() implies #[trigger] events.push(e)[i].1.len()
        <= MAX_PAYLOAD by {
        if i < events.len() {
            assert(events.push(e)[i] == events[i]);
        }
    }
    lemma_count_header(events, policy);
    lemma_count_header(events.push(e), policy);
}

/// Decoding an encoded batch and encoding the result again reproduces the
/// original bytes exactly.
pub proof fn lemma_reencode_identical(events: Seq<Event>, policy: LayoutPolicy)
    requires
        valid_events(events),
    ensures
        decode_batch(encode_batch(events, policy), policy) matches Some(decoded) && encode_batch(
            decoded,
            policy,
        ) == encode_batch(events, policy),
{
    lemma_decode_encode_batch(events, policy);
}

/// Under `Aligned4` the records of any valid sequence take a multiple of
/// four bytes in all.
pub proof fn lemma_aligned_records_len(events: Seq<Event>)
    requires
        forall|i: int| 0 <= i < events.len() ==> #[trigger] events[i].1.len() <= MAX_PAYLOAD,
    ensures
        encode_records(events, LayoutPolicy::Aligned4).len() % 4 == 0,
    decreases events.len(),
{
    if events.len() > 0 {
        let rest = events.skip(1);
        assert forall|i: int| 0 <= i < rest.len() implies #[trigger] rest[i].1.len()
            <= MAX_PAYLOAD by {
            assert(rest[i] == events[i + 1]);
        }
        assert(events[0].1.len() <= MAX_PAYLOAD);
        lemma_encode_record_len(events[0], LayoutPolicy::Aligned4);
        lemma_record_size_bounds(events[0].1.len() as int, LayoutPolicy::Aligned4);
        lemma_aligned_records_len(rest);
    }
}

/// Offset from the batch base at which record `i` of an encoded batch starts.
pub open spec fn record_start(events: Seq<Event>, i: int, policy: LayoutPolicy) -> int {
    4 + encode_records(events.take(i), policy).len() as int
}

/// Where the records of an encoded batch lie: record `i` is encoded at
/// `record_start(events, i, policy)`; under `Aligned4` that offset is a
/// multiple of four, and under `Packed` the next record starts right after
/// this record's payload.
pub proof fn lemma_record_starts(events: Seq<Event>, i: int, policy: LayoutPolicy)
    requires
        valid_events(events),
        0 <= i < events.len(),
    ensures
        policy == LayoutPolicy::Aligned4 ==> record_start(events, i, policy) % 4 == 0,
        policy == LayoutPolicy::Packed ==> record_start(events, i + 1, policy) == record_start(
            events,
            i,
            policy,
        ) + 10 + events[i].1.len(),
        encode_batch(events, policy).subrange(
            record_start(events, i, policy),
            record_start(events, i, policy) + 10 + events[i].1.len(),
        ) == spec_u64_to_le_bytes(events[i].0) + spec_u16_to_le_bytes(events[i].1.len() as u16)
            + events[i].1,
{
    let pre = events.take(i);
    let next = events.take(i + 1);
    let e = events[i];
    assert(next =~= pre.push(e));
    lemma_encode_records_push(pre, e, policy);
    assert(e.1.len() <= MAX_PAYLOAD);
    lemma_encode_record_len(e, policy);
    lemma_auto_spec_u64_to_from_le_bytes();
    lemma_auto_spec_u16_to_from_le_bytes();
    lemma_auto_spec_u32_to_from_le_bytes();
    if policy == LayoutPolicy::Aligned4 {
        assert forall|j: int| 0 <= j < pre.len() implies #[trigger] pre[j].1.len()
            <= MAX_PAYLOAD by {
            assert(pre[j] == events[j]);
        }
        lemma_aligned_records_len(pre);
    }
    let rest = events.skip(i + 1);
    assert(events =~= next + rest);
    lemma_encode_records_append(next, rest, policy);
    let start = record_start(events, i, policy);
    let whole = encode_batch(events, policy);
    let rec = encode_record(e, policy);
    assert(whole =~= spec_u32_to_le_bytes(events.len() as u32) + encode_records(pre, policy) + rec
        + encode_records(rest, policy));
    assert(whole.subrange(start, start + 10 + e.1.len()) =~= rec.subrange(0, 10 + e.1.len() as int));
    assert(rec.subrange(0, 10 + e.1.len() as int) =~= spec_u64_to_le_bytes(e.0) + spec_u16_to_le_bytes(
        e.1.len() as u16,
    ) + e.1);
}

/// Encoding distributes over concatenation.
pub proof fn lemma_encode_records_append(a: Seq<Event>, b: Seq<Event>, policy: LayoutPolicy)
    ensures
        encode_records(a + b, policy) == encode_records(a, policy) + encode_records(b, policy),
    decreases a.len(),
{
    if a.len() == 0 {
        assert(a + b =~= b);
        assert(encode_records(a, policy) == Seq::<u8>::empty());
        assert(encode_records(b, policy) =~= Seq::<u8>::empty() + encode_records(b, policy));
    } else {
        lemma_encode_records_append(a.skip(1), b, policy);
        assert((a + b).skip(1) =~= a.skip(1) + b);
        assert((a + b)[0] == a[0]);
        assert(encode_records(a + b, policy) =~= encode_records(a, policy) + encode_records(
            b,
            policy,
        ));
    }
}

} // verus!
