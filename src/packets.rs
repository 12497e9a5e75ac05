//! Building batches and reading them back.
use crate::layout::{
    after_record, decode_batch, decode_records, encode_batch, record_size, stored_count,
    stored_length, valid_events, Event, LayoutPolicy, HEADER_SIZE, MAX_PAYLOAD,
};
use crate::render::{
    hex_digits, push_decimal, push_hex, render_bytes, render_list, render_packet, render_packets,
};
use crate::storage::{DynStorage, FixedStorage, PacketBufferStorage};
use vstd::bytes::*;
use vstd::prelude::*;
use vstd::slice::slice_subrange;
use vstd::string::StringExecFns;

verus! {

/// Why an append failed.
#[derive(Clone, Copy, Debug, PartialEq, Eq, Structural)]
pub enum PacketError {
    /// The storage has no room for the record, or the count header is at its maximum.
    BufferFull,
    /// The payload is longer than a record's length field can state.
    PayloadTooLarge,
}

/// A read-only view of one record: its timestamp and its payload.
#[derive(Clone, Copy)]
pub struct PacketRef<'a> {
    bytes: &'a [u8],
}

/// A read-only view of a whole batch.
#[derive(Clone, Copy)]
pub struct PacketListRef<'a> {
    data: &'a [u8],
    policy: LayoutPolicy,
}

/// Walks the records of a batch, front to back.
pub struct PacketListIterator<'a> {
    data: &'a [u8],
    offset: usize,
    remaining: u32,
    policy: LayoutPolicy,
}

/// Appends records to a batch held in a storage backend.
pub struct PacketBuffer<T> {
    buffer: T,
    policy: LayoutPolicy,
    events: Ghost<Seq<Event>>,
}

/// A batch builder over growable storage.
pub type DynPacketBuffer = PacketBuffer<DynStorage>;

/// A batch builder over a caller-owned region.
pub type FixedPacketBuffer<'a> = PacketBuffer<FixedStorage<'a>>;

/// Number of bytes one record with a `len`-byte payload takes under `policy`.
pub fn packet_size(len: usize, policy: LayoutPolicy) -> (r: usize)
    requires
        len <= MAX_PAYLOAD,
    ensures
        r == record_size(len as int, policy),
{
    match policy {
        LayoutPolicy::Packed => 10 + len,
        LayoutPolicy::Aligned4 => (len + 13) / 4 * 4,
    }
}

/// The payload length of the record at `offset`, or `None` when its header
/// or its payload would run past the end of `data`.
fn record_at(data: &[u8], offset: usize) -> (r: Option<usize>)
    requires
        offset <= data@.len(),
    ensures
        ({
            let b = data@.subrange(offset as int, data@.len() as int);
            &&& r is Some <==> !(b.len() < 10 || b.len() < 10 + stored_length(b))
            &&& r is Some ==> r->Some_0 == stored_length(b)
        }),
{
    if data.len() - offset < 10 {
        return None;
    }
    let field = slice_subrange(data, offset + 8, offset + 10);
    proof {
        let b = data@.subrange(offset as int, data@.len() as int);
        assert(field@ =~= b.subrange(8, 10));
    }
    let len = u16_from_le_bytes(field) as usize;
    if data.len() - offset - 10 < len {
        None
    } else {
        Some(len)
    }
}

/// The offset of the record after the one at `offset`, or the end of `data`
/// when that record's padding reaches past it.
fn offset_after(data: &[u8], offset: usize, len: usize, policy: LayoutPolicy) -> (r: usize)
    requires
        offset + 10 + len <= data@.len(),
        len <= MAX_PAYLOAD,
    ensures
        offset <= r <= data@.len(),
        data@.subrange(r as int, data@.len() as int) == after_record(
            data@.subrange(offset as int, data@.len() as int),
            record_size(len as int, policy),
        ),
{
    let size = packet_size(len, policy);
    let b = Ghost(data@.subrange(offset as int, data@.len() as int));
    if size <= data.len() - offset {
        assert(data@.subrange(offset + size, data@.len() as int) =~= b@.subrange(
            size as int,
            b@.len() as int,
        ));
        offset + size
    } else {
        assert(data@.subrange(data@.len() as int, data@.len() as int) =~= Seq::<u8>::empty());
        data.len()
    }
}

impl<'a> View for PacketRef<'a> {
    type V = Event;

    closed spec fn view(&self) -> Event {
        (
            spec_u64_from_le_bytes(self.bytes@.subrange(0, 8)),
            self.bytes@.subrange(10, self.bytes@.len() as int),
        )
    }
}

impl<'a> PacketRef<'a> {
    #[verifier::type_invariant]
    spec fn wf(&self) -> bool {
        &&& self.bytes@.len() >= 10
        &&& self.bytes@.len() == 10 + stored_length(self.bytes@)
    }

    /// The record's timestamp.
    pub fn timestamp(&self) -> (r: u64)
        ensures
            r == self@.0,
    {
        proof {
            use_type_invariant(self);
        }
        u64_from_le_bytes(slice_subrange(self.bytes, 0, 8))
    }

    /// The number of payload bytes.
    pub fn data_length(&self) -> (r: u16)
        ensures
            r as int == self@.1.len(),
            self@.1.len() <= MAX_PAYLOAD,
    {
        proof {
            use_type_invariant(self);
        }
        u16_from_le_bytes(slice_subrange(self.bytes, 8, 10))
    }

    /// The payload, borrowed from the batch.
    pub fn data(&self) -> (r: &'a [u8])
        ensures
            r@ == self@.1,
    {
        proof {
            use_type_invariant(self);
        }
        slice_subrange(self.bytes, 10, self.bytes.len())
    }

    /// The record as text: the timestamp in sixteen hexadecimal digits, a
    /// colon, then each payload byte as a space and two hexadecimal digits.
    pub fn to_string(&self) -> (r: String)
        ensures
            r@ == render_packet(self@),
    {
        let mut out = String::new();
        push_hex(&mut out, self.timestamp(), 16);
        proof {
            reveal_strlit(":");
        }
        out.append(":");
        let data = self.data();
        let ghost head = out@;
        let mut i: usize = 0;
        while i < data.len()
            invariant
                0 <= i <= data@.len(),
                head == hex_digits(self@.0 as nat, 16) + seq![':'],
                data@ == self@.1,
                out@ == head + render_bytes(data@.take(i as int)),
            decreases data@.len() - i,
        {
            out.append(" ");
            push_hex(&mut out, data[i] as u64, 2);
            proof {
                reveal_strlit(" ");
                assert(" "@ =~= seq![' ']);
                assert(data@.take(i + 1).drop_last() =~= data@.take(i as int));
                assert(data@.take(i + 1).last() == data@[i as int]);
                assert(render_bytes(data@.take(i + 1)) == render_bytes(data@.take(i as int)) + seq![
                    ' ',
                ] + hex_digits(data@[i as int] as nat, 2));
                assert(out@ =~= head + render_bytes(data@.take(i + 1)));
            }
            i = i + 1;
        }
        assert(data@.take(i as int) =~= data@);
        out
    }
}

impl<'a> View for PacketListRef<'a> {
    type V = Seq<Event>;

    closed spec fn view(&self) -> Seq<Event> {
        decode_batch(self.data@, self.policy)->Some_0
    }
}

impl<'a> PacketListRef<'a> {
    #[verifier::type_invariant]
    spec fn wf(&self) -> bool {
        decode_batch(self.data@, self.policy) is Some
    }

    /// The bytes the view reads.
    pub closed spec fn bytes(&self) -> Seq<u8> {
        self.data@
    }

    /// The padding rule the view reads the records with.
    pub closed spec fn layout(&self) -> LayoutPolicy {
        self.policy
    }

    /// A view of `data` read under `policy`, or `None` when `data` does not
    /// hold a whole batch: a count header and that many records whose headers
    /// and payloads all lie within `data`.
    pub fn from_bytes(data: &'a [u8], policy: LayoutPolicy) -> (r: Option<Self>)
        ensures
            r is Some <==> decode_batch(data@, policy) is Some,
            r matches Some(l) ==> {
                &&& l@ == decode_batch(data@, policy)->Some_0
                &&& l.bytes() == data@
                &&& l.layout() == policy
            },
    {
        if data.len() < 4 {
            return None;
        }
        let count = u32_from_le_bytes(slice_subrange(data, 0, 4));
        let ghost whole = data@.subrange(4, data@.len() as int);
        let mut offset: usize = 4;
        let mut k: u32 = 0;
        while k < count
            invariant
                4 <= offset <= data@.len(),
                k <= count,
                count as nat == stored_count(data@),
                whole == data@.subrange(4, data@.len() as int),
                decode_records(whole, count as nat, policy) is Some <==> decode_records(
                    data@.subrange(offset as int, data@.len() as int),
                    (count - k) as nat,
                    policy,
                ) is Some,
            decreases count - k,
        {
            match record_at(data, offset) {
                None => {
                    return None;
                },
                Some(len) => {
                    offset = offset_after(data, offset, len, policy);
                    k = k + 1;
                },
            }
        }
        assert(decode_records(data@.subrange(offset as int, data@.len() as int), 0, policy)
            is Some);
        Some(PacketListRef { data, policy })
    }

    /// The bytes the view reads, borrowed from their owner.
    /// The view's events are what these bytes decode to under its layout.
    pub fn as_bytes(&self) -> (r: &'a [u8])
        ensures
            r@ == self.bytes(),
            decode_batch(r@, self.layout()) == Some(self@),
    {
        proof {
            use_type_invariant(self);
        }
        self.data
    }

    /// The padding rule the view reads the records with; the view's events
    /// are what its bytes decode to under it.
    pub fn policy(&self) -> (r: LayoutPolicy)
        ensures
            r == self.layout(),
            decode_batch(self.bytes(), r) == Some(self@),
    {
        proof {
            use_type_invariant(self);
        }
        self.policy
    }

    /// The number of records, as the count header states it.
    pub fn length(&self) -> (r: u32)
        ensures
            r as int == self@.len(),
    {
        proof {
            use_type_invariant(self);
            crate::layout::lemma_decode_records_len(
                self.data@.subrange(4, self.data@.len() as int),
                stored_count(self.data@),
                self.policy,
            );
        }
        u32_from_le_bytes(slice_subrange(self.data, 0, 4))
    }

    /// The batch as text: `PacketList(len=N)`, then each record on a line
    /// of its own, indented by two spaces.
    pub fn to_string(&self) -> (r: String)
        ensures
            r@ == render_list(self@),
    {
        let mut out = String::new();
        proof {
            reveal_strlit("PacketList(len=");
            reveal_strlit(")");
        }
        out.append("PacketList(len=");
        let n = self.length();
        push_decimal(&mut out, n as u64);
        out.append(")");
        let ghost head = out@;
        let ghost all = self@;
        assert(render_list(all) =~= head + render_packets(all)) by {
            assert("PacketList(len="@ =~= seq![
                'P', 'a', 'c', 'k', 'e', 't', 'L', 'i', 's', 't', '(', 'l', 'e', 'n', '=',
            ]);
            assert(")"@ =~= seq![')']);
        }
        let mut it = self.iter();
        let mut k: u32 = 0;
        while k < n
            invariant
                all == self@,
                n == all.len(),
                k <= n,
                it@ == all.skip(k as int),
                render_list(all) == head + render_packets(all),
                out@ == head + render_packets(all.take(k as int)),
            decreases n - k,
        {
            if let Some(p) = it.next() {
                out.append("\n  ");
                let text = p.to_string();
                out.append(text.as_str());
                proof {
                    reveal_strlit("\n  ");
                    assert("\n  "@ =~= seq!['\n', ' ', ' ']);
                    assert(all.take(k + 1).drop_last() =~= all.take(k as int));
                    assert(all.take(k + 1).last() == all[k as int]);
                    assert(p@ == all[k as int]);
                    assert(render_packets(all.take(k + 1)) == render_packets(all.take(k as int))
                        + seq!['\n', ' ', ' '] + render_packet(all[k as int]));
                    assert(out@ =~= head + render_packets(all.take(k + 1)));
                    assert(all.skip(k as int).skip(1) =~= all.skip(k + 1));
                }
            }
            k = k + 1;
        }
        assert(all.take(n as int) =~= all);
        out
    }

    /// An iterator over the records, from the first on.
    pub fn iter(&self) -> (r: PacketListIterator<'a>)
        ensures
            r@ == self@,
    {
        proof {
            use_type_invariant(self);
        }
        let count = u32_from_le_bytes(slice_subrange(self.data, 0, 4));
        PacketListIterator { data: self.data, offset: 4, remaining: count, policy: self.policy }
    }
}

impl<'a> View for PacketListIterator<'a> {
    type V = Seq<Event>;

    /// The records not yet yielded.
    closed spec fn view(&self) -> Seq<Event> {
        decode_records(
            self.data@.subrange(self.offset as int, self.data@.len() as int),
            self.remaining as nat,
            self.policy,
        )->Some_0
    }
}

impl<'a> PacketListIterator<'a> {
    #[verifier::type_invariant]
    spec fn wf(&self) -> bool {
        &&& self.offset <= self.data@.len()
        &&& decode_records(
            self.data@.subrange(self.offset as int, self.data@.len() as int),
            self.remaining as nat,
            self.policy,
        ) is Some
    }

    /// The next record, or `None` once every record has been yielded.
    pub fn next(&mut self) -> (r: Option<PacketRef<'a>>)
        ensures
            old(self)@.len() == 0 ==> r is None && final(self)@ == old(self)@,
            old(self)@.len() > 0 ==> {
                &&& r matches Some(p) && p@ == old(self)@[0]
                &&& final(self)@ == old(self)@.skip(1)
            },
    {
        proof {
            use_type_invariant(&*self);
            crate::layout::lemma_decode_records_len(
                self.data@.subrange(self.offset as int, self.data@.len() as int),
                self.remaining as nat,
                self.policy,
            );
        }
        if self.remaining == 0 {
            return None;
        }
        let ghost b = self.data@.subrange(self.offset as int, self.data@.len() as int);
        let len = match record_at(self.data, self.offset) {
            Some(len) => len,
            None => {
                return None;
            },
        };
        let total = self.data.len();
        assert(b.len() == total - self.offset);
        let bytes = slice_subrange(self.data, self.offset, self.offset + 10 + len);
        proof {
            assert(bytes@ =~= b.subrange(0, 10 + len));
            assert(bytes@.subrange(8, 10) =~= b.subrange(8, 10));
            assert(bytes@.subrange(0, 8) =~= b.subrange(0, 8));
            assert(bytes@.subrange(10, bytes@.len() as int) =~= b.subrange(10, 10 + len));
        }
        let packet = PacketRef { bytes };
        let next = offset_after(self.data, self.offset, len, self.policy);
        *self = PacketListIterator {
            data: self.data,
            offset: next,
            remaining: self.remaining - 1,
            policy: self.policy,
        };
        proof {
            let rest = decode_records(
                after_record(b, record_size(len as int, old(self).policy)),
                (old(self).remaining - 1) as nat,
                old(self).policy,
            )->Some_0;
            assert(old(self)@.skip(1) =~= rest);
        }
        Some(packet)
    }
}

impl<T> View for PacketBuffer<T> {
    type V = Seq<Event>;

    /// The events appended so far, in order.
    closed spec fn view(&self) -> Seq<Event> {
        self.events@
    }
}

impl<T: PacketBufferStorage> PacketBuffer<T> {
    /// The padding rule the batch is built with.
    pub closed spec fn layout(&self) -> LayoutPolicy {
        self.policy
    }

    /// The storage backend holding the batch.
    pub closed spec fn storage(&self) -> &T {
        &self.buffer
    }

    /// The storage holds exactly the encoding of the events appended so far.
    pub open spec fn wf(&self) -> bool {
        &&& self.storage().inv()
        &&& valid_events(self@)
        &&& self.storage().used_bytes() == encode_batch(self@, self.layout())
    }

    /// A builder over `buffer`, with a zero count header written at its start.
    fn new_with_buf(buffer: T, policy: LayoutPolicy) -> (r: Self)
        requires
            buffer.inv(),
            buffer.used_bytes() == Seq::<u8>::empty(),
            buffer.has_room(4),
        ensures
            r.wf(),
            r@ == Seq::<Event>::empty(),
            r.storage().used_bytes().len() == HEADER_SIZE,
            r.layout() == policy,
            r.storage().capacity() == buffer.capacity(),
            forall|j: int|
                #![trigger r.storage().unused_bytes()[j]]
                0 <= j < r.storage().unused_bytes().len() ==> r.storage().unused_bytes()[j]
                    == buffer.unused_bytes()[j + HEADER_SIZE],
    {
        let mut buffer = buffer;
        let _ = buffer.request(4);
        let zero = u32_to_le_bytes(0);
        buffer.write(0, zero.as_slice());
        proof {
            let ghost empty = Seq::<Event>::empty();
            assert(buffer.used_bytes() =~= spec_u32_to_le_bytes(0));
            assert(encode_batch(empty, policy) =~= spec_u32_to_le_bytes(empty.len() as u32));
        }
        PacketBuffer { buffer, policy, events: Ghost(Seq::empty()) }
    }

    /// The padding rule the batch is built with.
    pub fn policy(&self) -> (r: LayoutPolicy)
        ensures
            r == self.layout(),
    {
        self.policy
    }

    /// The encoded batch as built so far.
    pub fn bytes(&self) -> (r: &[u8])
        requires
            self.wf(),
        ensures
            r@ == encode_batch(self@, self.layout()),
    {
        self.buffer.bytes()
    }

    /// A view of the batch as built so far.
    pub fn as_ref(&self) -> (r: PacketListRef<'_>)
        requires
            self.wf(),
        ensures
            r@ == self@,
            r.bytes() == encode_batch(self@, self.layout()),
            r.layout() == self.layout(),
    {
        proof {
            crate::layout::lemma_decode_encode_batch(self@, self.policy);
        }
        PacketListRef { data: self.buffer.bytes(), policy: self.policy }
    }

    /// Appends one record. Fails with `PayloadTooLarge` when `packet` is longer
    /// than `MAX_PAYLOAD`, and with `BufferFull` when the storage has no room for
    /// the record or the count header cannot grow; a failed append changes
    /// nothing.
    pub fn push_packet(&mut self, timestamp: u64, packet: &[u8]) -> (r: Result<(), PacketError>)
        requires
            old(self).wf(),
        ensures
            final(self).wf(),
            final(self).layout() == old(self).layout(),
            final(self).storage().capacity() == old(self).storage().capacity(),
            packet@.len() > MAX_PAYLOAD ==> r == Err::<(), PacketError>(
                PacketError::PayloadTooLarge,
            ),
            packet@.len() <= MAX_PAYLOAD && (old(self)@.len() == u32::MAX || !old(
                self,
            ).storage().has_room(record_size(packet@.len() as int, old(self).layout()) as nat))
                ==> r == Err::<(), PacketError>(PacketError::BufferFull),
            packet@.len() <= MAX_PAYLOAD && old(self)@.len() < u32::MAX && old(
                self,
            ).storage().has_room(record_size(packet@.len() as int, old(self).layout()) as nat)
                ==> r is Ok,
            r is Ok ==> final(self)@ == old(self)@.push((timestamp, packet@)),
            r is Ok ==> final(self).storage().used_bytes().len() == old(self).storage().used_bytes().len()
                + record_size(packet@.len() as int, old(self).layout()),
            r is Ok ==> forall|j: int|
                #![trigger final(self).storage().unused_bytes()[j]]
                0 <= j < final(self).storage().unused_bytes().len() ==> final(
                    self).storage().unused_bytes()[j] == old(self).storage().unused_bytes()[j
                    + record_size(packet@.len() as int, old(self).layout())],
            r is Err ==> *final(self) == *old(self),
    {
        let ghost old_events = self.events@;
        let ghost policy = self.policy;
        let ghost old_bytes = self.buffer.used_bytes();
        if packet.len() > MAX_PAYLOAD {
            return Err(PacketError::PayloadTooLarge);
        }
        proof {
            lemma_auto_spec_u32_to_from_le_bytes();
        }
        let count = u32_from_le_bytes(slice_subrange(self.buffer.bytes(), 0, 4));
        proof {
            assert(old_bytes.subrange(0, 4) =~= spec_u32_to_le_bytes(old_events.len() as u32));
        }
        if count == u32::MAX {
            return Err(PacketError::BufferFull);
        }
        let size = packet_size(packet.len(), self.policy);
        let start = match self.buffer.request(size) {
            Some(start) => start,
            None => {
                return Err(PacketError::BufferFull);
            },
        };
        let total = self.buffer.bytes().len();
        assert(start + size == total);
        let ghost e: Event = (timestamp, packet@);
        let ghost b1 = self.buffer.used_bytes();
        proof {
            crate::layout::lemma_encode_record_len(e, policy);
            lemma_auto_spec_u64_to_from_le_bytes();
            lemma_auto_spec_u16_to_from_le_bytes();
        }
        let ts_bytes = u64_to_le_bytes(timestamp);
        self.buffer.write(start, ts_bytes.as_slice());
        let ghost b2 = self.buffer.used_bytes();
        let len_bytes = u16_to_le_bytes(packet.len() as u16);
        self.buffer.write(start + 8, len_bytes.as_slice());
        let ghost b3 = self.buffer.used_bytes();
        self.buffer.write(start + 10, packet);
        proof {
            lemma_record_writes(old_bytes, b1, b2, b3, self.buffer.used_bytes(), e, policy);
            crate::layout::lemma_encode_records_push(old_events, e, policy);
        }
        let ghost b4 = self.buffer.used_bytes();
        let count_bytes = u32_to_le_bytes(count + 1);
        self.buffer.write(0, count_bytes.as_slice());
        self.events = Ghost(old_events.push(e));
        proof {
            assert(b4 =~= spec_u32_to_le_bytes(count) + crate::layout::encode_records(
                self.events@,
                policy,
            ));
            assert(self.buffer.used_bytes() =~= encode_batch(self.events@, policy));
            assert forall|i: int| 0 <= i < self.events@.len() implies #[trigger] self.events@[
                i
            ].1.len() <= MAX_PAYLOAD by {
                if i < old_events.len() {
                    assert(self.events@[i] == old_events[i]);
                }
            }
        }
        Ok(())
    }

    /// Appends one record and returns the builder, for chained appends.
    pub fn with_data(self, timestamp: u64, data: Vec<u8>) -> (r: Self)
        requires
            self.wf(),
            data@.len() <= MAX_PAYLOAD,
            self@.len() < u32::MAX,
            self.storage().has_room(record_size(data@.len() as int, self.layout()) as nat),
        ensures
            r.wf(),
            r@ == self@.push((timestamp, data@)),
            r.storage().used_bytes().len() == self.storage().used_bytes().len() + record_size(
                data@.len() as int,
                self.layout(),
            ),
            r.layout() == self.layout(),
            r.storage().capacity() == self.storage().capacity(),
            forall|j: int|
                #![trigger r.storage().unused_bytes()[j]]
                0 <= j < r.storage().unused_bytes().len() ==> r.storage().unused_bytes()[j]
                    == self.storage().unused_bytes()[j + record_size(
                    data@.len() as int,
                    self.layout(),
                )],
    {
        let mut r = self;
        let _ = r.push_packet(timestamp, data.as_slice());
        r
    }
}

impl PacketBuffer<DynStorage> {
    /// An empty batch on growable storage, with the `Packed` layout.
    pub fn new() -> (r: Self)
        ensures
            r.wf(),
            r@ == Seq::<Event>::empty(),
            r.storage().used_bytes().len() == HEADER_SIZE,
            r.layout() == LayoutPolicy::Packed,
            r.storage().capacity() == usize::MAX,
    {
        Self::dynamic()
    }

    /// An empty batch on growable storage, with the `Packed` layout.
    pub fn dynamic() -> (r: Self)
        ensures
            r.wf(),
            r@ == Seq::<Event>::empty(),
            r.storage().used_bytes().len() == HEADER_SIZE,
            r.layout() == LayoutPolicy::Packed,
            r.storage().capacity() == usize::MAX,
    {
        Self::dynamic_with_layout(LayoutPolicy::Packed)
    }

    /// An empty batch on growable storage, built under `policy`.
    pub fn dynamic_with_layout(policy: LayoutPolicy) -> (r: Self)
        ensures
            r.wf(),
            r@ == Seq::<Event>::empty(),
            r.storage().used_bytes().len() == HEADER_SIZE,
            r.layout() == policy,
            r.storage().capacity() == usize::MAX,
    {
        let storage = DynStorage::new();
        PacketBuffer::new_with_buf(storage, policy)
    }
}

impl<'a> PacketBuffer<FixedStorage<'a>> {
    /// An empty batch in the caller's region `data`, with the `Packed` layout.
    pub fn fixed(data: &'a mut [u8]) -> (r: Self)
        requires
            old(data)@.len() >= HEADER_SIZE,
        ensures
            r.wf(),
            r@ == Seq::<Event>::empty(),
            r.storage().used_bytes().len() == HEADER_SIZE,
            r.layout() == LayoutPolicy::Packed,
            r.storage().capacity() == old(data)@.len(),
            r.storage().unused_bytes() == old(data)@.skip(HEADER_SIZE as int),
            r.storage().region() == encode_batch(r@, r.layout()) + old(data)@.skip(
                HEADER_SIZE as int,
            ),
    {
        Self::fixed_with_layout(data, LayoutPolicy::Packed)
    }

    /// An empty batch in the caller's region `data`, built under `policy`.
    pub fn fixed_with_layout(data: &'a mut [u8], policy: LayoutPolicy) -> (r: Self)
        requires
            old(data)@.len() >= HEADER_SIZE,
        ensures
            r.wf(),
            r@ == Seq::<Event>::empty(),
            r.storage().used_bytes().len() == HEADER_SIZE,
            r.layout() == policy,
            r.storage().capacity() == old(data)@.len(),
            r.storage().unused_bytes() == old(data)@.skip(HEADER_SIZE as int),
            r.storage().region() == encode_batch(r@, r.layout()) + old(data)@.skip(
                HEADER_SIZE as int,
            ),
    {
        let storage = FixedStorage::new(data);
        let r = PacketBuffer::new_with_buf(storage, policy);
        proof {
            r.storage().lemma_region();
            assert(r.storage().unused_bytes() =~= old(data)@.skip(HEADER_SIZE as int));
        }
        r
    }
}

/// The events read back from a built batch are exactly the events pushed,
/// in push order.
pub proof fn lemma_built_batch_reads_back<T: PacketBufferStorage>(buf: &PacketBuffer<T>)
    requires
        buf.wf(),
    ensures
        decode_batch(buf.storage().used_bytes(), buf.layout()) == Some(buf@),
{
    crate::layout::lemma_decode_encode_batch(buf@, buf.layout());
}

/// The three writes of a record's fields over freshly requested zero bytes
/// leave the old bytes followed by the record's encoding.
proof fn lemma_record_writes(
    old_bytes: Seq<u8>,
    b1: Seq<u8>,
    b2: Seq<u8>,
    b3: Seq<u8>,
    b4: Seq<u8>,
    e: Event,
    policy: LayoutPolicy,
)
    requires
        e.1.len() <= MAX_PAYLOAD,
        b1 == old_bytes + Seq::new(record_size(e.1.len() as int, policy) as nat, |i: int| 0u8),
        b2 == b1.take(old_bytes.len() as int) + spec_u64_to_le_bytes(e.0) + b1.skip(
            old_bytes.len() as int + 8,
        ),
        b3 == b2.take(old_bytes.len() as int + 8) + spec_u16_to_le_bytes(e.1.len() as u16) + b2.skip(
            old_bytes.len() as int + 10,
        ),
        b4 == b3.take(old_bytes.len() as int + 10) + e.1 + b3.skip(old_bytes.len() as int + 10 + e.1.len()),
    ensures
        b4 == old_bytes + crate::layout::encode_record(e, policy),
{
    let n = old_bytes.len() as int;
    let size = record_size(e.1.len() as int, policy);
    let ts = spec_u64_to_le_bytes(e.0);
    let ln = spec_u16_to_le_bytes(e.1.len() as u16);
    lemma_auto_spec_u64_to_from_le_bytes();
    lemma_auto_spec_u16_to_from_le_bytes();
    crate::layout::lemma_record_size_bounds(e.1.len() as int, policy);
    let pad = crate::layout::zeros(size - 10 - e.1.len());
    assert(b2 =~= old_bytes + ts + Seq::new((size - 8) as nat, |i: int| 0u8));
    assert(b3 =~= old_bytes + ts + ln + Seq::new((size - 10) as nat, |i: int| 0u8));
    assert(b4 =~= old_bytes + ts + ln + e.1 + pad);
}

} // verus!
