//! Storage backends: where a batch's bytes live while it is built.
use vstd::prelude::*;

verus! {

/// A byte region that grows at its end on request.
///
/// The bytes handed out so far are `used_bytes()`; a request either extends
/// them by the requested number of zero bytes, or fails and changes nothing.
pub trait PacketBufferStorage: Sized {
    /// The bytes handed out so far, from the batch base on.
    spec fn used_bytes(&self) -> Seq<u8>;

    /// The most bytes the storage can hand out in all.
    spec fn capacity(&self) -> nat;

    /// The bytes of the region that lie past the cursor and have not been
    /// handed out yet; a backend that allocates as it grows has none.
    spec fn unused_bytes(&self) -> Seq<u8>;

    /// Whether a request for `length` more bytes succeeds.
    open spec fn has_room(&self, length: nat) -> bool {
        self.used_bytes().len() + length <= self.capacity()
    }

    /// The backend's own consistency condition.
    spec fn inv(&self) -> bool;

    /// The bytes handed out so far.
    fn bytes(&self) -> (r: &[u8])
        requires
            self.inv(),
        ensures
            r@ == self.used_bytes(),
    ;

    /// Hands out `length` more zero bytes and returns the offset at which they
    /// start, or returns `None`, leaving the storage as it was, when there is
    /// no room for them.
    fn request(&mut self, length: usize) -> (r: Option<usize>)
        requires
            old(self).inv(),
        ensures
            final(self).inv(),
            final(self).capacity() == old(self).capacity(),
            old(self).has_room(length as nat) ==> {
                &&& r == Some(old(self).used_bytes().len() as usize)
                &&& final(self).used_bytes() == old(self).used_bytes() + Seq::new(
                    length as nat,
                    |i: int| 0u8,
                )
                &&& forall|j: int|
                    #![trigger final(self).unused_bytes()[j]]
                    0 <= j < final(self).unused_bytes().len() ==> final(self).unused_bytes()[j]
                        == old(self).unused_bytes()[j + length]
            },
            !old(self).has_room(length as nat) ==> r is None && *final(self) == *old(self),
    ;

    /// Overwrites the bytes handed out at `offset` with `src`.
    fn write(&mut self, offset: usize, src: &[u8])
        requires
            old(self).inv(),
            offset + src@.len() <= old(self).used_bytes().len(),
        ensures
            final(self).inv(),
            final(self).capacity() == old(self).capacity(),
            final(self).unused_bytes() == old(self).unused_bytes(),
            final(self).used_bytes() == old(self).used_bytes().take(offset as int) + src@
                + old(self).used_bytes().skip(offset + src@.len()),
    ;
}

/// A caller-owned region of fixed capacity and a cursor of bytes used.
/// The region never moves; a request beyond its end fails.
pub struct FixedStorage<'a> {
    data: &'a mut [u8],
    used: usize,
}

/// An owned region that grows on every request.
pub struct DynStorage {
    data: Vec<u8>,
}

impl<'a> FixedStorage<'a> {
    /// Storage over `data`, with nothing used yet.
    pub fn new(data: &'a mut [u8]) -> (r: Self)
        ensures
            r.inv(),
            r.used_bytes() == Seq::<u8>::empty(),
            r.capacity() == old(data)@.len(),
            r.region() == old(data)@,
            r.unused_bytes() == old(data)@,
    {
        FixedStorage { data, used: 0 }
    }

    /// The whole caller-owned region: the bytes handed out, then the rest.
    pub closed spec fn region(&self) -> Seq<u8> {
        self.data@
    }

    /// The region is the bytes handed out followed by those not yet handed out.
    pub proof fn lemma_region(&self)
        requires
            self.inv(),
        ensures
            self.region() == self.used_bytes() + self.unused_bytes(),
            self.capacity() == self.region().len(),
    {
        assert(self.data@ =~= self.data@.take(self.used as int) + self.data@.skip(
            self.used as int,
        ));
    }

}

impl<'a> PacketBufferStorage for FixedStorage<'a> {
    closed spec fn used_bytes(&self) -> Seq<u8> {
        self.data@.take(self.used as int)
    }

    /// The size of the region.
    closed spec fn capacity(&self) -> nat {
        self.data@.len()
    }

    closed spec fn unused_bytes(&self) -> Seq<u8> {
        self.data@.skip(self.used as int)
    }

    closed spec fn inv(&self) -> bool {
        self.used <= self.data@.len()
    }

    fn bytes(&self) -> (r: &[u8]) {
        vstd::slice::slice_subrange(&*self.data, 0, self.used)
    }

    fn request(&mut self, length: usize) -> (r: Option<usize>) {
        if length > self.data.len() - self.used {
            return None;
        }
        let start = self.used;
        let end = start + length;
        let mut i: usize = start;
        while i < end
            invariant
                start <= i <= end,
                end <= self.data@.len(),
                self.data@.len() == old(self).data@.len(),
                self.used == start,
                start == old(self).used,
                end == start + length,
                forall|j: int| 0 <= j < start ==> self.data@[j] == old(self).data@[j],
                forall|j: int| end <= j < self.data@.len() ==> self.data@[j] == old(self).data@[j],
                forall|j: int| start <= j < i ==> self.data@[j] == 0u8,
            decreases end - i,
        {
            self.data[i] = 0u8;
            i = i + 1;
        }
        self.used = end;
        assert(self.used_bytes() =~= old(self).used_bytes() + Seq::new(
            length as nat,
            |i: int| 0u8,
        ));
        Some(start)
    }

    fn write(&mut self, offset: usize, src: &[u8]) {
        let mut k: usize = 0;
        while k < src.len()
            invariant
                offset + src@.len() <= self.used <= self.data@.len(),
                self.used == old(self).used,
                self.data@.len() == old(self).data@.len(),
                0 <= k <= src@.len(),
                forall|j: int|
                    0 <= j < self.data@.len() && !(offset <= j < offset + k) ==> self.data@[j]
                        == old(self).data@[j],
                forall|j: int| offset <= j < offset + k ==> self.data@[j] == src@[j - offset],
            decreases src@.len() - k,
        {
            self.data[offset + k] = src[k];
            k = k + 1;
        }
        assert(self.used_bytes() =~= old(self).used_bytes().take(offset as int) + src@
            + old(self).used_bytes().skip(offset + src@.len()));
    }
}

impl DynStorage {
    /// Empty storage.
    pub fn new() -> (r: Self)
        ensures
            r.inv(),
            r.used_bytes() == Seq::<u8>::empty(),
            r.capacity() == usize::MAX,
    {
        DynStorage { data: Vec::new() }
    }
}

impl PacketBufferStorage for DynStorage {
    closed spec fn used_bytes(&self) -> Seq<u8> {
        self.data@
    }

    /// Only the address space bounds the growth.
    open spec fn capacity(&self) -> nat {
        usize::MAX as nat
    }

    open spec fn unused_bytes(&self) -> Seq<u8> {
        Seq::empty()
    }

    closed spec fn inv(&self) -> bool {
        self.data@.len() <= usize::MAX
    }

    fn bytes(&self) -> (r: &[u8]) {
        self.data.as_slice()
    }

    fn request(&mut self, length: usize) -> (r: Option<usize>) {
        let start = self.data.len();
        if length > usize::MAX - start {
            return None;
        }
        let mut k: usize = 0;
        while k < length
            invariant
                start == old(self).data@.len(),
                start + length <= usize::MAX,
                0 <= k <= length,
                self.data@ == old(self).data@ + Seq::new(k as nat, |i: int| 0u8),
            decreases length - k,
        {
            self.data.push(0u8);
            k = k + 1;
            assert(self.data@ =~= old(self).data@ + Seq::new(k as nat, |i: int| 0u8));
        }
        Some(start)
    }

    fn write(&mut self, offset: usize, src: &[u8]) {
        let mut k: usize = 0;
        while k < src.len()
            invariant
                offset + src@.len() <= self.data@.len(),
                self.data@.len() <= usize::MAX,
                self.data@.len() == old(self).data@.len(),
                0 <= k <= src@.len(),
                forall|j: int|
                    0 <= j < self.data@.len() && !(offset <= j < offset + k) ==> self.data@[j]
                        == old(self).data@[j],
                forall|j: int| offset <= j < offset + k ==> self.data@[j] == src@[j - offset],
            decreases src@.len() - k,
        {
            self.data.set(offset + k, src[k]);
            k = k + 1;
        }
        assert(self.data@ =~= old(self).data@.take(offset as int) + src@ + old(self).data@.skip(
            offset + src@.len(),
        ));
    }
}

} // verus!
