//! Enumeration of the devices the system reports, and the system's status codes.
use vstd::prelude::*;

verus! {

/// Walks the device indices `0..count` in order.
pub struct DevicesIterator {
    index: usize,
    count: usize,
}

impl DevicesIterator {
    /// An iterator over the first `count` device indices.
    pub fn new(count: usize) -> (r: Self)
        ensures
            r.position() == 0,
            r.total() == count,
    {
        DevicesIterator { index: 0, count }
    }

    /// The index the next call yields, if it is below `total()`.
    pub closed spec fn position(&self) -> nat {
        self.index as nat
    }

    /// The number of devices walked over.
    pub closed spec fn total(&self) -> nat {
        self.count as nat
    }

    /// The next device index, or `None` once all `count` have been yielded.
    pub fn next(&mut self) -> (r: Option<usize>)
        ensures
            final(self).total() == old(self).total(),
            old(self).position() < old(self).total() ==> {
                &&& r == Some(old(self).position() as usize)
                &&& final(self).position() == old(self).position() + 1
            },
            old(self).position() >= old(self).total() ==> r is None && final(self).position()
                == old(self).position(),
    {
        if self.index < self.count {
            let index = self.index;
            self.index = index + 1;
            Some(index)
        } else {
            None
        }
    }
}

/// A status code from the system's MIDI services as a result: zero is
/// success, any other value is the error it stands for.
pub fn status_result(status: i32) -> (r: Result<(), i32>)
    ensures
        status == 0 ==> r is Ok,
        status != 0 ==> r == Err::<(), i32>(status),
{
    if status == 0 {
        Ok(())
    } else {
        Err(status)
    }
}

} // verus!
