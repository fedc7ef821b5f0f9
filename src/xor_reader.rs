//! A constant single-byte key source.
use vstd::prelude::*;

verus! {

/// A key source that yields the same byte forever.
#[derive(Debug)]
pub struct XKey {
    key: u8,
}

impl XKey {
    /// The byte this source yields.
    pub closed spec fn key(&self) -> u8 {
        self.key
    }

    /// A source that yields `key` forever.
    pub fn new(key: u8) -> (r: Self)
        ensures
            r.key() == key,
    {
        XKey { key }
    }

    /// Fills all of `buffer` with the key byte and returns its length.
    pub fn read(&mut self, buffer: &mut [u8]) -> (r: usize)
        ensures
            final(self).key() == old(self).key(),
            r == old(buffer)@.len(),
            final(buffer)@ == Seq::new(old(buffer)@.len(), |i: int| old(self).key()),
    {
        let len = buffer.len();
        let mut i: usize = 0;
        while i < len
            invariant
                i <= len,
                buffer@.len() == len,
                forall|j: int| 0 <= j < i ==> #[trigger] buffer@[j] == self.key,
            decreases len - i,
        {
            buffer[i] = self.key;
            i = i + 1;
        }
        assert(buffer@ =~= Seq::new(len as nat, |i: int| self.key));
        len
    }
}

} // verus!
