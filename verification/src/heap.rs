//! The heap region and the stack, as buffers of words with a byte address.

use vstd::prelude::*;
use crate::value::is_ref;

verus! {

/// The number of bytes in a word.
pub const WORD_BYTES: u64 = 8;

/// A buffer of words that lies at a byte address: the word at index `i` has the
/// address `start + 8 * i`.
///
/// The heap is one such region. A vector in it is a block of `size + 2` words:
/// a mark word, the size, then the elements.
pub struct Region {
    /// The byte address of the first word.
    pub start: u64,
    /// The words of the region.
    pub words: Vec<u64>,
}

/// The index of the word that a byte address points to, counted from `start`.
pub open spec fn index_of(start: u64, addr: int) -> int {
    (addr - start) / 8
}

/// The byte address of the word at an index.
pub open spec fn addr_of(start: u64, i: int) -> int {
    start + 8 * i
}

/// The address is that of one of the first `limit` words above `start`.
pub open spec fn addr_in(start: u64, addr: int, limit: int) -> bool {
    addr >= start && (addr - start) % 8 == 0 && index_of(start, addr) < limit
}

/// The word is a reference to one of the first `limit` words above `start`.
pub open spec fn ref_in(start: u64, w: u64, limit: int) -> bool {
    is_ref(w) && addr_in(start, w - 1, limit)
}

impl Region {
    /// The region starts at a word boundary above the sentinels, and its last
    /// word's address fits in a machine word.
    pub open spec fn valid(&self) -> bool {
        &&& self.start % 8 == 0
        &&& self.start >= 8
        &&& self.start + 8 * self.words@.len() <= u64::MAX
    }

    /// A region of `len` words that are all zero, if it fits at `start`.
    pub fn new(start: u64, len: usize) -> (r: Option<Region>)
        ensures
            r.is_some() <==> (start % 8 == 0 && start >= 8 && start + 8 * len <= u64::MAX),
            r.is_some() ==> r.unwrap().valid() && r.unwrap().start == start
                && r.unwrap().words@ == Seq::new(len as nat, |i: int| 0u64),
    {
        if start % 8 != 0 || start < 8 || len as u64 > (u64::MAX - start) / 8 {
            return None;
        }
        let mut words: Vec<u64> = Vec::new();
        let mut i: usize = 0;
        while i < len
            invariant
                i <= len,
                words@ == Seq::new(i as nat, |k: int| 0u64),
            decreases len - i,
        {
            words.push(0);
            i += 1;
            assert(words@ =~= Seq::new(i as nat, |k: int| 0u64));
        }
        Some(Region { start, words })
    }

    /// The byte address one past the last word.
    pub fn end(&self) -> (a: u64)
        requires
            self.valid(),
        ensures
            a == addr_of(self.start, self.words@.len() as int),
    {
        self.start + 8 * (self.words.len() as u64)
    }

    /// The byte address of the word at index `i`.
    pub fn addr(&self, i: usize) -> (a: u64)
        requires
            self.valid(),
            i <= self.words@.len(),
        ensures
            a == addr_of(self.start, i as int),
            index_of(self.start, a as int) == i,
            addr_in(self.start, a as int, i + 1),
    {
        self.start + 8 * (i as u64)
    }

    /// The index of the word at a byte address, if that is one of the first
    /// `limit` words of the region.
    pub fn index(&self, addr: u64, limit: usize) -> (r: Option<usize>)
        requires
            self.valid(),
            limit <= self.words@.len(),
        ensures
            r.is_some() <==> addr_in(self.start, addr as int, limit as int),
            r.is_some() ==> r.unwrap() == index_of(self.start, addr as int) && r.unwrap() < limit,
    {
        if addr < self.start || (addr - self.start) % 8 != 0 {
            return None;
        }
        let i: u64 = (addr - self.start) / 8;
        if i < limit as u64 {
            Some(i as usize)
        } else {
            None
        }
    }
}

} // verus!
