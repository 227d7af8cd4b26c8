//! A table of words that are zero at first.
//!
//! The words are kept in pages. A page is allocated when one of its words is first set to
//! something else than zero, so that a large table that is little used takes little room.

use vstd::prelude::*;

verus! {

/// The number of words in a page, except perhaps the last.
pub const PAGE_LEN: usize = 0x1_0000;

/// A table of words.
pub struct PagedTable {
    len: usize,
    pages: Vec<Option<Vec<u64>>>,
}

impl View for PagedTable {
    type V = Seq<u64>;

    closed spec fn view(&self) -> Seq<u64> {
        Seq::new(self.len as nat, |i: int| self.word(i))
    }
}

impl PagedTable {
    spec fn word(&self, i: int) -> u64 {
        match self.pages@[i / PAGE_LEN as int] {
            Some(page) => page@[i % PAGE_LEN as int],
            None => 0,
        }
    }

    /// The number of words in page `p`.
    spec fn page_len(&self, p: int) -> int {
        if (p + 1) * PAGE_LEN <= self.len {
            PAGE_LEN as int
        } else {
            self.len - p * PAGE_LEN
        }
    }

    /// There are as many pages as it takes, and those that are allocated are complete.
    pub closed spec fn wf(&self) -> bool {
        &&& self.len <= 0x4000_0000
        &&& self.pages@.len() == (self.len + PAGE_LEN - 1) / PAGE_LEN as int
        &&& forall|p: int|
            0 <= p < self.pages@.len() ==> (#[trigger] self.pages@[p] matches Some(page)
                ==> page@.len() == self.page_len(p))
    }

    /// A table of `len` zeros.
    pub fn new(len: usize) -> (table: Self)
        requires
            len <= 0x4000_0000,
        ensures
            table.wf(),
            table@ == Seq::new(len as nat, |i: int| 0u64),
    {
        let count: usize = (len + PAGE_LEN - 1) / PAGE_LEN;
        let mut pages: Vec<Option<Vec<u64>>> = Vec::new();
        while pages.len() < count
            invariant
                pages@.len() <= count,
                forall|p: int| 0 <= p < pages@.len() ==> (#[trigger] pages@[p]) is None,
            decreases count - pages@.len(),
        {
            pages.push(None);
        }
        let table = PagedTable { len, pages };
        assert(table@ =~= Seq::new(len as nat, |i: int| 0u64));
        table
    }

    /// The number of words.
    pub fn len(&self) -> (len: usize)
        ensures
            len == self@.len(),
    {
        self.len
    }

    /// The word at position `i`.
    pub fn get(&self, i: usize) -> (word: u64)
        requires
            self.wf(),
            i < self@.len(),
        ensures
            word == self@[i as int],
    {
        match &self.pages[i / PAGE_LEN] {
            Some(page) => page[i % PAGE_LEN],
            None => 0,
        }
    }

    /// Sets the word at position `i`.
    pub fn set(&mut self, i: usize, word: u64)
        requires
            old(self).wf(),
            i < old(self)@.len(),
        ensures
            final(self).wf(),
            final(self)@ == old(self)@.update(i as int, word),
    {
        let p: usize = i / PAGE_LEN;
        let offset: usize = i % PAGE_LEN;
        if self.pages[p].is_none() {
            if word == 0 {
                assert(self@ =~= old(self)@.update(i as int, word));
                return ;
            }
            let start: usize = p * PAGE_LEN;
            let page_len: usize = if self.len - start >= PAGE_LEN {
                PAGE_LEN
            } else {
                self.len - start
            };
            let page: Vec<u64> = vec![0u64; page_len];
            self.pages[p] = Some(page);
            assert(self@ =~= old(self)@);
        }
        let ghost mid = *self;
        match &mut self.pages[p] {
            Some(page) => {
                page[offset] = word;
            },
            None => {},
        }
        proof {
            assert forall|j: int| 0 <= j < self.len implies self.word(j) == mid@.update(
                i as int,
                word,
            )[j] by {
                assert(mid@[j] == mid.word(j));
            }
            assert(self@ =~= mid@.update(i as int, word));
        }
    }
}

} // verus!
