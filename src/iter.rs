//! A double-ended iterator over the entries a range selected.
use vstd::prelude::*;
use crate::node::{Entry, EntryView, entries_view, copy_bytes};

verus! {

/// Entries still to be produced lie between `front` and `back`.
pub struct RangeIter {
    items: Vec<Entry>,
    front: usize,
    back: usize,
}

impl RangeIter {
    pub closed spec fn well_formed(&self) -> bool {
        self.front <= self.back <= self.items@.len()
    }

    /// The entries not yet produced, in order.
    pub closed spec fn remaining(&self) -> Seq<EntryView> {
        entries_view(self.items@).subrange(self.front as int, self.back as int)
    }

    /// An iterator producing `items` in order.
    pub fn new(items: Vec<Entry>) -> (r: RangeIter)
        ensures
            r.well_formed(),
            r.remaining() == entries_view(items@),
    {
        let n: usize = items.len();
        let r = RangeIter { items, front: 0, back: n };
        assert(r.remaining() =~= entries_view(r.items@));
        r
    }

    /// Produces the first remaining entry.
    pub fn next(&mut self) -> (r: Option<(Vec<u8>, Vec<u8>)>)
        requires
            old(self).well_formed(),
        ensures
            final(self).well_formed(),
            match r {
                None => old(self).remaining().len() == 0 && final(self).remaining() == old(self).remaining(),
                Some(e) => old(self).remaining().len() > 0
                    && (e.0@, e.1@) == old(self).remaining()[0]
                    && final(self).remaining() == old(self).remaining().drop_first(),
            },
    {
        if self.front == self.back {
            return None;
        }
        let i: usize = self.front;
        let key = copy_bytes(self.items[i].key.as_slice());
        let value = copy_bytes(self.items[i].value.as_slice());
        self.front = i + 1;
        assert(self.remaining() =~= old(self).remaining().drop_first());
        Some((key, value))
    }

    /// Produces the last remaining entry.
    pub fn next_back(&mut self) -> (r: Option<(Vec<u8>, Vec<u8>)>)
        requires
            old(self).well_formed(),
        ensures
            final(self).well_formed(),
            match r {
                None => old(self).remaining().len() == 0 && final(self).remaining() == old(self).remaining(),
                Some(e) => old(self).remaining().len() > 0
                    && (e.0@, e.1@) == old(self).remaining().last()
                    && final(self).remaining() == old(self).remaining().drop_last(),
            },
    {
        if self.front == self.back {
            return None;
        }
        let i: usize = self.back - 1;
        let key = copy_bytes(self.items[i].key.as_slice());
        let value = copy_bytes(self.items[i].value.as_slice());
        self.back = i;
        assert(self.remaining() =~= old(self).remaining().drop_last());
        Some((key, value))
    }
}

} // verus!
