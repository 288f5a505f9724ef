//! The page store: pages are written once and never changed, so every root stays readable.
use vstd::prelude::*;
use crate::node::Entry;

verus! {

/// Identifies a page of the store.
pub type PageNumber = usize;

/// One tree node: a leaf of ordered entries, or a branch listing its children's pages in key order.
#[derive(Debug)]
pub enum Page {
    Leaf(Vec<Entry>),
    Branch(Vec<PageNumber>),
}

/// Fixed pages, each holding one node; a page once written is never rewritten.
pub struct PageStore {
    pages: Vec<Page>,
}

impl PageStore {
    /// How many pages have been allocated.
    pub closed spec fn num_pages(&self) -> nat {
        self.pages@.len()
    }

    /// The node held by page `n`.
    pub closed spec fn page(&self, n: nat) -> Page {
        self.pages@[n as int]
    }

    /// Every page of `earlier` is still here, unchanged.
    pub open spec fn extends(&self, earlier: &PageStore) -> bool {
        &&& earlier.num_pages() <= self.num_pages()
        &&& forall|n: nat| n < earlier.num_pages() ==> #[trigger] self.page(n) == earlier.page(n)
    }

    /// An empty store.
    pub fn new() -> (r: PageStore)
        ensures
            r.num_pages() == 0,
    {
        PageStore { pages: Vec::new() }
    }

    /// The number of allocated pages.
    pub fn page_count(&self) -> (r: usize)
        ensures
            r == self.num_pages(),
    {
        self.pages.len()
    }

    /// Writes a node to a fresh page and returns its number.
    pub fn allocate(&mut self, node: Page) -> (r: PageNumber)
        ensures
            r == old(self).num_pages(),
            final(self).num_pages() == old(self).num_pages() + 1,
            final(self).page(r as nat) == node,
            final(self).extends(old(self)),
    {
        let r: usize = self.pages.len();
        self.pages.push(node);
        r
    }

    /// Reads the node held by page `n`.
    pub fn read(&self, n: PageNumber) -> (r: &Page)
        requires
            n < self.num_pages(),
        ensures
            *r == self.page(n as nat),
    {
        &self.pages[n]
    }
}

/// Extension of stores is transitive.
pub proof fn lemma_extends_trans(a: &PageStore, b: &PageStore, c: &PageStore)
    requires
        b.extends(a),
        c.extends(b),
    ensures
        c.extends(a),
{
    assert forall|n: nat| n < a.num_pages() implies #[trigger] c.page(n) == a.page(n) by {
        assert(c.page(n) == b.page(n));
    }
}

} // verus!
