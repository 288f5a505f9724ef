//! Write-bound and read-only tables over trees held in the page store.
use vstd::prelude::*;
use crate::order::KeyOrder;
use crate::node::{
    EntryView, lookup, inserted, removed, lemma_rank_of_member, copy_bytes, opt_view,
    zeros, zeroed,
};
use crate::tree::{
    tree_contents, tree_valid, tree_collect, tree_get, tree_insert, tree_remove, tree_pages, page_set,
    fresh, lemma_tree_pages_stable, lemma_page_set_concat,
};
use crate::store::{PageStore, PageNumber};
use crate::bounds::{KeyRange, first_in, last_in, select, select_entries, find_first, find_last, full_range};
use crate::iter::RangeIter;

verus! {

/// A table open for writing in a transaction.
pub struct Table {
    name: Vec<u8>,
    order: KeyOrder,
    root: Option<PageNumber>,
    freed: Vec<PageNumber>,
    /// The root the handle was opened on.
    origin: Ghost<Option<PageNumber>>,
    /// The pages written while the handle was open.
    written: Ghost<Set<PageNumber>>,
}

impl Table {
    pub closed spec fn origin_view(&self) -> Option<PageNumber> {
        self.origin@
    }

    pub closed spec fn written_view(&self) -> Set<PageNumber> {
        self.written@
    }

    /// No page is lost: the pages of the tree the handle was opened on, with those it wrote,
    /// are exactly the pages of its current tree with those it freed.
    pub open spec fn accounted(&self, store: &PageStore) -> bool {
        &&& self.origin_view() matches Some(p) ==> p < store.num_pages()
        &&& tree_pages(store, self.origin_view()) + self.written_view()
            == page_set(self.freed_view()) + tree_pages(store, self.root_view())
    }

    pub closed spec fn name_view(&self) -> Seq<u8> {
        self.name@
    }

    pub closed spec fn key_order(&self) -> KeyOrder {
        self.order
    }

    pub closed spec fn root_view(&self) -> Option<PageNumber> {
        self.root
    }

    /// Pages this table's edits made unreachable, in the order they were given up.
    pub closed spec fn freed_view(&self) -> Seq<PageNumber> {
        self.freed@
    }

    /// Since `earlier`, the freed list has only grown, and only by pages already written in `store`.
    pub open spec fn freed_since(&self, earlier: &Table, store: &PageStore) -> bool {
        &&& earlier.freed_view().len() <= self.freed_view().len()
        &&& self.freed_view().subrange(0, earlier.freed_view().len() as int) == earlier.freed_view()
        &&& forall|i: int| earlier.freed_view().len() <= i < self.freed_view().len()
            ==> #[trigger] self.freed_view()[i] < store.num_pages()
    }

    /// The entries of the table, in key order.
    pub open spec fn contents(&self, store: &PageStore) -> Seq<EntryView> {
        tree_contents(store, self.root_view())
    }

    /// The table's tree is readable and ordered, and all its pages are accounted for.
    pub open spec fn valid(&self, store: &PageStore) -> bool {
        &&& tree_valid(store, self.key_order(), self.root_view())
        &&& self.accounted(store)
    }

    /// A handle on the tree at `root`, with nothing freed yet.
    pub fn new(name: &[u8], order: KeyOrder, root: Option<PageNumber>) -> (r: Table)
        ensures
            r.name_view() == name@,
            r.key_order() == order,
            r.root_view() == root,
            r.freed_view() == Seq::<PageNumber>::empty(),
            r.origin_view() == root,
            r.written_view() == Set::<PageNumber>::empty(),
    {
        Table {
            name: copy_bytes(name),
            order,
            root,
            freed: Vec::new(),
            origin: Ghost(root),
            written: Ghost(Set::empty()),
        }
    }

    /// The current root, or none for an empty table.
    pub fn root(&self) -> (r: Option<PageNumber>)
        ensures
            r == self.root_view(),
    {
        self.root
    }

    /// The order of the table's keys.
    pub fn order(&self) -> (r: KeyOrder)
        ensures
            r == self.key_order(),
    {
        self.order
    }

    /// Gives the final root and the freed pages back to the owner, with the name.
    pub fn into_parts(self) -> (r: (Vec<u8>, Option<PageNumber>, Vec<PageNumber>))
        ensures
            r.0@ == self.name_view(),
            r.1 == self.root_view(),
            r.2@ == self.freed_view(),
    {
        (self.name, self.root, self.freed)
    }

    /// Moves to a new root, recording the pages the edit gave up as freed.
    fn set_root(&mut self, root: Option<PageNumber>, given: Vec<PageNumber>)
        ensures
            final(self).root_view() == root,
            final(self).name_view() == old(self).name_view(),
            final(self).key_order() == old(self).key_order(),
            final(self).freed_view() == old(self).freed_view() + given@,
            final(self).origin_view() == old(self).origin_view(),
            final(self).written_view() == old(self).written_view(),
    {
        let mut given = given;
        self.freed.append(&mut given);
        self.root = root;
    }

    /// Maps `key` to `value`; returns the value it replaced, if the key was present.
    pub fn insert(&mut self, store: &mut PageStore, key: &[u8], value: &[u8]) -> (r: Option<Vec<u8>>)
        requires
            old(self).valid(old(store)),
        ensures
            final(store).extends(old(store)),
            final(self).valid(final(store)),
            final(self).contents(final(store)) == inserted(old(self).key_order(), old(self).contents(old(store)), key@, value@),
            opt_view(r) == lookup(old(self).key_order(), old(self).contents(old(store)), key@),
            final(self).name_view() == old(self).name_view(),
            final(self).key_order() == old(self).key_order(),
            final(self).freed_since(old(self), old(store)),
    {
        let ghost s0 = *store;
        let ghost before = *self;
        let (root, given, prior) = tree_insert(store, self.order, self.root, key, value);
        let ghost gv = given@;
        self.set_root(root, given);
        self.written = Ghost(self.written@ + fresh(s0.num_pages(), store.num_pages()));
        proof { lemma_edit_accounted(&before, self, &s0, store, gv); }
        assert(self.freed_view().subrange(0, old(self).freed_view().len() as int) =~= old(self).freed_view());
        prior
    }

    /// Reserves a value of `value_length` bytes under `key`, present at once and zero-filled
    /// until written; returns the value it replaced, if the key was present.
    pub fn insert_reserve(&mut self, store: &mut PageStore, key: &[u8], value_length: usize) -> (r: Option<Vec<u8>>)
        requires
            old(self).valid(old(store)),
        ensures
            final(store).extends(old(store)),
            final(self).valid(final(store)),
            final(self).contents(final(store)) == inserted(old(self).key_order(), old(self).contents(old(store)), key@, zeros(value_length as nat)),
            opt_view(r) == lookup(old(self).key_order(), old(self).contents(old(store)), key@),
            final(self).name_view() == old(self).name_view(),
            final(self).key_order() == old(self).key_order(),
            final(self).freed_since(old(self), old(store)),
    {
        let value = zeroed(value_length);
        self.insert(store, key, value.as_slice())
    }

    /// Removes `key`; returns its value, if the key was present.
    pub fn remove(&mut self, store: &mut PageStore, key: &[u8]) -> (r: Option<Vec<u8>>)
        requires
            old(self).valid(old(store)),
        ensures
            final(store).extends(old(store)),
            final(self).valid(final(store)),
            final(self).contents(final(store)) == removed(old(self).key_order(), old(self).contents(old(store)), key@),
            opt_view(r) == lookup(old(self).key_order(), old(self).contents(old(store)), key@),
            final(self).name_view() == old(self).name_view(),
            final(self).key_order() == old(self).key_order(),
            final(self).freed_since(old(self), old(store)),
    {
        let ghost s0 = *store;
        let ghost before = *self;
        let (root, given, prior) = tree_remove(store, self.order, self.root, key);
        let ghost gv = given@;
        self.set_root(root, given);
        self.written = Ghost(self.written@ + fresh(s0.num_pages(), store.num_pages()));
        proof { lemma_edit_accounted(&before, self, &s0, store, gv); }
        assert(self.freed_view().subrange(0, old(self).freed_view().len() as int) =~= old(self).freed_view());
        prior
    }

    /// Removes the entry at position `i` and returns it.
    fn take_at(&mut self, store: &mut PageStore, i: usize) -> (r: (Vec<u8>, Vec<u8>))
        requires
            old(self).valid(old(store)),
            i < old(self).contents(old(store)).len(),
        ensures
            final(store).extends(old(store)),
            final(self).valid(final(store)),
            (r.0@, r.1@) == old(self).contents(old(store))[i as int],
            final(self).contents(final(store)) == old(self).contents(old(store)).remove(i as int),
            final(self).name_view() == old(self).name_view(),
            final(self).key_order() == old(self).key_order(),
            final(self).freed_since(old(self), old(store)),
    {
        let ghost s = self.contents(store);
        proof { lemma_rank_of_member(self.order, s, i as int); }
        let all = tree_collect(store, self.order, self.root);
        let key = copy_bytes(all[i].key.as_slice());
        match self.remove(store, key.as_slice()) {
            Some(v) => (key, v),
            None => {
                assert(false);
                (key, Vec::new())
            },
        }
    }

    /// The number of entries.
    fn count(&self, store: &PageStore) -> (r: usize)
        requires
            self.valid(store),
        ensures
            r == self.contents(store).len(),
    {
        tree_len(store, self.order, self.root)
    }

    /// Removes and returns the first entry, if the table has one.
    pub fn pop_first(&mut self, store: &mut PageStore) -> (r: Option<(Vec<u8>, Vec<u8>)>)
        requires
            old(self).valid(old(store)),
        ensures
            final(store).extends(old(store)),
            final(self).valid(final(store)),
            final(self).name_view() == old(self).name_view(),
            final(self).key_order() == old(self).key_order(),
            match r {
                None => old(self).contents(old(store)).len() == 0
                    && final(self).contents(final(store)) == old(self).contents(old(store)),
                Some(e) => old(self).contents(old(store)).len() > 0
                    && (e.0@, e.1@) == old(self).contents(old(store))[0]
                    && final(self).contents(final(store)) == old(self).contents(old(store)).drop_first(),
            },
    {
        let n: usize = self.count(store);
        if n == 0 {
            return None;
        }
        let ghost s = self.contents(store);
        let e = self.take_at(store, 0);
        assert(s.remove(0) =~= s.drop_first());
        Some(e)
    }

    /// Removes and returns the last entry, if the table has one.
    pub fn pop_last(&mut self, store: &mut PageStore) -> (r: Option<(Vec<u8>, Vec<u8>)>)
        requires
            old(self).valid(old(store)),
        ensures
            final(store).extends(old(store)),
            final(self).valid(final(store)),
            final(self).name_view() == old(self).name_view(),
            final(self).key_order() == old(self).key_order(),
            match r {
                None => old(self).contents(old(store)).len() == 0
                    && final(self).contents(final(store)) == old(self).contents(old(store)),
                Some(e) => old(self).contents(old(store)).len() > 0
                    && (e.0@, e.1@) == old(self).contents(old(store)).last()
                    && final(self).contents(final(store)) == old(self).contents(old(store)).drop_last(),
            },
    {
        let n: usize = self.count(store);
        if n == 0 {
            return None;
        }
        let ghost s = self.contents(store);
        let e = self.take_at(store, n - 1);
        assert(s.remove(n - 1) =~= s.drop_last());
        Some(e)
    }

    /// Starts removing the entries of `range`, one at a time as they are asked for.
    pub fn drain(&mut self, range: KeyRange) -> (r: Drain)
        ensures
            r.bounds() == range,
            *final(self) == *old(self),
    {
        Drain { range }
    }
}

/// An edit that moved a table to a new root keeps every page accounted for.
proof fn lemma_edit_accounted(before: &Table, after: &Table, s0: &PageStore, s1: &PageStore, given: Seq<PageNumber>)
    requires
        before.accounted(s0),
        s1.extends(s0),
        after.origin_view() == before.origin_view(),
        after.freed_view() == before.freed_view() + given,
        after.written_view() == before.written_view() + fresh(s0.num_pages(), s1.num_pages()),
        tree_pages(s1, after.root_view()) + page_set(given)
            == tree_pages(s0, before.root_view()) + fresh(s0.num_pages(), s1.num_pages()),
    ensures
        after.accounted(s1),
{
    lemma_tree_pages_stable(s0, s1, before.origin_view());
    lemma_page_set_concat(before.freed_view(), given);
    let o = tree_pages(s0, before.origin_view());
    let w = before.written_view();
    let f = fresh(s0.num_pages(), s1.num_pages());
    let fr = page_set(before.freed_view());
    let t0 = tree_pages(s0, before.root_view());
    let t1 = tree_pages(s1, after.root_view());
    let g = page_set(given);
    assert forall|x: PageNumber| (o + (w + f)).contains(x) <==> ((fr + g) + t1).contains(x) by {
        assert((o + w).contains(x) == (fr + t0).contains(x));
        assert((t1 + g).contains(x) == (t0 + f).contains(x));
    }
    assert(o + (w + f) =~= (fr + g) + t1);
}

/// A handle just opened on a readable tree, with nothing freed or written, is valid.
pub proof fn lemma_opened_table_valid(t: &Table, store: &PageStore)
    requires
        tree_valid(store, t.key_order(), t.root_view()),
        t.origin_view() == t.root_view(),
        t.freed_view() == Seq::<PageNumber>::empty(),
        t.written_view() == Set::<PageNumber>::empty(),
    ensures
        t.valid(store),
{
    assert(page_set(t.freed_view()) =~= Set::<PageNumber>::empty());
    assert(tree_pages(store, t.origin_view()) + t.written_view() =~= page_set(t.freed_view()) + tree_pages(store, t.root_view()));
}

/// The number of entries of the tree at `root`.
pub fn tree_len(store: &PageStore, o: KeyOrder, root: Option<PageNumber>) -> (r: usize)
    requires
        tree_valid(store, o, root),
    ensures
        r == tree_contents(store, root).len(),
{
    tree_collect(store, o, root).len()
}

/// An iterator over the entries of the tree at `root` that lie in `range`.
pub fn tree_range(store: &PageStore, o: KeyOrder, root: Option<PageNumber>, range: &KeyRange) -> (r: RangeIter)
    requires
        tree_valid(store, o, root),
    ensures
        r.well_formed(),
        r.remaining() == select(o, range, tree_contents(store, root)),
{
    let all = tree_collect(store, o, root);
    RangeIter::new(select_entries(o, range, &all))
}

/// The read operations shared by write-bound and read-only tables.
pub trait ReadableTable {
    /// The entries, in key order.
    spec fn entries(&self, store: &PageStore) -> Seq<EntryView>;

    /// The order of the keys.
    spec fn ordering(&self) -> KeyOrder;

    /// The table's tree can be read from `store`.
    spec fn readable(&self, store: &PageStore) -> bool;

    /// The value stored under `key`, if any.
    fn get(&self, store: &PageStore, key: &[u8]) -> (r: Option<Vec<u8>>)
        requires
            self.readable(store),
        ensures
            opt_view(r) == lookup(self.ordering(), self.entries(store), key@);

    /// A double-ended iterator over the entries in `range`, in key order.
    fn range(&self, store: &PageStore, range: &KeyRange) -> (r: RangeIter)
        requires
            self.readable(store),
        ensures
            r.well_formed(),
            r.remaining() == select(self.ordering(), range, self.entries(store));

    /// The number of entries.
    fn len(&self, store: &PageStore) -> (r: usize)
        requires
            self.readable(store),
        ensures
            r == self.entries(store).len();

    /// Whether there are no entries.
    fn is_empty(&self, store: &PageStore) -> (r: bool)
        requires
            self.readable(store),
        ensures
            r == (self.entries(store).len() == 0);

    /// A double-ended iterator over all entries, in key order.
    fn iter(&self, store: &PageStore) -> (r: RangeIter)
        requires
            self.readable(store),
        ensures
            r.well_formed(),
            r.remaining() == self.entries(store),
    {
        let all = full_range();
        let it = self.range(store, &all);
        proof { lemma_select_all(self.ordering(), &all, self.entries(store)); }
        it
    }
}

/// A range that holds every key selects everything.
pub proof fn lemma_select_all(o: KeyOrder, r: &KeyRange, s: Seq<EntryView>)
    requires
        forall|k: Seq<u8>| crate::bounds::in_range(o, r, k),
    ensures
        select(o, r, s) == s,
    decreases s.len(),
{
    if s.len() > 0 {
        lemma_select_all(o, r, s.drop_last());
        assert(s.drop_last().push(s.last()) =~= s);
    }
}

impl ReadableTable for Table {
    open spec fn entries(&self, store: &PageStore) -> Seq<EntryView> {
        self.contents(store)
    }

    open spec fn ordering(&self) -> KeyOrder {
        self.key_order()
    }

    open spec fn readable(&self, store: &PageStore) -> bool {
        self.valid(store)
    }

    fn get(&self, store: &PageStore, key: &[u8]) -> (r: Option<Vec<u8>>) {
        tree_get(store, self.order, self.root, key)
    }

    fn range(&self, store: &PageStore, range: &KeyRange) -> (r: RangeIter) {
        let r = tree_range(store, self.order, self.root, range);
        assert(r.remaining() == select(self.ordering(), range, self.entries(store)));
        r
    }

    fn len(&self, store: &PageStore) -> (r: usize) {
        tree_len(store, self.order, self.root)
    }

    fn is_empty(&self, store: &PageStore) -> (r: bool) {
        tree_len(store, self.order, self.root) == 0
    }
}

/// A table opened for reading: a fixed root, never changed through this handle.
pub struct ReadOnlyTable {
    order: KeyOrder,
    root: Option<PageNumber>,
}

impl ReadOnlyTable {
    pub closed spec fn key_order(&self) -> KeyOrder {
        self.order
    }

    pub closed spec fn root_view(&self) -> Option<PageNumber> {
        self.root
    }

    /// A reader of the tree at `root`.
    pub fn new(order: KeyOrder, root: Option<PageNumber>) -> (r: ReadOnlyTable)
        ensures
            r.key_order() == order,
            r.root_view() == root,
    {
        ReadOnlyTable { order, root }
    }
}

impl ReadableTable for ReadOnlyTable {
    open spec fn entries(&self, store: &PageStore) -> Seq<EntryView> {
        tree_contents(store, self.root_view())
    }

    open spec fn ordering(&self) -> KeyOrder {
        self.key_order()
    }

    open spec fn readable(&self, store: &PageStore) -> bool {
        tree_valid(store, self.key_order(), self.root_view())
    }

    fn get(&self, store: &PageStore, key: &[u8]) -> (r: Option<Vec<u8>>) {
        tree_get(store, self.order, self.root, key)
    }

    fn range(&self, store: &PageStore, range: &KeyRange) -> (r: RangeIter) {
        let r = tree_range(store, self.order, self.root, range);
        assert(r.remaining() == select(self.ordering(), range, self.entries(store)));
        r
    }

    fn len(&self, store: &PageStore) -> (r: usize) {
        tree_len(store, self.order, self.root)
    }

    fn is_empty(&self, store: &PageStore) -> (r: bool) {
        tree_len(store, self.order, self.root) == 0
    }
}

/// Removes the entries of a range from a table, each at the moment it is produced.
pub struct Drain {
    range: KeyRange,
}

impl Drain {
    pub closed spec fn bounds(&self) -> KeyRange {
        self.range
    }

    /// A drain of `range`.
    pub fn new(range: KeyRange) -> (r: Drain)
        ensures
            r.bounds() == range,
    {
        Drain { range }
    }

    /// Removes and returns the first remaining entry of the range.
    pub fn next(&mut self, table: &mut Table, store: &mut PageStore) -> (r: Option<(Vec<u8>, Vec<u8>)>)
        requires
            old(table).valid(old(store)),
        ensures
            final(self).bounds() == old(self).bounds(),
            final(store).extends(old(store)),
            final(table).valid(final(store)),
            final(table).name_view() == old(table).name_view(),
            final(table).key_order() == old(table).key_order(),
            final(table).freed_since(old(table), old(store)),
            match first_in(old(table).key_order(), &old(self).bounds(), old(table).contents(old(store))) {
                None => r.is_none() && final(table).contents(final(store)) == old(table).contents(old(store)),
                Some(i) => r matches Some(e) && (e.0@, e.1@) == old(table).contents(old(store))[i]
                    && final(table).contents(final(store)) == old(table).contents(old(store)).remove(i),
            },
    {
        let all = tree_collect(store, table.order, table.root);
        let found = find_first(table.order, &self.range, &all);
        match found {
            None => {
                assert(table.freed_view().subrange(0, table.freed_view().len() as int) =~= table.freed_view());
                None
            },
            Some(i) => Some(table.take_at(store, i)),
        }
    }

    /// Removes and returns the last remaining entry of the range.
    pub fn next_back(&mut self, table: &mut Table, store: &mut PageStore) -> (r: Option<(Vec<u8>, Vec<u8>)>)
        requires
            old(table).valid(old(store)),
        ensures
            final(self).bounds() == old(self).bounds(),
            final(store).extends(old(store)),
            final(table).valid(final(store)),
            final(table).name_view() == old(table).name_view(),
            final(table).key_order() == old(table).key_order(),
            final(table).freed_since(old(table), old(store)),
            match last_in(old(table).key_order(), &old(self).bounds(), old(table).contents(old(store))) {
                None => r.is_none() && final(table).contents(final(store)) == old(table).contents(old(store)),
                Some(i) => r matches Some(e) && (e.0@, e.1@) == old(table).contents(old(store))[i]
                    && final(table).contents(final(store)) == old(table).contents(old(store)).remove(i),
            },
    {
        let all = tree_collect(store, table.order, table.root);
        let found = find_last(table.order, &self.range, &all);
        match found {
            None => {
                assert(table.freed_view().subrange(0, table.freed_view().len() as int) =~= table.freed_view());
                None
            },
            Some(i) => Some(table.take_at(store, i)),
        }
    }
}

} // verus!
