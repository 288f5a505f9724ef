//! Copy-on-write trees of two levels: a root that is a leaf, or a branch over leaves.
//! Edits write new nodes and report the pages they replace; a full leaf splits in two,
//! an emptied leaf leaves its branch, and a branch left with one child gives way to it.
use vstd::prelude::*;
use crate::order::{KeyOrder, key_cmp, compare, lemma_key_cmp_order};
use crate::node::{
    Entry, EntryView, entries_view, sorted, rank, present, lookup, inserted, removed,
    lemma_rank_bounds, lemma_rank_at, locate, insert_entry, remove_entry, append_copies,
    copy_bytes, opt_view, lemma_inserted_sorted, lemma_removed_sorted,
};
use crate::store::{Page, PageStore, PageNumber};

verus! {

/// The most entries a leaf holds after an edit.
pub const LEAF_CAPACITY: usize = 8;

/// The entries of leaf page `c`.
pub open spec fn leaf_of(store: &PageStore, c: PageNumber) -> Seq<EntryView> {
    match store.page(c as nat) {
        Page::Leaf(v) => entries_view(v@),
        Page::Branch(_) => Seq::empty(),
    }
}

/// The entries of the leaves `cs`, one after another.
pub open spec fn flatten(store: &PageStore, cs: Seq<PageNumber>) -> Seq<EntryView>
    decreases cs.len(),
{
    if cs.len() == 0 {
        Seq::empty()
    } else {
        flatten(store, cs.drop_last()) + leaf_of(store, cs.last())
    }
}

/// Every child is a readable, non-empty leaf.
pub open spec fn children_valid(store: &PageStore, cs: Seq<PageNumber>) -> bool {
    forall|i: int| 0 <= i < cs.len() ==> {
        &&& #[trigger] cs[i] < store.num_pages()
        &&& store.page(cs[i] as nat) is Leaf
        &&& leaf_of(store, cs[i]).len() > 0
    }
}

/// The entries of the tree at `root`: no root is an empty tree.
pub open spec fn tree_contents(store: &PageStore, root: Option<PageNumber>) -> Seq<EntryView> {
    match root {
        None => Seq::empty(),
        Some(r) => match store.page(r as nat) {
            Page::Leaf(v) => entries_view(v@),
            Page::Branch(cs) => flatten(store, cs@),
        },
    }
}

/// The nodes of the tree at `root` are readable in `store`: a leaf, or a branch over two or more leaves.
pub open spec fn shape_valid(store: &PageStore, root: Option<PageNumber>) -> bool {
    match root {
        None => true,
        Some(r) => r < store.num_pages() && match store.page(r as nat) {
            Page::Leaf(_) => true,
            Page::Branch(cs) => cs@.len() > 1 && children_valid(store, cs@),
        },
    }
}

/// The tree at `root` is readable in `store`, and its keys are ordered.
pub open spec fn tree_valid(store: &PageStore, o: KeyOrder, root: Option<PageNumber>) -> bool {
    &&& shape_valid(store, root)
    &&& sorted(o, tree_contents(store, root))
}

/// The pages listed in `cs`.
pub open spec fn page_set(cs: Seq<PageNumber>) -> Set<PageNumber> {
    Set::new(|p: PageNumber| cs.contains(p))
}

/// The pages numbered from `a` up to, not including, `b`: those written in between.
pub open spec fn fresh(a: nat, b: nat) -> Set<PageNumber> {
    Set::new(|p: PageNumber| a <= p < b)
}

/// The pages the tree at `root` is made of.
pub open spec fn tree_pages(store: &PageStore, root: Option<PageNumber>) -> Set<PageNumber> {
    match root {
        None => Set::empty(),
        Some(r) => match store.page(r as nat) {
            Page::Leaf(_) => set![r],
            Page::Branch(cs) => set![r] + page_set(cs@),
        },
    }
}

pub proof fn lemma_page_set_concat(a: Seq<PageNumber>, b: Seq<PageNumber>)
    ensures
        page_set(a + b) == page_set(a) + page_set(b),
{
    assert forall|p: PageNumber| page_set(a + b).contains(p) <==> (page_set(a) + page_set(b)).contains(p) by {
        if (a + b).contains(p) {
            let i = choose|i: int| 0 <= i < (a + b).len() && (a + b)[i] == p;
            if i < a.len() {
                assert(a[i] == p);
            } else {
                assert(b[i - a.len()] == p);
            }
        }
        if a.contains(p) {
            let i = choose|i: int| 0 <= i < a.len() && a[i] == p;
            assert((a + b)[i] == p);
        }
        if b.contains(p) {
            let i = choose|i: int| 0 <= i < b.len() && b[i] == p;
            assert((a + b)[a.len() + i] == p);
        }
    }
    assert(page_set(a + b) =~= page_set(a) + page_set(b));
}

pub proof fn lemma_page_set_one(p: PageNumber)
    ensures
        page_set(seq![p]) == set![p],
{
    assert forall|q: PageNumber| page_set(seq![p]).contains(q) <==> set![p].contains(q) by {
        if q == p {
            assert(seq![p][0] == p);
        }
    }
    assert(page_set(seq![p]) =~= set![p]);
}

/// The pages of a tree read through a root are unchanged by later writes to the store.
pub proof fn lemma_tree_pages_stable(before: &PageStore, after: &PageStore, root: Option<PageNumber>)
    requires
        after.extends(before),
        root matches Some(r) ==> r < before.num_pages(),
    ensures
        tree_pages(after, root) == tree_pages(before, root),
{
    if let Some(r) = root {
        assert(after.page(r as nat) == before.page(r as nat));
    }
}

pub proof fn lemma_flatten_concat(store: &PageStore, a: Seq<PageNumber>, b: Seq<PageNumber>)
    ensures
        flatten(store, a + b) == flatten(store, a) + flatten(store, b),
    decreases b.len(),
{
    if b.len() == 0 {
        assert(a + b =~= a);
        assert(flatten(store, a) + Seq::<EntryView>::empty() =~= flatten(store, a));
    } else {
        assert((a + b).drop_last() =~= a + b.drop_last());
        lemma_flatten_concat(store, a, b.drop_last());
        assert(flatten(store, a + b) =~= flatten(store, a) + flatten(store, b));
    }
}

pub proof fn lemma_flatten_one(store: &PageStore, c: PageNumber)
    ensures
        flatten(store, seq![c]) == leaf_of(store, c),
{
    assert(seq![c].drop_last() =~= Seq::<PageNumber>::empty());
    assert(seq![c].last() == c);
    assert(flatten(store, Seq::<PageNumber>::empty()) == Seq::<EntryView>::empty());
    assert(Seq::<EntryView>::empty() + leaf_of(store, c) =~= leaf_of(store, c));
    assert(flatten(store, seq![c]) == flatten(store, seq![c].drop_last()) + leaf_of(store, seq![c].last()));
}

/// The leaves around child `i`: those before it, it, and those after it.
pub proof fn lemma_flatten_split(store: &PageStore, cs: Seq<PageNumber>, i: int)
    requires
        0 <= i < cs.len(),
    ensures
        flatten(store, cs) == flatten(store, cs.subrange(0, i)) + leaf_of(store, cs[i])
            + flatten(store, cs.subrange(i + 1, cs.len() as int)),
{
    let a = cs.subrange(0, i);
    let c = cs.subrange(i + 1, cs.len() as int);
    assert(cs =~= a + seq![cs[i]] + c);
    lemma_flatten_concat(store, a + seq![cs[i]], c);
    lemma_flatten_concat(store, a, seq![cs[i]]);
    lemma_flatten_one(store, cs[i]);
}

/// Leaves already written read the same in any later state of the store.
pub proof fn lemma_flatten_stable(before: &PageStore, after: &PageStore, cs: Seq<PageNumber>)
    requires
        after.extends(before),
        forall|i: int| 0 <= i < cs.len() ==> #[trigger] cs[i] < before.num_pages(),
    ensures
        flatten(after, cs) == flatten(before, cs),
    decreases cs.len(),
{
    if cs.len() > 0 {
        let t = cs.drop_last();
        assert forall|i: int| 0 <= i < t.len() implies #[trigger] t[i] < before.num_pages() by {
            assert(t[i] == cs[i]);
        }
        lemma_flatten_stable(before, after, t);
        assert(cs[cs.len() - 1] < before.num_pages());
        assert(after.page(cs.last() as nat) == before.page(cs.last() as nat));
    }
}

/// A tree read through a root is unchanged by later writes to the store.
pub proof fn lemma_tree_stable(before: &PageStore, after: &PageStore, o: KeyOrder, root: Option<PageNumber>)
    requires
        tree_valid(before, o, root),
        after.extends(before),
    ensures
        tree_valid(after, o, root),
        tree_contents(after, root) == tree_contents(before, root),
{
    match root {
        None => {},
        Some(r) => {
            assert(after.page(r as nat) == before.page(r as nat));
            match before.page(r as nat) {
                Page::Leaf(_) => {},
                Page::Branch(cs) => {
                    assert forall|i: int| 0 <= i < cs@.len() implies #[trigger] cs@[i] < before.num_pages() by {}
                    lemma_flatten_stable(before, after, cs@);
                    assert forall|i: int| 0 <= i < cs@.len() implies {
                        &&& #[trigger] cs@[i] < after.num_pages()
                        &&& after.page(cs@[i] as nat) is Leaf
                        &&& leaf_of(after, cs@[i]).len() > 0
                    } by {
                        assert(after.page(cs@[i] as nat) == before.page(cs@[i] as nat));
                    }
                },
            }
        },
    }
}

proof fn lemma_middle_rank(o: KeyOrder, a: Seq<EntryView>, b: Seq<EntryView>, c: Seq<EntryView>, k: Seq<u8>)
    requires
        sorted(o, a + b + c),
        b.len() > 0,
        a.len() > 0 ==> key_cmp(o, b[0].0, k) <= 0,
        c.len() > 0 ==> key_cmp(o, c[0].0, k) > 0,
    ensures
        rank(o, a + b + c, k) == a.len() + rank(o, b, k),
        rank(o, b, k) <= b.len(),
        present(o, a + b + c, k) == present(o, b, k),
{
    let s = a + b + c;
    lemma_rank_bounds(o, b, k);
    let rb = rank(o, b, k) as int;
    let p = a.len() + rb;
    assert forall|j: int| 0 <= j < p implies key_cmp(o, #[trigger] s[j].0, k) < 0 by {
        if j < a.len() {
            assert(s[j] == a[j]);
            assert(s[a.len() as int] == b[0]);
            assert(key_cmp(o, s[j].0, s[a.len() as int].0) < 0);
            lemma_key_cmp_order(o, a[j].0, b[0].0, k);
            lemma_key_cmp_order(o, b[0].0, k, k);
        } else {
            assert(s[j] == b[j - a.len()]);
        }
    }
    if rb < b.len() {
        assert(s[p] == b[rb]);
    } else if c.len() > 0 {
        assert(s[p] == c[0]);
        lemma_key_cmp_order(o, c[0].0, k, k);
    }
    lemma_rank_at(o, s, k, p);
}

proof fn lemma_concat_pieces(a: Seq<EntryView>, b: Seq<EntryView>, c: Seq<EntryView>, x: int, y: int)
    requires
        0 <= x <= y <= b.len(),
    ensures
        (a + b + c).subrange(0, a.len() + x) == a + b.subrange(0, x),
        (a + b + c).subrange(a.len() + y, (a + b + c).len() as int) == b.subrange(y, b.len() as int) + c,
{
    assert((a + b + c).subrange(0, a.len() + x) =~= a + b.subrange(0, x));
    assert((a + b + c).subrange(a.len() + y, (a + b + c).len() as int) =~= b.subrange(y, b.len() as int) + c);
}

/// Where a key falls inside one piece of ordered contents, edits and lookups stay inside that piece.
pub proof fn lemma_middle(o: KeyOrder, a: Seq<EntryView>, b: Seq<EntryView>, c: Seq<EntryView>, k: Seq<u8>, v: Seq<u8>)
    requires
        sorted(o, a + b + c),
        b.len() > 0,
        a.len() > 0 ==> key_cmp(o, b[0].0, k) <= 0,
        c.len() > 0 ==> key_cmp(o, c[0].0, k) > 0,
    ensures
        lookup(o, a + b + c, k) == lookup(o, b, k),
        inserted(o, a + b + c, k, v) == a + inserted(o, b, k, v) + c,
        removed(o, a + b + c, k) == a + removed(o, b, k) + c,
{
    lemma_middle_rank(o, a, b, c, k);
    lemma_middle_edits(o, a, b, c, k, v);
}

proof fn lemma_middle_edits(o: KeyOrder, a: Seq<EntryView>, b: Seq<EntryView>, c: Seq<EntryView>, k: Seq<u8>, v: Seq<u8>)
    requires
        rank(o, a + b + c, k) == a.len() + rank(o, b, k),
        rank(o, b, k) <= b.len(),
        present(o, a + b + c, k) == present(o, b, k),
    ensures
        lookup(o, a + b + c, k) == lookup(o, b, k),
        inserted(o, a + b + c, k, v) == a + inserted(o, b, k, v) + c,
        removed(o, a + b + c, k) == a + removed(o, b, k) + c,
{
    let rb = rank(o, b, k) as int;
    let qb = if present(o, b, k) { rb + 1 } else { rb };
    lemma_concat_pieces(a, b, c, rb, qb);
    let s = a + b + c;
    let p = a.len() + rb;
    if present(o, b, k) {
        assert(s[p] == b[rb]);
    }
    let x = s.subrange(0, p);
    let y = s.subrange(a.len() + qb, s.len() as int);
    assert(inserted(o, s, k, v) == x + seq![(k, v)] + y);
    assert(inserted(o, b, k, v) == b.subrange(0, rb) + seq![(k, v)] + b.subrange(qb, b.len() as int));
    assert(x + seq![(k, v)] + y =~= a + (b.subrange(0, rb) + seq![(k, v)] + b.subrange(qb, b.len() as int)) + c);
    if present(o, b, k) {
        assert(s.remove(p) =~= x + y);
        assert(b.remove(rb) =~= b.subrange(0, rb) + b.subrange(qb, b.len() as int));
        assert(x + y =~= a + (b.subrange(0, rb) + b.subrange(qb, b.len() as int)) + c);
    }
}

/// The entries of leaf page `c`.
pub fn read_leaf(store: &PageStore, c: PageNumber) -> (r: &Vec<Entry>)
    requires
        c < store.num_pages(),
        store.page(c as nat) is Leaf,
    ensures
        entries_view(r@) == leaf_of(store, c),
{
    match store.read(c) {
        Page::Leaf(v) => v,
        Page::Branch(_) => vstd::pervasive::unreached(),
    }
}

/// A copy of a list of page numbers.
fn copy_pages(cs: &Vec<PageNumber>, from: usize, to: usize, out: &mut Vec<PageNumber>)
    requires
        from <= to <= cs@.len(),
    ensures
        final(out)@ == old(out)@ + cs@.subrange(from as int, to as int),
{
    let mut i: usize = from;
    while i < to
        invariant
            from <= i <= to <= cs@.len(),
            out@ == old(out)@ + cs@.subrange(from as int, i as int),
        decreases to - i,
    {
        out.push(cs[i]);
        i = i + 1;
        assert(out@ =~= old(out)@ + cs@.subrange(from as int, i as int));
    }
}

/// Copies of all entries of the tree at `root`, in order.
pub fn tree_collect(store: &PageStore, o: KeyOrder, root: Option<PageNumber>) -> (r: Vec<Entry>)
    requires
        tree_valid(store, o, root),
    ensures
        entries_view(r@) == tree_contents(store, root),
{
    let mut out: Vec<Entry> = Vec::new();
    match root {
        None => {
            assert(entries_view(out@) =~= Seq::<EntryView>::empty());
        },
        Some(r) => match store.read(r) {
            Page::Leaf(v) => {
                append_copies(&mut out, v, 0, v.len());
                assert(entries_view(v@).subrange(0, v@.len() as int) =~= entries_view(v@));
                assert(entries_view(out@) =~= entries_view(v@));
            },
            Page::Branch(cs) => {
                let mut i: usize = 0;
                assert(cs@.subrange(0, 0) =~= Seq::<PageNumber>::empty());
                assert(entries_view(out@) =~= Seq::<EntryView>::empty());
                while i < cs.len()
                    invariant
                        i <= cs@.len(),
                        store.page(r as nat) == Page::Branch(*cs),
                        children_valid(store, cs@),
                        entries_view(out@) == flatten(store, cs@.subrange(0, i as int)),
                    decreases cs@.len() - i,
                {
                    let leaf = read_leaf(store, cs[i]);
                    append_copies(&mut out, leaf, 0, leaf.len());
                    assert(entries_view(leaf@).subrange(0, leaf@.len() as int) =~= entries_view(leaf@));
                    assert(cs@.subrange(0, i + 1).drop_last() =~= cs@.subrange(0, i as int));
                    i = i + 1;
                }
                assert(cs@.subrange(0, cs@.len() as int) =~= cs@);
            },
        },
    }
    out
}

/// The child of a branch whose leaf holds `key`, or would hold it.
fn find_child(store: &PageStore, o: KeyOrder, cs: &Vec<PageNumber>, key: &[u8]) -> (li: usize)
    requires
        cs@.len() > 0,
        children_valid(store, cs@),
    ensures
        li < cs@.len(),
        li > 0 ==> key_cmp(o, leaf_of(store, cs@[li as int])[0].0, key@) <= 0,
        li + 1 < cs@.len() ==> key_cmp(o, leaf_of(store, cs@[li + 1])[0].0, key@) > 0,
{
    let mut li: usize = 0;
    while li < cs.len() - 1
        invariant
            li < cs@.len(),
            children_valid(store, cs@),
            li > 0 ==> key_cmp(o, leaf_of(store, cs@[li as int])[0].0, key@) <= 0,
        decreases cs@.len() - li,
    {
        let leaf = read_leaf(store, cs[li + 1]);
        assert(cs@[li + 1] < store.num_pages());
        if compare(o, leaf[0].key.as_slice(), key) > 0 {
            return li;
        }
        li = li + 1;
    }
    li
}

/// The pieces of ordered contents around child `li`, with the key placed inside it.
proof fn lemma_child_piece(store: &PageStore, o: KeyOrder, cs: Seq<PageNumber>, li: int, k: Seq<u8>)
    requires
        0 <= li < cs.len(),
        children_valid(store, cs),
        sorted(o, flatten(store, cs)),
        li > 0 ==> key_cmp(o, leaf_of(store, cs[li])[0].0, k) <= 0,
        li + 1 < cs.len() ==> key_cmp(o, leaf_of(store, cs[li + 1])[0].0, k) > 0,
    ensures
        ({
            let a = flatten(store, cs.subrange(0, li));
            let b = leaf_of(store, cs[li]);
            let c = flatten(store, cs.subrange(li + 1, cs.len() as int));
            &&& flatten(store, cs) == a + b + c
            &&& b.len() > 0
            &&& a.len() > 0 ==> key_cmp(o, b[0].0, k) <= 0
            &&& c.len() > 0 ==> key_cmp(o, c[0].0, k) > 0
        }),
{
    lemma_flatten_split(store, cs, li);
    assert(cs[li] < store.num_pages());
    let rest = cs.subrange(li + 1, cs.len() as int);
    if rest.len() > 0 {
        lemma_flatten_split(store, rest, 0);
        assert(rest[0] == cs[li + 1]);
        assert(cs[li + 1] < store.num_pages());
        assert(rest.subrange(0, 0) =~= Seq::<PageNumber>::empty());
        let b1 = leaf_of(store, rest[0]);
        assert((Seq::<EntryView>::empty() + b1 + flatten(store, rest.subrange(1, rest.len() as int)))[0] == b1[0]);
    }
    if li == 0 {
        assert(cs.subrange(0, 0) =~= Seq::<PageNumber>::empty());
    }
}

/// The value stored under `key` in the tree at `root`, found by descent.
pub fn tree_get(store: &PageStore, o: KeyOrder, root: Option<PageNumber>, key: &[u8]) -> (r: Option<Vec<u8>>)
    requires
        tree_valid(store, o, root),
    ensures
        opt_view(r) == lookup(o, tree_contents(store, root), key@),
{
    let leaf = match root {
        None => {
            return None;
        },
        Some(r) => match store.read(r) {
            Page::Leaf(v) => v,
            Page::Branch(cs) => {
                let li = find_child(store, o, cs, key);
                proof {
                    lemma_child_piece(store, o, cs@, li as int, key@);
                    let a = flatten(store, cs@.subrange(0, li as int));
                    let c = flatten(store, cs@.subrange(li + 1, cs@.len() as int));
                    lemma_middle(o, a, leaf_of(store, cs@[li as int]), c, key@, Seq::empty());
                }
                read_leaf(store, cs[li])
            },
        },
    };
    let (at, found) = locate(o, leaf, key);
    if found {
        Some(copy_bytes(leaf[at].value.as_slice()))
    } else {
        None
    }
}

/// Writes ordered entries as one leaf, or as two when they exceed a leaf's capacity.
fn write_leaves(store: &mut PageStore, node: Vec<Entry>) -> (pages: Vec<PageNumber>)
    requires
        node@.len() > 0,
    ensures
        final(store).extends(old(store)),
        1 <= pages@.len() <= 2,
        children_valid(final(store), pages@),
        flatten(final(store), pages@) == entries_view(node@),
        page_set(pages@) == fresh(old(store).num_pages(), final(store).num_pages()),
{
    let mut pages: Vec<PageNumber> = Vec::new();
    let ghost whole = entries_view(node@);
    if node.len() <= LEAF_CAPACITY {
        let p: PageNumber = store.allocate(Page::Leaf(node));
        pages.push(p);
        proof { lemma_flatten_one(store, p); }
        assert(pages@ =~= seq![p]);
        proof {
            lemma_page_set_one(p);
            assert(set![p] =~= fresh(p as nat, store.num_pages()));
        }
    } else {
        let half: usize = node.len() / 2;
        let mut left: Vec<Entry> = Vec::new();
        append_copies(&mut left, &node, 0, half);
        let mut right: Vec<Entry> = Vec::new();
        append_copies(&mut right, &node, half, node.len());
        let ghost s0 = *store;
        let p: PageNumber = store.allocate(Page::Leaf(left));
        let ghost s1 = *store;
        let q: PageNumber = store.allocate(Page::Leaf(right));
        proof { crate::store::lemma_extends_trans(&s0, &s1, store); }
        pages.push(p);
        pages.push(q);
        assert(pages@ =~= seq![p, q]);
        proof {
            assert(seq![p, q] =~= seq![p] + seq![q]);
            lemma_page_set_concat(seq![p], seq![q]);
            lemma_page_set_one(p);
            lemma_page_set_one(q);
            assert(set![p] + set![q] =~= fresh(p as nat, store.num_pages()));
        }
        proof {
            assert(seq![p, q].drop_last() =~= seq![p]);
            lemma_flatten_one(store, p);
            assert(store.page(p as nat) == s1.page(p as nat));
            assert(whole =~= whole.subrange(0, half as int) + whole.subrange(half as int, whole.len() as int));
            assert(entries_view(left@) =~= Seq::<EntryView>::empty() + whole.subrange(0, half as int));
            assert(entries_view(right@) =~= Seq::<EntryView>::empty() + whole.subrange(half as int, whole.len() as int));
        }
    }
    pages
}

pub proof fn lemma_children_stable(before: &PageStore, after: &PageStore, cs: Seq<PageNumber>)
    requires
        after.extends(before),
        children_valid(before, cs),
    ensures
        children_valid(after, cs),
        flatten(after, cs) == flatten(before, cs),
{
    assert forall|i: int| 0 <= i < cs.len() implies {
        &&& #[trigger] cs[i] < after.num_pages()
        &&& after.page(cs[i] as nat) is Leaf
        &&& leaf_of(after, cs[i]).len() > 0
    } by {
        assert(cs[i] < before.num_pages());
        assert(after.page(cs[i] as nat) == before.page(cs[i] as nat));
    }
    assert forall|i: int| 0 <= i < cs.len() implies #[trigger] cs[i] < before.num_pages() by {}
    lemma_flatten_stable(before, after, cs);
}

pub proof fn lemma_children_concat(store: &PageStore, a: Seq<PageNumber>, b: Seq<PageNumber>)
    requires
        children_valid(store, a),
        children_valid(store, b),
    ensures
        children_valid(store, a + b),
        flatten(store, a + b) == flatten(store, a) + flatten(store, b),
{
    assert forall|i: int| 0 <= i < (a + b).len() implies {
        &&& #[trigger] (a + b)[i] < store.num_pages()
        &&& store.page((a + b)[i] as nat) is Leaf
        &&& leaf_of(store, (a + b)[i]).len() > 0
    } by {
        if i < a.len() {
            assert((a + b)[i] == a[i]);
        } else {
            assert((a + b)[i] == b[i - a.len()]);
        }
    }
    lemma_flatten_concat(store, a, b);
}

pub proof fn lemma_children_subrange(store: &PageStore, cs: Seq<PageNumber>, x: int, y: int)
    requires
        children_valid(store, cs),
        0 <= x <= y <= cs.len(),
    ensures
        children_valid(store, cs.subrange(x, y)),
{
    assert forall|i: int| 0 <= i < cs.subrange(x, y).len() implies {
        &&& #[trigger] cs.subrange(x, y)[i] < store.num_pages()
        &&& store.page(cs.subrange(x, y)[i] as nat) is Leaf
        &&& leaf_of(store, cs.subrange(x, y)[i]).len() > 0
    } by {
        assert(cs.subrange(x, y)[i] == cs[x + i]);
    }
}

/// A root over the leaves `pages`: the leaf itself when there is one, else a new branch.
fn root_over(store: &mut PageStore, pages: Vec<PageNumber>) -> (r: PageNumber)
    requires
        pages@.len() >= 1,
        children_valid(old(store), pages@),
    ensures
        final(store).extends(old(store)),
        shape_valid(final(store), Some(r)),
        tree_contents(final(store), Some(r)) == flatten(old(store), pages@),
        tree_pages(final(store), Some(r)) == page_set(pages@) + fresh(old(store).num_pages(), final(store).num_pages()),
{
    if pages.len() == 1 {
        let p: PageNumber = pages[0];
        proof {
            assert(pages@ =~= seq![p]);
            lemma_flatten_one(store, p);
            assert(p < store.num_pages());
            lemma_page_set_one(p);
            assert(fresh(store.num_pages(), store.num_pages()) =~= Set::<PageNumber>::empty());
            assert(set![p] + Set::<PageNumber>::empty() =~= set![p]);
        }
        p
    } else {
        let ghost before = *store;
        let ghost cs = pages@;
        let r: PageNumber = store.allocate(Page::Branch(pages));
        proof {
            lemma_children_stable(&before, store, cs);
            assert(fresh(before.num_pages(), store.num_pages()) =~= set![r]);
            assert(set![r] + page_set(cs) =~= page_set(cs) + set![r]);
        }
        r
    }
}

/// The pages a rewrite of the tree at `root` gave up, all of them pages written before.
pub open spec fn old_pages(store: &PageStore, given: Seq<PageNumber>) -> bool {
    forall|i: int| 0 <= i < given.len() ==> #[trigger] given[i] < store.num_pages()
}


/// Writes ordered entries as the whole tree: no root when there are none.
fn leaf_rewrite(store: &mut PageStore, node: Vec<Entry>) -> (r: Option<PageNumber>)
    ensures
        final(store).extends(old(store)),
        shape_valid(final(store), r),
        tree_contents(final(store), r) == entries_view(node@),
        tree_pages(final(store), r) == fresh(old(store).num_pages(), final(store).num_pages()),
{
    if node.len() == 0 {
        assert(entries_view(node@) =~= Seq::<EntryView>::empty());
        assert(fresh(store.num_pages(), store.num_pages()) =~= Set::<PageNumber>::empty());
        return None;
    }
    let ghost s0 = *store;
    let pages = write_leaves(store, node);
    let ghost s1 = *store;
    let r: PageNumber = root_over(store, pages);
    proof {
        crate::store::lemma_extends_trans(&s0, &s1, store);
        assert(fresh(s0.num_pages(), s1.num_pages()) + fresh(s1.num_pages(), store.num_pages())
            =~= fresh(s0.num_pages(), store.num_pages()));
    }
    Some(r)
}

/// Writes a new branch: the leaves `left`, then ordered entries, then the leaves `right`.
fn branch_rewrite(store: &mut PageStore, left: Vec<PageNumber>, node: Vec<Entry>, right: Vec<PageNumber>) -> (r: PageNumber)
    requires
        children_valid(old(store), left@),
        children_valid(old(store), right@),
        left@.len() + right@.len() >= 1,
    ensures
        final(store).extends(old(store)),
        shape_valid(final(store), Some(r)),
        tree_contents(final(store), Some(r)) == flatten(old(store), left@) + entries_view(node@) + flatten(old(store), right@),
        tree_pages(final(store), Some(r)) == page_set(left@) + page_set(right@) + fresh(old(store).num_pages(), final(store).num_pages()),
{
    let ghost s0 = *store;
    let ghost lv = left@;
    let ghost rv = right@;
    let mut all = left;
    if node.len() == 0 {
        proof {
            lemma_children_concat(store, lv, rv);
            assert(entries_view(node@) =~= Seq::<EntryView>::empty());
            assert(flatten(store, lv) + Seq::<EntryView>::empty() =~= flatten(store, lv));
        }
        copy_pages(&right, 0, right.len(), &mut all);
        assert(rv.subrange(0, rv.len() as int) =~= rv);
        proof { lemma_page_set_concat(lv, rv); }
        let r: PageNumber = root_over(store, all);
        r
    } else {
        let pages = write_leaves(store, node);
        let ghost s1 = *store;
        proof {
            lemma_children_stable(&s0, store, lv);
            lemma_children_stable(&s0, store, rv);
            lemma_children_concat(store, lv, pages@);
            lemma_children_concat(store, lv + pages@, rv);
        }
        copy_pages(&pages, 0, pages.len(), &mut all);
        copy_pages(&right, 0, right.len(), &mut all);
        assert(pages@.subrange(0, pages@.len() as int) =~= pages@);
        assert(rv.subrange(0, rv.len() as int) =~= rv);
        proof {
            lemma_page_set_concat(lv, pages@);
            lemma_page_set_concat(lv + pages@, rv);
        }
        let r: PageNumber = root_over(store, all);
        proof {
            crate::store::lemma_extends_trans(&s0, &s1, store);
            assert(page_set(lv) + page_set(pages@) + page_set(rv) + fresh(s1.num_pages(), store.num_pages())
                =~= page_set(lv) + page_set(rv) + fresh(s0.num_pages(), store.num_pages()));
        }
        r
    }
}

/// Like `branch_rewrite`, but a leaf left under half full takes in its right sibling;
/// if the two overflow a leaf they are shared out again over two. Returns the new root
/// and the sibling page given up, if one was.
fn branch_rewrite_merging(store: &mut PageStore, left: Vec<PageNumber>, node: Vec<Entry>, right: Vec<PageNumber>)
    -> (r: (Option<PageNumber>, Vec<PageNumber>))
    requires
        children_valid(old(store), left@),
        children_valid(old(store), right@),
        left@.len() + right@.len() >= 1,
    ensures
        final(store).extends(old(store)),
        shape_valid(final(store), r.0),
        tree_contents(final(store), r.0) == flatten(old(store), left@) + entries_view(node@) + flatten(old(store), right@),
        old_pages(old(store), r.1@),
        tree_pages(final(store), r.0) + page_set(r.1@) == page_set(left@) + page_set(right@) + fresh(old(store).num_pages(), final(store).num_pages()),
        page_set(r.1@).subset_of(page_set(right@)),
{
    let mut given: Vec<PageNumber> = Vec::new();
    if node.len() < LEAF_CAPACITY / 2 && right.len() > 0 {
        let sib: PageNumber = right[0];
        let ghost rv = right@;
        let mut rest: Vec<PageNumber> = Vec::new();
        copy_pages(&right, 1, right.len(), &mut rest);
        proof {
            lemma_flatten_split(store, rv, 0);
            assert(rv.subrange(0, 0) =~= Seq::<PageNumber>::empty());
            assert(rest@ =~= rv.subrange(1, rv.len() as int));
            lemma_children_subrange(store, rv, 1, rv.len() as int);
            assert(rv[0] < store.num_pages());
        }
        let ghost nv = entries_view(node@);
        let mut merged = node;
        let sl = read_leaf(store, sib);
        append_copies(&mut merged, sl, 0, sl.len());
        assert(entries_view(sl@).subrange(0, sl@.len() as int) =~= entries_view(sl@));
        given.push(sib);
        assert(given@ =~= seq![sib]);
        proof {
            assert(rv =~= seq![sib] + rest@);
            lemma_page_set_concat(seq![sib], rest@);
            lemma_page_set_one(sib);
        }
        let ghost a = flatten(store, left@);
        let ghost c = flatten(store, rest@);
        let ghost l = leaf_of(store, sib);
        assert(a + nv + (Seq::<EntryView>::empty() + l + c) =~= a + (nv + l) + c);
        if left.len() == 0 && rest.len() == 0 {
            assert(left@ =~= Seq::<PageNumber>::empty());
            assert(rest@ =~= Seq::<PageNumber>::empty());
            assert(Seq::<EntryView>::empty() + (nv + l) + Seq::<EntryView>::empty() =~= nv + l);
            let nr = leaf_rewrite(store, merged);
            proof {
                assert(page_set(left@) =~= Set::<PageNumber>::empty());
                assert(page_set(rest@) =~= Set::<PageNumber>::empty());
                assert(tree_pages(store, nr) + set![sib] =~= page_set(left@) + page_set(rv) + fresh(old(store).num_pages(), store.num_pages()));
            }
            (nr, given)
        } else {
            let ghost lv = left@;
            let ghost restv = rest@;
            let nr = branch_rewrite(store, left, merged, rest);
            proof {
                assert(tree_pages(store, Some(nr)) + set![sib] =~= page_set(lv) + page_set(rv) + fresh(old(store).num_pages(), store.num_pages()));
            }
            (Some(nr), given)
        }
    } else {
        let nr = branch_rewrite(store, left, node, right);
        assert(given@ =~= Seq::<PageNumber>::empty());
        assert(page_set(given@) =~= Set::<PageNumber>::empty());
        assert(tree_pages(store, Some(nr)) + page_set(given@) =~= tree_pages(store, Some(nr)));
        (Some(nr), given)
    }
}

/// The leaf of branch `r` where `key` belongs, and copies of the children before and after it.
fn branch_split(store: &PageStore, o: KeyOrder, r: PageNumber, key: &[u8]) -> (res: (PageNumber, Vec<PageNumber>, Vec<PageNumber>))
    requires
        tree_valid(store, o, Some(r)),
        store.page(r as nat) is Branch,
    ensures
        res.0 < store.num_pages(),
        store.page(res.0 as nat) is Leaf,
        children_valid(store, res.1@),
        children_valid(store, res.2@),
        res.1@.len() + res.2@.len() >= 1,
        tree_pages(store, Some(r)) == set![r] + page_set(res.1@) + set![res.0] + page_set(res.2@),
        ({
            let a = flatten(store, res.1@);
            let b = leaf_of(store, res.0);
            let c = flatten(store, res.2@);
            &&& tree_contents(store, Some(r)) == a + b + c
            &&& sorted(o, a + b + c)
            &&& b.len() > 0
            &&& a.len() > 0 ==> key_cmp(o, b[0].0, key@) <= 0
            &&& c.len() > 0 ==> key_cmp(o, c[0].0, key@) > 0
        }),
{
    match store.read(r) {
        Page::Branch(cs) => {
            let li = find_child(store, o, cs, key);
            let child: PageNumber = cs[li];
            let n: usize = cs.len();
            proof {
                lemma_child_piece(store, o, cs@, li as int, key@);
                lemma_children_subrange(store, cs@, 0, li as int);
                lemma_children_subrange(store, cs@, li + 1, cs@.len() as int);
            }
            let mut left: Vec<PageNumber> = Vec::new();
            copy_pages(cs, 0, li, &mut left);
            let mut right: Vec<PageNumber> = Vec::new();
            copy_pages(cs, li + 1, n, &mut right);
            assert(left@ =~= cs@.subrange(0, li as int));
            assert(right@ =~= cs@.subrange(li + 1, cs@.len() as int));
            proof {
                assert(cs@ =~= left@ + seq![child] + right@);
                lemma_page_set_concat(left@ + seq![child], right@);
                lemma_page_set_concat(left@, seq![child]);
                lemma_page_set_one(child);
                assert(set![r] + page_set(cs@) =~= set![r] + page_set(left@) + set![child] + page_set(right@));
            }
            (child, left, right)
        },
        Page::Leaf(_) => vstd::pervasive::unreached(),
    }
}

/// Whether page `r` is a leaf.
fn is_leaf(store: &PageStore, r: PageNumber) -> (b: bool)
    requires
        r < store.num_pages(),
    ensures
        b == (store.page(r as nat) is Leaf),
{
    match store.read(r) {
        Page::Leaf(_) => true,
        Page::Branch(_) => false,
    }
}

/// Maps `key` to `value` in the tree at `root`, copying on write.
/// Returns the new root, the pages given up, and the value replaced.
pub fn tree_insert(store: &mut PageStore, o: KeyOrder, root: Option<PageNumber>, key: &[u8], value: &[u8])
    -> (r: (Option<PageNumber>, Vec<PageNumber>, Option<Vec<u8>>))
    requires
        tree_valid(old(store), o, root),
    ensures
        final(store).extends(old(store)),
        tree_valid(final(store), o, r.0),
        tree_contents(final(store), r.0) == inserted(o, tree_contents(old(store), root), key@, value@),
        opt_view(r.2) == lookup(o, tree_contents(old(store), root), key@),
        old_pages(old(store), r.1@),
        tree_pages(final(store), r.0) + page_set(r.1@) == tree_pages(old(store), root) + fresh(old(store).num_pages(), final(store).num_pages()),
        page_set(r.1@).subset_of(tree_pages(old(store), root)),
{
    let ghost s = tree_contents(store, root);
    proof { lemma_inserted_sorted(o, s, key@, value@); }
    let mut given: Vec<PageNumber> = Vec::new();
    let r: PageNumber = match root {
        None => {
            let (node, prior) = insert_entry(o, &Vec::new(), key, value);
            assert(entries_view(Seq::<Entry>::empty()) =~= Seq::<EntryView>::empty());
            let nr = leaf_rewrite(store, node);
            assert(page_set(given@) =~= Set::<PageNumber>::empty());
            assert(tree_pages(store, nr) + page_set(given@) =~= Set::<PageNumber>::empty() + tree_pages(store, nr));
            return (nr, given, prior);
        },
        Some(r) => r,
    };
    given.push(r);
    proof {
        assert(given@ =~= seq![r]);
        lemma_page_set_one(r);
    }
    let ghost s0 = *store;
    if is_leaf(store, r) {
        let (node, prior) = insert_entry(o, read_leaf(store, r), key, value);
        let nr = leaf_rewrite(store, node);
        assert(tree_pages(store, nr) + page_set(given@) =~= tree_pages(&s0, root) + fresh(s0.num_pages(), store.num_pages()));
        (nr, given, prior)
    } else {
        let (child, left, right) = branch_split(store, o, r, key);
        proof { lemma_middle(o, flatten(store, left@), leaf_of(store, child), flatten(store, right@), key@, value@); }
        let (node, prior) = insert_entry(o, read_leaf(store, child), key, value);
        given.push(child);
        proof {
            assert(given@ =~= seq![r] + seq![child]);
            lemma_page_set_concat(seq![r], seq![child]);
            lemma_page_set_one(child);
        }
        let ghost lv = left@;
        let ghost rv = right@;
        let nr = branch_rewrite(store, left, node, right);
        assert(tree_pages(store, Some(nr)) + page_set(given@) =~= tree_pages(&s0, root) + fresh(s0.num_pages(), store.num_pages()));
        (Some(nr), given, prior)
    }
}

/// Removes `key` from the tree at `root`, copying on write.
/// Returns the new root, the pages given up, and the value removed.
pub fn tree_remove(store: &mut PageStore, o: KeyOrder, root: Option<PageNumber>, key: &[u8])
    -> (r: (Option<PageNumber>, Vec<PageNumber>, Option<Vec<u8>>))
    requires
        tree_valid(old(store), o, root),
    ensures
        final(store).extends(old(store)),
        tree_valid(final(store), o, r.0),
        tree_contents(final(store), r.0) == removed(o, tree_contents(old(store), root), key@),
        opt_view(r.2) == lookup(o, tree_contents(old(store), root), key@),
        old_pages(old(store), r.1@),
        tree_pages(final(store), r.0) + page_set(r.1@) == tree_pages(old(store), root) + fresh(old(store).num_pages(), final(store).num_pages()),
        page_set(r.1@).subset_of(tree_pages(old(store), root)),
{
    let ghost s = tree_contents(store, root);
    proof { lemma_removed_sorted(o, s, key@); }
    let mut given: Vec<PageNumber> = Vec::new();
    let r: PageNumber = match root {
        None => {
            assert(page_set(given@) =~= Set::<PageNumber>::empty());
            assert(Set::<PageNumber>::empty() + Set::<PageNumber>::empty() =~= Set::<PageNumber>::empty() + fresh(store.num_pages(), store.num_pages()));
            return (None, given, None);
        },
        Some(r) => r,
    };
    given.push(r);
    proof {
        assert(given@ =~= seq![r]);
        lemma_page_set_one(r);
    }
    let ghost s0 = *store;
    if is_leaf(store, r) {
        let (node, prior) = remove_entry(o, read_leaf(store, r), key);
        if prior.is_none() {
            assert(page_set(Seq::<PageNumber>::empty()) =~= Set::<PageNumber>::empty());
            assert(fresh(s0.num_pages(), s0.num_pages()) =~= Set::<PageNumber>::empty());
            assert(tree_pages(&s0, root) + Set::<PageNumber>::empty() =~= tree_pages(&s0, root));
            return (root, Vec::new(), None);
        }
        let nr = leaf_rewrite(store, node);
        assert(tree_pages(store, nr) + page_set(given@) =~= tree_pages(&s0, root) + fresh(s0.num_pages(), store.num_pages()));
        (nr, given, prior)
    } else {
        let (child, left, right) = branch_split(store, o, r, key);
        proof { lemma_middle(o, flatten(store, left@), leaf_of(store, child), flatten(store, right@), key@, Seq::empty()); }
        let (node, prior) = remove_entry(o, read_leaf(store, child), key);
        if prior.is_none() {
            assert(page_set(Seq::<PageNumber>::empty()) =~= Set::<PageNumber>::empty());
            assert(fresh(s0.num_pages(), s0.num_pages()) =~= Set::<PageNumber>::empty());
            assert(tree_pages(&s0, root) + Set::<PageNumber>::empty() =~= tree_pages(&s0, root));
            return (root, Vec::new(), None);
        }
        given.push(child);
        proof {
            assert(given@ =~= seq![r] + seq![child]);
            lemma_page_set_concat(seq![r], seq![child]);
            lemma_page_set_one(child);
        }
        let ghost lv = left@;
        let ghost rv = right@;
        let ghost g1 = given@;
        let (nr, merged) = branch_rewrite_merging(store, left, node, right);
        let mut merged = merged;
        let ghost g0 = given@;
        let ghost merged_v = merged@;
        given.append(&mut merged);
        proof {
            assert forall|i: int| 0 <= i < given@.len() implies #[trigger] given@[i] < s0.num_pages() by {
                if i >= g0.len() {
                    assert(given@[i] == merged_v[i - g0.len()]);
                }
            }
            assert(given@ =~= g1 + merged_v);
            lemma_page_set_concat(g1, merged_v);
            let m = page_set(merged_v);
            let f = fresh(s0.num_pages(), store.num_pages());
            assert(page_set(g1) == set![r] + set![child]);
            assert(tree_pages(store, nr) + m == page_set(lv) + page_set(rv) + f);
            assert(tree_pages(&s0, root) == set![r] + page_set(lv) + set![child] + page_set(rv));
            assert(page_set(given@) == set![r] + set![child] + m);
            let t = tree_pages(store, nr);
            assert forall|x: PageNumber| (t + (set![r] + set![child] + m)).contains(x)
                <==> ((set![r] + page_set(lv) + set![child] + page_set(rv)) + f).contains(x) by {
                assert((t + m).contains(x) == (page_set(lv) + page_set(rv) + f).contains(x));
            }
            assert(t + (set![r] + set![child] + m) =~= (set![r] + page_set(lv) + set![child] + page_set(rv)) + f);
            assert(page_set(given@).subset_of(tree_pages(&s0, root)));
        }
        (nr, given, prior)
    }
}

} // verus!
