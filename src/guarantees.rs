//! What holds across several operations of the engine.
use vstd::prelude::*;
use crate::order::{KeyOrder, lemma_key_cmp_order};
use crate::node::{EntryView, rank, lookup, inserted, removed, lemma_rank_bounds, lemma_rank_at};
use crate::store::{PageStore, PageNumber};
use crate::tree::{tree_contents, tree_valid, tree_pages, page_set, lemma_tree_stable};
use crate::table::Table;
use crate::transaction::{without, lemma_without_contains};
use crate::bounds::{KeyRange, in_range, select, first_in, last_in, lemma_first_exists, lemma_last_exists};

verus! {

/// A value just stored under a key is what a lookup of that key then finds.
pub proof fn lemma_insert_then_lookup(o: KeyOrder, s: Seq<EntryView>, k: Seq<u8>, v: Seq<u8>)
    ensures
        lookup(o, inserted(o, s, k, v), k) == Some(v),
{
    lemma_rank_bounds(o, s, k);
    let p = rank(o, s, k) as int;
    let r = inserted(o, s, k, v);
    assert forall|j: int| 0 <= j < p implies crate::order::key_cmp(o, #[trigger] r[j].0, k) < 0 by {
        assert(r[j] == s[j]);
    }
    assert(r[p] == (k, v));
    lemma_key_cmp_order(o, k, k, k);
    lemma_rank_at(o, r, k, p);
}

/// Removing a key just added, that was absent before, gives back the contents as they were;
/// so keys added one by one and removed in reverse leave the table as it started.
pub proof fn lemma_insert_then_remove(o: KeyOrder, s: Seq<EntryView>, k: Seq<u8>, v: Seq<u8>)
    requires
        lookup(o, s, k) is None,
    ensures
        removed(o, inserted(o, s, k, v), k) == s,
{
    lemma_insert_then_lookup(o, s, k, v);
    lemma_rank_bounds(o, s, k);
    let p = rank(o, s, k) as int;
    let r = inserted(o, s, k, v);
    assert forall|j: int| 0 <= j < p implies crate::order::key_cmp(o, #[trigger] r[j].0, k) < 0 by {
        assert(r[j] == s[j]);
    }
    lemma_key_cmp_order(o, k, k, k);
    lemma_rank_at(o, r, k, p);
    assert(r.remove(p) =~= s);
}

/// A tree read through a root sees the same entries in any later state of the store:
/// edits only ever add pages, so a reader's snapshot cannot change under it.
pub proof fn lemma_snapshot_stable(before: &PageStore, after: &PageStore, o: KeyOrder, root: Option<PageNumber>)
    requires
        tree_valid(before, o, root),
        after.extends(before),
    ensures
        tree_valid(after, o, root),
        tree_contents(after, root) == tree_contents(before, root),
{
    lemma_tree_stable(before, after, o, root);
}

/// While a name is open a second open of it is refused; once it is closed it can be opened again.
pub proof fn lemma_single_writer(names: Seq<Seq<u8>>, name: Seq<u8>)
    ensures
        names.push(name).contains(name),
        !without(names.push(name), name).contains(name),
{
    assert(names.push(name)[names.len() as int] == name);
    lemma_without_contains(names.push(name), name, name);
}

/// A range with no entry of `s` in it selects nothing.
pub proof fn lemma_select_none(o: KeyOrder, r: &KeyRange, s: Seq<EntryView>)
    requires
        forall|j: int| 0 <= j < s.len() ==> !in_range(o, r, #[trigger] s[j].0),
    ensures
        select(o, r, s) == Seq::<EntryView>::empty(),
    decreases s.len(),
{
    if s.len() > 0 {
        let t = s.drop_last();
        assert forall|j: int| 0 <= j < t.len() implies !in_range(o, r, #[trigger] t[j].0) by {
            assert(t[j] == s[j]);
        }
        lemma_select_none(o, r, t);
        assert(!in_range(o, r, s[s.len() - 1].0));
    }
}

proof fn lemma_select_remove_first(o: KeyOrder, r: &KeyRange, s: Seq<EntryView>, i: int)
    requires
        0 <= i < s.len(),
        in_range(o, r, s[i].0),
        forall|j: int| 0 <= j < i ==> !in_range(o, r, #[trigger] s[j].0),
    ensures
        select(o, r, s).len() > 0,
        select(o, r, s)[0] == s[i],
        select(o, r, s.remove(i)) == select(o, r, s).drop_first(),
    decreases s.len(),
{
    let t = s.drop_last();
    if i == s.len() - 1 {
        assert forall|j: int| 0 <= j < t.len() implies !in_range(o, r, #[trigger] t[j].0) by {
            assert(t[j] == s[j]);
        }
        lemma_select_none(o, r, t);
        assert(s.remove(i) =~= t);
        assert(select(o, r, s) =~= seq![s[i]]);
        assert(select(o, r, s).drop_first() =~= Seq::<EntryView>::empty());
    } else {
        assert forall|j: int| 0 <= j < i implies !in_range(o, r, #[trigger] t[j].0) by {
            assert(t[j] == s[j]);
        }
        assert(t[i] == s[i]);
        lemma_select_remove_first(o, r, t, i);
        let u = s.remove(i);
        assert(u.drop_last() =~= t.remove(i));
        assert(u.last() == s.last());
        let st = select(o, r, t);
        if in_range(o, r, s.last().0) {
            assert(select(o, r, s) == st.push(s.last()));
            assert(st.push(s.last()).drop_first() =~= st.drop_first().push(s.last()));
        }
    }
}

proof fn lemma_select_remove_last(o: KeyOrder, r: &KeyRange, s: Seq<EntryView>, i: int)
    requires
        0 <= i < s.len(),
        in_range(o, r, s[i].0),
        forall|j: int| i < j < s.len() ==> !in_range(o, r, #[trigger] s[j].0),
    ensures
        select(o, r, s).len() > 0,
        select(o, r, s).last() == s[i],
        select(o, r, s.remove(i)) == select(o, r, s).drop_last(),
    decreases s.len(),
{
    let t = s.drop_last();
    if i == s.len() - 1 {
        assert(s.remove(i) =~= t);
        assert(select(o, r, s).drop_last() =~= select(o, r, t));
    } else {
        assert forall|j: int| i < j < t.len() implies !in_range(o, r, #[trigger] t[j].0) by {
            assert(t[j] == s[j]);
        }
        assert(t[i] == s[i]);
        assert(!in_range(o, r, s[s.len() - 1].0));
        lemma_select_remove_last(o, r, t, i);
        let u = s.remove(i);
        assert(u.drop_last() =~= t.remove(i));
        assert(u.last() == s.last());
    }
}

/// Draining from the front takes exactly the first entry of the range: what the range
/// still selects afterwards is the rest, in the same order.
pub proof fn lemma_drain_front_step(o: KeyOrder, r: &KeyRange, s: Seq<EntryView>)
    requires
        first_in(o, r, s) is Some,
    ensures
        select(o, r, s).len() > 0,
        s[first_in(o, r, s)->0] == select(o, r, s)[0],
        select(o, r, s.remove(first_in(o, r, s)->0)) == select(o, r, s).drop_first(),
{
    reveal(first_in);
    let w = choose|i: int| 0 <= i < s.len() && in_range(o, r, #[trigger] s[i].0);
    lemma_first_exists(o, r, s, w);
    lemma_select_remove_first(o, r, s, first_in(o, r, s)->0);
}

/// Draining from the back takes exactly the last entry of the range: what the range
/// still selects afterwards is the rest, in the same order.
pub proof fn lemma_drain_back_step(o: KeyOrder, r: &KeyRange, s: Seq<EntryView>)
    requires
        last_in(o, r, s) is Some,
    ensures
        select(o, r, s).len() > 0,
        s[last_in(o, r, s)->0] == select(o, r, s).last(),
        select(o, r, s.remove(last_in(o, r, s)->0)) == select(o, r, s).drop_last(),
{
    reveal(last_in);
    let w = choose|i: int| 0 <= i < s.len() && in_range(o, r, #[trigger] s[i].0);
    lemma_last_exists(o, r, s, w);
    lemma_select_remove_last(o, r, s, last_in(o, r, s)->0);
}

/// A range that selects nothing has nothing to drain.
pub proof fn lemma_drain_done(o: KeyOrder, r: &KeyRange, s: Seq<EntryView>)
    requires
        first_in(o, r, s) is None || last_in(o, r, s) is None,
    ensures
        select(o, r, s) == Seq::<EntryView>::empty(),
{
    reveal(first_in);
    reveal(last_in);
    lemma_select_none(o, r, s);
}

/// The contents after `k` entries of `r` were drained from the front.
pub open spec fn drained(o: KeyOrder, r: &KeyRange, s: Seq<EntryView>, k: nat) -> Seq<EntryView>
    decreases k,
{
    if k == 0 {
        s
    } else {
        let t = drained(o, r, s, (k - 1) as nat);
        match first_in(o, r, t) {
            Some(i) => t.remove(i),
            None => t,
        }
    }
}

/// Draining `k` of the `n` entries in a range and stopping there leaves exactly the other
/// `n - k` entries of the range, in their original order.
pub proof fn lemma_drain_partial(o: KeyOrder, r: &KeyRange, s: Seq<EntryView>, k: nat)
    requires
        k <= select(o, r, s).len(),
    ensures
        select(o, r, drained(o, r, s, k)) == select(o, r, s).subrange(k as int, select(o, r, s).len() as int),
    decreases k,
{
    let n = select(o, r, s).len() as int;
    if k == 0 {
        assert(select(o, r, s).subrange(0, n) =~= select(o, r, s));
    } else {
        let k1 = (k - 1) as nat;
        lemma_drain_partial(o, r, s, k1);
        let t = drained(o, r, s, k1);
        assert(select(o, r, t).len() > 0);
        if first_in(o, r, t) is None {
            lemma_drain_done(o, r, t);
        }
        lemma_drain_front_step(o, r, t);
        assert(select(o, r, s).subrange(k1 as int, n).drop_first() =~= select(o, r, s).subrange(k as int, n));
    }
}

/// No page leaks: once a table has been emptied, the pages it was opened on and every page
/// it wrote (new leaves, split halves, branches) are exactly the pages it reported freed.
pub proof fn lemma_emptied_table_freed_all(t: &Table, store: &PageStore)
    requires
        t.valid(store),
        t.root_view() is None,
    ensures
        page_set(t.freed_view()) == tree_pages(store, t.origin_view()) + t.written_view(),
{
    assert(page_set(t.freed_view()) + Set::<PageNumber>::empty() =~= page_set(t.freed_view()));
}

} // verus!
