//! Key ranges: open, closed or unbounded at either end, and the entries they select.
use vstd::prelude::*;
use crate::order::{KeyOrder, key_cmp, compare};
use crate::node::{Entry, EntryView, entries_view, copy_entry};

verus! {

/// One end of a key range.
#[derive(Debug)]
pub enum KeyBound {
    Unbounded,
    Included(Vec<u8>),
    Excluded(Vec<u8>),
}

/// A range of keys, from `start` to `end` in the table's order.
#[derive(Debug)]
pub struct KeyRange {
    pub start: KeyBound,
    pub end: KeyBound,
}

/// `k` is not before the lower end.
pub open spec fn after_start(o: KeyOrder, b: &KeyBound, k: Seq<u8>) -> bool {
    match b {
        KeyBound::Unbounded => true,
        KeyBound::Included(x) => key_cmp(o, x@, k) <= 0,
        KeyBound::Excluded(x) => key_cmp(o, x@, k) < 0,
    }
}

/// `k` is not after the upper end.
pub open spec fn before_end(o: KeyOrder, b: &KeyBound, k: Seq<u8>) -> bool {
    match b {
        KeyBound::Unbounded => true,
        KeyBound::Included(x) => key_cmp(o, k, x@) <= 0,
        KeyBound::Excluded(x) => key_cmp(o, k, x@) < 0,
    }
}

pub open spec fn in_range(o: KeyOrder, r: &KeyRange, k: Seq<u8>) -> bool {
    after_start(o, &r.start, k) && before_end(o, &r.end, k)
}

/// The entries of `s` whose keys lie in `r`, in their order in `s`.
pub open spec fn select(o: KeyOrder, r: &KeyRange, s: Seq<EntryView>) -> Seq<EntryView>
    decreases s.len(),
{
    if s.len() == 0 {
        Seq::empty()
    } else {
        let rest = select(o, r, s.drop_last());
        if in_range(o, r, s.last().0) { rest.push(s.last()) } else { rest }
    }
}

/// The position of the first entry of `s` in `r`, if any.
#[verifier::opaque]
pub open spec fn first_in(o: KeyOrder, r: &KeyRange, s: Seq<EntryView>) -> Option<int> {
    if exists|i: int| 0 <= i < s.len() && in_range(o, r, #[trigger] s[i].0) {
        Some(choose|i: int| 0 <= i < s.len() && in_range(o, r, #[trigger] s[i].0)
            && forall|j: int| 0 <= j < i ==> !in_range(o, r, #[trigger] s[j].0))
    } else {
        None
    }
}

/// The position of the last entry of `s` in `r`, if any.
#[verifier::opaque]
pub open spec fn last_in(o: KeyOrder, r: &KeyRange, s: Seq<EntryView>) -> Option<int> {
    if exists|i: int| 0 <= i < s.len() && in_range(o, r, #[trigger] s[i].0) {
        Some(choose|i: int| 0 <= i < s.len() && in_range(o, r, #[trigger] s[i].0)
            && forall|j: int| i < j < s.len() ==> !in_range(o, r, #[trigger] s[j].0))
    } else {
        None
    }
}

/// The whole key space.
pub fn full_range() -> (r: KeyRange)
    ensures
        forall|o: KeyOrder, k: Seq<u8>| in_range(o, &r, k),
{
    KeyRange { start: KeyBound::Unbounded, end: KeyBound::Unbounded }
}

/// Whether `key` lies in `r`.
pub fn contains(o: KeyOrder, r: &KeyRange, key: &[u8]) -> (b: bool)
    ensures
        b == in_range(o, r, key@),
{
    let lo = match &r.start {
        KeyBound::Unbounded => true,
        KeyBound::Included(x) => compare(o, x.as_slice(), key) <= 0,
        KeyBound::Excluded(x) => compare(o, x.as_slice(), key) < 0,
    };
    let hi = match &r.end {
        KeyBound::Unbounded => true,
        KeyBound::Included(x) => compare(o, key, x.as_slice()) <= 0,
        KeyBound::Excluded(x) => compare(o, key, x.as_slice()) < 0,
    };
    lo && hi
}

/// Copies of the entries of `entries` whose keys lie in `r`.
pub fn select_entries(o: KeyOrder, r: &KeyRange, entries: &Vec<Entry>) -> (out: Vec<Entry>)
    ensures
        entries_view(out@) == select(o, r, entries_view(entries@)),
{
    let ghost s = entries_view(entries@);
    let mut out: Vec<Entry> = Vec::new();
    let mut i: usize = 0;
    assert(s.subrange(0, 0) =~= Seq::<EntryView>::empty());
    while i < entries.len()
        invariant
            i <= entries@.len(),
            s == entries_view(entries@),
            entries_view(out@) == select(o, r, s.subrange(0, i as int)),
        decreases entries@.len() - i,
    {
        assert(s.subrange(0, i + 1).drop_last() =~= s.subrange(0, i as int));
        if contains(o, r, entries[i].key.as_slice()) {
            let e = copy_entry(&entries[i]);
            let ghost prev = out@;
            out.push(e);
            assert(entries_view(out@) =~= entries_view(prev).push(e@));
        }
        i = i + 1;
    }
    assert(s.subrange(0, s.len() as int) =~= s);
    out
}

/// Finds the first entry in `r`.
pub fn find_first(o: KeyOrder, r: &KeyRange, entries: &Vec<Entry>) -> (p: Option<usize>)
    ensures
        match p {
            Some(i) => i < entries@.len() && first_in(o, r, entries_view(entries@)) == Some(i as int),
            None => first_in(o, r, entries_view(entries@)).is_none(),
        },
{
    let ghost s = entries_view(entries@);
    let mut i: usize = 0;
    while i < entries.len()
        invariant
            i <= entries@.len(),
            s == entries_view(entries@),
            forall|j: int| 0 <= j < i ==> !in_range(o, r, #[trigger] s[j].0),
        decreases entries@.len() - i,
    {
        if contains(o, r, entries[i].key.as_slice()) {
            proof { lemma_first_in_unique(o, r, s, i as int); }
            return Some(i);
        }
        i = i + 1;
    }
    proof { reveal(first_in); }
    None
}

/// Finds the last entry in `r`.
pub fn find_last(o: KeyOrder, r: &KeyRange, entries: &Vec<Entry>) -> (p: Option<usize>)
    ensures
        match p {
            Some(i) => i < entries@.len() && last_in(o, r, entries_view(entries@)) == Some(i as int),
            None => last_in(o, r, entries_view(entries@)).is_none(),
        },
{
    let ghost s = entries_view(entries@);
    let mut i: usize = entries.len();
    while i > 0
        invariant
            i <= entries@.len(),
            s == entries_view(entries@),
            forall|j: int| i <= j < s.len() ==> !in_range(o, r, #[trigger] s[j].0),
        decreases i,
    {
        if contains(o, r, entries[i - 1].key.as_slice()) {
            proof { lemma_last_in_unique(o, r, s, i - 1); }
            return Some(i - 1);
        }
        i = i - 1;
    }
    proof { reveal(last_in); }
    None
}

pub proof fn lemma_first_in_unique(o: KeyOrder, r: &KeyRange, s: Seq<EntryView>, i: int)
    requires
        0 <= i < s.len(),
        in_range(o, r, s[i].0),
        forall|j: int| 0 <= j < i ==> !in_range(o, r, #[trigger] s[j].0),
    ensures
        first_in(o, r, s) == Some(i),
{
    reveal(first_in);
    let c = choose|c: int| 0 <= c < s.len() && in_range(o, r, #[trigger] s[c].0)
        && forall|j: int| 0 <= j < c ==> !in_range(o, r, #[trigger] s[j].0);
    if c < i {
        assert(!in_range(o, r, s[c].0));
    } else if c > i {
        assert(!in_range(o, r, s[i].0));
    }
}

pub proof fn lemma_last_in_unique(o: KeyOrder, r: &KeyRange, s: Seq<EntryView>, i: int)
    requires
        0 <= i < s.len(),
        in_range(o, r, s[i].0),
        forall|j: int| i < j < s.len() ==> !in_range(o, r, #[trigger] s[j].0),
    ensures
        last_in(o, r, s) == Some(i),
{
    reveal(last_in);
    let c = choose|c: int| 0 <= c < s.len() && in_range(o, r, #[trigger] s[c].0)
        && forall|j: int| c < j < s.len() ==> !in_range(o, r, #[trigger] s[j].0);
    if c < i {
        assert(!in_range(o, r, s[i].0));
    } else if c > i {
        assert(!in_range(o, r, s[c].0));
    }
}

} // verus!

verus! {

/// Some entry in range means a first one.
pub proof fn lemma_first_exists(o: KeyOrder, r: &KeyRange, s: Seq<EntryView>, w: int)
    requires
        0 <= w < s.len(),
        in_range(o, r, s[w].0),
    ensures
        exists|i: int| 0 <= i < s.len() && in_range(o, r, #[trigger] s[i].0)
            && forall|j: int| 0 <= j < i ==> !in_range(o, r, #[trigger] s[j].0),
    decreases w,
{
    if exists|j: int| 0 <= j < w && in_range(o, r, #[trigger] s[j].0) {
        let j = choose|j: int| 0 <= j < w && in_range(o, r, #[trigger] s[j].0);
        lemma_first_exists(o, r, s, j);
    } else {
        assert(forall|j: int| 0 <= j < w ==> !in_range(o, r, #[trigger] s[j].0));
    }
}

/// Some entry in range means a last one.
pub proof fn lemma_last_exists(o: KeyOrder, r: &KeyRange, s: Seq<EntryView>, w: int)
    requires
        0 <= w < s.len(),
        in_range(o, r, s[w].0),
    ensures
        exists|i: int| 0 <= i < s.len() && in_range(o, r, #[trigger] s[i].0)
            && forall|j: int| i < j < s.len() ==> !in_range(o, r, #[trigger] s[j].0),
    decreases s.len() - w,
{
    if exists|j: int| w < j < s.len() && in_range(o, r, #[trigger] s[j].0) {
        let j = choose|j: int| w < j < s.len() && in_range(o, r, #[trigger] s[j].0);
        lemma_last_exists(o, r, s, j);
    } else {
        assert(forall|j: int| w < j < s.len() ==> !in_range(o, r, #[trigger] s[j].0));
    }
}

} // verus!
