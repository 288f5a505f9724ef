//! Tree node contents: strictly ordered key/value entries and their pure edits.
use vstd::prelude::*;
use crate::order::{KeyOrder, key_cmp, compare, lemma_key_cmp_order};

verus! {

/// The abstract form of an entry: encoded key and encoded value.
pub type EntryView = (Seq<u8>, Seq<u8>);

/// One key/value pair stored in a node, both encoded as bytes.
#[derive(Debug)]
pub struct Entry {
    pub key: Vec<u8>,
    pub value: Vec<u8>,
}

impl View for Entry {
    type V = EntryView;

    open spec fn view(&self) -> EntryView {
        (self.key@, self.value@)
    }
}

/// The abstract contents of a node.
pub open spec fn entries_view(v: Seq<Entry>) -> Seq<EntryView> {
    v.map_values(|e: Entry| e@)
}

/// Keys strictly increase under the order.
pub open spec fn sorted(o: KeyOrder, s: Seq<EntryView>) -> bool {
    forall|i: int, j: int| 0 <= i < j < s.len() ==> key_cmp(o, #[trigger] s[i].0, #[trigger] s[j].0) < 0
}

/// The number of leading entries whose key is below `k`: where `k` is, or would go.
pub open spec fn rank(o: KeyOrder, s: Seq<EntryView>, k: Seq<u8>) -> nat
    decreases s.len(),
{
    if s.len() == 0 {
        0
    } else if key_cmp(o, s[0].0, k) < 0 {
        1 + rank(o, s.drop_first(), k)
    } else {
        0
    }
}

/// Whether `k` is the key of an entry, found at its rank.
pub open spec fn present(o: KeyOrder, s: Seq<EntryView>, k: Seq<u8>) -> bool {
    rank(o, s, k) < s.len() && s[rank(o, s, k) as int].0 == k
}

/// The value stored under `k`, if any.
pub open spec fn lookup(o: KeyOrder, s: Seq<EntryView>, k: Seq<u8>) -> Option<Seq<u8>> {
    if present(o, s, k) {
        Some(s[rank(o, s, k) as int].1)
    } else {
        None
    }
}

/// The contents after mapping `k` to `v`: replaced in place, or placed at its rank.
pub open spec fn inserted(o: KeyOrder, s: Seq<EntryView>, k: Seq<u8>, v: Seq<u8>) -> Seq<EntryView> {
    let p = rank(o, s, k) as int;
    let q = if present(o, s, k) { p + 1 } else { p };
    s.subrange(0, p) + seq![(k, v)] + s.subrange(q, s.len() as int)
}

/// The contents after removing the entry of `k`, if there is one.
pub open spec fn removed(o: KeyOrder, s: Seq<EntryView>, k: Seq<u8>) -> Seq<EntryView> {
    if present(o, s, k) {
        s.remove(rank(o, s, k) as int)
    } else {
        s
    }
}

pub proof fn lemma_rank_bounds(o: KeyOrder, s: Seq<EntryView>, k: Seq<u8>)
    ensures
        rank(o, s, k) <= s.len(),
        forall|j: int| 0 <= j < rank(o, s, k) ==> key_cmp(o, #[trigger] s[j].0, k) < 0,
        rank(o, s, k) < s.len() ==> key_cmp(o, s[rank(o, s, k) as int].0, k) >= 0,
    decreases s.len(),
{
    if s.len() > 0 && key_cmp(o, s[0].0, k) < 0 {
        lemma_rank_bounds(o, s.drop_first(), k);
        assert forall|j: int| 0 <= j < rank(o, s, k) implies key_cmp(o, #[trigger] s[j].0, k) < 0 by {
            if j > 0 {
                assert(s[j] == s.drop_first()[j - 1]);
            }
        }
    }
}

pub proof fn lemma_rank_at(o: KeyOrder, s: Seq<EntryView>, k: Seq<u8>, p: int)
    requires
        0 <= p <= s.len(),
        forall|j: int| 0 <= j < p ==> key_cmp(o, #[trigger] s[j].0, k) < 0,
        p < s.len() ==> key_cmp(o, s[p].0, k) >= 0,
    ensures
        rank(o, s, k) == p,
    decreases s.len(),
{
    if s.len() > 0 && p > 0 {
        let t = s.drop_first();
        assert forall|j: int| 0 <= j < p - 1 implies key_cmp(o, #[trigger] t[j].0, k) < 0 by {
            assert(t[j] == s[j + 1]);
        }
        assert(key_cmp(o, s[0].0, k) < 0);
        lemma_rank_at(o, t, k, p - 1);
    }
}

/// Mapping a key keeps the keys strictly increasing.
pub proof fn lemma_inserted_sorted(o: KeyOrder, s: Seq<EntryView>, k: Seq<u8>, v: Seq<u8>)
    requires
        sorted(o, s),
    ensures
        sorted(o, inserted(o, s, k, v)),
{
    lemma_rank_bounds(o, s, k);
    let p = rank(o, s, k) as int;
    let q = if present(o, s, k) { p + 1 } else { p };
    let r = inserted(o, s, k, v);
    assert forall|j: int| q <= j < s.len() implies key_cmp(o, k, #[trigger] s[j].0) < 0 by {
        lemma_key_cmp_order(o, s[p].0, k, s[j].0);
        lemma_key_cmp_order(o, k, s[p].0, s[j].0);
        if !present(o, s, k) && j > p {
            assert(key_cmp(o, s[p].0, s[j].0) < 0);
        }
    }
    assert(r.len() == s.len() - q + p + 1);
    assert forall|i: int, j: int| 0 <= i < j < r.len() implies key_cmp(o, #[trigger] r[i].0, #[trigger] r[j].0) < 0 by {
        if i < p && j < p {
            assert(r[i] == s[i] && r[j] == s[j]);
        } else if i < p && j == p {
            assert(r[i] == s[i]);
        } else if i < p {
            assert(r[i] == s[i] && r[j] == s[j - p - 1 + q]);
            lemma_key_cmp_order(o, s[i].0, k, s[j - p - 1 + q].0);
        } else if i == p {
            assert(r[j] == s[j - p - 1 + q]);
        } else {
            assert(r[i] == s[i - p - 1 + q] && r[j] == s[j - p - 1 + q]);
        }
    }
}

/// Removing a key keeps the keys strictly increasing.
pub proof fn lemma_removed_sorted(o: KeyOrder, s: Seq<EntryView>, k: Seq<u8>)
    requires
        sorted(o, s),
    ensures
        sorted(o, removed(o, s, k)),
{
    if present(o, s, k) {
        let p = rank(o, s, k) as int;
        let r = s.remove(p);
        assert forall|i: int, j: int| 0 <= i < j < r.len() implies key_cmp(o, #[trigger] r[i].0, #[trigger] r[j].0) < 0 by {
            let a = if i < p { i } else { i + 1 };
            let b = if j < p { j } else { j + 1 };
            assert(r[i] == s[a] && r[j] == s[b]);
        }
    }
}

/// A copy of a byte string.
pub fn copy_bytes(b: &[u8]) -> (r: Vec<u8>)
    ensures
        r@ == b@,
{
    let mut r: Vec<u8> = Vec::new();
    let mut i: usize = 0;
    while i < b.len()
        invariant
            i <= b@.len(),
            r@ == b@.subrange(0, i as int),
        decreases b@.len() - i,
    {
        r.push(b[i]);
        i = i + 1;
        assert(r@ =~= b@.subrange(0, i as int));
    }
    assert(b@.subrange(0, b@.len() as int) =~= b@);
    r
}

/// A copy of an entry.
pub fn copy_entry(e: &Entry) -> (r: Entry)
    ensures
        r@ == e@,
{
    Entry { key: copy_bytes(e.key.as_slice()), value: copy_bytes(e.value.as_slice()) }
}

/// Appends copies of `src[from..to]` to `dst`.
pub fn append_copies(dst: &mut Vec<Entry>, src: &Vec<Entry>, from: usize, to: usize)
    requires
        from <= to <= src@.len(),
    ensures
        entries_view(final(dst)@) == entries_view(old(dst)@) + entries_view(src@).subrange(from as int, to as int),
{
    let mut i: usize = from;
    while i < to
        invariant
            from <= i <= to <= src@.len(),
            entries_view(dst@) == entries_view(old(dst)@) + entries_view(src@).subrange(from as int, i as int),
        decreases to - i,
    {
        let e = copy_entry(&src[i]);
        let ghost prev = dst@;
        dst.push(e);
        assert(entries_view(dst@) =~= entries_view(prev).push(e@));
        i = i + 1;
        assert(entries_view(dst@) =~= entries_view(old(dst)@) + entries_view(src@).subrange(from as int, i as int));
    }
}

/// Finds the rank of `key`, and whether an entry holds it there.
pub fn locate(o: KeyOrder, entries: &Vec<Entry>, key: &[u8]) -> (r: (usize, bool))
    ensures
        r.0 as nat == rank(o, entries_view(entries@), key@),
        r.1 == present(o, entries_view(entries@), key@),
{
    let ghost s = entries_view(entries@);
    let mut i: usize = 0;
    while i < entries.len()
        invariant
            i <= entries@.len(),
            s == entries_view(entries@),
            forall|j: int| 0 <= j < i ==> key_cmp(o, #[trigger] s[j].0, key@) < 0,
        decreases entries@.len() - i,
    {
        let c: i8 = compare(o, entries[i].key.as_slice(), key);
        if c >= 0 {
            proof { lemma_rank_at(o, s, key@, i as int); }
            let found = c == 0;
            proof { lemma_key_cmp_order(o, s[i as int].0, key@, key@); }
            return (i, found);
        }
        i = i + 1;
    }
    proof { lemma_rank_at(o, s, key@, i as int); }
    (i, false)
}

/// A new node holding `entries` with `key` mapped to `value`, and the value it replaced.
pub fn insert_entry(o: KeyOrder, entries: &Vec<Entry>, key: &[u8], value: &[u8]) -> (r: (Vec<Entry>, Option<Vec<u8>>))
    ensures
        entries_view(r.0@) == inserted(o, entries_view(entries@), key@, value@),
        match r.1 {
            Some(w) => lookup(o, entries_view(entries@), key@) == Some(w@),
            None => lookup(o, entries_view(entries@), key@).is_none(),
        },
{
    let ghost s = entries_view(entries@);
    let (p, found) = locate(o, entries, key);
    proof { lemma_rank_bounds(o, s, key@); }
    assert(s.len() == entries@.len());
    let n: usize = entries.len();
    assert(found ==> p < n);
    let mut out: Vec<Entry> = Vec::new();
    append_copies(&mut out, entries, 0, p);
    out.push(Entry { key: copy_bytes(key), value: copy_bytes(value) });
    let q: usize = if found { p + 1 } else { p };
    let old_value = if found { Some(copy_bytes(entries[p].value.as_slice())) } else { None };
    append_copies(&mut out, entries, q, entries.len());
    assert(entries_view(out@) =~= inserted(o, s, key@, value@));
    (out, old_value)
}

/// A new node holding `entries` without the entry of `key`, and that entry's value.
pub fn remove_entry(o: KeyOrder, entries: &Vec<Entry>, key: &[u8]) -> (r: (Vec<Entry>, Option<Vec<u8>>))
    ensures
        entries_view(r.0@) == removed(o, entries_view(entries@), key@),
        match r.1 {
            Some(w) => lookup(o, entries_view(entries@), key@) == Some(w@),
            None => lookup(o, entries_view(entries@), key@).is_none(),
        },
{
    let ghost s = entries_view(entries@);
    let (p, found) = locate(o, entries, key);
    proof { lemma_rank_bounds(o, s, key@); }
    assert(s.len() == entries@.len());
    let n: usize = entries.len();
    assert(found ==> p < n);
    let mut out: Vec<Entry> = Vec::new();
    if !found {
        append_copies(&mut out, entries, 0, entries.len());
        assert(entries_view(out@) =~= s);
        return (out, None);
    }
    append_copies(&mut out, entries, 0, p);
    append_copies(&mut out, entries, p + 1, entries.len());
    assert(entries_view(out@) =~= s.remove(p as int));
    (out, Some(copy_bytes(entries[p].value.as_slice())))
}

} // verus!

verus! {

/// In ordered contents each key is found at its own position.
pub proof fn lemma_rank_of_member(o: KeyOrder, s: Seq<EntryView>, i: int)
    requires
        sorted(o, s),
        0 <= i < s.len(),
    ensures
        rank(o, s, s[i].0) == i,
        present(o, s, s[i].0),
        lookup(o, s, s[i].0) == Some(s[i].1),
        removed(o, s, s[i].0) == s.remove(i),
{
    lemma_key_cmp_order(o, s[i].0, s[i].0, s[i].0);
    lemma_rank_at(o, s, s[i].0, i);
}

} // verus!

verus! {

/// The abstract form of an optional byte string.
pub open spec fn opt_view(r: Option<Vec<u8>>) -> Option<Seq<u8>> {
    match r {
        Some(w) => Some(w@),
        None => None,
    }
}

/// `n` zero bytes.
pub open spec fn zeros(n: nat) -> Seq<u8> {
    Seq::new(n, |i: int| 0u8)
}

/// A byte string of `n` zeros.
pub fn zeroed(n: usize) -> (r: Vec<u8>)
    ensures
        r@ == zeros(n as nat),
{
    let mut r: Vec<u8> = Vec::new();
    let mut i: usize = 0;
    while i < n
        invariant
            i <= n,
            r@ == zeros(i as nat),
        decreases n - i,
    {
        r.push(0u8);
        i = i + 1;
        assert(r@ =~= zeros(i as nat));
    }
    r
}

} // verus!
