//! Key ordering: byte-lexicographic, or its reverse.
use vstd::prelude::*;

verus! {

/// The comparator installed for a table's keys.
#[derive(Clone, Copy, Debug, PartialEq, Eq, Structural)]
pub enum KeyOrder {
    /// Byte-lexicographic order.
    Lexicographic,
    /// The reverse of byte-lexicographic order.
    Reversed,
}

/// Byte-lexicographic comparison: -1, 0 or 1.
pub open spec fn lex_cmp(a: Seq<u8>, b: Seq<u8>) -> int
    decreases a.len(),
{
    if a.len() == 0 {
        if b.len() == 0 { 0 } else { -1 }
    } else if b.len() == 0 {
        1
    } else if a[0] < b[0] {
        -1
    } else if a[0] > b[0] {
        1
    } else {
        lex_cmp(a.drop_first(), b.drop_first())
    }
}

/// Comparison of two encoded keys under a table's order.
pub open spec fn key_cmp(o: KeyOrder, a: Seq<u8>, b: Seq<u8>) -> int {
    match o {
        KeyOrder::Lexicographic => lex_cmp(a, b),
        KeyOrder::Reversed => lex_cmp(b, a),
    }
}

pub proof fn lemma_lex_cmp_antisym(a: Seq<u8>, b: Seq<u8>)
    ensures
        lex_cmp(a, b) == -lex_cmp(b, a),
    decreases a.len(),
{
    if a.len() > 0 && b.len() > 0 && a[0] == b[0] {
        lemma_lex_cmp_antisym(a.drop_first(), b.drop_first());
    }
}

pub proof fn lemma_lex_cmp_eq(a: Seq<u8>, b: Seq<u8>)
    ensures
        lex_cmp(a, b) == 0 <==> a == b,
    decreases a.len(),
{
    if a.len() > 0 && b.len() > 0 && a[0] == b[0] {
        lemma_lex_cmp_eq(a.drop_first(), b.drop_first());
        if a.drop_first() == b.drop_first() {
            assert(a =~= seq![a[0]] + a.drop_first());
            assert(b =~= seq![b[0]] + b.drop_first());
        }
        if a == b {
            assert(a.drop_first() =~= b.drop_first());
        }
    } else if a.len() == 0 && b.len() == 0 {
        assert(a =~= b);
    }
}

pub proof fn lemma_lex_cmp_trans(a: Seq<u8>, b: Seq<u8>, c: Seq<u8>)
    requires
        lex_cmp(a, b) < 0,
        lex_cmp(b, c) < 0,
    ensures
        lex_cmp(a, c) < 0,
    decreases a.len(),
{
    if a.len() > 0 && b.len() > 0 && c.len() > 0 && a[0] == b[0] && b[0] == c[0] {
        lemma_lex_cmp_trans(a.drop_first(), b.drop_first(), c.drop_first());
    }
}

/// The comparison under any order is antisymmetric, transitive, and zero exactly on equal keys.
pub proof fn lemma_key_cmp_order(o: KeyOrder, a: Seq<u8>, b: Seq<u8>, c: Seq<u8>)
    ensures
        key_cmp(o, a, b) == -key_cmp(o, b, a),
        key_cmp(o, a, b) == 0 <==> a == b,
        key_cmp(o, a, b) < 0 && key_cmp(o, b, c) < 0 ==> key_cmp(o, a, c) < 0,
{
    lemma_lex_cmp_antisym(a, b);
    lemma_lex_cmp_eq(a, b);
    lemma_lex_cmp_eq(b, a);
    if key_cmp(o, a, b) < 0 && key_cmp(o, b, c) < 0 {
        match o {
            KeyOrder::Lexicographic => lemma_lex_cmp_trans(a, b, c),
            KeyOrder::Reversed => lemma_lex_cmp_trans(c, b, a),
        }
    }
}

/// Compares two byte strings lexicographically.
pub fn lex_compare(a: &[u8], b: &[u8]) -> (r: i8)
    ensures
        r as int == lex_cmp(a@, b@),
{
    let mut i: usize = 0;
    assert(a@.subrange(0, a@.len() as int) =~= a@);
    assert(b@.subrange(0, b@.len() as int) =~= b@);
    while i < a.len() && i < b.len()
        invariant
            i <= a@.len(),
            i <= b@.len(),
            lex_cmp(a@, b@) == lex_cmp(a@.subrange(i as int, a@.len() as int), b@.subrange(i as int, b@.len() as int)),
        decreases a@.len() - i,
    {
        let x: u8 = a[i];
        let y: u8 = b[i];
        proof {
            let sa = a@.subrange(i as int, a@.len() as int);
            let sb = b@.subrange(i as int, b@.len() as int);
            assert(sa.drop_first() =~= a@.subrange(i + 1, a@.len() as int));
            assert(sb.drop_first() =~= b@.subrange(i + 1, b@.len() as int));
        }
        if x < y {
            return -1;
        }
        if x > y {
            return 1;
        }
        i = i + 1;
    }
    if i < a.len() {
        1
    } else if i < b.len() {
        -1
    } else {
        0
    }
}

/// Compares two encoded keys under a table's order.
pub fn compare(o: KeyOrder, a: &[u8], b: &[u8]) -> (r: i8)
    ensures
        r as int == key_cmp(o, a@, b@),
{
    match o {
        KeyOrder::Lexicographic => lex_compare(a, b),
        KeyOrder::Reversed => lex_compare(b, a),
    }
}

} // verus!
