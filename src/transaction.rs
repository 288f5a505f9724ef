//! The write transaction's registry of open tables: at most one writer per table name.
use vstd::prelude::*;
use crate::order::{KeyOrder, lex_compare, lemma_lex_cmp_eq};
use crate::node::copy_bytes;
use crate::store::PageNumber;
use crate::table::Table;

verus! {

/// Why a table could not be opened.
#[derive(Clone, Copy, Debug, PartialEq, Eq, Structural)]
pub enum TableError {
    /// A table of this name is already open for writing in the transaction.
    TableAlreadyOpen,
}

/// `s` without any occurrence of `n`.
pub open spec fn without(s: Seq<Seq<u8>>, n: Seq<u8>) -> Seq<Seq<u8>>
    decreases s.len(),
{
    if s.len() == 0 {
        Seq::empty()
    } else {
        let rest = without(s.drop_last(), n);
        if s.last() == n { rest } else { rest.push(s.last()) }
    }
}

pub proof fn lemma_without_contains(s: Seq<Seq<u8>>, n: Seq<u8>, m: Seq<u8>)
    ensures
        without(s, n).contains(m) <==> (s.contains(m) && m != n),
    decreases s.len(),
{
    if s.len() > 0 {
        let t = s.drop_last();
        lemma_without_contains(t, n, m);
        let rest = without(t, n);
        if s.contains(m) && m != n {
            let i = choose|i: int| 0 <= i < s.len() && s[i] == m;
            if i < s.len() - 1 {
                assert(t[i] == m);
            }
            if s.last() != n {
                assert(rest.push(s.last())[rest.len() as int] == s.last());
                if rest.contains(m) {
                    let j = choose|j: int| 0 <= j < rest.len() && rest[j] == m;
                    assert(rest.push(s.last())[j] == m);
                }
            }
        }
        if without(s, n).contains(m) {
            let j = choose|j: int| 0 <= j < without(s, n).len() && without(s, n)[j] == m;
            if s.last() != n && j == rest.len() {
                assert(s[s.len() - 1] == m);
            } else {
                assert(rest[j] == m);
                let i = choose|i: int| 0 <= i < t.len() && t[i] == m;
                assert(s[i] == m);
            }
        }
    }
}

/// Whether two byte strings are equal.
pub fn bytes_eq(a: &[u8], b: &[u8]) -> (r: bool)
    ensures
        r == (a@ == b@),
{
    proof { lemma_lex_cmp_eq(a@, b@); }
    lex_compare(a, b) == 0
}

/// The tables a write transaction has open for writing.
pub struct WriteTransaction {
    open: Vec<Vec<u8>>,
}

impl WriteTransaction {
    /// The names of the open tables.
    pub closed spec fn open_names(&self) -> Seq<Seq<u8>> {
        self.open@.map_values(|n: Vec<u8>| n@)
    }

    /// A transaction with no table open.
    pub fn new() -> (r: WriteTransaction)
        ensures
            r.open_names() == Seq::<Seq<u8>>::empty(),
    {
        let r = WriteTransaction { open: Vec::new() };
        assert(r.open_names() =~= Seq::<Seq<u8>>::empty());
        r
    }

    /// Whether a table of this name is open for writing.
    pub fn is_open(&self, name: &[u8]) -> (r: bool)
        ensures
            r == self.open_names().contains(name@),
    {
        let ghost names = self.open_names();
        let mut i: usize = 0;
        while i < self.open.len()
            invariant
                i <= self.open@.len(),
                names == self.open_names(),
                forall|j: int| 0 <= j < i ==> names[j] != name@,
            decreases self.open@.len() - i,
        {
            if bytes_eq(self.open[i].as_slice(), name) {
                assert(names[i as int] == name@);
                return true;
            }
            i = i + 1;
        }
        false
    }

    /// Opens the table `name`, whose tree is at `root`, for writing.
    /// Fails while another handle on the same name is open.
    pub fn open_table(&mut self, name: &[u8], order: KeyOrder, root: Option<PageNumber>) -> (r: Result<Table, TableError>)
        ensures
            match r {
                Err(e) => e == TableError::TableAlreadyOpen
                    && old(self).open_names().contains(name@)
                    && final(self).open_names() == old(self).open_names(),
                Ok(t) => !old(self).open_names().contains(name@)
                    && final(self).open_names() == old(self).open_names().push(name@)
                    && t.name_view() == name@
                    && t.key_order() == order
                    && t.root_view() == root
                    && t.freed_view() == Seq::<PageNumber>::empty()
                    && t.origin_view() == root
                    && t.written_view() == Set::<PageNumber>::empty(),
            },
    {
        if self.is_open(name) {
            return Err(TableError::TableAlreadyOpen);
        }
        let ghost prev = self.open@;
        let n = copy_bytes(name);
        self.open.push(n);
        assert(self.open_names() =~= prev.map_values(|n: Vec<u8>| n@).push(name@));
        Ok(Table::new(name, order, root))
    }

    /// Closes a table: its name is free again, and its final root and freed pages come back.
    pub fn close_table(&mut self, table: Table) -> (r: (Option<PageNumber>, Vec<PageNumber>))
        ensures
            final(self).open_names() == without(old(self).open_names(), table.name_view()),
            r.0 == table.root_view(),
            r.1@ == table.freed_view(),
    {
        let (name, root, freed) = table.into_parts();
        let ghost names = self.open_names();
        let mut kept: Vec<Vec<u8>> = Vec::new();
        let mut i: usize = 0;
        assert(names.subrange(0, 0) =~= Seq::<Seq<u8>>::empty());
        while i < self.open.len()
            invariant
                i <= self.open@.len(),
                names == self.open_names(),
                kept@.map_values(|n: Vec<u8>| n@) == without(names.subrange(0, i as int), name@),
            decreases self.open@.len() - i,
        {
            assert(names.subrange(0, i + 1).drop_last() =~= names.subrange(0, i as int));
            if !bytes_eq(self.open[i].as_slice(), name.as_slice()) {
                let c = copy_bytes(self.open[i].as_slice());
                let ghost prev = kept@;
                kept.push(c);
                assert(kept@.map_values(|n: Vec<u8>| n@) =~= prev.map_values(|n: Vec<u8>| n@).push(c@));
            }
            i = i + 1;
        }
        assert(names.subrange(0, names.len() as int) =~= names);
        self.open = kept;
        (root, freed)
    }
}

} // verus!
