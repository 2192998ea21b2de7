//! The symbol table: strings are deduplicated into small `usize` handles
//! so that tag, attribute and class comparisons are constant-size.
//!
//! The table itself is the `string-interner` crate's interner over its
//! `StringBackend`, which hands out contiguous symbol indices in
//! interning order.  Verus sees it through the uninterpreted contents
//! function [`interner_strings`] — the sequence of distinct interned
//! strings, in interning order, where the string for symbol `s` is the
//! element at index `s` — and through the trusted wrapper methods below,
//! whose contracts state exactly what that crate's source shows.

use vstd::prelude::*;

verus! {

/// A deduplicating string table handing out dense `usize` symbols.
#[verifier::external_body]
pub struct Interner {
    inner: string_interner::StringInterner<
        string_interner::backend::StringBackend<string_interner::symbol::SymbolUsize>,
    >,
}

/// The strings held by `it`, in interning order; symbol `s` denotes
/// `interner_strings(it)[s as int]`.
pub uninterp spec fn interner_strings(it: &Interner) -> Seq<Seq<char>>;

/// A table's contents, pairwise distinct.
pub open spec fn strings_distinct(ss: Seq<Seq<char>>) -> bool {
    forall|i: int, j: int| 0 <= i < j < ss.len() ==> ss[i] != ss[j]
}

/// The strings of `it`, pairwise distinct.  Holds in every state
/// reachable through this interface, by the contracts below.
pub open spec fn interner_distinct(it: &Interner) -> bool {
    strings_distinct(interner_strings(it))
}

/// `s2` extends `s1`: same strings at the start, possibly more after.
pub open spec fn strings_extend(s1: Seq<Seq<char>>, s2: Seq<Seq<char>>) -> bool {
    s1.len() <= s2.len() && forall|i: int| 0 <= i < s1.len() ==> s2[i] == s1[i]
}

impl Interner {
    /// Relies on `StringInterner::new`: creates an empty interner.
    #[verifier::external_body]
    pub fn new() -> (r: Interner)
        ensures
            interner_strings(&r).len() == 0,
    {
        Interner { inner: string_interner::StringInterner::new() }
    }

    /// Relies on `StringInterner::get_or_intern` over the
    /// `StringBackend`: returns the existing symbol of an
    /// already-interned string and leaves the table unchanged, or
    /// appends a new string and returns the next contiguous index.  The
    /// backend keeps one end offset per interned string in a vector, so
    /// the count stays strictly below `usize::MAX` (the address space
    /// bound) and the `usize` symbol space cannot be exhausted.
    #[verifier::external_body]
    pub fn get_or_intern(&mut self, s: &str) -> (r: usize)
        ensures
            interner_strings(final(self)) == if interner_strings(old(self)).contains(s@) {
                interner_strings(old(self))
            } else {
                interner_strings(old(self)).push(s@)
            },
            (r as int) < interner_strings(final(self)).len(),
            interner_strings(final(self))[r as int] == s@,
            interner_strings(final(self)).len() < usize::MAX,
    {
        let sym = self.inner.get_or_intern(s);
        string_interner::Symbol::to_usize(sym)
    }

    /// Relies on `StringInterner::get`: returns the symbol of an
    /// already-interned string without interning, and `None` for a
    /// string the table does not hold.
    #[verifier::external_body]
    pub fn get(&self, s: &str) -> (r: Option<usize>)
        ensures
            r is Some <==> interner_strings(self).contains(s@),
            match r {
                Some(v) => (v as int) < interner_strings(self).len() && interner_strings(self)[
                    v as int
                ] == s@,
                None => true,
            },
    {
        self.inner.get(s).map(|sym| string_interner::Symbol::to_usize(sym))
    }

    /// Relies on `StringInterner::resolve` over the `StringBackend`:
    /// returns the string interned under the given symbol, and `None`
    /// for an index the table has not handed out.
    #[verifier::external_body]
    pub fn resolve(&self, sym: usize) -> (r: Option<String>)
        ensures
            r is Some <==> (sym as int) < interner_strings(self).len(),
            match r {
                Some(st) => st@ == interner_strings(self)[sym as int],
                None => true,
            },
    {
        match string_interner::Symbol::try_from_usize(sym) {
            Some(symbol) => self.inner.resolve(symbol).map(|s| s.to_owned()),
            None => None,
        }
    }

    /// Relies on `StringInterner::len`: the number of interned strings.
    #[verifier::external_body]
    pub fn len(&self) -> (r: usize)
        ensures
            r == interner_strings(self).len(),
    {
        self.inner.len()
    }
}

/// Interning preserves distinctness of the table's contents, and only
/// ever extends them.
pub proof fn lemma_intern_keeps_distinct(o: Seq<Seq<char>>, n: Seq<Seq<char>>, s: Seq<char>)
    requires
        strings_distinct(o),
        n == if o.contains(s) {
            o
        } else {
            o.push(s)
        },
    ensures
        strings_distinct(n),
        strings_extend(o, n),
{
    if !o.contains(s) {
        assert forall|i: int, j: int| 0 <= i < j < n.len() implies n[i] != n[j] by {
            if j == n.len() - 1 {
                assert(n[j] == s);
                assert(n[i] == o[i]);
                assert(!o.contains(s));
                assert(o[i] != s);
            }
        }
    }
}

} // verus!
