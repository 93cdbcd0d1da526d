//! The string interner: distinct strings are mapped to compact integer
//! symbols, and symbols resolve back to the strings that produced them.
//!
//! The interner itself is `string_interner::StringInterner` over a string
//! backend with `usize`-wide symbols, which hands out symbols that convert
//! losslessly to the consecutive indices 0, 1, 2, ... in order of first
//! interning. Verus refuses a declaration of that type (its hash-builder
//! type parameter belongs to crates this library does not depend on), so
//! the collection is held in a private field of an opaque struct, and its
//! contents are modelled by [`interner_strings`]: the sequence of distinct
//! interned strings, indexed by symbol.

use vstd::prelude::*;
use string_interner::StringInterner;
use string_interner::Symbol as _;
use string_interner::backend::StringBackend;
use string_interner::symbol::SymbolUsize;

verus! {

/// A process-lifetime symbol table. Symbols are plain `usize` values; the
/// symbol of a string is the position of that string in the sequence of
/// distinct strings interned so far.
#[verifier::external_body]
#[derive(Debug)]
pub struct Interner {
    inner: StringInterner<StringBackend<SymbolUsize>>,
}

/// The distinct strings interned so far, in order of first interning;
/// the symbol of each is its index.
pub uninterp spec fn interner_strings(it: Interner) -> Seq<Seq<char>>;

/// A well-formed interner holds each distinct string once, so a string
/// pins its symbol down.
pub open spec fn interner_wf(it: Interner) -> bool {
    interner_strings(it).no_duplicates()
}

/// A conservative bound on how many strings an interner may hold; staying
/// below it keeps every symbol well inside the backend's symbol space, so
/// interning never runs out of symbols.
pub open spec fn interner_capacity() -> int {
    0xffff_fffe
}

impl Interner {
    /// Relies on `StringInterner::new`: a fresh interner holds no strings.
    #[verifier::external_body]
    pub fn new() -> (r: Interner)
        ensures
            interner_strings(r) == Seq::<Seq<char>>::empty(),
    {
        Interner { inner: StringInterner::new() }
    }

    /// Relies on `StringInterner::len`: the number of interned strings.
    #[verifier::external_body]
    pub fn len(&self) -> (n: usize)
        ensures
            n == interner_strings(*self).len(),
    {
        self.inner.len()
    }

    /// Relies on `StringInterner::get_or_intern` with the string backend:
    /// an already-interned string keeps its symbol, a new string is appended
    /// and receives the next index as its symbol.
    #[verifier::external_body]
    pub fn intern(&mut self, s: &str) -> (sym: usize)
        requires
            interner_strings(*old(self)).len() < interner_capacity(),
        ensures
            interner_strings(*final(self)) == if interner_strings(*old(self)).contains(s@) {
                interner_strings(*old(self))
            } else {
                interner_strings(*old(self)).push(s@)
            },
            sym < interner_strings(*final(self)).len(),
            interner_strings(*final(self))[sym as int] == s@,
    {
        self.inner.get_or_intern(s).to_usize()
    }

    /// Relies on `StringInterner::resolve` with the string backend and on
    /// `SymbolUsize::try_from_usize`, which converts indices one for one: a
    /// symbol below the number of interned strings resolves to the string
    /// it was handed out for, any other symbol resolves to nothing.
    #[verifier::external_body]
    pub fn resolve(&self, sym: usize) -> (r: Option<String>)
        ensures
            match r {
                Some(s) => sym < interner_strings(*self).len() && s@ == interner_strings(
                    *self,
                )[sym as int],
                None => sym >= interner_strings(*self).len(),
            },
    {
        match SymbolUsize::try_from_usize(sym) {
            Some(symbol) => self.inner.resolve(symbol).map(|s| s.to_owned()),
            None => None,
        }
    }
}

/// The symbol [`Interner::intern`] yields for `s` against the strings
/// interned so far: the index of `s` if it is present, the next index
/// otherwise.
pub open spec fn spec_intern_sym(strs: Seq<Seq<char>>, s: Seq<char>) -> int {
    if strs.contains(s) {
        strs.index_of(s)
    } else {
        strs.len() as int
    }
}

/// The strings interned after [`Interner::intern`] of `s`.
pub open spec fn spec_intern_strs(strs: Seq<Seq<char>>, s: Seq<char>) -> Seq<Seq<char>> {
    if strs.contains(s) {
        strs
    } else {
        strs.push(s)
    }
}

/// On a well-formed interner, `intern` returns exactly the symbol of
/// [`spec_intern_sym`], keeps well-formedness, and never drops a string.
pub proof fn lemma_intern_pins_symbol(strs: Seq<Seq<char>>, s: Seq<char>, sym: int)
    requires
        strs.no_duplicates(),
        spec_intern_strs(strs, s)[sym] == s,
        0 <= sym < spec_intern_strs(strs, s).len(),
    ensures
        sym == spec_intern_sym(strs, s),
        spec_intern_strs(strs, s).no_duplicates(),
        strs.is_prefix_of(spec_intern_strs(strs, s)),
{
    if strs.contains(s) {
        let i = strs.index_of(s);
        assert(strs[i] == s);
        assert(strs[sym] == s);
        assert(sym == i);
    } else {
        if sym < strs.len() {
            assert(strs[sym] == s);
            assert(strs.contains(s));
        }
        assert(forall|i: int| 0 <= i < strs.len() ==> strs[i] != s);
    }
    assert(strs.is_prefix_of(spec_intern_strs(strs, s)));
}

/// Interning is idempotent on a well-formed interner: a second interning
/// of the same string changes nothing and yields the same symbol, and the
/// symbol resolves back to the string.
pub proof fn lemma_intern_idempotent(strs: Seq<Seq<char>>, s: Seq<char>)
    requires
        strs.no_duplicates(),
    ensures
        ({
            let sym = spec_intern_sym(strs, s);
            let strs1 = spec_intern_strs(strs, s);
            &&& spec_intern_strs(strs1, s) == strs1
            &&& spec_intern_sym(strs1, s) == sym
            &&& 0 <= sym < strs1.len()
            &&& strs1[sym] == s
        }),
{
    let sym = spec_intern_sym(strs, s);
    let strs1 = spec_intern_strs(strs, s);
    if strs.contains(s) {
        assert(strs[strs.index_of(s)] == s);
    } else {
        assert(strs1[strs.len() as int] == s);
        assert(strs1.contains(s));
    }
    assert(strs1[sym] == s);
    lemma_intern_pins_symbol(strs, s, sym);
    assert(strs1.contains(s));
    lemma_intern_pins_symbol(strs1, s, sym);
}

} // verus!
