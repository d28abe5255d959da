//! A string interner producing small integer symbols.
//!
//! Column names, table names, and repeated text literals appear over and over
//! in plans and catalogs. Interning maps each distinct string to a compact
//! [`Symbol`] once, so downstream code compares and stores `u32`s instead of
//! strings. The interner is append-only (symbols are never invalidated) which
//! keeps the mapping stable for the life of a query.

use crate::text;
use vstd::prelude::*;
use vstd::string::*;

verus! {

/// A compact handle for an interned string.
#[derive(Debug, Clone, Copy, PartialEq, Eq, Hash, PartialOrd, Ord, Structural)]
pub struct Symbol(pub u32);

/// An append-only string interner.
#[derive(Debug, Clone)]
pub struct Interner {
    strings: Vec<String>,
}

/// The texts of a list of strings.
pub open spec fn string_views(s: Seq<String>) -> Seq<Seq<char>> {
    s.map_values(|x: String| x@)
}

/// Where a text stands in a list without duplicates.
pub open spec fn position(s: Seq<Seq<char>>, x: Seq<char>) -> Option<int> {
    if s.contains(x) {
        Some(s.index_of(x))
    } else {
        None
    }
}

impl Default for Interner {
    fn default() -> (r: Interner)
        ensures
            r.wf(),
            r@ == Seq::<Seq<char>>::empty(),
    {
        Interner::new()
    }
}

impl View for Interner {
    type V = Seq<Seq<char>>;

    /// The interned texts in symbol order.
    closed spec fn view(&self) -> Seq<Seq<char>> {
        string_views(self.strings@)
    }
}

impl Interner {
    /// Every text is interned once, and every symbol is a `u32`.
    pub closed spec fn wf(&self) -> bool {
        self@.no_duplicates() && self@.len() <= u32::MAX + 1
    }

    /// A fresh interner.
    pub fn new() -> (r: Interner)
        ensures
            r.wf(),
            r@ == Seq::<Seq<char>>::empty(),
    {
        let r = Interner { strings: Vec::new() };
        assert(r@ =~= Seq::<Seq<char>>::empty());
        r
    }

    /// Intern a string, returning its symbol (idempotent).
    pub fn intern(&mut self, s: &str) -> (r: Symbol)
        requires
            old(self).wf(),
            old(self)@.contains(s@) || old(self)@.len() <= u32::MAX,
        ensures
            final(self).wf(),
            r.0 < final(self)@.len(),
            final(self)@[r.0 as int] == s@,
            final(self)@ == (if old(self)@.contains(s@) {
                old(self)@
            } else {
                old(self)@.push(s@)
            }),
    {
        if let Some(sym) = self.get(s) {
            return sym;
        }
        assert(self.strings@.len() == self@.len());
        let sym = Symbol(self.strings.len() as u32);
        self.strings.push(s.to_owned());
        assert(self@ =~= old(self)@.push(s@));
        sym
    }

    /// Look up a symbol without interning; `None` if the string is unknown.
    pub fn get(&self, s: &str) -> (r: Option<Symbol>)
        requires
            self.wf(),
        ensures
            match r {
                Some(sym) => position(self@, s@) == Some(sym.0 as int),
                None => position(self@, s@) is None,
            },
            r matches Some(sym) ==> sym.0 < self@.len() && self@[sym.0 as int] == s@,
    {
        let mut i: usize = 0;
        assert(self.strings@.len() == self@.len());
        while i < self.strings.len()
            invariant
                i <= self.strings@.len(),
                self.wf(),
                self.strings@.len() == self@.len(),
                forall|k: int| 0 <= k < i ==> #[trigger] self@[k] != s@,
            decreases self.strings@.len() - i,
        {
            assert(self@[i as int] == self.strings@[i as int]@);
            if text::same_text(self.strings[i].as_str(), s) {
                assert(self@.contains(s@));
                return Some(Symbol(i as u32));
            }
            i += 1;
        }
        None
    }

    /// Resolve a symbol back to its string.
    pub fn resolve(&self, sym: Symbol) -> (r: Option<&str>)
        ensures
            r is Some <==> sym.0 < self@.len(),
            r matches Some(s) ==> s@ == self@[sym.0 as int],
    {
        assert(self.strings@.len() == self@.len());
        let i: usize = sym.0 as usize;
        if i < self.strings.len() {
            Some(self.strings[i].as_str())
        } else {
            None
        }
    }

    /// `true` if the string has been interned.
    pub fn contains(&self, s: &str) -> (r: bool)
        requires
            self.wf(),
        ensures
            r == self@.contains(s@),
    {
        self.get(s).is_some()
    }

    /// Number of distinct interned strings.
    pub fn len(&self) -> (r: usize)
        ensures
            r == self@.len(),
    {
        self.strings.len()
    }

    /// `true` if nothing has been interned.
    pub fn is_empty(&self) -> (r: bool)
        ensures
            r == (self@.len() == 0),
    {
        self.strings.len() == 0
    }

    /// All interned strings in symbol order.
    pub fn strings(&self) -> (r: &[String])
        ensures
            string_views(r@) == self@,
    {
        self.strings.as_slice()
    }
}

/// A symbol is never invalidated: interning more leaves every earlier symbol's
/// string in place.
pub proof fn lemma_symbols_stable(before: Seq<Seq<char>>, s: Seq<char>, sym: int)
    requires
        0 <= sym < before.len(),
    ensures
        before.push(s)[sym] == before[sym],
{
}

} // verus!
