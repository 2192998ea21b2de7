//! The selector cache: memoizes parsed selectors keyed by the exact raw
//! selector text (no normalization), so textually distinct but
//! semantically equal selectors are cached independently.
//!
//! Its invariant ties every entry to the spec-level parser: a hit is
//! always the selector the parser assigns to the key, which is what
//! makes cached and freshly parsed queries agree.  The cache is
//! unbounded for the lifetime of the owning index; inserting an
//! already-present key again is harmless (the parse is deterministic).

use vstd::prelude::*;
use crate::parser::parse_spec;
use crate::selector::{Selector, SelectorView};
use crate::text::eq_chars;

verus! {

/// A memo table from raw selector text to its compiled selector.
pub struct SelectorCache {
    entries: Vec<(Vec<char>, Selector)>,
}

impl SelectorCache {
    /// Every cached selector is exactly what the parser assigns to its
    /// key, and is well-formed.
    pub closed spec fn wf(&self) -> bool {
        forall|k: int|
            0 <= k < self.entries@.len() ==> parse_spec((#[trigger] self.entries@[k]).0@)
                == Ok::<SelectorView, crate::parser::SelectorSyntaxError>(self.entries@[k].1@)
                && self.entries@[k].1@.wf()
    }

    /// An empty cache.
    pub fn new() -> (r: SelectorCache)
        ensures
            r.wf(),
    {
        SelectorCache { entries: Vec::new() }
    }

    /// The cached selector for this exact text, if present: a clone of
    /// the stored value.
    pub fn get(&self, key: &Vec<char>) -> (r: Option<Selector>)
        requires
            self.wf(),
        ensures
            match r {
                Some(sel) => parse_spec(key@) == Ok::<SelectorView,
                    crate::parser::SelectorSyntaxError,
                >(sel@) && sel@.wf(),
                None => true,
            },
    {
        let mut k: usize = 0;
        while k < self.entries.len()
            invariant
                self.wf(),
                k <= self.entries@.len(),
            decreases self.entries@.len() - k,
        {
            if eq_chars(&self.entries[k].0, key) {
                return Some(self.entries[k].1.clone());
            }
            k += 1;
        }
        None
    }

    /// Records the compiled form of this text.
    pub fn insert(&mut self, key: Vec<char>, sel: Selector)
        requires
            old(self).wf(),
            parse_spec(key@) == Ok::<SelectorView, crate::parser::SelectorSyntaxError>(sel@),
            sel@.wf(),
        ensures
            final(self).wf(),
    {
        self.entries.push((key, sel));
    }
}

} // verus!
