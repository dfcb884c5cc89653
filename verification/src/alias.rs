//! The alias map.
//!
//! An in-memory mapping from address to a human-readable display
//! alias, loaded once and consulted by the report layer only. Lookups
//! never influence aggregation keys or sums; they fill display columns.

use crate::order::str_eq;
use vstd::prelude::*;

verus! {

/// The first alias for `a` among `entries`, front to back.
pub open spec fn alias_in(entries: Seq<(String, String)>, a: Seq<char>) -> Option<Seq<char>>
    decreases entries.len(),
{
    if entries.len() == 0 {
        None
    } else if entries[0].0@ == a {
        Some(entries[0].1@)
    } else {
        alias_in(entries.skip(1), a)
    }
}

/// A mapping from address to display alias. Keys are expected unique;
/// the first match decides.
#[derive(Debug)]
pub struct AliasMap {
    pub entries: Vec<(String, String)>,
}

impl AliasMap {
    /// The alias for `a`, where one exists.
    pub open spec fn spec_lookup(self, a: Seq<char>) -> Option<Seq<char>> {
        alias_in(self.entries@, a)
    }

    /// The alias column a report shows for `a`: the alias, or the
    /// empty string where none exists.
    pub open spec fn spec_display(self, a: Seq<char>) -> Seq<char> {
        match self.spec_lookup(a) {
            Some(s) => s,
            None => Seq::empty(),
        }
    }

    /// An empty map: every lookup misses and every report shows empty
    /// alias columns.
    pub fn new() -> (r: AliasMap)
        ensures
            r.entries@.len() == 0,
            forall|a: Seq<char>| #[trigger] r.spec_lookup(a) is None,
    {
        AliasMap { entries: Vec::new() }
    }

    /// Wrap loaded alias entries.
    pub fn from_entries(entries: Vec<(String, String)>) -> (r: AliasMap)
        ensures
            r.entries@ == entries@,
    {
        AliasMap { entries }
    }

    /// Look an address up; `None` where no entry names it.
    #[verifier::loop_isolation(false)]
    pub fn lookup(&self, address: &str) -> (r: Option<String>)
        ensures
            match r {
                Some(s) => self.spec_lookup(address@) == Some(s@),
                None => self.spec_lookup(address@) is None,
            },
    {
        let n = self.entries.len();
        proof {
            assert(self.entries@.skip(0) =~= self.entries@);
        }
        let mut i: usize = 0;
        while i < n
            invariant
                i <= n,
                n == self.entries@.len(),
                alias_in(self.entries@.skip(i as int), address@) == alias_in(
                    self.entries@,
                    address@,
                ),
            decreases n - i,
        {
            proof {
                assert(self.entries@.skip(i as int)[0] == self.entries@[i as int]);
                assert(self.entries@.skip(i as int).skip(1) =~= self.entries@.skip(i + 1));
            }
            if str_eq(self.entries[i].0.as_str(), address) {
                return Some(self.entries[i].1.clone());
            }
            i = i + 1;
        }
        None
    }

    /// The display alias: the alias where one exists, the empty string
    /// otherwise.
    pub fn display(&self, address: &str) -> (r: String)
        ensures
            r@ == self.spec_display(address@),
    {
        match self.lookup(address) {
            Some(s) => s,
            None => String::new(),
        }
    }
}

} // verus!
