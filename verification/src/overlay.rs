//! A single staged layer of the transactional map.
//!
//! An overlay records per-key decisions: `Some(v)` stages a write, `None`
//! stages a deletion (a tombstone). A key that does not appear is untouched
//! at this layer. The overlay's mathematical value is a map from byte-string
//! keys to decisions; when a key is staged twice, the later entry wins.

use vstd::prelude::*;
use crate::address::{Address, addr_eq};

verus! {

/// One staged layer: an ordered list of per-key decisions, later entries
/// overriding earlier ones for the same key.
pub struct Overlay {
    pub staged: Vec<(Address, Option<u128>)>,
}

/// The mapping that a list of staged entries denotes: each entry in turn
/// overwrites the key it names.
pub open spec fn entries_map(s: Seq<(Address, Option<u128>)>) -> Map<Seq<u8>, Option<u128>>
    decreases s.len(),
{
    if s.len() == 0 {
        Map::empty()
    } else {
        entries_map(s.drop_last()).insert(s.last().0@, s.last().1)
    }
}

/// Looks a key up in an overlay's mapping: `None` means untouched,
/// `Some(decision)` means staged.
pub open spec fn omap_get(m: Map<Seq<u8>, Option<u128>>, k: Seq<u8>) -> Option<Option<u128>> {
    if m.contains_key(k) {
        Some(m[k])
    } else {
        None
    }
}

impl View for Overlay {
    type V = Map<Seq<u8>, Option<u128>>;

    open spec fn view(&self) -> Map<Seq<u8>, Option<u128>> {
        entries_map(self.staged@)
    }
}

/// Entries mentioning no key equal to `k` denote a mapping without `k`.
pub proof fn lemma_entries_map_absent(s: Seq<(Address, Option<u128>)>, k: Seq<u8>)
    requires
        forall|j: int| 0 <= j < s.len() ==> (#[trigger] s[j]).0@ != k,
    ensures
        !entries_map(s).contains_key(k),
    decreases s.len(),
{
    if s.len() > 0 {
        lemma_entries_map_absent(s.drop_last(), k);
    }
}

/// If position `i` is the last entry naming `k`, it decides `k`'s mapping.
pub proof fn lemma_entries_map_find(s: Seq<(Address, Option<u128>)>, k: Seq<u8>, i: int)
    requires
        0 <= i < s.len(),
        s[i].0@ == k,
        forall|j: int| i < j < s.len() ==> (#[trigger] s[j]).0@ != k,
    ensures
        entries_map(s).contains_key(k),
        entries_map(s)[k] == s[i].1,
    decreases s.len(),
{
    if i == s.len() - 1 {
    } else {
        lemma_entries_map_find(s.drop_last(), k, i);
    }
}

/// Appending one entry inserts its decision into the denoted mapping.
pub proof fn lemma_entries_map_push(s: Seq<(Address, Option<u128>)>, e: (Address, Option<u128>))
    ensures
        entries_map(s.push(e)) == entries_map(s).insert(e.0@, e.1),
{
    assert(s.push(e).drop_last() =~= s);
}

impl Overlay {
    /// A fresh transparent layer.
    pub fn new() -> (r: Overlay)
        ensures
            r@ == Map::<Seq<u8>, Option<u128>>::empty(),
            r.staged@.len() == 0,
    {
        Overlay { staged: Vec::new() }
    }

    /// Stages a decision for `k`, overriding any earlier one.
    pub fn stage(&mut self, k: Address, d: Option<u128>)
        ensures
            final(self)@ == old(self)@.insert(k@, d),
    {
        let ghost s0 = self.staged@;
        self.staged.push((k, d));
        proof {
            lemma_entries_map_push(s0, self.staged@.last());
        }
    }

    /// Reads this layer's decision for `k`, if it stages one.
    pub fn lookup(&self, k: &Address) -> (r: Option<Option<u128>>)
        ensures
            r == omap_get(self@, k@),
    {
        let mut i: usize = self.staged.len();
        while i > 0
            invariant
                i <= self.staged.len(),
                forall|j: int| i <= j < self.staged@.len() ==> (#[trigger] self.staged@[j]).0@
                    != k@,
            decreases i,
        {
            i -= 1;
            if addr_eq(&self.staged[i].0, k) {
                proof {
                    lemma_entries_map_find(self.staged@, k@, i as int);
                }
                return Some(self.staged[i].1);
            }
        }
        proof {
            lemma_entries_map_absent(self.staged@, k@);
        }
        None
    }

    /// Drops every staged decision, making the layer transparent again.
    pub fn clear(&mut self)
        ensures
            final(self)@ == Map::<Seq<u8>, Option<u128>>::empty(),
            final(self).staged@.len() == 0,
    {
        self.staged.clear();
    }
}

} // verus!
