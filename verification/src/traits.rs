//! Capability contracts that a storage provider must satisfy.
//!
//! The transactional substrate reaches persistence only through these three
//! traits. Each backend carries an abstract mathematical value (`map_view`,
//! `cell_view`, `log_view`) and every operation says exactly how it changes
//! that value. Backends must be total: no transient failures surface here.

use vstd::prelude::*;
use crate::address::Address;

verus! {

/// A value the substrate can stage and hand back: it has a mathematical view
/// and admits a deep copy that preserves that view.
pub trait StoreElem: View + Sized {
    /// A deep copy whose view equals the original's.
    fn dup(&self) -> (r: Self)
        ensures
            r@ == self@,
    ;
}

/// Looks a key up in a map, as reads are specified throughout the substrate.
pub open spec fn map_get(m: Map<Seq<u8>, u128>, k: Seq<u8>) -> Option<u128> {
    if m.dom().contains(k) {
        Some(m[k])
    } else {
        None
    }
}

/// True when `s` enumerates exactly the keys of `dom`, without repetition.
pub open spec fn is_key_list(s: Seq<Address>, dom: Set<Seq<u8>>) -> bool {
    &&& forall|i: int, j: int| 0 <= i < j < s.len() ==> s[i]@ != s[j]@
    &&& forall|i: int| 0 <= i < s.len() ==> dom.contains(#[trigger] s[i]@)
    &&& forall|k: Seq<u8>| dom.contains(k) ==> exists|i: int|
        0 <= i < s.len() && (#[trigger] s[i])@ == k
}

/// A key list enumerating a domain without repetition has its cardinality.
pub proof fn lemma_key_list_len(s: Seq<Address>, dom: Set<Seq<u8>>)
    requires
        is_key_list(s, dom),
    ensures
        dom.finite(),
        dom.len() == s.len(),
    decreases s.len(),
{
    if s.len() == 0 {
        assert(dom =~= Set::<Seq<u8>>::empty());
    } else {
        let last = s.last()@;
        let s2 = s.drop_last();
        let dom2 = dom.remove(last);
        assert forall|k: Seq<u8>| dom2.contains(k) implies exists|i: int|
            0 <= i < s2.len() && (#[trigger] s2[i])@ == k by {
            let i = choose|i: int| 0 <= i < s.len() && (#[trigger] s[i])@ == k;
            assert(i < s.len() - 1);
            assert(s2[i]@ == k);
        }
        assert(is_key_list(s2, dom2));
        lemma_key_list_len(s2, dom2);
        assert(dom.contains(last));
        assert(dom =~= dom2.insert(last));
    }
}

/// A point-access persistent map from addresses to balances.
pub trait MapStore: Sized {
    /// The backend's internal invariant.
    open spec fn inv(&self) -> bool {
        true
    }

    /// The mapping currently held.
    open spec fn map_view(&self) -> Map<Seq<u8>, u128> {
        Map::empty()
    }

    fn get(&self, k: &Address) -> (r: Option<u128>)
        requires
            self.inv(),
        ensures
            r == map_get(self.map_view(), k@),
    ;

    fn put(&mut self, k: Address, v: u128)
        requires
            old(self).inv(),
        ensures
            final(self).inv(),
            final(self).map_view() == old(self).map_view().insert(k@, v),
    ;

    fn remove(&mut self, k: &Address)
        requires
            old(self).inv(),
        ensures
            final(self).inv(),
            final(self).map_view() == old(self).map_view().remove(k@),
    ;

    /// A snapshot of the keys, in no promised order.
    fn keys(&self) -> (r: Vec<Address>)
        requires
            self.inv(),
        ensures
            is_key_list(r@, self.map_view().dom()),
    ;

    fn clear(&mut self)
        requires
            old(self).inv(),
        ensures
            final(self).inv(),
            final(self).map_view() == Map::<Seq<u8>, u128>::empty(),
    ;
}

/// A persistent cell holding at most one value.
pub trait CellStore<T: StoreElem>: Sized {
    /// The backend's internal invariant.
    open spec fn inv(&self) -> bool {
        true
    }

    /// The value currently held, if any.
    open spec fn cell_view(&self) -> Option<T::V> {
        None
    }

    fn get(&self) -> (r: Option<T>)
        requires
            self.inv(),
        ensures
            match r {
                Some(t) => self.cell_view() == Some(t@),
                None => self.cell_view() is None,
            },
    ;

    fn set(&mut self, v: T)
        requires
            old(self).inv(),
        ensures
            final(self).inv(),
            final(self).cell_view() == Some(v@),
    ;

    fn clear(&mut self)
        requires
            old(self).inv(),
        ensures
            final(self).inv(),
            final(self).cell_view() is None,
    ;
}

/// A persistent append-only log.
pub trait LogStore<T: StoreElem>: Sized {
    /// The backend's internal invariant.
    open spec fn inv(&self) -> bool {
        true
    }

    /// The sequence currently held.
    open spec fn log_view(&self) -> Seq<T::V> {
        Seq::empty()
    }

    fn len(&self) -> (r: usize)
        requires
            self.inv(),
        ensures
            r == self.log_view().len(),
    ;

    fn get(&self, idx: usize) -> (r: Option<T>)
        requires
            self.inv(),
        ensures
            match r {
                Some(t) => idx < self.log_view().len() && t@ == self.log_view()[idx as int],
                None => idx >= self.log_view().len(),
            },
    ;

    fn append(&mut self, v: T)
        requires
            old(self).inv(),
            old(self).log_view().len() < usize::MAX,
        ensures
            final(self).inv(),
            final(self).log_view() == old(self).log_view().push(v@),
    ;

    fn extend(&mut self, items: Vec<T>)
        requires
            old(self).inv(),
            old(self).log_view().len() + items@.len() <= usize::MAX,
        ensures
            final(self).inv(),
            final(self).log_view() == old(self).log_view() + items@.map(|i: int, t: T| t@),
    ;

    fn clear(&mut self)
        requires
            old(self).inv(),
        ensures
            final(self).inv(),
            final(self).log_view() == Seq::<T::V>::empty(),
    ;
}

} // verus!
