//! In-memory backends: the simplest total implementations of the three
//! storage capabilities, used for freshly created stores and in tests.

use vstd::prelude::*;
use crate::address::{Address, addr_eq, copy_bytes};
use crate::log::layer_view;
use crate::traits::{CellStore, LogStore, MapStore, StoreElem};

verus! {

impl StoreElem for Vec<u8> {
    fn dup(&self) -> (r: Vec<u8>)
        ensures
            r@ == self@,
    {
        copy_bytes(self)
    }
}

impl StoreElem for Address {
    fn dup(&self) -> (r: Address)
        ensures
            r@ == self@,
    {
        Address(copy_bytes(&self.0))
    }
}

/// The mapping denoted by a list of key-value entries, later entries
/// overriding earlier ones.
pub open spec fn kv_map(s: Seq<(Address, u128)>) -> Map<Seq<u8>, u128>
    decreases s.len(),
{
    if s.len() == 0 {
        Map::empty()
    } else {
        kv_map(s.drop_last()).insert(s.last().0@, s.last().1)
    }
}

/// Entry keys pairwise distinct (by byte value).
pub open spec fn kv_unique(s: Seq<(Address, u128)>) -> bool {
    forall|i: int, j: int| 0 <= i < j < s.len() ==> (#[trigger] s[i]).0@ != (#[trigger] s[j]).0@
}

/// Entries mentioning no key `k` denote a mapping without `k`.
proof fn lemma_kv_absent(s: Seq<(Address, u128)>, k: Seq<u8>)
    requires
        forall|j: int| 0 <= j < s.len() ==> (#[trigger] s[j]).0@ != k,
    ensures
        !kv_map(s).contains_key(k),
    decreases s.len(),
{
    if s.len() > 0 {
        lemma_kv_absent(s.drop_last(), k);
    }
}

/// With distinct keys, the entry at `i` decides its key's mapping.
proof fn lemma_kv_find(s: Seq<(Address, u128)>, i: int)
    requires
        kv_unique(s),
        0 <= i < s.len(),
    ensures
        kv_map(s).contains_key(s[i].0@),
        kv_map(s)[s[i].0@] == s[i].1,
    decreases s.len(),
{
    if i == s.len() - 1 {
    } else {
        lemma_kv_find(s.drop_last(), i);
    }
}

/// Appending one entry inserts it into the denoted mapping.
proof fn lemma_kv_push(s: Seq<(Address, u128)>, e: (Address, u128))
    ensures
        kv_map(s.push(e)) == kv_map(s).insert(e.0@, e.1),
{
    assert(s.push(e).drop_last() =~= s);
}

/// With distinct keys, removing the entry at `i` removes its key.
proof fn lemma_kv_remove(s: Seq<(Address, u128)>, i: int)
    requires
        kv_unique(s),
        0 <= i < s.len(),
    ensures
        kv_map(s.remove(i)) == kv_map(s).remove(s[i].0@),
    decreases s.len(),
{
    if i == s.len() - 1 {
        assert(s.remove(i) =~= s.drop_last());
        assert forall|j: int| 0 <= j < s.drop_last().len() implies (#[trigger] s.drop_last()[j]).0@
            != s[i].0@ by {}
        lemma_kv_absent(s.drop_last(), s[i].0@);
        assert(kv_map(s.drop_last()) =~= kv_map(s.drop_last()).insert(
            s.last().0@,
            s.last().1,
        ).remove(s[i].0@));
    } else {
        lemma_kv_remove(s.drop_last(), i);
        assert(s.remove(i).drop_last() =~= s.drop_last().remove(i));
        assert(s.remove(i).last() == s.last());
        assert(kv_map(s.remove(i)) == kv_map(s.drop_last().remove(i)).insert(
            s.last().0@,
            s.last().1,
        ));
        assert(kv_map(s).remove(s[i].0@) =~= kv_map(s.drop_last()).remove(s[i].0@).insert(
            s.last().0@,
            s.last().1,
        ));
    }
}

/// The in-memory map backend: a list of entries with pairwise-distinct keys.
pub struct InMemoryMap {
    entries: Vec<(Address, u128)>,
}

impl InMemoryMap {
    /// An empty map.
    pub fn new() -> (r: InMemoryMap)
        ensures
            r.inv(),
            r.map_view() == Map::<Seq<u8>, u128>::empty(),
    {
        InMemoryMap { entries: Vec::new() }
    }

    /// The index of the entry holding `k`, if any.
    fn find(&self, k: &Address) -> (r: Option<usize>)
        ensures
            match r {
                Some(i) => i < self.entries@.len() && self.entries@[i as int].0@ == k@,
                None => forall|j: int|
                    0 <= j < self.entries@.len() ==> (#[trigger] self.entries@[j]).0@ != k@,
            },
    {
        let mut i: usize = 0;
        while i < self.entries.len()
            invariant
                i <= self.entries@.len(),
                forall|j: int| 0 <= j < i ==> (#[trigger] self.entries@[j]).0@ != k@,
            decreases self.entries@.len() - i,
        {
            if addr_eq(&self.entries[i].0, k) {
                return Some(i);
            }
            i += 1;
        }
        None
    }
}

impl MapStore for InMemoryMap {
    closed spec fn inv(&self) -> bool {
        kv_unique(self.entries@)
    }

    closed spec fn map_view(&self) -> Map<Seq<u8>, u128> {
        kv_map(self.entries@)
    }

    fn get(&self, k: &Address) -> (r: Option<u128>)
    {
        match self.find(k) {
            Some(i) => {
                proof {
                    lemma_kv_find(self.entries@, i as int);
                }
                Some(self.entries[i].1)
            },
            None => {
                proof {
                    lemma_kv_absent(self.entries@, k@);
                }
                None
            },
        }
    }

    fn put(&mut self, k: Address, v: u128)
    {
        let ghost pre = self.entries@;
        match self.find(&k) {
            Some(i) => {
                proof {
                    lemma_kv_remove(pre, i as int);
                }
                let _ = self.entries.remove(i);
                let ghost mid = self.entries@;
                self.entries.push((k, v));
                proof {
                    lemma_kv_push(mid, self.entries@.last());
                    assert forall|a: int, b: int|
                        0 <= a < b < self.entries@.len() implies (#[trigger] self.entries@[a]).0@
                        != (#[trigger] self.entries@[b]).0@ by {
                        if b == self.entries@.len() - 1 {
                            assert(self.entries@[a] == mid[a]);
                            assert(mid[a] == (if a < i {
                                pre[a]
                            } else {
                                pre[a + 1]
                            }));
                        }
                    }
                    assert(kv_map(self.entries@) =~= kv_map(pre).insert(k@, v));
                }
            },
            None => {
                self.entries.push((k, v));
                proof {
                    lemma_kv_push(pre, self.entries@.last());
                    assert forall|a: int, b: int|
                        0 <= a < b < self.entries@.len() implies (#[trigger] self.entries@[a]).0@
                        != (#[trigger] self.entries@[b]).0@ by {}
                }
            },
        }
    }

    fn remove(&mut self, k: &Address)
    {
        let ghost pre = self.entries@;
        match self.find(k) {
            Some(i) => {
                proof {
                    lemma_kv_remove(pre, i as int);
                }
                let _ = self.entries.remove(i);
                proof {
                    assert forall|a: int, b: int|
                        0 <= a < b < self.entries@.len() implies (#[trigger] self.entries@[a]).0@
                        != (#[trigger] self.entries@[b]).0@ by {
                        assert(self.entries@[a] == (if a < i {
                            pre[a]
                        } else {
                            pre[a + 1]
                        }));
                        assert(self.entries@[b] == (if b < i {
                            pre[b]
                        } else {
                            pre[b + 1]
                        }));
                    }
                }
            },
            None => {
                proof {
                    lemma_kv_absent(pre, k@);
                    assert(kv_map(pre) =~= kv_map(pre).remove(k@));
                }
            },
        }
    }

    fn keys(&self) -> (r: Vec<Address>)
    {
        let mut r: Vec<Address> = Vec::new();
        let mut i: usize = 0;
        while i < self.entries.len()
            invariant
                i <= self.entries@.len(),
                r@.len() == i,
                forall|j: int| 0 <= j < i ==> (#[trigger] r@[j])@ == self.entries@[j].0@,
            decreases self.entries@.len() - i,
        {
            r.push(self.entries[i].0.dup());
            i += 1;
        }
        proof {
            let dom = self.map_view().dom();
            assert forall|j: int| 0 <= j < r@.len() implies dom.contains(#[trigger] r@[j]@) by {
                lemma_kv_find(self.entries@, j);
            }
            assert forall|k: Seq<u8>| dom.contains(k) implies exists|j: int|
                0 <= j < r@.len() && (#[trigger] r@[j])@ == k by {
                if forall|j: int| 0 <= j < self.entries@.len() ==> (#[trigger] self.entries@[j]).0@
                    != k {
                    lemma_kv_absent(self.entries@, k);
                }
                let j = choose|j: int|
                    0 <= j < self.entries@.len() && (#[trigger] self.entries@[j]).0@ == k;
                assert(r@[j]@ == k);
            }
        }
        r
    }

    fn clear(&mut self)
    {
        self.entries.clear();
    }
}

/// The in-memory cell backend.
pub struct InMemoryCell<T: StoreElem> {
    inner: Option<T>,
}

impl<T: StoreElem> InMemoryCell<T> {
    /// An empty cell.
    pub fn new() -> (r: InMemoryCell<T>)
        ensures
            r.inv(),
            r.cell_view() is None,
    {
        InMemoryCell { inner: None }
    }
}

impl<T: StoreElem> CellStore<T> for InMemoryCell<T> {
    closed spec fn inv(&self) -> bool {
        true
    }

    closed spec fn cell_view(&self) -> Option<T::V> {
        match self.inner {
            Some(t) => Some(t@),
            None => None,
        }
    }

    fn get(&self) -> (r: Option<T>)
    {
        match &self.inner {
            Some(t) => Some(t.dup()),
            None => None,
        }
    }

    fn set(&mut self, v: T)
    {
        self.inner = Some(v);
    }

    fn clear(&mut self)
    {
        self.inner = None;
    }
}

/// The in-memory log backend.
pub struct InMemoryLog<T: StoreElem> {
    inner: Vec<T>,
}

impl<T: StoreElem> InMemoryLog<T> {
    /// An empty log.
    pub fn new() -> (r: InMemoryLog<T>)
        ensures
            r.inv(),
            r.log_view() == Seq::<T::V>::empty(),
    {
        let r = InMemoryLog { inner: Vec::new() };
        proof {
            assert(r.log_view() =~= Seq::<T::V>::empty());
        }
        r
    }
}

impl<T: StoreElem> LogStore<T> for InMemoryLog<T> {
    closed spec fn inv(&self) -> bool {
        true
    }

    closed spec fn log_view(&self) -> Seq<T::V> {
        layer_view(self.inner@)
    }

    fn len(&self) -> (r: usize)
    {
        self.inner.len()
    }

    fn get(&self, idx: usize) -> (r: Option<T>)
    {
        if idx < self.inner.len() {
            Some(self.inner[idx].dup())
        } else {
            None
        }
    }

    fn append(&mut self, v: T)
    {
        self.inner.push(v);
        proof {
            assert(self.log_view() =~= old(self).log_view().push(self.inner@.last()@));
        }
    }

    fn extend(&mut self, items: Vec<T>)
    {
        let ghost items0 = items@;
        let mut items = items;
        self.inner.append(&mut items);
        proof {
            assert(self.log_view() =~= old(self).log_view() + items0.map(|i: int, t: T| t@));
        }
    }

    fn clear(&mut self)
    {
        self.inner.clear();
        proof {
            assert(self.log_view() =~= Seq::<T::V>::empty());
        }
    }
}

} // verus!
