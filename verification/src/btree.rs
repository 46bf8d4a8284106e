//! The transactional map: one backend plus a non-empty stack of overlays.
//!
//! The effective value of a key is decided by the topmost overlay that
//! mentions it (a staged write or a tombstone); if no overlay mentions the
//! key, the backend decides. Commits move decisions downwards — into the
//! layer below, or into the backend when the bottom layer drains.

use vstd::prelude::*;
use crate::address::{Address, lex_lt, lemma_lex_lt_connex, lemma_lex_lt_trans, addr_lt, addr_eq};
use crate::overlay::{Overlay, entries_map, omap_get, lemma_entries_map_push};
use crate::traits::{MapStore, map_get, lemma_key_list_len};

verus! {

/// A map transaction stack. Layer 0 is the oldest; the last layer is the top.
pub struct BTreeTxn<B: MapStore> {
    base: B,
    overlays: Vec<Overlay>,
}

/// The decision of a layer stack for key `k`: the topmost layer that
/// mentions `k` decides; `None` means no layer mentions it.
pub open spec fn staged_get(
    layers: Seq<Map<Seq<u8>, Option<u128>>>,
    k: Seq<u8>,
) -> Option<Option<u128>>
    decreases layers.len(),
{
    if layers.len() == 0 {
        None
    } else {
        match omap_get(layers.last(), k) {
            Some(d) => Some(d),
            None => staged_get(layers.drop_last(), k),
        }
    }
}

/// The effective value of `k` for a layer stack over a base mapping.
pub open spec fn eff_get(
    layers: Seq<Map<Seq<u8>, Option<u128>>>,
    base: Map<Seq<u8>, u128>,
    k: Seq<u8>,
) -> Option<u128> {
    match staged_get(layers, k) {
        Some(d) => d,
        None => map_get(base, k),
    }
}

/// The base mapping after one overlay drains into it: staged writes are
/// stored, tombstones delete, untouched keys keep their base value.
pub open spec fn overlay_commit(
    m: Map<Seq<u8>, u128>,
    o: Map<Seq<u8>, Option<u128>>,
) -> Map<Seq<u8>, u128> {
    Map::new(
        |k: Seq<u8>|
            if o.contains_key(k) {
                o[k] is Some
            } else {
                m.dom().contains(k)
            },
        |k: Seq<u8>|
            if o.contains_key(k) {
                o[k]->0
            } else {
                m[k]
            },
    )
}

/// Draining a transparent overlay changes nothing.
pub proof fn lemma_overlay_commit_empty(m: Map<Seq<u8>, u128>)
    ensures
        overlay_commit(m, Map::empty()) == m,
{
    assert(overlay_commit(m, Map::empty()) =~= m);
}

/// Staging one more decision before draining equals draining then applying
/// the decision to the base.
pub proof fn lemma_overlay_commit_insert(
    m: Map<Seq<u8>, u128>,
    o: Map<Seq<u8>, Option<u128>>,
    k: Seq<u8>,
    d: Option<u128>,
)
    ensures
        overlay_commit(m, o.insert(k, d)) == (match d {
            Some(v) => overlay_commit(m, o).insert(k, v),
            None => overlay_commit(m, o).remove(k),
        }),
{
    match d {
        Some(v) => {
            assert(overlay_commit(m, o.insert(k, d)) =~= overlay_commit(m, o).insert(k, v));
        },
        None => {
            assert(overlay_commit(m, o.insert(k, d)) =~= overlay_commit(m, o).remove(k));
        },
    }
}

/// Merging the top layer into the one below (top preferred) leaves every
/// key's staged decision unchanged.
pub proof fn lemma_staged_get_merge(layers: Seq<Map<Seq<u8>, Option<u128>>>, k: Seq<u8>)
    requires
        layers.len() >= 2,
    ensures
        staged_get(
            layers.drop_last().update(
                layers.len() - 2,
                layers[layers.len() - 2].union_prefer_right(layers.last()),
            ),
            k,
        ) == staged_get(layers, k),
{
    reveal_with_fuel(staged_get, 3);
    let n = layers.len() as int;
    let lower = layers[n - 2];
    let top = layers.last();
    let u = lower.union_prefer_right(top);
    let merged = layers.drop_last().update(n - 2, u);
    assert(merged.last() == u);
    assert(merged.drop_last() =~= layers.drop_last().drop_last());
    assert(layers.drop_last().last() == lower);
    if top.contains_key(k) {
        assert(u.contains_key(k));
        assert(u[k] == top[k]);
    } else if lower.contains_key(k) {
        assert(u.contains_key(k));
        assert(u[k] == lower[k]);
    } else {
        assert(!u.contains_key(k));
    }
}

/// A stack of one transparent layer stages nothing.
pub proof fn lemma_staged_get_single_empty(k: Seq<u8>)
    ensures
        staged_get(seq![Map::<Seq<u8>, Option<u128>>::empty()], k) is None,
{
    reveal_with_fuel(staged_get, 2);
    let s = seq![Map::<Seq<u8>, Option<u128>>::empty()];
    assert(s.drop_last() =~= Seq::<Map<Seq<u8>, Option<u128>>>::empty());
    assert(!s.last().contains_key(k));
}

/// Draining the bottom layer into the base leaves every key's effective
/// value unchanged.
pub proof fn lemma_eff_commit_bottom(
    layers: Seq<Map<Seq<u8>, Option<u128>>>,
    base: Map<Seq<u8>, u128>,
    k: Seq<u8>,
)
    requires
        layers.len() >= 1,
    ensures
        eff_get(layers.drop_first(), overlay_commit(base, layers[0]), k) == eff_get(
            layers,
            base,
            k,
        ),
    decreases layers.len(),
{
    let o = layers[0];
    if layers.len() == 1 {
        assert(layers.drop_first() =~= Seq::<Map<Seq<u8>, Option<u128>>>::empty());
        assert(layers.drop_last() =~= Seq::<Map<Seq<u8>, Option<u128>>>::empty());
        assert(layers.last() == o);
    } else {
        lemma_eff_commit_bottom(layers.drop_last(), base, k);
        assert(layers.drop_last()[0] == o);
        assert(layers.drop_first().last() == layers.last());
        assert(layers.drop_first().drop_last() =~= layers.drop_last().drop_first());
    }
}

impl<B: MapStore> BTreeTxn<B> {
    /// The stack of staged layers, oldest first.
    pub closed spec fn layers(&self) -> Seq<Map<Seq<u8>, Option<u128>>> {
        self.overlays@.map(|i: int, o: Overlay| o@)
    }

    /// The backend's mapping.
    pub closed spec fn base_view(&self) -> Map<Seq<u8>, u128> {
        self.base.map_view()
    }

    /// The backend's internal invariant.
    pub closed spec fn base_inv(&self) -> bool {
        self.base.inv()
    }

    /// The number of staged layers; at least one at all times.
    pub open spec fn depth(&self) -> int {
        self.layers().len() as int
    }

    /// Well-formedness: a non-empty stack over an intact backend.
    pub open spec fn wf(&self) -> bool {
        &&& self.layers().len() >= 1
        &&& self.base_inv()
    }

    /// The effective value of `k`: layers top-down, then the backend.
    pub open spec fn effective_get(&self, k: Seq<u8>) -> Option<u128> {
        eff_get(self.layers(), self.base_view(), k)
    }

    /// The whole effective mapping.
    pub open spec fn effective_map(&self) -> Map<Seq<u8>, u128> {
        Map::new(
            |k: Seq<u8>| self.effective_get(k) is Some,
            |k: Seq<u8>| self.effective_get(k)->0,
        )
    }

    /// A transaction stack over `base` with one transparent layer.
    pub fn new(base: B) -> (r: BTreeTxn<B>)
        requires
            base.inv(),
        ensures
            r.wf(),
            r.layers() == seq![Map::<Seq<u8>, Option<u128>>::empty()],
            r.base_view() == base.map_view(),
    {
        let mut overlays: Vec<Overlay> = Vec::new();
        overlays.push(Overlay::new());
        let r = BTreeTxn { base, overlays };
        proof {
            assert(r.layers() =~= seq![Map::<Seq<u8>, Option<u128>>::empty()]);
        }
        r
    }

    /// Opens a nested transaction: a fresh transparent layer on top.
    pub fn push_layer(&mut self)
        requires
            old(self).wf(),
        ensures
            final(self).wf(),
            final(self).layers() == old(self).layers().push(
                Map::<Seq<u8>, Option<u128>>::empty(),
            ),
            final(self).base_view() == old(self).base_view(),
            forall|k: Seq<u8>| final(self).effective_get(k) == old(self).effective_get(k),
    {
        self.overlays.push(Overlay::new());
        proof {
            let post = self.layers();
            let pre = old(self).layers();
            assert(post =~= pre.push(Map::<Seq<u8>, Option<u128>>::empty()));
            assert forall|k: Seq<u8>| final(self).effective_get(k) == old(self).effective_get(
                k,
            ) by {
                assert(post.drop_last() =~= pre);
                assert(omap_get(post.last(), k) is None);
            }
        }
    }

    /// Stages a write of `v` at `k` in the top layer.
    pub fn insert(&mut self, k: Address, v: u128)
        requires
            old(self).wf(),
        ensures
            final(self).wf(),
            final(self).depth() == old(self).depth(),
            final(self).base_view() == old(self).base_view(),
            final(self).layers() == old(self).layers().update(
                old(self).depth() - 1,
                old(self).layers().last().insert(k@, Some(v)),
            ),
            final(self).effective_get(k@) == Some(v),
            forall|k2: Seq<u8>|
                k2 != k@ ==> final(self).effective_get(k2) == old(self).effective_get(k2),
    {
        let ghost kv = k@;
        let mut top = self.overlays.pop().unwrap();
        top.stage(k, Some(v));
        self.overlays.push(top);
        proof {
            self.lemma_top_update(*old(self), kv, Some(v));
        }
    }

    /// Stages a deletion of `k` (a tombstone) in the top layer.
    pub fn remove(&mut self, k: &Address)
        requires
            old(self).wf(),
        ensures
            final(self).wf(),
            final(self).depth() == old(self).depth(),
            final(self).base_view() == old(self).base_view(),
            final(self).layers() == old(self).layers().update(
                old(self).depth() - 1,
                old(self).layers().last().insert(k@, None),
            ),
            final(self).effective_get(k@) is None,
            forall|k2: Seq<u8>|
                k2 != k@ ==> final(self).effective_get(k2) == old(self).effective_get(k2),
    {
        let ghost kv = k@;
        let mut top = self.overlays.pop().unwrap();
        top.stage(k.dup(), None);
        self.overlays.push(top);
        proof {
            self.lemma_top_update(*old(self), kv, None);
        }
    }

    /// After staging one decision in the top layer, the stack's shape and the
    /// effective values follow.
    proof fn lemma_top_update(&self, pre: BTreeTxn<B>, k: Seq<u8>, d: Option<u128>)
        requires
            pre.overlays@.len() >= 1,
            self.overlays@.len() == pre.overlays@.len(),
            self.base_view() == pre.base_view(),
            self.layers().last() == pre.layers().last().insert(k, d),
            self.layers().drop_last() =~= pre.layers().drop_last(),
        ensures
            self.layers() == pre.layers().update(
                pre.depth() - 1,
                pre.layers().last().insert(k, d),
            ),
            self.effective_get(k) == match d {
                Some(v) => Some(v),
                None => None::<u128>,
            },
            forall|k2: Seq<u8>| k2 != k ==> self.effective_get(k2) == pre.effective_get(k2),
    {
        let post = self.layers();
        let pre_l = pre.layers();
        let n = pre_l.len() as int;
        assert(post.len() == n);
        assert forall|i: int| 0 <= i < n implies post[i] == pre_l.update(
            n - 1,
            pre_l.last().insert(k, d),
        )[i] by {
            if i < n - 1 {
                assert(post[i] == post.drop_last()[i]);
                assert(pre_l[i] == pre_l.drop_last()[i]);
            }
        }
        assert(post =~= pre_l.update(n - 1, pre_l.last().insert(k, d)));
        assert(omap_get(post.last(), k) == Some(d));
        assert forall|k2: Seq<u8>| k2 != k implies self.effective_get(k2) == pre.effective_get(
            k2,
        ) by {
            assert(omap_get(post.last(), k2) == omap_get(pre_l.last(), k2));
        }
    }

    /// Reads the effective value of `k`. Pure: the stack is untouched.
    pub fn get(&self, k: &Address) -> (r: Option<u128>)
        requires
            self.wf(),
        ensures
            r == self.effective_get(k@),
    {
        let ghost all = self.layers();
        let mut i: usize = self.overlays.len();
        proof {
            assert(all.take(i as int) =~= all);
        }
        while i > 0
            invariant
                self.wf(),
                i <= self.overlays@.len(),
                all == self.layers(),
                staged_get(all, k@) == staged_get(all.take(i as int), k@),
            decreases i,
        {
            i -= 1;
            let r = self.overlays[i].lookup(k);
            proof {
                assert(all.take(i + 1).last() == all[i as int]);
                assert(all.take(i + 1).drop_last() =~= all.take(i as int));
            }
            match r {
                Some(d) => {
                    return d;
                },
                None => {},
            }
        }
        proof {
            assert(all.take(0) =~= Seq::<Map<Seq<u8>, Option<u128>>>::empty());
        }
        self.base.get(k)
    }

    /// Abandons the top layer. At depth 1 the sole layer is cleared instead,
    /// so the stack never empties.
    pub fn revert_top(&mut self)
        requires
            old(self).wf(),
        ensures
            final(self).wf(),
            final(self).base_view() == old(self).base_view(),
            final(self).layers() == (if old(self).depth() > 1 {
                old(self).layers().drop_last()
            } else {
                seq![Map::<Seq<u8>, Option<u128>>::empty()]
            }),
    {
        if self.overlays.len() > 1 {
            self.overlays.pop();
            proof {
                assert(self.layers() =~= old(self).layers().drop_last());
            }
        } else {
            let mut top = self.overlays.pop().unwrap();
            top.clear();
            self.overlays.push(top);
            proof {
                assert(self.layers() =~= seq![Map::<Seq<u8>, Option<u128>>::empty()]);
            }
        }
    }

    /// Merges the top layer down: into the layer below (its decisions win),
    /// or into the backend when only one layer remains. Every key's effective
    /// value is preserved.
    pub fn commit_top(&mut self)
        requires
            old(self).wf(),
        ensures
            final(self).wf(),
            final(self).depth() == (if old(self).depth() > 1 {
                old(self).depth() - 1
            } else {
                1
            }),
            old(self).depth() > 1 ==> final(self).base_view() == old(self).base_view()
                && final(self).layers() == old(self).layers().drop_last().update(
                old(self).depth() - 2,
                old(self).layers()[old(self).depth() - 2].union_prefer_right(
                    old(self).layers().last(),
                ),
            ),
            old(self).depth() == 1 ==> final(self).base_view() == overlay_commit(
                old(self).base_view(),
                old(self).layers()[0],
            ) && final(self).layers() == seq![Map::<Seq<u8>, Option<u128>>::empty()],
            forall|k: Seq<u8>| final(self).effective_get(k) == old(self).effective_get(k),
    {
        if self.overlays.len() > 1 {
            let top = self.overlays.pop().unwrap();
            let mut lower = self.overlays.pop().unwrap();
            let ghost lower0 = lower@;
            let ghost entries = top.staged@;
            let mut j: usize = 0;
            proof {
                assert(entries.take(0) =~= Seq::<(Address, Option<u128>)>::empty());
                assert(lower0.union_prefer_right(entries_map(entries.take(0))) =~= lower0);
            }
            while j < top.staged.len()
                invariant
                    j <= top.staged@.len(),
                    top.staged@ == entries,
                    lower@ == lower0.union_prefer_right(entries_map(entries.take(j as int))),
                decreases top.staged@.len() - j,
            {
                let (k, d) = (top.staged[j].0.dup(), top.staged[j].1);
                lower.stage(k, d);
                j += 1;
                proof {
                    assert(entries.take(j as int) =~= entries.take(j - 1).push(
                        entries[j - 1],
                    ));
                    lemma_entries_map_push(entries.take(j - 1), entries[j - 1]);
                    assert(lower@ =~= lower0.union_prefer_right(
                        entries_map(entries.take(j as int)),
                    ));
                }
            }
            self.overlays.push(lower);
            proof {
                assert(entries.take(entries.len() as int) =~= entries);
                let pre = old(self).layers();
                let n = pre.len() as int;
                assert(self.layers() =~= pre.drop_last().update(
                    n - 2,
                    pre[n - 2].union_prefer_right(pre.last()),
                ));
                assert forall|k: Seq<u8>| final(self).effective_get(k) == old(
                    self,
                ).effective_get(k) by {
                    lemma_staged_get_merge(pre, k);
                }
            }
        } else {
            let top = self.overlays.pop().unwrap();
            drain_into_base(&mut self.base, top);
            self.overlays.push(Overlay::new());
            proof {
                let pre = old(self).layers();
                assert(self.layers() =~= seq![Map::<Seq<u8>, Option<u128>>::empty()]);
                assert forall|k: Seq<u8>| final(self).effective_get(k) == old(
                    self,
                ).effective_get(k) by {
                    lemma_eff_commit_bottom(pre, old(self).base_view(), k);
                    assert(pre.drop_first() =~= Seq::<Map<Seq<u8>, Option<u128>>>::empty());
                    lemma_staged_get_single_empty(k);
                }
            }
        }
    }

    /// Commits every layer: afterwards the stack is one transparent layer and
    /// the backend holds exactly the old effective mapping.
    pub fn commit_all(&mut self)
        requires
            old(self).wf(),
        ensures
            final(self).wf(),
            final(self).depth() == 1,
            final(self).layers() == seq![Map::<Seq<u8>, Option<u128>>::empty()],
            final(self).base_view() == old(self).effective_map(),
            forall|k: Seq<u8>| final(self).effective_get(k) == old(self).effective_get(k),
    {
        while self.overlays.len() > 1
            invariant
                self.wf(),
                forall|k: Seq<u8>|
                    self.effective_get(k) == old(self).effective_get(k),
            decreases self.overlays@.len(),
        {
            self.commit_top();
        }
        self.commit_top();
        proof {
            assert forall|k: Seq<u8>| true implies #[trigger] map_get(
                self.base_view(),
                k,
            ) == old(self).effective_get(k) by {
                lemma_staged_get_single_empty(k);
            }
            assert(self.base_view() =~= old(self).effective_map());
        }
    }

    /// Removes the oldest layer and drains it straight into the backend.
    /// Every key's effective value is preserved.
    pub fn commit_oldest(&mut self)
        requires
            old(self).wf(),
        ensures
            final(self).wf(),
            final(self).depth() == (if old(self).depth() > 1 {
                old(self).depth() - 1
            } else {
                1
            }),
            final(self).base_view() == overlay_commit(
                old(self).base_view(),
                old(self).layers()[0],
            ),
            final(self).layers() == (if old(self).depth() > 1 {
                old(self).layers().drop_first()
            } else {
                seq![Map::<Seq<u8>, Option<u128>>::empty()]
            }),
            forall|k: Seq<u8>| final(self).effective_get(k) == old(self).effective_get(k),
    {
        let oldest = self.overlays.remove(0);
        drain_into_base(&mut self.base, oldest);
        if self.overlays.len() == 0 {
            self.overlays.push(Overlay::new());
            proof {
                let pre = old(self).layers();
                assert(self.layers() =~= seq![Map::<Seq<u8>, Option<u128>>::empty()]);
                assert forall|k: Seq<u8>| final(self).effective_get(k) == old(
                    self,
                ).effective_get(k) by {
                    lemma_eff_commit_bottom(pre, old(self).base_view(), k);
                    assert(pre.drop_first() =~= Seq::<Map<Seq<u8>, Option<u128>>>::empty());
                    lemma_staged_get_single_empty(k);
                }
            }
        } else {
            proof {
                let pre = old(self).layers();
                assert(self.layers() =~= pre.drop_first());
                assert forall|k: Seq<u8>| final(self).effective_get(k) == old(
                    self,
                ).effective_get(k) by {
                    lemma_eff_commit_bottom(pre, old(self).base_view(), k);
                }
            }
        }
    }

    /// Erases the backend and the stack alike: a fresh store.
    pub fn clear_all(&mut self)
        requires
            old(self).wf(),
        ensures
            final(self).wf(),
            final(self).base_view() == Map::<Seq<u8>, u128>::empty(),
            final(self).layers() == seq![Map::<Seq<u8>, Option<u128>>::empty()],
            forall|k: Seq<u8>| final(self).effective_get(k) is None,
    {
        self.base.clear();
        self.overlays.clear();
        self.overlays.push(Overlay::new());
        proof {
            assert(self.layers() =~= seq![Map::<Seq<u8>, Option<u128>>::empty()]);
            assert forall|k: Seq<u8>| final(self).effective_get(k) is None by {
                lemma_staged_get_single_empty(k);
            }
        }
    }

    /// The number of keys the backend holds.
    pub fn base_len(&self) -> (r: usize)
        requires
            self.wf(),
        ensures
            r == self.base_view().dom().len(),
    {
        let keys = self.base.keys();
        proof {
            lemma_key_list_len(keys@, self.base_view().dom());
        }
        keys.len()
    }
}

/// Drains one overlay into the backend: staged writes become `put`,
/// tombstones become `remove`, in staging order.
fn drain_into_base<B: MapStore>(base: &mut B, o: Overlay)
    requires
        old(base).inv(),
    ensures
        final(base).inv(),
        final(base).map_view() == overlay_commit(old(base).map_view(), o@),
{
    let ghost base0 = old(base).map_view();
    let ghost entries = o.staged@;
    let mut j: usize = 0;
    proof {
        assert(entries.take(0) =~= Seq::<(Address, Option<u128>)>::empty());
        lemma_overlay_commit_empty(base0);
    }
    while j < o.staged.len()
        invariant
            j <= o.staged@.len(),
            o.staged@ == entries,
            base.inv(),
            base.map_view() == overlay_commit(base0, entries_map(entries.take(j as int))),
        decreases o.staged@.len() - j,
    {
        let d = o.staged[j].1;
        match d {
            Some(v) => {
                base.put(o.staged[j].0.dup(), v);
            },
            None => {
                base.remove(&o.staged[j].0);
            },
        }
        j += 1;
        proof {
            assert(entries.take(j as int) =~= entries.take(j - 1).push(entries[j - 1]));
            lemma_entries_map_push(entries.take(j - 1), entries[j - 1]);
            lemma_overlay_commit_insert(
                base0,
                entries_map(entries.take(j - 1)),
                entries[j - 1].0@,
                entries[j - 1].1,
            );
        }
    }
    proof {
        assert(entries.take(entries.len() as int) =~= entries);
    }
}

/// Addresses in strictly ascending lexicographic order.
pub open spec fn sorted_addrs(s: Seq<Address>) -> bool {
    forall|i: int, j: int| 0 <= i < j < s.len() ==> lex_lt((#[trigger] s[i])@, (#[trigger] s[j])@)
}

/// True when some element of `s` holds the byte string `k`.
pub open spec fn has_addr(s: Seq<Address>, k: Seq<u8>) -> bool {
    exists|i: int| 0 <= i < s.len() && (#[trigger] s[i])@ == k
}

/// Inserts `k` into a sorted address list, keeping it sorted and free of
/// duplicates.
fn insert_sorted(keys: &mut Vec<Address>, k: Address)
    requires
        sorted_addrs(old(keys)@),
    ensures
        sorted_addrs(final(keys)@),
        forall|k2: Seq<u8>|
            #[trigger] has_addr(final(keys)@, k2) == (has_addr(old(keys)@, k2) || k2 == k@),
{
    let ghost pre = keys@;
    let mut i: usize = 0;
    while i < keys.len() && addr_lt(&keys[i], &k)
        invariant
            i <= keys@.len(),
            keys@ == pre,
            sorted_addrs(pre),
            forall|j: int| 0 <= j < i ==> lex_lt((#[trigger] pre[j])@, k@),
        decreases keys@.len() - i,
    {
        i += 1;
    }
    if i < keys.len() && addr_eq(&keys[i], &k) {
        proof {
            assert(has_addr(pre, k@));
            assert forall|k2: Seq<u8>| #[trigger] has_addr(keys@, k2) == (has_addr(pre, k2)
                || k2 == k@) by {}
        }
        return ;
    }
    proof {
        if i < pre.len() {
            lemma_lex_lt_connex(pre[i as int]@, k@);
            assert(lex_lt(k@, pre[i as int]@));
        }
    }
    keys.insert(i, k);
    proof {
        let post = keys@;
        assert(post.len() == pre.len() + 1);
        assert forall|a: int, b: int| 0 <= a < b < post.len() implies lex_lt(
            (#[trigger] post[a])@,
            (#[trigger] post[b])@,
        ) by {
            if b < i {
            } else if a < i && b == i {
                assert(post[a] == pre[a]);
            } else if a < i && b > i {
                assert(post[a] == pre[a]);
                assert(post[b] == pre[b - 1]);
            } else if a == i && b > i {
                assert(post[b] == pre[b - 1]);
                if b - 1 > i {
                    lemma_lex_lt_trans(k@, pre[i as int]@, pre[b - 1]@);
                }
            } else {
                assert(post[a] == pre[a - 1]);
                assert(post[b] == pre[b - 1]);
            }
        }
        assert forall|k2: Seq<u8>| #[trigger] has_addr(post, k2) == (has_addr(pre, k2) || k2
            == k@) by {
            if has_addr(pre, k2) {
                let j = choose|j: int| 0 <= j < pre.len() && (#[trigger] pre[j])@ == k2;
                if j < i {
                    assert(post[j]@ == k2);
                } else {
                    assert(post[j + 1]@ == k2);
                }
            }
            if k2 == k@ {
                assert(post[i as int]@ == k2);
            }
            if has_addr(post, k2) {
                let j = choose|j: int| 0 <= j < post.len() && (#[trigger] post[j])@ == k2;
                if j < i {
                    assert(pre[j]@ == k2);
                } else if j == i {
                } else {
                    assert(pre[j - 1]@ == k2);
                }
            }
        }
    }
}

/// A staged decision for `k` lives in some layer.
proof fn lemma_staged_get_layer(layers: Seq<Map<Seq<u8>, Option<u128>>>, k: Seq<u8>)
    requires
        staged_get(layers, k) is Some,
    ensures
        exists|li: int| 0 <= li < layers.len() && (#[trigger] layers[li]).contains_key(k),
    decreases layers.len(),
{
    if layers.len() > 0 {
        if layers.last().contains_key(k) {
            assert(layers[layers.len() - 1].contains_key(k));
        } else {
            lemma_staged_get_layer(layers.drop_last(), k);
            let li = choose|li: int|
                0 <= li < layers.drop_last().len() && (#[trigger] layers.drop_last()[li]).contains_key(k);
            assert(layers[li].contains_key(k));
        }
    }
}

/// The keys of an item list, in order.
pub open spec fn items_keys(s: Seq<(Address, u128)>) -> Seq<Address> {
    s.map(|i: int, p: (Address, u128)| p.0)
}

/// A snapshot enumeration of the effective mapping, keys ascending.
pub struct BTreeEffectiveIter {
    items: Vec<(Address, u128)>,
    idx: usize,
}

impl BTreeEffectiveIter {
    /// The enumerated pairs, in order.
    pub closed spec fn items(&self) -> Seq<(Address, u128)> {
        self.items@
    }

    /// How many pairs were already handed out.
    pub closed spec fn pos(&self) -> int {
        self.idx as int
    }

    /// Hands out the next pair, or `None` when the snapshot is exhausted.
    pub fn next(&mut self) -> (r: Option<(Address, u128)>)
        requires
            old(self).pos() <= old(self).items().len(),
        ensures
            final(self).items() == old(self).items(),
            old(self).pos() < old(self).items().len() ==> r is Some && (r->0).0@ == old(
                self,
            ).items()[old(self).pos()].0@ && (r->0).1 == old(self).items()[old(self).pos()].1
                && final(self).pos() == old(self).pos() + 1,
            old(self).pos() >= old(self).items().len() ==> r is None && final(self).pos()
                == old(self).pos(),
    {
        if self.idx < self.items.len() {
            let p = (self.items[self.idx].0.dup(), self.items[self.idx].1);
            self.idx += 1;
            Some(p)
        } else {
            None
        }
    }
}

impl<B: MapStore> BTreeTxn<B> {
    /// Every key whose effective value is present, in ascending order,
    /// possibly among other keys.
    #[verifier::rlimit(30)]
    fn collect_keys(&self) -> (keys: Vec<Address>)
        requires
            self.wf(),
        ensures
            sorted_addrs(keys@),
            forall|k: Seq<u8>|
                self.effective_get(k) is Some ==> #[trigger] has_addr(keys@, k),
    {
        let mut keys: Vec<Address> = Vec::new();
        let bkeys = self.base.keys();
        let mut i: usize = 0;
        while i < bkeys.len()
            invariant
                i <= bkeys@.len(),
                sorted_addrs(keys@),
                crate::traits::is_key_list(bkeys@, self.base_view().dom()),
                forall|j: int| 0 <= j < i ==> has_addr(keys@, (#[trigger] bkeys@[j])@),
            decreases bkeys@.len() - i,
        {
            insert_sorted(&mut keys, bkeys[i].dup());
            i += 1;
        }
        proof {
            assert forall|k: Seq<u8>| self.base_view().dom().contains(k) implies has_addr(
                keys@,
                k,
            ) by {
                let j = choose|j: int| 0 <= j < bkeys@.len() && (#[trigger] bkeys@[j])@ == k;
                assert(has_addr(keys@, bkeys@[j]@));
            }
        }
        let mut oi: usize = 0;
        while oi < self.overlays.len()
            invariant
                self.wf(),
                oi <= self.overlays@.len(),
                sorted_addrs(keys@),
                forall|k: Seq<u8>|
                    self.base_view().dom().contains(k) ==> #[trigger] has_addr(keys@, k),
                forall|li: int, j: int|
                    0 <= li < oi && 0 <= j < self.overlays@[li].staged@.len() ==> has_addr(
                        keys@,
                        (#[trigger] self.overlays@[li].staged@[j]).0@,
                    ),
            decreases self.overlays@.len() - oi,
        {
            let mut j: usize = 0;
            while j < self.overlays[oi].staged.len()
                invariant
                    self.wf(),
                    oi < self.overlays@.len(),
                    j <= self.overlays@[oi as int].staged@.len(),
                    sorted_addrs(keys@),
                    forall|k: Seq<u8>|
                        self.base_view().dom().contains(k) ==> #[trigger] has_addr(keys@, k),
                    forall|li: int, jj: int|
                        0 <= li < oi && 0 <= jj < self.overlays@[li].staged@.len() ==> has_addr(
                            keys@,
                            (#[trigger] self.overlays@[li].staged@[jj]).0@,
                        ),
                    forall|jj: int|
                        0 <= jj < j ==> has_addr(
                            keys@,
                            (#[trigger] self.overlays@[oi as int].staged@[jj]).0@,
                        ),
                decreases self.overlays@[oi as int].staged@.len() - j,
            {
                insert_sorted(&mut keys, self.overlays[oi].staged[j].0.dup());
                j += 1;
            }
            oi += 1;
        }
        proof {
            assert forall|k: Seq<u8>| self.effective_get(k) is Some implies has_addr(
                keys@,
                k,
            ) by {
                match staged_get(self.layers(), k) {
                    Some(d) => {
                        lemma_staged_get_layer(self.layers(), k);
                        let li = choose|li: int|
                            0 <= li < self.layers().len() && (
                            #[trigger] self.layers()[li]).contains_key(k);
                        let st = self.overlays@[li].staged@;
                        assert(entries_map(st).contains_key(k));
                        if forall|jj: int| 0 <= jj < st.len() ==> (#[trigger] st[jj]).0@ != k {
                            crate::overlay::lemma_entries_map_absent(st, k);
                        }
                        let jj = choose|jj: int| 0 <= jj < st.len() && (#[trigger] st[jj]).0@ == k;
                        assert(has_addr(keys@, st[jj].0@));
                    },
                    None => {
                        assert(self.base_view().dom().contains(k));
                    },
                }
            }
        }
        keys
    }

    /// Keeps, in order, the keys that resolve to a present value, each with
    /// its effective value.
    #[verifier::rlimit(50)]
    fn collect_items(&self, keys: &Vec<Address>) -> (items: Vec<(Address, u128)>)
        requires
            self.wf(),
            sorted_addrs(keys@),
            forall|k: Seq<u8>|
                self.effective_get(k) is Some ==> #[trigger] has_addr(keys@, k),
        ensures
            sorted_addrs(items_keys(items@)),
            forall|a: int|
                0 <= a < items@.len() ==> self.effective_get((#[trigger] items@[a]).0@)
                    == Some(items@[a].1),
            forall|k: Seq<u8>|
                self.effective_get(k) is Some ==> exists|a: int|
                    0 <= a < items@.len() && (#[trigger] items@[a]).0@ == k,
    {
        let mut items: Vec<(Address, u128)> = Vec::new();
        let mut i: usize = 0;
        while i < keys.len()
            invariant
                self.wf(),
                i <= keys@.len(),
                sorted_addrs(keys@),
                forall|a: int|
                    0 <= a < items@.len() ==> exists|j: int|
                        0 <= j < i && (#[trigger] items@[a]).0@ == (#[trigger] keys@[j])@,
                sorted_addrs(items_keys(items@)),
                forall|a: int|
                    0 <= a < items@.len() ==> self.effective_get(
                        (#[trigger] items@[a]).0@,
                    ) == Some(items@[a].1),
                forall|j: int|
                    0 <= j < i && self.effective_get((#[trigger] keys@[j])@) is Some
                        ==> exists|a: int|
                        0 <= a < items@.len() && (#[trigger] items@[a]).0@ == keys@[j]@,
            decreases keys@.len() - i,
        {
            let ghost items0 = items@;
            match self.get(&keys[i]) {
                Some(v) => {
                    items.push((keys[i].dup(), v));
                    proof {
                        assert(items@ =~= items0.push(items@.last()));
                        assert(items@.last().0@ == keys@[i as int]@);
                        assert forall|a: int, b: int| 0 <= a < b < items@.len() implies lex_lt(
                            (#[trigger] items_keys(items@)[a])@,
                            (#[trigger] items_keys(items@)[b])@,
                        ) by {
                            assert(items_keys(items@)[a] == items@[a].0);
                            assert(items_keys(items@)[b] == items@[b].0);
                            if b < items0.len() {
                                assert(items_keys(items0)[a] == items0[a].0);
                                assert(items_keys(items0)[b] == items0[b].0);
                            } else {
                                assert(items@[a] == items0[a]);
                                let j = choose|j: int|
                                    0 <= j < i && (#[trigger] items0[a]).0@ == (
                                    #[trigger] keys@[j])@;
                                assert(lex_lt(keys@[j]@, keys@[i as int]@));
                            }
                        }
                        assert forall|a: int| 0 <= a < items@.len() implies exists|j: int|
                            0 <= j < i + 1 && (#[trigger] items@[a]).0@ == (
                            #[trigger] keys@[j])@ by {
                            if a < items0.len() {
                                let j = choose|j: int|
                                    0 <= j < i && (#[trigger] items0[a]).0@ == (
                                    #[trigger] keys@[j])@;
                                assert(items@[a].0@ == keys@[j]@);
                            } else {
                                assert(items@[a].0@ == keys@[i as int]@);
                            }
                        }
                        assert forall|j: int|
                            0 <= j < i + 1 && self.effective_get(
                                (#[trigger] keys@[j])@,
                            ) is Some implies exists|a: int|
                            0 <= a < items@.len() && (#[trigger] items@[a]).0@ == keys@[j]@ by {
                            if j < i {
                                let a = choose|a: int|
                                    0 <= a < items0.len() && (#[trigger] items0[a]).0@
                                        == keys@[j]@;
                                assert(items@[a].0@ == keys@[j]@);
                            } else {
                                assert(items@[items0.len() as int].0@ == keys@[j]@);
                            }
                        }
                    }
                },
                None => {
                    proof {
                        assert forall|j: int|
                            0 <= j < i + 1 && self.effective_get(
                                (#[trigger] keys@[j])@,
                            ) is Some implies exists|a: int|
                            0 <= a < items@.len() && (#[trigger] items@[a]).0@ == keys@[j]@ by {
                            assert(j < i);
                        }
                    }
                },
            }
            i += 1;
        }
        proof {
            assert forall|k: Seq<u8>| self.effective_get(k) is Some implies exists|a: int|
                0 <= a < items@.len() && (#[trigger] items@[a]).0@ == k by {
                assert(has_addr(keys@, k));
                let j = choose|j: int| 0 <= j < keys@.len() && (#[trigger] keys@[j])@ == k;
                assert(self.effective_get(keys@[j]@) is Some);
            }
        }
        items
    }

    /// Enumerates the effective mapping: every key whose effective value is
    /// present, in ascending byte order, with its value. A snapshot: later
    /// changes to the transaction do not affect it.
    pub fn iter_effective(&self) -> (r: BTreeEffectiveIter)
        requires
            self.wf(),
        ensures
            r.pos() == 0,
            sorted_addrs(items_keys(r.items())),
            forall|i: int|
                0 <= i < r.items().len() ==> self.effective_get(
                    (#[trigger] r.items()[i]).0@,
                ) == Some(r.items()[i].1),
            forall|k: Seq<u8>|
                self.effective_get(k) is Some ==> exists|i: int|
                    0 <= i < r.items().len() && (#[trigger] r.items()[i]).0@ == k,
    {
        let keys = self.collect_keys();
        let items = self.collect_items(&keys);
        BTreeEffectiveIter { items, idx: 0 }
    }
}

} // verus!
