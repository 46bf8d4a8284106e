//! The transactional cell: one backend plus a stack of optional writes.
//!
//! A `None` slot means "this layer did not write". The effective value is the
//! topmost written slot, else the backend's cell. Committing a `None` slot is
//! a no-op with respect to lower layers: an untouched layer never erases a
//! write made below it.

use vstd::prelude::*;
use crate::traits::{CellStore, StoreElem};

verus! {

/// A cell transaction stack. Slot 0 is the oldest; the last slot is the top.
pub struct StructTxn<T: StoreElem, B: CellStore<T>> {
    base: B,
    overlays: Vec<Option<T>>,
}

/// The topmost written slot, if any layer wrote.
pub open spec fn slots_get<V>(slots: Seq<Option<V>>) -> Option<V>
    decreases slots.len(),
{
    if slots.len() == 0 {
        None
    } else {
        match slots.last() {
            Some(v) => Some(v),
            None => slots_get(slots.drop_last()),
        }
    }
}

/// The effective value of a slot stack over a base cell.
pub open spec fn cell_eff<V>(slots: Seq<Option<V>>, base: Option<V>) -> Option<V> {
    match slots_get(slots) {
        Some(v) => Some(v),
        None => base,
    }
}

/// A stack of one untouched slot writes nothing.
pub proof fn lemma_slots_get_single_none<V>()
    ensures
        slots_get(seq![None::<V>]) is None,
{
    reveal_with_fuel(slots_get, 2);
    assert(seq![None::<V>].drop_last() =~= Seq::<Option<V>>::empty());
}

impl<T: StoreElem, B: CellStore<T>> StructTxn<T, B> {
    /// The stack of staged slots, oldest first.
    pub closed spec fn slots(&self) -> Seq<Option<T::V>> {
        self.overlays@.map(
            |i: int, o: Option<T>|
                match o {
                    Some(t) => Some(t@),
                    None => None,
                },
        )
    }

    /// The backend's cell.
    pub closed spec fn base_view(&self) -> Option<T::V> {
        self.base.cell_view()
    }

    /// The backend's internal invariant.
    pub closed spec fn base_inv(&self) -> bool {
        self.base.inv()
    }

    /// The number of staged slots; at least one at all times.
    pub open spec fn depth(&self) -> int {
        self.slots().len() as int
    }

    /// Well-formedness: a non-empty stack over an intact backend.
    pub open spec fn wf(&self) -> bool {
        &&& self.slots().len() >= 1
        &&& self.base_inv()
    }

    /// The effective value: the topmost written slot, else the backend.
    pub open spec fn eff(&self) -> Option<T::V> {
        cell_eff(self.slots(), self.base_view())
    }

    /// A transaction stack over `base` with one untouched slot.
    pub fn new(base: B) -> (r: StructTxn<T, B>)
        requires
            base.inv(),
        ensures
            r.wf(),
            r.slots() == seq![None::<T::V>],
            r.base_view() == base.cell_view(),
            r.eff() == base.cell_view(),
    {
        let mut overlays: Vec<Option<T>> = Vec::new();
        overlays.push(None);
        let r = StructTxn { base, overlays };
        proof {
            assert(r.slots() =~= seq![None::<T::V>]);
            lemma_slots_get_single_none::<T::V>();
        }
        r
    }

    /// Opens a nested transaction: a fresh untouched slot on top.
    pub fn push_layer(&mut self)
        requires
            old(self).wf(),
        ensures
            final(self).wf(),
            final(self).slots() == old(self).slots().push(None::<T::V>),
            final(self).base_view() == old(self).base_view(),
            final(self).eff() == old(self).eff(),
    {
        self.overlays.push(None);
        proof {
            assert(self.slots() =~= old(self).slots().push(None::<T::V>));
            assert(self.slots().drop_last() =~= old(self).slots());
        }
    }

    /// Writes `v` into the top slot: it becomes the effective value.
    pub fn set(&mut self, v: T)
        requires
            old(self).wf(),
        ensures
            final(self).wf(),
            final(self).depth() == old(self).depth(),
            final(self).base_view() == old(self).base_view(),
            final(self).slots() == old(self).slots().update(
                old(self).depth() - 1,
                Some(v@),
            ),
            final(self).eff() == Some(v@),
    {
        let ghost pre = old(self).slots();
        let _ = self.overlays.pop();
        self.overlays.push(Some(v));
        proof {
            let n = pre.len() as int;
            assert(self.slots() =~= pre.update(n - 1, Some(v@)));
        }
    }

    /// Reads the effective value. Pure: the stack is untouched.
    pub fn get(&self) -> (r: Option<T>)
        requires
            self.wf(),
        ensures
            match r {
                Some(t) => self.eff() == Some(t@),
                None => self.eff() is None,
            },
    {
        let ghost all = self.slots();
        let mut i: usize = self.overlays.len();
        proof {
            assert(all.take(i as int) =~= all);
        }
        while i > 0
            invariant
                self.wf(),
                i <= self.overlays@.len(),
                all == self.slots(),
                slots_get(all) == slots_get(all.take(i as int)),
            decreases i,
        {
            i -= 1;
            proof {
                assert(all.take(i + 1).last() == all[i as int]);
                assert(all.take(i + 1).drop_last() =~= all.take(i as int));
            }
            match &self.overlays[i] {
                Some(t) => {
                    return Some(t.dup());
                },
                None => {},
            }
        }
        proof {
            assert(all.take(0) =~= Seq::<Option<T::V>>::empty());
        }
        self.base.get()
    }

    /// Abandons the top slot. At depth 1 the sole slot is blanked instead,
    /// so the stack never empties.
    pub fn revert_top(&mut self)
        requires
            old(self).wf(),
        ensures
            final(self).wf(),
            final(self).base_view() == old(self).base_view(),
            final(self).slots() == (if old(self).depth() > 1 {
                old(self).slots().drop_last()
            } else {
                seq![None::<T::V>]
            }),
    {
        if self.overlays.len() > 1 {
            self.overlays.pop();
            proof {
                assert(self.slots() =~= old(self).slots().drop_last());
            }
        } else {
            let _ = self.overlays.pop();
            self.overlays.push(None);
            proof {
                assert(self.slots() =~= seq![None::<T::V>]);
            }
        }
    }

    /// Merges the top slot down: a written slot overwrites the layer below
    /// (or the backend at depth 1); an untouched slot changes nothing.
    /// The effective value is unchanged.
    pub fn commit_top(&mut self)
        requires
            old(self).wf(),
        ensures
            final(self).wf(),
            final(self).depth() == (if old(self).depth() > 1 {
                old(self).depth() - 1
            } else {
                1
            }),
            old(self).depth() > 1 ==> final(self).base_view() == old(self).base_view()
                && final(self).slots() == old(self).slots().drop_last().update(
                old(self).depth() - 2,
                (if old(self).slots().last() is Some {
                    old(self).slots().last()
                } else {
                    old(self).slots()[old(self).depth() - 2]
                }),
            ),
            old(self).depth() == 1 ==> final(self).slots() == seq![None::<T::V>]
                && final(self).base_view() == (if old(self).slots()[0] is Some {
                old(self).slots()[0]
            } else {
                old(self).base_view()
            }),
            final(self).eff() == old(self).eff(),
    {
        let ghost pre = old(self).slots();
        if self.overlays.len() > 1 {
            let top = self.overlays.pop().unwrap();
            if top.is_some() {
                let _ = self.overlays.pop();
                self.overlays.push(top);
            }
            proof {
                let n = pre.len() as int;
                let merged = if pre.last() is Some {
                    pre.last()
                } else {
                    pre[n - 2]
                };
                reveal_with_fuel(slots_get, 3);
                assert(self.slots() =~= pre.drop_last().update(n - 2, merged));
                let post = self.slots();
                assert(post.drop_last() =~= pre.drop_last().drop_last());
                assert(pre.drop_last().last() == pre[n - 2]);
                assert(post.last() == merged);
                if pre.last() is Some {
                    assert(slots_get(post) == pre.last());
                    assert(slots_get(pre) == pre.last());
                } else if pre[n - 2] is Some {
                    assert(slots_get(post) == pre[n - 2]);
                    assert(slots_get(pre) == slots_get(pre.drop_last()));
                    assert(slots_get(pre.drop_last()) == pre[n - 2]);
                } else {
                    assert(slots_get(post) == slots_get(post.drop_last()));
                    assert(slots_get(pre) == slots_get(pre.drop_last()));
                    assert(slots_get(pre.drop_last()) == slots_get(pre.drop_last().drop_last()));
                }
            }
        } else {
            let top = self.overlays.pop().unwrap();
            match top {
                Some(val) => {
                    self.base.set(val);
                },
                None => {},
            }
            self.overlays.push(None);
            proof {
                reveal_with_fuel(slots_get, 2);
                assert(self.slots() =~= seq![None::<T::V>]);
                lemma_slots_get_single_none::<T::V>();
                assert(pre.drop_last() =~= Seq::<Option<T::V>>::empty());
            }
        }
    }

    /// Commits every layer: afterwards the stack is one untouched slot and
    /// the backend holds exactly the old effective value.
    pub fn commit_all(&mut self)
        requires
            old(self).wf(),
        ensures
            final(self).wf(),
            final(self).depth() == 1,
            final(self).slots() == seq![None::<T::V>],
            final(self).base_view() == old(self).eff(),
            final(self).eff() == old(self).eff(),
    {
        while self.overlays.len() > 1
            invariant
                self.wf(),
                self.eff() == old(self).eff(),
            decreases self.overlays@.len(),
        {
            self.commit_top();
        }
        self.commit_top();
        proof {
            lemma_slots_get_single_none::<T::V>();
        }
    }

    /// Removes the oldest slot and commits it straight to the backend.
    /// The effective value is unchanged.
    pub fn commit_oldest(&mut self)
        requires
            old(self).wf(),
        ensures
            final(self).wf(),
            final(self).depth() == (if old(self).depth() > 1 {
                old(self).depth() - 1
            } else {
                1
            }),
            final(self).base_view() == (if old(self).slots()[0] is Some {
                old(self).slots()[0]
            } else {
                old(self).base_view()
            }),
            final(self).slots() == (if old(self).depth() > 1 {
                old(self).slots().drop_first()
            } else {
                seq![None::<T::V>]
            }),
            final(self).eff() == old(self).eff(),
    {
        let ghost pre = old(self).slots();
        let oldest = self.overlays.remove(0);
        match oldest {
            Some(val) => {
                self.base.set(val);
            },
            None => {},
        }
        if self.overlays.len() == 0 {
            self.overlays.push(None);
            proof {
                reveal_with_fuel(slots_get, 2);
                assert(self.slots() =~= seq![None::<T::V>]);
                lemma_slots_get_single_none::<T::V>();
                assert(pre.drop_last() =~= Seq::<Option<T::V>>::empty());
                assert(pre.last() == pre[0]);
            }
        } else {
            proof {
                assert(self.slots() =~= pre.drop_first());
                lemma_cell_eff_commit_bottom(pre, old(self).base_view());
            }
        }
    }

    /// Erases the backend cell and resets the stack to one untouched slot.
    pub fn clear_all(&mut self)
        requires
            old(self).wf(),
        ensures
            final(self).wf(),
            final(self).base_view() is None,
            final(self).slots() == seq![None::<T::V>],
            final(self).eff() is None,
    {
        self.base.clear();
        self.overlays.clear();
        self.overlays.push(None);
        proof {
            assert(self.slots() =~= seq![None::<T::V>]);
            lemma_slots_get_single_none::<T::V>();
        }
    }
}

/// Committing the bottom slot to the base leaves the effective value
/// unchanged.
pub proof fn lemma_cell_eff_commit_bottom<V>(slots: Seq<Option<V>>, base: Option<V>)
    requires
        slots.len() >= 1,
    ensures
        cell_eff(
            slots.drop_first(),
            if slots[0] is Some {
                slots[0]
            } else {
                base
            },
        ) == cell_eff(slots, base),
    decreases slots.len(),
{
    if slots.len() == 1 {
        assert(slots.drop_first() =~= Seq::<Option<V>>::empty());
        assert(slots.drop_last() =~= Seq::<Option<V>>::empty());
        assert(slots.last() == slots[0]);
    } else {
        lemma_cell_eff_commit_bottom(slots.drop_last(), base);
        assert(slots.drop_last()[0] == slots[0]);
        assert(slots.drop_first().last() == slots.last());
        assert(slots.drop_first().drop_last() =~= slots.drop_last().drop_first());
    }
}

} // verus!
