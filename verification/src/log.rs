//! The transactional append-only log: one backend plus a stack of staged
//! sequences. The effective log is the backend's contents followed by every
//! staged layer, oldest first. There are no tombstones: every layer only
//! appends.

use vstd::prelude::*;
use crate::traits::{LogStore, StoreElem};

verus! {

/// A log transaction stack. Layer 0 is the oldest; the last layer is the top.
pub struct LogTxn<T: StoreElem, B: LogStore<T>> {
    base: B,
    overlays: Vec<Vec<T>>,
}

/// All the staged layers, concatenated oldest first.
pub open spec fn concat_all<A>(ss: Seq<Seq<A>>) -> Seq<A>
    decreases ss.len(),
{
    if ss.len() == 0 {
        Seq::empty()
    } else {
        concat_all(ss.drop_last()) + ss.last()
    }
}

/// Concatenation splits at any layer boundary.
pub proof fn lemma_concat_all_split<A>(ss: Seq<Seq<A>>, i: int)
    requires
        0 <= i <= ss.len(),
    ensures
        concat_all(ss) == concat_all(ss.take(i)) + concat_all(ss.skip(i)),
    decreases ss.len() - i,
{
    if i == ss.len() {
        assert(ss.take(i) =~= ss);
        assert(ss.skip(i) =~= Seq::<Seq<A>>::empty());
        assert(concat_all(ss) =~= concat_all(ss.take(i)) + concat_all(ss.skip(i)));
    } else {
        lemma_concat_all_split(ss.drop_last(), i);
        assert(ss.drop_last().take(i) =~= ss.take(i));
        assert(ss.drop_last().skip(i) =~= ss.skip(i).drop_last());
        assert(ss.skip(i).last() == ss.last());
        assert(concat_all(ss) =~= concat_all(ss.take(i)) + concat_all(ss.skip(i)));
    }
}

/// Appending one layer appends its contents.
pub proof fn lemma_concat_all_push<A>(ss: Seq<Seq<A>>, s: Seq<A>)
    ensures
        concat_all(ss.push(s)) == concat_all(ss) + s,
{
    assert(ss.push(s).drop_last() =~= ss);
}

/// A single transparent layer stages nothing.
pub proof fn lemma_concat_all_single_empty<A>()
    ensures
        concat_all(seq![Seq::<A>::empty()]) == Seq::<A>::empty(),
{
    reveal_with_fuel(concat_all, 2);
    let ss = seq![Seq::<A>::empty()];
    assert(ss.drop_last() =~= Seq::<Seq<A>>::empty());
    assert(concat_all(ss) =~= Seq::<A>::empty());
}

/// The view of a staged layer: its elements' views, in order.
pub open spec fn layer_view<T: View>(v: Seq<T>) -> Seq<T::V> {
    v.map(|i: int, t: T| t@)
}

impl<T: StoreElem, B: LogStore<T>> LogTxn<T, B> {
    /// The stack of staged layers, oldest first.
    pub closed spec fn layers(&self) -> Seq<Seq<T::V>> {
        self.overlays@.map(|i: int, v: Vec<T>| layer_view(v@))
    }

    /// The backend's contents.
    pub closed spec fn base_view(&self) -> Seq<T::V> {
        self.base.log_view()
    }

    /// The backend's internal invariant.
    pub closed spec fn base_inv(&self) -> bool {
        self.base.inv()
    }

    /// The number of staged layers; at least one at all times.
    pub open spec fn depth(&self) -> int {
        self.layers().len() as int
    }

    /// Well-formedness: a non-empty stack over an intact backend.
    pub open spec fn wf(&self) -> bool {
        &&& self.layers().len() >= 1
        &&& self.base_inv()
    }

    /// The effective log: backend contents, then every layer oldest first.
    pub open spec fn eff(&self) -> Seq<T::V> {
        self.base_view() + concat_all(self.layers())
    }

    /// A transaction stack over `base` with one transparent layer.
    pub fn new(base: B) -> (r: LogTxn<T, B>)
        requires
            base.inv(),
        ensures
            r.wf(),
            r.layers() == seq![Seq::<T::V>::empty()],
            r.base_view() == base.log_view(),
            r.eff() == base.log_view(),
    {
        let mut overlays: Vec<Vec<T>> = Vec::new();
        overlays.push(Vec::new());
        let r = LogTxn { base, overlays };
        proof {
            assert(r.layers() =~~= seq![Seq::<T::V>::empty()]);
            lemma_concat_all_single_empty::<T::V>();
            assert(r.eff() =~= base.log_view());
        }
        r
    }

    /// Opens a nested transaction: a fresh empty layer on top.
    pub fn push_layer(&mut self)
        requires
            old(self).wf(),
        ensures
            final(self).wf(),
            final(self).layers() == old(self).layers().push(Seq::<T::V>::empty()),
            final(self).base_view() == old(self).base_view(),
            final(self).eff() == old(self).eff(),
    {
        self.overlays.push(Vec::new());
        proof {
            assert(self.layers() =~~= old(self).layers().push(Seq::<T::V>::empty()));
            lemma_concat_all_push(old(self).layers(), Seq::<T::V>::empty());
            assert(self.eff() =~= old(self).eff());
        }
    }

    /// Appends `v` to the top layer: the effective log grows by one.
    pub fn append(&mut self, v: T)
        requires
            old(self).wf(),
        ensures
            final(self).wf(),
            final(self).depth() == old(self).depth(),
            final(self).base_view() == old(self).base_view(),
            final(self).layers() == old(self).layers().update(
                old(self).depth() - 1,
                old(self).layers().last().push(v@),
            ),
            final(self).eff() == old(self).eff().push(v@),
    {
        let ghost pre = old(self).layers();
        let mut top = self.overlays.pop().unwrap();
        top.push(v);
        self.overlays.push(top);
        proof {
            let n = pre.len() as int;
            let post = self.layers();
            assert(layer_view(top@) =~= pre.last().push(v@));
            assert forall|i: int| 0 <= i < n implies post[i] == pre.update(
                n - 1,
                pre.last().push(v@),
            )[i] by {}
            assert(post =~= pre.update(n - 1, pre.last().push(v@)));
            assert(post.drop_last() =~= pre.drop_last());
            assert(concat_all(post) =~= concat_all(pre).push(v@));
            assert(self.eff() =~= old(self).eff().push(v@));
        }
    }

    /// The effective length: backend length plus every staged length.
    pub fn len(&self) -> (r: usize)
        requires
            self.wf(),
            self.eff().len() <= usize::MAX,
        ensures
            r == self.eff().len(),
    {
        let ghost all = self.layers();
        let mut n: usize = self.base.len();
        let mut i: usize = 0;
        proof {
            assert(all.take(0) =~= Seq::<Seq<T::V>>::empty());
        }
        while i < self.overlays.len()
            invariant
                self.wf(),
                self.eff().len() <= usize::MAX,
                all == self.layers(),
                i <= self.overlays@.len(),
                n == self.base_view().len() + concat_all(all.take(i as int)).len(),
            decreases self.overlays@.len() - i,
        {
            proof {
                lemma_concat_all_split(all, i as int);
                lemma_concat_all_split(all.skip(i as int), 1);
                assert(all.skip(i as int).take(1) =~= seq![all[i as int]]);
                reveal_with_fuel(concat_all, 2);
                assert(seq![all[i as int]].drop_last() =~= Seq::<Seq<T::V>>::empty());
                assert(concat_all(seq![all[i as int]]) =~= all[i as int]);
                assert(all.take(i + 1) =~= all.take(i as int).push(all[i as int]));
                lemma_concat_all_push(all.take(i as int), all[i as int]);
            }
            n = n + self.overlays[i].len();
            i += 1;
        }
        proof {
            assert(all.take(all.len() as int) =~= all);
        }
        n
    }

    /// Reads the effective element at `idx`: backend first, then the layers
    /// oldest first.
    pub fn get(&self, idx: usize) -> (r: Option<T>)
        requires
            self.wf(),
        ensures
            match r {
                Some(t) => idx < self.eff().len() && t@ == self.eff()[idx as int],
                None => idx >= self.eff().len(),
            },
    {
        let base_len = self.base.len();
        if idx < base_len {
            let r = self.base.get(idx);
            proof {
                assert(self.eff()[idx as int] == self.base_view()[idx as int]);
            }
            return r;
        }
        let ghost all = self.layers();
        let mut remaining: usize = idx - base_len;
        let mut i: usize = 0;
        proof {
            assert(all.take(0) =~= Seq::<Seq<T::V>>::empty());
        }
        while i < self.overlays.len()
            invariant
                self.wf(),
                all == self.layers(),
                i <= self.overlays@.len(),
                idx >= self.base_view().len(),
                remaining == idx - self.base_view().len() - concat_all(
                    all.take(i as int),
                ).len(),
            decreases self.overlays@.len() - i,
        {
            proof {
                lemma_concat_all_split(all, i as int);
                lemma_concat_all_split(all.skip(i as int), 1);
                assert(all.skip(i as int).take(1) =~= seq![all[i as int]]);
                reveal_with_fuel(concat_all, 2);
                assert(seq![all[i as int]].drop_last() =~= Seq::<Seq<T::V>>::empty());
                assert(concat_all(seq![all[i as int]]) =~= all[i as int]);
                assert(all.take(i + 1) =~= all.take(i as int).push(all[i as int]));
                lemma_concat_all_push(all.take(i as int), all[i as int]);
            }
            if remaining < self.overlays[i].len() {
                let t = self.overlays[i][remaining].dup();
                proof {
                    assert(self.eff() == self.base_view() + (concat_all(all.take(i as int)) + (
                    all[i as int] + concat_all(all.skip(i as int).skip(1)))));
                    assert(self.eff()[idx as int] == all[i as int][remaining as int]);
                }
                return Some(t);
            }
            remaining = remaining - self.overlays[i].len();
            i += 1;
        }
        proof {
            assert(all.take(all.len() as int) =~= all);
        }
        None
    }

    /// Abandons the top layer. At depth 1 the sole layer is cleared instead,
    /// so the stack never empties.
    pub fn revert_top(&mut self)
        requires
            old(self).wf(),
        ensures
            final(self).wf(),
            final(self).base_view() == old(self).base_view(),
            final(self).layers() == (if old(self).depth() > 1 {
                old(self).layers().drop_last()
            } else {
                seq![Seq::<T::V>::empty()]
            }),
    {
        if self.overlays.len() > 1 {
            self.overlays.pop();
            proof {
                assert(self.layers() =~= old(self).layers().drop_last());
            }
        } else {
            let mut top = self.overlays.pop().unwrap();
            top.clear();
            self.overlays.push(top);
            proof {
                assert(self.layers() =~~= seq![Seq::<T::V>::empty()]);
            }
        }
    }

    /// Merges the top layer down: appended after the layer below, or into the
    /// backend when only one layer remains. The effective log is unchanged.
    pub fn commit_top(&mut self)
        requires
            old(self).wf(),
            old(self).eff().len() <= usize::MAX,
        ensures
            final(self).wf(),
            final(self).depth() == (if old(self).depth() > 1 {
                old(self).depth() - 1
            } else {
                1
            }),
            old(self).depth() > 1 ==> final(self).base_view() == old(self).base_view()
                && final(self).layers() == old(self).layers().drop_last().update(
                old(self).depth() - 2,
                old(self).layers()[old(self).depth() - 2] + old(self).layers().last(),
            ),
            old(self).depth() == 1 ==> final(self).base_view() == old(self).base_view() + old(
                self,
            ).layers()[0] && final(self).layers() == seq![Seq::<T::V>::empty()],
            final(self).eff() == old(self).eff(),
    {
        let ghost pre = old(self).layers();
        if self.overlays.len() > 1 {
            let mut top = self.overlays.pop().unwrap();
            let mut lower = self.overlays.pop().unwrap();
            lower.append(&mut top);
            self.overlays.push(lower);
            proof {
                let n = pre.len() as int;
                let post = self.layers();
                assert(post =~~= pre.drop_last().update(n - 2, pre[n - 2] + pre.last()));
                assert(post.drop_last() =~= pre.drop_last().drop_last());
                assert(pre.drop_last().last() == pre[n - 2]);
                assert(concat_all(pre) == concat_all(pre.drop_last()) + pre.last());
                assert(concat_all(pre.drop_last()) == concat_all(pre.drop_last().drop_last())
                    + pre[n - 2]);
                assert(post.len() >= 1);
                assert(post.last() == pre[n - 2] + pre.last());
                assert(concat_all(post) == concat_all(post.drop_last()) + post.last());
                assert(concat_all(post) =~= concat_all(pre));
                assert(self.eff() =~= old(self).eff());
            }
        } else {
            let top = self.overlays.pop().unwrap();
            proof {
                lemma_concat_all_split(pre, 0);
                assert(pre.skip(0) =~= pre);
                assert(pre.take(0) =~= Seq::<Seq<T::V>>::empty());
                reveal_with_fuel(concat_all, 2);
                assert(pre.drop_last() =~= Seq::<Seq<T::V>>::empty());
                assert(concat_all(pre) =~= pre[0]);
            }
            self.base.extend(top);
            self.overlays.push(Vec::new());
            proof {
                assert(self.layers() =~~= seq![Seq::<T::V>::empty()]);
                lemma_concat_all_single_empty::<T::V>();
                assert(self.eff() =~= old(self).eff());
            }
        }
    }

    /// Commits every layer: afterwards the stack is one empty layer and the
    /// backend holds exactly the old effective log.
    pub fn commit_all(&mut self)
        requires
            old(self).wf(),
            old(self).eff().len() <= usize::MAX,
        ensures
            final(self).wf(),
            final(self).depth() == 1,
            final(self).layers() == seq![Seq::<T::V>::empty()],
            final(self).base_view() == old(self).eff(),
            final(self).eff() == old(self).eff(),
    {
        while self.overlays.len() > 1
            invariant
                self.wf(),
                self.eff() == old(self).eff(),
                old(self).eff().len() <= usize::MAX,
            decreases self.overlays@.len(),
        {
            self.commit_top();
        }
        self.commit_top();
        proof {
            lemma_concat_all_single_empty::<T::V>();
            assert(self.base_view() =~= old(self).eff());
        }
    }

    /// Removes the oldest layer and appends it straight to the backend.
    /// The effective log is unchanged.
    pub fn commit_oldest(&mut self)
        requires
            old(self).wf(),
            old(self).eff().len() <= usize::MAX,
        ensures
            final(self).wf(),
            final(self).depth() == (if old(self).depth() > 1 {
                old(self).depth() - 1
            } else {
                1
            }),
            final(self).base_view() == old(self).base_view() + old(self).layers()[0],
            final(self).layers() == (if old(self).depth() > 1 {
                old(self).layers().drop_first()
            } else {
                seq![Seq::<T::V>::empty()]
            }),
            final(self).eff() == old(self).eff(),
    {
        let ghost pre = old(self).layers();
        let oldest = self.overlays.remove(0);
        proof {
            lemma_concat_all_split(pre, 1);
            assert(pre.take(1) =~= seq![pre[0]]);
            reveal_with_fuel(concat_all, 2);
            assert(seq![pre[0]].drop_last() =~= Seq::<Seq<T::V>>::empty());
            assert(concat_all(seq![pre[0]]) =~= pre[0]);
            assert(pre.skip(1) =~= pre.drop_first());
        }
        self.base.extend(oldest);
        if self.overlays.len() == 0 {
            self.overlays.push(Vec::new());
            proof {
                assert(pre.drop_first() =~= Seq::<Seq<T::V>>::empty());
                assert(self.layers() =~~= seq![Seq::<T::V>::empty()]);
                lemma_concat_all_single_empty::<T::V>();
                assert(self.eff() =~= old(self).eff());
            }
        } else {
            proof {
                assert(self.layers() =~= pre.drop_first());
                assert(self.eff() =~= old(self).eff());
            }
        }
    }

    /// Erases the backend and every staged layer, keeping the stack's depth.
    pub fn clear(&mut self)
        requires
            old(self).wf(),
        ensures
            final(self).wf(),
            final(self).depth() == old(self).depth(),
            final(self).base_view() == Seq::<T::V>::empty(),
            final(self).layers() == Seq::new(old(self).layers().len(), |i: int| Seq::<
                T::V,
            >::empty()),
            final(self).eff() == Seq::<T::V>::empty(),
    {
        self.base.clear();
        let d = self.overlays.len();
        let mut fresh: Vec<Vec<T>> = Vec::new();
        while fresh.len() < d
            invariant
                fresh@.len() <= d,
                forall|i: int| 0 <= i < fresh@.len() ==> (#[trigger] fresh@[i])@.len() == 0,
            decreases d - fresh@.len(),
        {
            fresh.push(Vec::new());
        }
        self.overlays = fresh;
        proof {
            let post = self.layers();
            assert(post =~~= Seq::new(old(self).layers().len(), |i: int| Seq::<T::V>::empty()));
            lemma_concat_all_empties(post);
            assert(self.eff() =~= Seq::<T::V>::empty());
        }
    }

    /// Erases everything and resets the stack to a single empty layer.
    pub fn clear_all(&mut self)
        requires
            old(self).wf(),
        ensures
            final(self).wf(),
            final(self).base_view() == Seq::<T::V>::empty(),
            final(self).layers() == seq![Seq::<T::V>::empty()],
            final(self).eff() == Seq::<T::V>::empty(),
    {
        self.base.clear();
        self.overlays.clear();
        self.overlays.push(Vec::new());
        proof {
            assert(self.layers() =~~= seq![Seq::<T::V>::empty()]);
            lemma_concat_all_single_empty::<T::V>();
            assert(self.eff() =~= Seq::<T::V>::empty());
        }
    }
}

/// Concatenating empty layers yields the empty sequence.
pub proof fn lemma_concat_all_empties<A>(ss: Seq<Seq<A>>)
    requires
        forall|i: int| 0 <= i < ss.len() ==> (#[trigger] ss[i]).len() == 0,
    ensures
        concat_all(ss) == Seq::<A>::empty(),
    decreases ss.len(),
{
    if ss.len() > 0 {
        lemma_concat_all_empties(ss.drop_last());
        assert(ss.last() =~= Seq::<A>::empty());
        assert(concat_all(ss) =~= Seq::<A>::empty());
    }
}

} // verus!
