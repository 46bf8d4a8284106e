//! The composite store: one accounts map, one metadata cell, two logs
//! (events and blocks), sharing a single logical layer stack. Every
//! transaction operation fans out to all four components in a fixed order,
//! so their depths stay equal.

use vstd::prelude::*;
use crate::address::Address;
use crate::btree::{BTreeTxn, overlay_commit};
use crate::events::{Event, EventView};
use crate::log::LogTxn;
use crate::meta::{Meta, MetaView};
use crate::struct_store::StructTxn;
use crate::traits::{CellStore, LogStore, MapStore, map_get};

verus! {

/// The derived state a store exposes: effective accounts, metadata, events
/// and blocks, with every staged layer merged in.
#[verifier::ext_equal]
pub ghost struct StoreModel {
    pub accounts: Map<Seq<u8>, u128>,
    pub meta: Option<MetaView>,
    pub events: Seq<EventView>,
    pub blocks: Seq<Seq<u8>>,
}

impl StoreModel {
    /// The state of a store whose derived state was erased, keeping `blocks`.
    pub open spec fn cleared(blocks: Seq<Seq<u8>>) -> StoreModel {
        StoreModel {
            accounts: Map::empty(),
            meta: None,
            events: Seq::empty(),
            blocks,
        }
    }

    /// The balance of `addr`: the mapped value, or zero.
    pub open spec fn balance(self, addr: Seq<u8>) -> u128 {
        match map_get(self.accounts, addr) {
            Some(v) => v,
            None => 0,
        }
    }
}

/// The composite transactional store over four pluggable backends.
pub struct StoreGeneric<A, B, C, D> where
    A: MapStore,
    B: CellStore<Meta>,
    C: LogStore<Event>,
    D: LogStore<Vec<u8>>,
 {
    pub accounts: BTreeTxn<A>,
    pub meta: StructTxn<Meta, B>,
    pub events: LogTxn<Event, C>,
    pub blocks: LogTxn<Vec<u8>, D>,
}

impl<A, B, C, D> StoreGeneric<A, B, C, D> where
    A: MapStore,
    B: CellStore<Meta>,
    C: LogStore<Event>,
    D: LogStore<Vec<u8>>,
 {
    /// Well-formedness: each component is well-formed and all four stacks
    /// have the same depth.
    pub open spec fn wf(&self) -> bool {
        &&& self.accounts.wf()
        &&& self.meta.wf()
        &&& self.events.wf()
        &&& self.blocks.wf()
        &&& self.meta.depth() == self.accounts.depth()
        &&& self.events.depth() == self.accounts.depth()
        &&& self.blocks.depth() == self.accounts.depth()
    }

    /// The shared stack depth.
    pub open spec fn depth(&self) -> int {
        self.accounts.depth()
    }

    /// The derived state, with every staged layer merged in.
    pub open spec fn model(&self) -> StoreModel {
        StoreModel {
            accounts: self.accounts.effective_map(),
            meta: self.meta.eff(),
            events: self.events.eff(),
            blocks: self.blocks.eff(),
        }
    }

    /// True when the two stores hold the same staged layers and the same
    /// backend contents, component by component.
    pub open spec fn same_state(&self, other: &Self) -> bool {
        &&& self.accounts.layers() == other.accounts.layers()
        &&& self.accounts.base_view() == other.accounts.base_view()
        &&& self.meta.slots() == other.meta.slots()
        &&& self.meta.base_view() == other.meta.base_view()
        &&& self.events.layers() == other.events.layers()
        &&& self.events.base_view() == other.events.base_view()
        &&& self.blocks.layers() == other.blocks.layers()
        &&& self.blocks.base_view() == other.blocks.base_view()
    }

    /// True when `self` differs from `pre` at most in the top layer: same
    /// depth, same layers below the top, same backend contents.
    pub open spec fn frame_below_top(&self, pre: &Self) -> bool {
        &&& self.depth() == pre.depth()
        &&& self.accounts.depth() == pre.accounts.depth()
        &&& self.meta.depth() == pre.meta.depth()
        &&& self.events.depth() == pre.events.depth()
        &&& self.blocks.depth() == pre.blocks.depth()
        &&& self.accounts.layers().drop_last() == pre.accounts.layers().drop_last()
        &&& self.accounts.base_view() == pre.accounts.base_view()
        &&& self.meta.slots().drop_last() == pre.meta.slots().drop_last()
        &&& self.meta.base_view() == pre.meta.base_view()
        &&& self.events.layers().drop_last() == pre.events.layers().drop_last()
        &&& self.events.base_view() == pre.events.base_view()
        &&& self.blocks.layers().drop_last() == pre.blocks.layers().drop_last()
        &&& self.blocks.base_view() == pre.blocks.base_view()
    }

    /// A store over the four given backends, each under one transparent
    /// layer: the derived state is exactly what the backends hold.
    pub fn new(accounts_base: A, meta_base: B, events_base: C, blocks_base: D) -> (r: Self)
        requires
            accounts_base.inv(),
            meta_base.inv(),
            events_base.inv(),
            blocks_base.inv(),
        ensures
            r.wf(),
            r.depth() == 1,
            r.model() == (StoreModel {
                accounts: accounts_base.map_view(),
                meta: meta_base.cell_view(),
                events: events_base.log_view(),
                blocks: blocks_base.log_view(),
            }),
    {
        let r = StoreGeneric {
            accounts: BTreeTxn::new(accounts_base),
            meta: StructTxn::new(meta_base),
            events: LogTxn::new(events_base),
            blocks: LogTxn::new(blocks_base),
        };
        proof {
            assert forall|k: Seq<u8>| r.accounts.effective_get(k) == map_get(
                accounts_base.map_view(),
                k,
            ) by {
                crate::btree::lemma_staged_get_single_empty(k);
            }
            assert(r.accounts.effective_map() =~= accounts_base.map_view());
            crate::struct_store::lemma_slots_get_single_none::<MetaView>();
            assert(r.model() =~= (StoreModel {
                accounts: accounts_base.map_view(),
                meta: meta_base.cell_view(),
                events: events_base.log_view(),
                blocks: blocks_base.log_view(),
            }));
        }
        r
    }

    /// Opens a nested transaction on every component.
    pub fn push_layer(&mut self)
        requires
            old(self).wf(),
        ensures
            final(self).wf(),
            final(self).depth() == old(self).depth() + 1,
            final(self).model() == old(self).model(),
            final(self).accounts.layers() == old(self).accounts.layers().push(
                Map::<Seq<u8>, Option<u128>>::empty(),
            ),
            final(self).accounts.base_view() == old(self).accounts.base_view(),
            final(self).meta.slots() == old(self).meta.slots().push(None::<MetaView>),
            final(self).meta.base_view() == old(self).meta.base_view(),
            final(self).events.layers() == old(self).events.layers().push(
                Seq::<EventView>::empty(),
            ),
            final(self).events.base_view() == old(self).events.base_view(),
            final(self).blocks.layers() == old(self).blocks.layers().push(
                Seq::<Seq<u8>>::empty(),
            ),
            final(self).blocks.base_view() == old(self).blocks.base_view(),
    {
        self.accounts.push_layer();
        self.meta.push_layer();
        self.events.push_layer();
        self.blocks.push_layer();
        proof {
            assert(self.accounts.effective_map() =~= old(self).accounts.effective_map());
            assert(self.meta.slots().drop_last() =~= old(self).meta.slots());
            assert(self.model() =~= old(self).model());
        }
    }

    /// Abandons the top layer of every component.
    pub fn revert_top(&mut self)
        requires
            old(self).wf(),
        ensures
            final(self).wf(),
            final(self).depth() == (if old(self).depth() > 1 {
                old(self).depth() - 1
            } else {
                1
            }),
            final(self).accounts.layers() == (if old(self).depth() > 1 {
                old(self).accounts.layers().drop_last()
            } else {
                seq![Map::<Seq<u8>, Option<u128>>::empty()]
            }),
            final(self).accounts.base_view() == old(self).accounts.base_view(),
            final(self).meta.slots() == (if old(self).depth() > 1 {
                old(self).meta.slots().drop_last()
            } else {
                seq![None::<MetaView>]
            }),
            final(self).meta.base_view() == old(self).meta.base_view(),
            final(self).events.layers() == (if old(self).depth() > 1 {
                old(self).events.layers().drop_last()
            } else {
                seq![Seq::<EventView>::empty()]
            }),
            final(self).events.base_view() == old(self).events.base_view(),
            final(self).blocks.layers() == (if old(self).depth() > 1 {
                old(self).blocks.layers().drop_last()
            } else {
                seq![Seq::<Seq<u8>>::empty()]
            }),
            final(self).blocks.base_view() == old(self).blocks.base_view(),
    {
        self.accounts.revert_top();
        self.meta.revert_top();
        self.events.revert_top();
        self.blocks.revert_top();
    }

    /// Commits the top layer of every component into the layer below (or the
    /// backends, at depth 1). The derived state is unchanged, and above
    /// depth 1 no backend is written.
    pub fn commit_top(&mut self)
        requires
            old(self).wf(),
            old(self).events.eff().len() <= usize::MAX,
            old(self).blocks.eff().len() <= usize::MAX,
        ensures
            final(self).wf(),
            final(self).depth() == (if old(self).depth() > 1 {
                old(self).depth() - 1
            } else {
                1
            }),
            final(self).model() == old(self).model(),
            old(self).depth() > 1 ==> final(self).accounts.base_view() == old(
                self,
            ).accounts.base_view() && final(self).meta.base_view() == old(self).meta.base_view()
                && final(self).events.base_view() == old(self).events.base_view()
                && final(self).blocks.base_view() == old(self).blocks.base_view(),
            old(self).depth() == 1 ==> final(self).accounts.base_view() == overlay_commit(
                old(self).accounts.base_view(),
                old(self).accounts.layers()[0],
            ) && final(self).meta.base_view() == (if old(self).meta.slots()[0] is Some {
                old(self).meta.slots()[0]
            } else {
                old(self).meta.base_view()
            }) && final(self).events.base_view() == old(self).events.base_view() + old(
                self,
            ).events.layers()[0] && final(self).blocks.base_view() == old(
                self,
            ).blocks.base_view() + old(self).blocks.layers()[0],
    {
        self.accounts.commit_top();
        self.meta.commit_top();
        self.events.commit_top();
        self.blocks.commit_top();
        proof {
            assert(self.accounts.effective_map() =~= old(self).accounts.effective_map());
            assert(self.model() =~= old(self).model());
        }
    }

    /// Commits every layer of every component: afterwards the depth is 1 and
    /// the backends hold exactly the derived state. The derived state is
    /// unchanged.
    pub fn commit_all(&mut self)
        requires
            old(self).wf(),
            old(self).events.eff().len() <= usize::MAX,
            old(self).blocks.eff().len() <= usize::MAX,
        ensures
            final(self).wf(),
            final(self).depth() == 1,
            final(self).model() == old(self).model(),
            final(self).accounts.base_view() == old(self).model().accounts,
            final(self).meta.base_view() == old(self).model().meta,
            final(self).events.base_view() == old(self).model().events,
            final(self).blocks.base_view() == old(self).model().blocks,
            final(self).accounts.layers() == seq![Map::<Seq<u8>, Option<u128>>::empty()],
            final(self).meta.slots() == seq![None::<MetaView>],
            final(self).events.layers() == seq![Seq::<EventView>::empty()],
            final(self).blocks.layers() == seq![Seq::<Seq<u8>>::empty()],
    {
        self.accounts.commit_all();
        self.meta.commit_all();
        self.events.commit_all();
        self.blocks.commit_all();
        proof {
            assert(self.accounts.effective_map() =~= old(self).accounts.effective_map());
            assert(self.model() =~= old(self).model());
        }
    }

    /// Commits the oldest layer of every component straight into the
    /// backends: staged map entries become puts and removes, a written slot
    /// is stored, the logs are extended in order. The derived state is
    /// unchanged.
    pub fn commit_oldest(&mut self)
        requires
            old(self).wf(),
            old(self).events.eff().len() <= usize::MAX,
            old(self).blocks.eff().len() <= usize::MAX,
        ensures
            final(self).wf(),
            final(self).depth() == (if old(self).depth() > 1 {
                old(self).depth() - 1
            } else {
                1
            }),
            final(self).model() == old(self).model(),
            final(self).accounts.base_view() == overlay_commit(
                old(self).accounts.base_view(),
                old(self).accounts.layers()[0],
            ),
            final(self).meta.base_view() == (if old(self).meta.slots()[0] is Some {
                old(self).meta.slots()[0]
            } else {
                old(self).meta.base_view()
            }),
            final(self).events.base_view() == old(self).events.base_view() + old(
                self,
            ).events.layers()[0],
            final(self).blocks.base_view() == old(self).blocks.base_view() + old(
                self,
            ).blocks.layers()[0],
    {
        self.accounts.commit_oldest();
        self.meta.commit_oldest();
        self.events.commit_oldest();
        self.blocks.commit_oldest();
        proof {
            assert(self.accounts.effective_map() =~= old(self).accounts.effective_map());
            assert(self.model() =~= old(self).model());
        }
    }

    /// Erases accounts, metadata and events — backends and layers alike —
    /// while leaving the blocks log untouched.
    pub fn clear_state_preserve_blocks(&mut self)
        requires
            old(self).wf(),
            old(self).depth() == 1,
        ensures
            final(self).wf(),
            final(self).depth() == 1,
            final(self).model() == StoreModel::cleared(old(self).model().blocks),
            final(self).blocks.layers() == old(self).blocks.layers(),
            final(self).blocks.base_view() == old(self).blocks.base_view(),
    {
        self.accounts.clear_all();
        self.meta.clear_all();
        self.events.clear_all();
        proof {
            assert(self.accounts.effective_map() =~= Map::<Seq<u8>, u128>::empty());
            assert(self.model() =~= StoreModel::cleared(old(self).model().blocks));
        }
    }

    /// Erases everything: all four backends and every staged layer, the
    /// blocks log included.
    pub fn clear_all(&mut self)
        requires
            old(self).wf(),
        ensures
            final(self).wf(),
            final(self).depth() == 1,
            final(self).model() == StoreModel::cleared(Seq::empty()),
    {
        self.accounts.clear_all();
        self.meta.clear_all();
        self.events.clear_all();
        self.blocks.clear_all();
        proof {
            assert(self.accounts.effective_map() =~= Map::<Seq<u8>, u128>::empty());
            assert(self.model() =~= StoreModel::cleared(Seq::empty()));
        }
    }

    /// The effective balance of `addr`, zero when absent.
    pub fn get_balance(&self, addr: &Address) -> (r: u128)
        requires
            self.wf(),
        ensures
            r == self.model().balance(addr@),
    {
        match self.accounts.get(addr) {
            Some(v) => v,
            None => 0,
        }
    }

    /// The effective length of the events log.
    pub fn events_len(&self) -> (r: usize)
        requires
            self.wf(),
            self.events.eff().len() <= usize::MAX,
        ensures
            r == self.model().events.len(),
    {
        self.events.len()
    }

    /// The effective event at `i`.
    pub fn get_event(&self, i: usize) -> (r: Option<Event>)
        requires
            self.wf(),
        ensures
            match r {
                Some(e) => i < self.model().events.len() && e@ == self.model().events[i as int],
                None => i >= self.model().events.len(),
            },
    {
        self.events.get(i)
    }

    /// The effective chain name, if the metadata cell holds a record.
    pub fn meta_get_chain_name(&self) -> (r: Option<String>)
        requires
            self.wf(),
        ensures
            match r {
                Some(s) => self.model().meta is Some && s@ == self.model().meta->0.chain_name,
                None => self.model().meta is None,
            },
    {
        match self.meta.get() {
            Some(m) => Some(m.chain_name),
            None => None,
        }
    }

    /// The effective counter, zero when the metadata cell is empty.
    pub fn meta_get_counter(&self) -> (r: u64)
        requires
            self.wf(),
        ensures
            r == (match self.model().meta {
                Some(m) => m.counter,
                None => 0,
            }),
    {
        match self.meta.get() {
            Some(m) => m.counter,
            None => 0,
        }
    }
}

} // verus!
