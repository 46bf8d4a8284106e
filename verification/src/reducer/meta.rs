//! The metadata reducer: chain-name updates and counter bumps.

use vstd::prelude::*;
use crate::actions::{Action, ActionView, ApplyStatus, ApplyStatusView, MetaAction,
    MetaActionView};
use crate::events::{Event, EventView, MetaEvent, MetaEventView};
use crate::meta::{Meta, MetaView};
use crate::store::{StoreGeneric, StoreModel};
use crate::traits::{CellStore, LogStore, MapStore};

verus! {

/// Saturating 64-bit addition.
pub open spec fn sat_add_u64(a: u64, b: u64) -> u64 {
    if a + b <= u64::MAX {
        (a + b) as u64
    } else {
        u64::MAX
    }
}

/// The record the reducer starts from: the cell's, or the default.
pub open spec fn meta_or_default(m: Option<MetaView>) -> MetaView {
    match m {
        Some(mv) => mv,
        None => MetaView::init(),
    }
}

/// What the metadata reducer does to the derived state, and its status.
///
/// Setting the chain name replaces the name (starting from a default record
/// when the cell is empty) and records an event carrying the new name.
/// Bumping the counter is a saturating increment, recording an event with
/// the new value. Actions outside the metadata jurisdiction pass.
pub open spec fn meta_step(m: StoreModel, a: ActionView) -> (StoreModel, ApplyStatusView) {
    match a {
        ActionView::Meta(MetaActionView::SetChainName { name }) => {
            let mv = meta_or_default(m.meta);
            let mv2 = MetaView { chain_name: name, ..mv };
            let m2 = StoreModel {
                meta: Some(mv2),
                events: m.events.push(EventView::Meta(MetaEventView::SetChainName { name })),
                ..m
            };
            (m2, ApplyStatusView::Applied)
        },
        ActionView::Meta(MetaActionView::BumpCounter) => {
            let mv = meta_or_default(m.meta);
            let new_counter = sat_add_u64(mv.counter, 1);
            let mv2 = MetaView { counter: new_counter, ..mv };
            let m2 = StoreModel {
                meta: Some(mv2),
                events: m.events.push(
                    EventView::Meta(MetaEventView::BumpCounter { new_counter }),
                ),
                ..m
            };
            (m2, ApplyStatusView::Applied)
        },
        _ => (m, ApplyStatusView::Pass { reason: "skipped by meta"@ }),
    }
}

/// Applies one action as the metadata reducer. Only the top layer is
/// touched.
pub fn reduce<A, B, C, D>(store: &mut StoreGeneric<A, B, C, D>, action: &Action) -> (r:
    ApplyStatus) where
    A: MapStore,
    B: CellStore<Meta>,
    C: LogStore<Event>,
    D: LogStore<Vec<u8>>,

    requires
        old(store).wf(),
    ensures
        final(store).wf(),
        final(store).frame_below_top(old(store)),
        final(store).model() == meta_step(old(store).model(), action@).0,
        r@ == meta_step(old(store).model(), action@).1,
{
    match action {
        Action::Meta(MetaAction::SetChainName { name }) => {
            let m0 = match store.meta.get() {
                Some(m) => m,
                None => Meta::default(),
            };
            store.meta.set(
                Meta { chain_name: name.clone(), owner: m0.owner, counter: m0.counter },
            );
            store.events.append(
                Event::Meta(MetaEvent::SetChainName { name: name.clone() }),
            );
            proof {
                assert(store.meta.slots().drop_last() =~= old(store).meta.slots().drop_last());
                assert(store.events.layers().drop_last() =~= old(
                    store,
                ).events.layers().drop_last());
                assert(store.accounts.effective_map() =~= old(store).accounts.effective_map());
                assert(store.model() =~= meta_step(old(store).model(), action@).0);
            }
            ApplyStatus::Applied
        },
        Action::Meta(MetaAction::BumpCounter) => {
            let m0 = match store.meta.get() {
                Some(m) => m,
                None => Meta::default(),
            };
            let new_counter = m0.counter.saturating_add(1);
            store.meta.set(
                Meta { chain_name: m0.chain_name, owner: m0.owner, counter: new_counter },
            );
            store.events.append(Event::Meta(MetaEvent::BumpCounter { new_counter }));
            proof {
                assert(store.meta.slots().drop_last() =~= old(store).meta.slots().drop_last());
                assert(store.events.layers().drop_last() =~= old(
                    store,
                ).events.layers().drop_last());
                assert(store.accounts.effective_map() =~= old(store).accounts.effective_map());
                assert(store.model() =~= meta_step(old(store).model(), action@).0);
            }
            ApplyStatus::Applied
        },
        _ => {
            ApplyStatus::Pass { reason: "skipped by meta".to_owned() }
        },
    }
}

} // verus!
