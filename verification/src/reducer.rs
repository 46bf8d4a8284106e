//! The reducer engine: a fixed, ordered list of reducers, each tried on
//! every action. The per-reducer outcomes fold into one status: any failure
//! wins (the last one), else any success, else a synthesized pass.

pub mod ledger;
pub mod meta;

use vstd::prelude::*;
use crate::actions::{Action, ActionView, ApplyStatus, ApplyStatusView};
use crate::events::Event;
use crate::meta::Meta;
use crate::store::{StoreGeneric, StoreModel};
use crate::traits::{CellStore, LogStore, MapStore};

verus! {

/// Folds the two reducers' statuses: a failure taints the action (the later
/// reducer's failure wins), else any success makes it succeed. When every
/// reducer declined, the reason carried by the reducer whose jurisdiction
/// the action falls in is the one reported, so a domain rejection such as an
/// underfunded transfer keeps its reason.
pub open spec fn fold_status(a: ActionView, s1: ApplyStatusView, s2: ApplyStatusView) -> ApplyStatusView {
    if s2 is Failed {
        s2
    } else if s1 is Failed {
        s1
    } else if s1 is Applied || s2 is Applied {
        ApplyStatusView::Applied
    } else {
        match a {
            ActionView::Ledger(_) => s1,
            ActionView::Meta(_) => s2,
        }
    }
}

/// One engine step: the ledger reducer, then the metadata reducer, each
/// free to change the derived state; their statuses folded.
pub open spec fn reduce_step(m: StoreModel, a: ActionView) -> (StoreModel, ApplyStatusView) {
    let (m1, s1) = ledger::ledger_step(m, a);
    let (m2, s2) = meta::meta_step(m1, a);
    (m2, fold_status(a, s1, s2))
}

/// Applies one action by running every reducer in the fixed order and
/// folding their statuses. Only the top layer is touched.
pub fn reduce_in_order<A, B, C, D>(store: &mut StoreGeneric<A, B, C, D>, action: &Action) -> (r:
    ApplyStatus) where
    A: MapStore,
    B: CellStore<Meta>,
    C: LogStore<Event>,
    D: LogStore<Vec<u8>>,

    requires
        old(store).wf(),
    ensures
        final(store).wf(),
        final(store).frame_below_top(old(store)),
        final(store).model() == reduce_step(old(store).model(), action@).0,
        r@ == reduce_step(old(store).model(), action@).1,
{
    let s1 = ledger::reduce(store, action);
    let s2 = meta::reduce(store, action);
    if matches!(s2, ApplyStatus::Failed { .. }) {
        return s2;
    }
    if matches!(s1, ApplyStatus::Failed { .. }) {
        return s1;
    }
    if matches!(s1, ApplyStatus::Applied) || matches!(s2, ApplyStatus::Applied) {
        return ApplyStatus::Applied;
    }
    match action {
        Action::Ledger(_) => s1,
        Action::Meta(_) => s2,
    }
}

/// One engine step reads and writes only the derived fields — accounts,
/// metadata, events — never the blocks log: two models that agree on those
/// fields step to models that agree on them, with the same status.
pub proof fn lemma_reduce_step_reads_derived(m1: StoreModel, m2: StoreModel, a: ActionView)
    requires
        m1.accounts == m2.accounts,
        m1.meta == m2.meta,
        m1.events == m2.events,
    ensures
        reduce_step(m1, a).0.accounts == reduce_step(m2, a).0.accounts,
        reduce_step(m1, a).0.meta == reduce_step(m2, a).0.meta,
        reduce_step(m1, a).0.events == reduce_step(m2, a).0.events,
        reduce_step(m1, a).1 == reduce_step(m2, a).1,
{
}

} // verus!
