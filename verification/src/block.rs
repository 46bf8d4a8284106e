//! A block: one atomically-applied batch of actions with their outcomes.

use vstd::prelude::*;
use crate::actions::{Action, ActionView, ApplyStatus, ApplyStatusView};
use crate::log::layer_view;
use crate::traits::StoreElem;

verus! {

/// An ordered batch of actions and the status each one produced, of equal
/// length by construction.
#[derive(Debug, PartialEq, Eq)]
pub struct Block {
    pub actions: Vec<Action>,
    pub results: Vec<ApplyStatus>,
}

/// The mathematical value of a [`Block`].
#[verifier::ext_equal]
pub ghost struct BlockView {
    pub actions: Seq<ActionView>,
    pub results: Seq<ApplyStatusView>,
}

impl View for Block {
    type V = BlockView;

    open spec fn view(&self) -> BlockView {
        BlockView { actions: layer_view(self.actions@), results: layer_view(self.results@) }
    }
}

/// Duplicates a list of actions element by element.
pub fn dup_actions(v: &Vec<Action>) -> (r: Vec<Action>)
    ensures
        layer_view(r@) == layer_view(v@),
{
    let mut r: Vec<Action> = Vec::new();
    let mut i: usize = 0;
    while i < v.len()
        invariant
            i <= v@.len(),
            r@.len() == i,
            forall|j: int| 0 <= j < i ==> (#[trigger] r@[j])@ == v@[j]@,
        decreases v@.len() - i,
    {
        r.push(v[i].dup());
        i += 1;
    }
    proof {
        assert(layer_view(r@) =~= layer_view(v@));
    }
    r
}

/// Duplicates a list of statuses element by element.
pub fn dup_statuses(v: &Vec<ApplyStatus>) -> (r: Vec<ApplyStatus>)
    ensures
        layer_view(r@) == layer_view(v@),
{
    let mut r: Vec<ApplyStatus> = Vec::new();
    let mut i: usize = 0;
    while i < v.len()
        invariant
            i <= v@.len(),
            r@.len() == i,
            forall|j: int| 0 <= j < i ==> (#[trigger] r@[j])@ == v@[j]@,
        decreases v@.len() - i,
    {
        r.push(v[i].dup());
        i += 1;
    }
    proof {
        assert(layer_view(r@) =~= layer_view(v@));
    }
    r
}

} // verus!
