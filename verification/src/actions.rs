//! The closed action universe and the per-action apply status.

use vstd::prelude::*;
use crate::address::Address;
use crate::traits::StoreElem;

verus! {

/// An action the ledger reducer claims.
#[derive(Debug, PartialEq, Eq)]
pub enum LedgerAction {
    Coinbase { to: Address, amount: u128 },
    Transfer { from: Address, to: Address, amount: u128 },
}

/// An action the metadata reducer claims.
#[derive(Debug, PartialEq, Eq)]
pub enum MetaAction {
    SetChainName { name: String },
    BumpCounter,
}

/// Any action.
#[derive(Debug, PartialEq, Eq)]
pub enum Action {
    Ledger(LedgerAction),
    Meta(MetaAction),
}

/// The outcome of applying one action: done, declined with a reason, or
/// failed with an error that taints the whole batch.
#[derive(Debug, PartialEq, Eq)]
pub enum ApplyStatus {
    Applied,
    Pass { reason: String },
    Failed { error: String },
}

/// The mathematical value of a [`LedgerAction`].
pub ghost enum LedgerActionView {
    Coinbase { to: Seq<u8>, amount: u128 },
    Transfer { from: Seq<u8>, to: Seq<u8>, amount: u128 },
}

/// The mathematical value of a [`MetaAction`].
pub ghost enum MetaActionView {
    SetChainName { name: Seq<char> },
    BumpCounter,
}

/// The mathematical value of an [`Action`].
pub ghost enum ActionView {
    Ledger(LedgerActionView),
    Meta(MetaActionView),
}

/// The mathematical value of an [`ApplyStatus`].
pub ghost enum ApplyStatusView {
    Applied,
    Pass { reason: Seq<char> },
    Failed { error: Seq<char> },
}

impl View for LedgerAction {
    type V = LedgerActionView;

    open spec fn view(&self) -> LedgerActionView {
        match self {
            LedgerAction::Coinbase { to, amount } => LedgerActionView::Coinbase {
                to: to@,
                amount: *amount,
            },
            LedgerAction::Transfer { from, to, amount } => LedgerActionView::Transfer {
                from: from@,
                to: to@,
                amount: *amount,
            },
        }
    }
}

impl View for MetaAction {
    type V = MetaActionView;

    open spec fn view(&self) -> MetaActionView {
        match self {
            MetaAction::SetChainName { name } => MetaActionView::SetChainName { name: name@ },
            MetaAction::BumpCounter => MetaActionView::BumpCounter,
        }
    }
}

impl View for Action {
    type V = ActionView;

    open spec fn view(&self) -> ActionView {
        match self {
            Action::Ledger(a) => ActionView::Ledger(a@),
            Action::Meta(a) => ActionView::Meta(a@),
        }
    }
}

impl View for ApplyStatus {
    type V = ApplyStatusView;

    open spec fn view(&self) -> ApplyStatusView {
        match self {
            ApplyStatus::Applied => ApplyStatusView::Applied,
            ApplyStatus::Pass { reason } => ApplyStatusView::Pass { reason: reason@ },
            ApplyStatus::Failed { error } => ApplyStatusView::Failed { error: error@ },
        }
    }
}

impl StoreElem for Action {
    fn dup(&self) -> (r: Action)
        ensures
            r@ == self@,
    {
        match self {
            Action::Ledger(LedgerAction::Coinbase { to, amount }) => Action::Ledger(
                LedgerAction::Coinbase { to: to.dup(), amount: *amount },
            ),
            Action::Ledger(LedgerAction::Transfer { from, to, amount }) => Action::Ledger(
                LedgerAction::Transfer { from: from.dup(), to: to.dup(), amount: *amount },
            ),
            Action::Meta(MetaAction::SetChainName { name }) => Action::Meta(
                MetaAction::SetChainName { name: name.clone() },
            ),
            Action::Meta(MetaAction::BumpCounter) => Action::Meta(MetaAction::BumpCounter),
        }
    }
}

impl StoreElem for ApplyStatus {
    fn dup(&self) -> (r: ApplyStatus)
        ensures
            r@ == self@,
    {
        match self {
            ApplyStatus::Applied => ApplyStatus::Applied,
            ApplyStatus::Pass { reason } => ApplyStatus::Pass { reason: reason.clone() },
            ApplyStatus::Failed { error } => ApplyStatus::Failed { error: error.clone() },
        }
    }
}

} // verus!
