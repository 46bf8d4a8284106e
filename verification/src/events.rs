//! Events recorded in the store's events log, one per successful action.

use vstd::prelude::*;
use crate::address::Address;
use crate::traits::StoreElem;

verus! {

/// An event the ledger reducer emits.
#[derive(Debug, PartialEq, Eq)]
pub enum LedgerEvent {
    Coinbase { to: Address, amount: u128 },
    Transfer { from: Address, to: Address, amount: u128 },
}

/// An event the metadata reducer emits.
#[derive(Debug, PartialEq, Eq)]
pub enum MetaEvent {
    SetChainName { name: String },
    BumpCounter { new_counter: u64 },
}

/// Any event.
#[derive(Debug, PartialEq, Eq)]
pub enum Event {
    Ledger(LedgerEvent),
    Meta(MetaEvent),
}

/// The mathematical value of a [`LedgerEvent`].
pub ghost enum LedgerEventView {
    Coinbase { to: Seq<u8>, amount: u128 },
    Transfer { from: Seq<u8>, to: Seq<u8>, amount: u128 },
}

/// The mathematical value of a [`MetaEvent`].
pub ghost enum MetaEventView {
    SetChainName { name: Seq<char> },
    BumpCounter { new_counter: u64 },
}

/// The mathematical value of an [`Event`].
pub ghost enum EventView {
    Ledger(LedgerEventView),
    Meta(MetaEventView),
}

impl View for LedgerEvent {
    type V = LedgerEventView;

    open spec fn view(&self) -> LedgerEventView {
        match self {
            LedgerEvent::Coinbase { to, amount } => LedgerEventView::Coinbase {
                to: to@,
                amount: *amount,
            },
            LedgerEvent::Transfer { from, to, amount } => LedgerEventView::Transfer {
                from: from@,
                to: to@,
                amount: *amount,
            },
        }
    }
}

impl View for MetaEvent {
    type V = MetaEventView;

    open spec fn view(&self) -> MetaEventView {
        match self {
            MetaEvent::SetChainName { name } => MetaEventView::SetChainName { name: name@ },
            MetaEvent::BumpCounter { new_counter } => MetaEventView::BumpCounter {
                new_counter: *new_counter,
            },
        }
    }
}

impl View for Event {
    type V = EventView;

    open spec fn view(&self) -> EventView {
        match self {
            Event::Ledger(e) => EventView::Ledger(e@),
            Event::Meta(e) => EventView::Meta(e@),
        }
    }
}

impl StoreElem for Event {
    fn dup(&self) -> (r: Event)
        ensures
            r@ == self@,
    {
        match self {
            Event::Ledger(LedgerEvent::Coinbase { to, amount }) => Event::Ledger(
                LedgerEvent::Coinbase { to: to.dup(), amount: *amount },
            ),
            Event::Ledger(LedgerEvent::Transfer { from, to, amount }) => Event::Ledger(
                LedgerEvent::Transfer { from: from.dup(), to: to.dup(), amount: *amount },
            ),
            Event::Meta(MetaEvent::SetChainName { name }) => Event::Meta(
                MetaEvent::SetChainName { name: name.clone() },
            ),
            Event::Meta(MetaEvent::BumpCounter { new_counter }) => Event::Meta(
                MetaEvent::BumpCounter { new_counter: *new_counter },
            ),
        }
    }
}

} // verus!
