//! The ledger reducer: coinbase credits and balance transfers.

use vstd::prelude::*;
use crate::actions::{Action, ActionView, ApplyStatus, ApplyStatusView, LedgerAction,
    LedgerActionView};
use crate::events::{Event, EventView, LedgerEvent, LedgerEventView};
use crate::meta::Meta;
use crate::store::{StoreGeneric, StoreModel};
use crate::traits::{CellStore, LogStore, MapStore};

verus! {

/// Saturating 128-bit addition.
pub open spec fn sat_add_u128(a: u128, b: u128) -> u128 {
    if a + b <= u128::MAX {
        (a + b) as u128
    } else {
        u128::MAX
    }
}

/// Saturating 128-bit subtraction.
pub open spec fn sat_sub_u128(a: u128, b: u128) -> u128 {
    if a >= b {
        (a - b) as u128
    } else {
        0
    }
}

/// What the ledger reducer does to the derived state, and its status.
///
/// A coinbase credits the target with a saturating add and records an event.
/// A transfer of zero, or one exceeding the sender's balance, is declined;
/// otherwise the sender is debited, then the receiver is credited from its
/// balance after the debit — so a self-transfer leaves the balance exactly
/// where it was — and an event is recorded. Actions outside the ledger's
/// jurisdiction pass.
pub open spec fn ledger_step(m: StoreModel, a: ActionView) -> (StoreModel, ApplyStatusView) {
    match a {
        ActionView::Ledger(LedgerActionView::Coinbase { to, amount }) => {
            let cur = m.balance(to);
            let m2 = StoreModel {
                accounts: m.accounts.insert(to, sat_add_u128(cur, amount)),
                events: m.events.push(
                    EventView::Ledger(LedgerEventView::Coinbase { to, amount }),
                ),
                ..m
            };
            (m2, ApplyStatusView::Applied)
        },
        ActionView::Ledger(LedgerActionView::Transfer { from, to, amount }) => {
            if amount == 0 {
                (m, ApplyStatusView::Pass { reason: "zero-amount transfer"@ })
            } else if m.balance(from) < amount {
                (m, ApplyStatusView::Pass { reason: "insufficient funds"@ })
            } else {
                let from_bal = m.balance(from);
                let debited = StoreModel {
                    accounts: m.accounts.insert(from, sat_sub_u128(from_bal, amount)),
                    ..m
                };
                let to_bal = debited.balance(to);
                let m2 = StoreModel {
                    accounts: debited.accounts.insert(to, sat_add_u128(to_bal, amount)),
                    events: m.events.push(
                        EventView::Ledger(LedgerEventView::Transfer { from, to, amount }),
                    ),
                    ..m
                };
                (m2, ApplyStatusView::Applied)
            }
        },
        _ => (m, ApplyStatusView::Pass { reason: "skipped by ledger"@ }),
    }
}

/// Applies one action as the ledger reducer. Only the top layer is touched.
pub fn reduce<A, B, C, D>(store: &mut StoreGeneric<A, B, C, D>, action: &Action) -> (r:
    ApplyStatus) where
    A: MapStore,
    B: CellStore<Meta>,
    C: LogStore<Event>,
    D: LogStore<Vec<u8>>,

    requires
        old(store).wf(),
    ensures
        final(store).wf(),
        final(store).frame_below_top(old(store)),
        final(store).model() == ledger_step(old(store).model(), action@).0,
        r@ == ledger_step(old(store).model(), action@).1,
{
    match action {
        Action::Ledger(LedgerAction::Coinbase { to, amount }) => {
            let cur = match store.accounts.get(to) {
                Some(v) => v,
                None => 0,
            };
            store.accounts.insert(to.dup(), cur.saturating_add(*amount));
            store.events.append(
                Event::Ledger(LedgerEvent::Coinbase { to: to.dup(), amount: *amount }),
            );
            proof {
                assert(store.accounts.layers().drop_last() =~= old(
                    store,
                ).accounts.layers().drop_last());
                assert(store.events.layers().drop_last() =~= old(
                    store,
                ).events.layers().drop_last());
                assert(store.accounts.effective_map() =~= old(store).model().accounts.insert(
                    to@,
                    sat_add_u128(old(store).model().balance(to@), *amount),
                ));
                assert(store.model() =~= ledger_step(old(store).model(), action@).0);
            }
            ApplyStatus::Applied
        },
        Action::Ledger(LedgerAction::Transfer { from, to, amount }) => {
            if *amount == 0 {
                return ApplyStatus::Pass { reason: "zero-amount transfer".to_owned() };
            }
            let from_bal = match store.accounts.get(from) {
                Some(v) => v,
                None => 0,
            };
            if from_bal < *amount {
                return ApplyStatus::Pass { reason: "insufficient funds".to_owned() };
            }
            store.accounts.insert(from.dup(), from_bal.saturating_sub(*amount));
            let ghost mid = *store;
            let to_bal = match store.accounts.get(to) {
                Some(v) => v,
                None => 0,
            };
            store.accounts.insert(to.dup(), to_bal.saturating_add(*amount));
            store.events.append(
                Event::Ledger(
                    LedgerEvent::Transfer { from: from.dup(), to: to.dup(), amount: *amount },
                ),
            );
            proof {
                assert(mid.accounts.layers().drop_last() =~= old(
                    store,
                ).accounts.layers().drop_last());
                assert(store.accounts.layers().drop_last() =~= mid.accounts.layers().drop_last());
                assert(store.events.layers().drop_last() =~= old(
                    store,
                ).events.layers().drop_last());
                assert(store.accounts.effective_map() =~= old(store).model().accounts.insert(
                    from@,
                    sat_sub_u128(from_bal, *amount),
                ).insert(to@, sat_add_u128(to_bal, *amount)));
                assert(store.model() =~= ledger_step(old(store).model(), action@).0);
            }
            ApplyStatus::Applied
        },
        _ => {
            ApplyStatus::Pass { reason: "skipped by ledger".to_owned() }
        },
    }
}

} // verus!
