//! Tests of the transactional containers and the composite store.

use staging_memory::actions::{Action, ApplyStatus, LedgerAction, MetaAction};
use staging_memory::address::Address;
use staging_memory::applier::{apply_block, get_blocks, reset_and_replay};
use staging_memory::reducer::reduce_in_order;
use staging_memory::events::{Event, LedgerEvent, MetaEvent};
use staging_memory::mem::{InMemoryCell, InMemoryLog, InMemoryMap};
use staging_memory::meta::Meta;
use staging_memory::store::StoreGeneric;

type TestStore = StoreGeneric<InMemoryMap, InMemoryCell<Meta>, InMemoryLog<Event>, InMemoryLog<Vec<u8>>>;

fn fresh_store() -> TestStore {
    StoreGeneric::new(
        InMemoryMap::new(),
        InMemoryCell::new(),
        InMemoryLog::new(),
        InMemoryLog::new(),
    )
}

fn addr(name: &str) -> Address {
    Address(name.as_bytes().to_vec())
}

fn coinbase(to: &str, amount: u128) -> Action {
    Action::Ledger(LedgerAction::Coinbase { to: addr(to), amount })
}

fn transfer(from: &str, to: &str, amount: u128) -> Action {
    Action::Ledger(LedgerAction::Transfer { from: addr(from), to: addr(to), amount })
}

#[test]
fn coinbase_then_transfer() {
    let mut s = fresh_store();
    let res = apply_block(&mut s, vec![coinbase("alice", 100), transfer("alice", "bob", 30)]);
    assert_eq!(res, vec![ApplyStatus::Applied, ApplyStatus::Applied]);
    assert_eq!(s.get_balance(&addr("alice")), 70);
    assert_eq!(s.get_balance(&addr("bob")), 30);
    assert_eq!(s.events_len(), 2);
    assert_eq!(s.blocks.len(), 1);
}

#[test]
fn insufficient_funds_pass() {
    let mut s = fresh_store();
    let res = apply_block(&mut s, vec![transfer("alice", "bob", 5)]);
    assert_eq!(res, vec![ApplyStatus::Pass { reason: "insufficient funds".to_owned() }]);
    assert_eq!(s.get_balance(&addr("alice")), 0);
    assert_eq!(s.get_balance(&addr("bob")), 0);
    // the pass still commits: the block is recorded with its status
    assert_eq!(s.blocks.len(), 1);
}

#[test]
fn zero_amount_transfer_pass() {
    let mut s = fresh_store();
    let res = apply_block(&mut s, vec![transfer("alice", "bob", 0)]);
    assert_eq!(res, vec![ApplyStatus::Pass { reason: "zero-amount transfer".to_owned() }]);
    assert_eq!(s.blocks.len(), 1);
}

#[test]
fn revert_restores_staged_mutations() {
    // no shipped reducer returns a failure, so the revert path of the
    // overlay stack is exercised directly: mutate inside a layer, revert,
    // and the store is as before
    let mut s = fresh_store();
    let _ = apply_block(&mut s, vec![coinbase("alice", 10)]);
    s.push_layer();
    s.accounts.insert(addr("alice"), 999);
    s.accounts.remove(&addr("alice"));
    s.events.append(Event::Meta(MetaEvent::BumpCounter { new_counter: 7 }));
    s.meta.set(Meta { chain_name: "x".to_owned(), owner: None, counter: 9 });
    s.revert_top();
    assert_eq!(s.get_balance(&addr("alice")), 10);
    assert_eq!(s.events_len(), 1);
    assert_eq!(s.meta_get_counter(), 0);
    assert_eq!(s.blocks.len(), 1);
}

#[test]
fn nested_layers_revert_then_commit() {
    let mut s = fresh_store();
    s.push_layer();
    s.accounts.insert(addr("k"), 1);
    s.push_layer();
    s.accounts.insert(addr("k"), 2);
    s.revert_top();
    s.commit_top();
    assert_eq!(s.get_balance(&addr("k")), 1);
}

#[test]
fn tombstone_survives_commit() {
    let mut s = fresh_store();
    s.accounts.insert(addr("k"), 5);
    s.push_layer();
    s.accounts.remove(&addr("k"));
    s.commit_top();
    assert_eq!(s.accounts.get(&addr("k")), None);
}

#[test]
fn untouched_layer_keeps_cell_write() {
    let mut s = fresh_store();
    let m = Meta { chain_name: "home".to_owned(), owner: None, counter: 3 };
    s.meta.set(m);
    s.push_layer();
    s.commit_top();
    let got = s.meta.get().expect("cell value kept");
    assert_eq!(got.chain_name, "home");
    assert_eq!(got.counter, 3);
}

#[test]
fn log_appends_keep_order_across_commit() {
    let mut s = fresh_store();
    s.events.append(Event::Meta(MetaEvent::BumpCounter { new_counter: 1 }));
    s.push_layer();
    s.events.append(Event::Meta(MetaEvent::BumpCounter { new_counter: 2 }));
    s.commit_top();
    s.commit_all();
    assert_eq!(s.events.len(), 2);
    assert_eq!(
        s.events.get(0),
        Some(Event::Meta(MetaEvent::BumpCounter { new_counter: 1 }))
    );
    assert_eq!(
        s.events.get(1),
        Some(Event::Meta(MetaEvent::BumpCounter { new_counter: 2 }))
    );
    assert_eq!(s.events.get(2), None);
}

#[test]
fn commit_all_is_idempotent() {
    let mut s = fresh_store();
    let _ = apply_block(&mut s, vec![coinbase("alice", 42)]);
    s.push_layer();
    s.accounts.insert(addr("bob"), 8);
    s.commit_all();
    let alice = s.get_balance(&addr("alice"));
    let bob = s.get_balance(&addr("bob"));
    let events = s.events_len();
    let blocks = s.blocks.len();
    s.commit_all();
    assert_eq!(s.get_balance(&addr("alice")), alice);
    assert_eq!(s.get_balance(&addr("bob")), bob);
    assert_eq!(s.events_len(), events);
    assert_eq!(s.blocks.len(), blocks);
}

#[test]
fn depth_survives_arbitrary_transaction_sequences() {
    // push / commit / revert in odd orders: the store keeps answering,
    // which it can only do while every stack keeps at least one layer
    let mut s = fresh_store();
    s.revert_top();
    s.commit_top();
    s.commit_oldest();
    s.push_layer();
    s.push_layer();
    s.commit_oldest();
    s.revert_top();
    s.commit_all();
    s.commit_top();
    assert_eq!(s.get_balance(&addr("nobody")), 0);
    assert_eq!(s.events_len(), 0);
}

#[test]
fn commit_oldest_reaches_backend() {
    let mut s = fresh_store();
    s.accounts.insert(addr("a"), 1);
    s.push_layer();
    s.accounts.insert(addr("b"), 2);
    s.commit_oldest();
    assert_eq!(s.get_balance(&addr("a")), 1);
    assert_eq!(s.get_balance(&addr("b")), 2);
    s.commit_all();
    assert_eq!(s.get_balance(&addr("a")), 1);
    assert_eq!(s.get_balance(&addr("b")), 2);
}

#[test]
fn bump_counter_saturates() {
    let mut s = fresh_store();
    s.meta.set(Meta { chain_name: String::new(), owner: None, counter: u64::MAX - 1 });
    let res = apply_block(
        &mut s,
        vec![Action::Meta(MetaAction::BumpCounter), Action::Meta(MetaAction::BumpCounter)],
    );
    assert_eq!(res, vec![ApplyStatus::Applied, ApplyStatus::Applied]);
    assert_eq!(s.meta_get_counter(), u64::MAX);
    assert_eq!(
        s.get_event(1),
        Some(Event::Meta(MetaEvent::BumpCounter { new_counter: u64::MAX }))
    );
}

#[test]
fn set_chain_name_emits_event() {
    let mut s = fresh_store();
    let res = apply_block(
        &mut s,
        vec![Action::Meta(MetaAction::SetChainName { name: "testnet".to_owned() })],
    );
    assert_eq!(res, vec![ApplyStatus::Applied]);
    assert_eq!(s.meta_get_chain_name(), Some("testnet".to_owned()));
    assert_eq!(
        s.get_event(0),
        Some(Event::Meta(MetaEvent::SetChainName { name: "testnet".to_owned() }))
    );
}

#[test]
fn replay_rebuilds_derived_state() {
    let mut s = fresh_store();
    let _ = apply_block(&mut s, vec![coinbase("alice", 100)]);
    let _ = apply_block(&mut s, vec![transfer("alice", "bob", 30)]);
    let _ = apply_block(
        &mut s,
        vec![Action::Meta(MetaAction::SetChainName { name: "chain".to_owned() })],
    );
    let alice = s.get_balance(&addr("alice"));
    let bob = s.get_balance(&addr("bob"));
    let events = s.events_len();
    let name = s.meta_get_chain_name();
    let blocks = s.blocks.len();
    let ok = reset_and_replay(&mut s);
    assert!(ok);
    assert_eq!(s.get_balance(&addr("alice")), alice);
    assert_eq!(s.get_balance(&addr("bob")), bob);
    assert_eq!(s.events_len(), events);
    assert_eq!(s.meta_get_chain_name(), name);
    assert_eq!(s.blocks.len(), blocks);
}

#[test]
fn replay_rejects_garbage_blocks() {
    let mut s = fresh_store();
    let _ = apply_block(&mut s, vec![coinbase("alice", 100)]);
    s.blocks.append(vec![0xFF, 0xFF, 0xFF]);
    s.commit_all();
    let ok = reset_and_replay(&mut s);
    assert!(!ok);
    // derived state is erased, the blocks log is intact
    assert_eq!(s.get_balance(&addr("alice")), 0);
    assert_eq!(s.events_len(), 0);
    assert_eq!(s.blocks.len(), 2);
}

#[test]
fn pagination_returns_window() {
    let mut s = fresh_store();
    let _ = apply_block(&mut s, vec![coinbase("alice", 1)]);
    let _ = apply_block(&mut s, vec![coinbase("alice", 2)]);
    let _ = apply_block(&mut s, vec![coinbase("alice", 3)]);
    let page = get_blocks(&s, 1, 10);
    assert_eq!(page.total, 3);
    assert_eq!(page.start, 1);
    assert_eq!(page.blocks.len(), 2);
    assert_eq!(page.blocks[0].actions, vec![coinbase("alice", 2)]);
    let empty = get_blocks(&s, 7, 10);
    assert_eq!(empty.start, 3);
    assert_eq!(empty.blocks.len(), 0);
}

#[test]
fn iter_effective_sorted_and_filtered() {
    let mut s = fresh_store();
    s.accounts.insert(addr("b"), 2);
    s.accounts.insert(addr("a"), 1);
    s.commit_all();
    s.accounts.insert(addr("c"), 3);
    s.accounts.remove(&addr("b"));
    let mut it = s.accounts.iter_effective();
    assert_eq!(it.next(), Some((addr("a"), 1)));
    assert_eq!(it.next(), Some((addr("c"), 3)));
    assert_eq!(it.next(), None);
}

#[test]
fn base_len_counts_backend_keys() {
    let mut s = fresh_store();
    s.accounts.insert(addr("a"), 1);
    s.accounts.insert(addr("b"), 2);
    assert_eq!(s.accounts.base_len(), 0);
    s.commit_all();
    assert_eq!(s.accounts.base_len(), 2);
    s.accounts.clear_all();
    assert_eq!(s.accounts.base_len(), 0);
}

#[test]
fn transfer_between_same_account() {
    let mut s = fresh_store();
    let _ = apply_block(&mut s, vec![coinbase("alice", 50)]);
    let res = apply_block(&mut s, vec![transfer("alice", "alice", 20)]);
    assert_eq!(res, vec![ApplyStatus::Applied]);
    // the credit reads the balance after the debit: nothing is minted
    assert_eq!(s.get_balance(&addr("alice")), 50);
}

#[test]
fn coinbase_saturates_at_max() {
    let mut s = fresh_store();
    let _ = apply_block(&mut s, vec![coinbase("alice", u128::MAX)]);
    let _ = apply_block(&mut s, vec![coinbase("alice", 5)]);
    assert_eq!(s.get_balance(&addr("alice")), u128::MAX);
}

#[test]
fn apply_block_matches_direct_reduction() {
    // a batch applied through the staging protocol, against a deeper stack
    let mut staged = fresh_store();
    staged.push_layer();
    staged.push_layer();
    let _ = apply_block(&mut staged, vec![coinbase("alice", 10), transfer("alice", "bob", 3)]);
    staged.commit_all();
    // the same reducers run directly at depth 1
    let mut direct = fresh_store();
    for a in [coinbase("alice", 10), transfer("alice", "bob", 3)] {
        let _ = reduce_in_order(&mut direct, &a);
    }
    assert_eq!(staged.get_balance(&addr("alice")), direct.get_balance(&addr("alice")));
    assert_eq!(staged.get_balance(&addr("bob")), direct.get_balance(&addr("bob")));
    assert_eq!(staged.events_len(), direct.events_len());
    assert_eq!(staged.get_event(0), direct.get_event(0));
    assert_eq!(staged.get_event(1), direct.get_event(1));
    assert_eq!(staged.meta_get_counter(), direct.meta_get_counter());
}

#[test]
fn cell_commit_oldest_then_revert_bottom() {
    let mut s = fresh_store();
    s.meta.set(Meta { chain_name: "one".to_owned(), owner: None, counter: 1 });
    s.push_layer();
    s.meta.set(Meta { chain_name: "two".to_owned(), owner: None, counter: 2 });
    s.commit_oldest();
    // the oldest slot reached the backend; the top write still shadows it
    assert_eq!(s.meta_get_counter(), 2);
    s.revert_top();
    // the sole remaining layer was blanked: the backend's value shows
    assert_eq!(s.meta_get_counter(), 1);
    assert_eq!(s.meta_get_chain_name(), Some("one".to_owned()));
}

#[test]
fn log_clear_keeps_depth() {
    let mut s = fresh_store();
    s.events.append(Event::Meta(MetaEvent::BumpCounter { new_counter: 1 }));
    s.push_layer();
    s.events.append(Event::Meta(MetaEvent::BumpCounter { new_counter: 2 }));
    s.events.clear();
    assert_eq!(s.events.len(), 0);
    // the stack is still two layers deep: a commit and a revert both work
    s.events.append(Event::Meta(MetaEvent::BumpCounter { new_counter: 3 }));
    s.commit_top();
    assert_eq!(
        s.events.get(0),
        Some(Event::Meta(MetaEvent::BumpCounter { new_counter: 3 }))
    );
    assert_eq!(s.events.len(), 1);
}

#[test]
fn clear_all_erases_blocks_too() {
    let mut s = fresh_store();
    let _ = apply_block(&mut s, vec![coinbase("alice", 9)]);
    s.clear_all();
    assert_eq!(s.blocks.len(), 0);
    assert_eq!(s.events_len(), 0);
    assert_eq!(s.get_balance(&addr("alice")), 0);
}
