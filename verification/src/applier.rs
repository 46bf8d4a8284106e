//! The atomic batch-apply protocol and replay.
//!
//! A batch of actions runs inside a fresh layer. If any action fails, the
//! layer is reverted and the store is left exactly as it was; otherwise a
//! block recording the actions and their outcomes is appended to the blocks
//! log and the layer is committed. Replay rebuilds all derived state from
//! the persisted blocks log alone.

use vstd::prelude::*;
use crate::actions::{Action, ActionView, ApplyStatus, ApplyStatusView};
use crate::block::{Block, BlockView, dup_actions, dup_statuses};
use crate::codec::{enc_block, block_bounded, encode_block, decode_block};
use crate::events::Event;
use crate::log::layer_view;
use crate::meta::Meta;
use crate::reducer::{reduce_in_order, reduce_step};
use crate::store::{StoreGeneric, StoreModel};
use crate::traits::{CellStore, LogStore, MapStore};

verus! {

/// Folds the reducer engine over a batch, collecting per-action statuses.
pub open spec fn apply_actions(m: StoreModel, acts: Seq<ActionView>) -> (StoreModel, Seq<
    ApplyStatusView,
>)
    decreases acts.len(),
{
    if acts.len() == 0 {
        (m, Seq::empty())
    } else {
        let (m1, ss) = apply_actions(m, acts.drop_last());
        let (m2, s) = reduce_step(m1, acts.last());
        (m2, ss.push(s))
    }
}

/// True when some status is a failure.
pub open spec fn has_failure(ss: Seq<ApplyStatusView>) -> bool {
    exists|i: int| 0 <= i < ss.len() && ss[i] is Failed
}

/// The engine never touches the blocks log.
pub proof fn lemma_apply_actions_blocks(m: StoreModel, acts: Seq<ActionView>)
    ensures
        apply_actions(m, acts).0.blocks == m.blocks,
        apply_actions(m, acts).1.len() == acts.len(),
    decreases acts.len(),
{
    if acts.len() > 0 {
        lemma_apply_actions_blocks(m, acts.drop_last());
    }
}

/// Each action appends at most two events.
pub proof fn lemma_apply_actions_events_len(m: StoreModel, acts: Seq<ActionView>)
    ensures
        apply_actions(m, acts).0.events.len() <= m.events.len() + 2 * acts.len(),
    decreases acts.len(),
{
    if acts.len() > 0 {
        lemma_apply_actions_events_len(m, acts.drop_last());
    }
}

/// Appending one action to a batch runs one more engine step.
pub proof fn lemma_apply_actions_step(m: StoreModel, acts: Seq<ActionView>, i: int)
    requires
        0 <= i < acts.len(),
    ensures
        apply_actions(m, acts.take(i + 1)) == (
        {
            let (m1, ss) = apply_actions(m, acts.take(i));
            let (m2, s) = reduce_step(m1, acts[i]);
            (m2, ss.push(s))
        }),
{
    assert(acts.take(i + 1).drop_last() =~= acts.take(i));
    assert(acts.take(i + 1).last() == acts[i]);
}

/// One more failure-free status keeps the batch failure-free; one failure
/// taints it.
pub proof fn lemma_has_failure_push(ss: Seq<ApplyStatusView>, s: ApplyStatusView)
    ensures
        has_failure(ss.push(s)) == (has_failure(ss) || s is Failed),
{
    if has_failure(ss) {
        let i = choose|i: int| 0 <= i < ss.len() && ss[i] is Failed;
        assert(ss.push(s)[i] is Failed);
    }
    if s is Failed {
        assert(ss.push(s)[ss.len() as int] is Failed);
    }
    if has_failure(ss.push(s)) {
        let i = choose|i: int| 0 <= i < ss.push(s).len() && ss.push(s)[i] is Failed;
        if i < ss.len() {
            assert(ss[i] is Failed);
        }
    }
}

/// Applies a batch of actions atomically.
///
/// Every action runs through the reducer engine inside a fresh layer, in
/// order. If any action fails, the layer is reverted: the store is left
/// exactly as it was, and no block is recorded. Otherwise a block holding
/// the actions and their statuses is appended to the blocks log and the
/// layer is committed. Pass statuses do not inhibit the commit.
pub fn apply_block<A, B, C, D>(store: &mut StoreGeneric<A, B, C, D>, actions: Vec<Action>) -> (r:
    Vec<ApplyStatus>) where
    A: MapStore,
    B: CellStore<Meta>,
    C: LogStore<Event>,
    D: LogStore<Vec<u8>>,

    requires
        old(store).wf(),
        old(store).model().blocks.len() < usize::MAX,
        old(store).model().events.len() + 2 * actions@.len() <= usize::MAX,
    ensures
        final(store).wf(),
        final(store).depth() == old(store).depth(),
        layer_view(r@) == apply_actions(old(store).model(), layer_view(actions@)).1,
        has_failure(layer_view(r@)) ==> final(store).same_state(old(store))
            && final(store).model() == old(store).model(),
        !has_failure(layer_view(r@)) ==> final(store).model() == (
        {
            let m2 = apply_actions(old(store).model(), layer_view(actions@)).0;
            StoreModel {
                blocks: m2.blocks.push(
                    enc_block(
                        BlockView {
                            actions: layer_view(actions@),
                            results: apply_actions(
                                old(store).model(),
                                layer_view(actions@),
                            ).1,
                        },
                    ),
                ),
                ..m2
            }
        }),
{
    let ghost m0 = old(store).model();
    let ghost avs = layer_view(actions@);
    store.push_layer();
    proof {
        assert(store.accounts.layers().drop_last() =~= old(store).accounts.layers());
        assert(store.meta.slots().drop_last() =~= old(store).meta.slots());
        assert(store.events.layers().drop_last() =~= old(store).events.layers());
        assert(store.blocks.layers().drop_last() =~= old(store).blocks.layers());
        assert(avs.take(0) =~= Seq::<ActionView>::empty());
        assert(layer_view(Seq::<ApplyStatus>::empty()) =~= Seq::<ApplyStatusView>::empty());
    }
    let mut res: Vec<ApplyStatus> = Vec::new();
    let mut saw_failure = false;
    let mut i: usize = 0;
    while i < actions.len()
        invariant
            store.wf(),
            i <= actions@.len(),
            avs == layer_view(actions@),
            avs.len() == actions@.len(),
            store.depth() == old(store).depth() + 1,
            store.accounts.layers().drop_last() == old(store).accounts.layers(),
            store.accounts.base_view() == old(store).accounts.base_view(),
            store.meta.slots().drop_last() == old(store).meta.slots(),
            store.meta.base_view() == old(store).meta.base_view(),
            store.events.layers().drop_last() == old(store).events.layers(),
            store.events.base_view() == old(store).events.base_view(),
            store.blocks.layers().drop_last() == old(store).blocks.layers(),
            store.blocks.base_view() == old(store).blocks.base_view(),
            res@.len() == i,
            store.model() == apply_actions(m0, avs.take(i as int)).0,
            layer_view(res@) == apply_actions(m0, avs.take(i as int)).1,
            saw_failure == has_failure(layer_view(res@)),
        decreases actions@.len() - i,
    {
        let status = reduce_in_order(store, &actions[i]);
        proof {
            lemma_apply_actions_step(m0, avs, i as int);
            lemma_has_failure_push(layer_view(res@), status@);
            assert(avs[i as int] == actions@[i as int]@);
        }
        if matches!(status, ApplyStatus::Failed { .. }) {
            saw_failure = true;
        }
        let ghost res0 = res@;
        res.push(status);
        proof {
            assert(layer_view(res@) =~= layer_view(res0).push(res@.last()@));
        }
        i += 1;
    }
    proof {
        assert(avs.take(avs.len() as int) =~= avs);
    }
    if saw_failure {
        store.revert_top();
        proof {
            assert(store.same_state(old(store)));
            assert forall|k: Seq<u8>| true implies #[trigger] store.accounts.effective_get(k)
                == old(store).accounts.effective_get(k) by {}
            assert(store.accounts.effective_map() =~= old(store).accounts.effective_map());
            assert(store.model() =~= old(store).model());
        }
    } else {
        let blk = Block { actions: dup_actions(&actions), results: dup_statuses(&res) };
        let bytes = encode_block(&blk);
        let ghost m2 = apply_actions(m0, avs).0;
        proof {
            lemma_apply_actions_blocks(m0, avs);
            lemma_apply_actions_events_len(m0, avs);
            assert(store.blocks.eff().len() < usize::MAX);
        }
        store.blocks.append(bytes);
        proof {
            assert(store.blocks.layers().drop_last() =~= old(store).blocks.layers());
            assert(store.accounts.effective_map() =~= m2.accounts);
            assert(store.model() =~= (StoreModel { blocks: m2.blocks.push(bytes@), ..m2 }));
            assert(store.events.eff().len() <= usize::MAX);
        }
        store.commit_top();
        proof {
            assert(store.model() =~= (StoreModel { blocks: m2.blocks.push(bytes@), ..m2 }));
        }
    }
    res
}

/// True when `bytes` is the encoding of some block.
pub open spec fn is_enc_block(bytes: Seq<u8>) -> bool {
    exists|v: BlockView| block_bounded(v) && enc_block(v) == bytes
}

/// The block that `bytes` encodes, where it encodes one.
pub open spec fn dec_block_spec(bytes: Seq<u8>) -> BlockView {
    choose|v: BlockView| block_bounded(v) && enc_block(v) == bytes
}

/// True when every entry of the blocks log is an encoded block.
pub open spec fn all_decodable(blocks: Seq<Seq<u8>>) -> bool {
    forall|i: int| 0 <= i < blocks.len() ==> is_enc_block(#[trigger] blocks[i])
}

/// The derived state after replaying the first `n` blocks against an empty
/// store, the blocks log itself preserved. Statuses are ignored: replay is
/// authoritative.
pub open spec fn replay_upto(blocks: Seq<Seq<u8>>, n: int) -> StoreModel
    decreases n,
{
    if n <= 0 {
        StoreModel::cleared(blocks)
    } else {
        apply_actions(replay_upto(blocks, n - 1), dec_block_spec(blocks[n - 1]).actions).0
    }
}

/// Replay touches only derived state, never the blocks log.
pub proof fn lemma_replay_upto_blocks(blocks: Seq<Seq<u8>>, n: int)
    ensures
        replay_upto(blocks, n).blocks == blocks,
    decreases n,
{
    if n > 0 {
        lemma_replay_upto_blocks(blocks, n - 1);
        lemma_apply_actions_blocks(replay_upto(blocks, n - 1), dec_block_spec(
            blocks[n - 1],
        ).actions);
    }
}

/// Erases the derived state and rebuilds it from the blocks log.
///
/// Returns true when every block decodes; the store then holds exactly the
/// state that applying every recorded block in order against an empty store
/// yields. When some block fails to decode, replay stops, the staged layer
/// is reverted, and the store is left erased with the blocks log intact.
pub fn reset_and_replay<A, B, C, D>(store: &mut StoreGeneric<A, B, C, D>) -> (r: bool) where
    A: MapStore,
    B: CellStore<Meta>,
    C: LogStore<Event>,
    D: LogStore<Vec<u8>>,

    requires
        old(store).wf(),
        old(store).depth() == 1,
        old(store).model().blocks.len() <= usize::MAX,
        all_decodable(old(store).model().blocks) ==> replay_upto(
            old(store).model().blocks,
            old(store).model().blocks.len() as int,
        ).events.len() <= usize::MAX,
    ensures
        final(store).wf(),
        final(store).depth() == 1,
        final(store).model().blocks == old(store).model().blocks,
        r == all_decodable(old(store).model().blocks),
        r ==> final(store).model() == replay_upto(
            old(store).model().blocks,
            old(store).model().blocks.len() as int,
        ),
        !r ==> final(store).model() == StoreModel::cleared(old(store).model().blocks),
{
    let ghost blocksv = old(store).model().blocks;
    store.clear_state_preserve_blocks();
    let ghost cleared = *store;
    store.push_layer();
    proof {
        assert(store.accounts.layers().drop_last() =~= cleared.accounts.layers());
        assert(store.meta.slots().drop_last() =~= cleared.meta.slots());
        assert(store.events.layers().drop_last() =~= cleared.events.layers());
        assert(store.blocks.layers().drop_last() =~= cleared.blocks.layers());
    }
    let total = store.blocks.len();
    let mut i: usize = 0;
    while i < total
        invariant
            store.wf(),
            i <= total,
            blocksv == old(store).model().blocks,
            total == blocksv.len(),
            store.model().blocks == blocksv,
            store.depth() == 2,
            cleared.wf(),
            cleared.depth() == 1,
            cleared.model() == StoreModel::cleared(blocksv),
            store.accounts.layers().drop_last() == cleared.accounts.layers(),
            store.accounts.base_view() == cleared.accounts.base_view(),
            store.meta.slots().drop_last() == cleared.meta.slots(),
            store.meta.base_view() == cleared.meta.base_view(),
            store.events.layers().drop_last() == cleared.events.layers(),
            store.events.base_view() == cleared.events.base_view(),
            store.blocks.layers().drop_last() == cleared.blocks.layers(),
            store.blocks.base_view() == cleared.blocks.base_view(),
            store.model() == replay_upto(blocksv, i as int),
            forall|k: int| 0 <= k < i ==> is_enc_block(#[trigger] blocksv[k]),
        decreases total - i,
    {
        let bytes = match store.blocks.get(i) {
            Some(b) => b,
            None => {
                proof {
                    assert(false);
                }
                return false;
            },
        };
        let block = match decode_block(&bytes) {
            Some(b) => b,
            None => {
                store.revert_top();
                proof {
                    assert(!is_enc_block(blocksv[i as int]));
                    assert(!all_decodable(blocksv));
                    assert(store.same_state(&cleared));
                    assert forall|k: Seq<u8>| true implies #[trigger]
                        store.accounts.effective_get(k) == cleared.accounts.effective_get(
                        k,
                    ) by {}
                    assert(store.accounts.effective_map()
                        =~= cleared.accounts.effective_map());
                    assert(store.model() =~= cleared.model());
                }
                return false;
            },
        };
        proof {
            assert(is_enc_block(blocksv[i as int]));
            assert(block_bounded(dec_block_spec(bytes@)) && enc_block(dec_block_spec(bytes@))
                == bytes@);
            assert(block@ == dec_block_spec(blocksv[i as int]));
        }
        let ghost mstart = store.model();
        let ghost bavs = block@.actions;
        let mut j: usize = 0;
        proof {
            assert(bavs.take(0) =~= Seq::<ActionView>::empty());
        }
        while j < block.actions.len()
            invariant
                store.wf(),
                j <= block.actions@.len(),
                bavs == layer_view(block.actions@),
                bavs.len() == block.actions@.len(),
                store.depth() == 2,
                store.accounts.layers().drop_last() == cleared.accounts.layers(),
                store.accounts.base_view() == cleared.accounts.base_view(),
                store.meta.slots().drop_last() == cleared.meta.slots(),
                store.meta.base_view() == cleared.meta.base_view(),
                store.events.layers().drop_last() == cleared.events.layers(),
                store.events.base_view() == cleared.events.base_view(),
                store.blocks.layers().drop_last() == cleared.blocks.layers(),
                store.blocks.base_view() == cleared.blocks.base_view(),
                store.model() == apply_actions(mstart, bavs.take(j as int)).0,
            decreases block.actions@.len() - j,
        {
            let _ = reduce_in_order(store, &block.actions[j]);
            proof {
                lemma_apply_actions_step(mstart, bavs, j as int);
                assert(bavs[j as int] == block.actions@[j as int]@);
            }
            j += 1;
        }
        proof {
            assert(bavs.take(bavs.len() as int) =~= bavs);
            lemma_apply_actions_blocks(mstart, bavs);
        }
        i += 1;
    }
    proof {
        assert(all_decodable(blocksv));
        lemma_replay_upto_blocks(blocksv, total as int);
        assert(store.events.eff().len() <= usize::MAX);
        assert(store.blocks.eff().len() <= usize::MAX);
    }
    store.commit_top();
    true
}

/// A whole batch reads and writes only the derived fields, never the
/// blocks log: two models that agree on accounts, metadata and events fold
/// to models that agree on them, with the same statuses.
pub proof fn lemma_apply_actions_reads_derived(
    m1: StoreModel,
    m2: StoreModel,
    acts: Seq<ActionView>,
)
    requires
        m1.accounts == m2.accounts,
        m1.meta == m2.meta,
        m1.events == m2.events,
    ensures
        apply_actions(m1, acts).0.accounts == apply_actions(m2, acts).0.accounts,
        apply_actions(m1, acts).0.meta == apply_actions(m2, acts).0.meta,
        apply_actions(m1, acts).0.events == apply_actions(m2, acts).0.events,
        apply_actions(m1, acts).1 == apply_actions(m2, acts).1,
    decreases acts.len(),
{
    if acts.len() > 0 {
        lemma_apply_actions_reads_derived(m1, m2, acts.drop_last());
        crate::reducer::lemma_reduce_step_reads_derived(
            apply_actions(m1, acts.drop_last()).0,
            apply_actions(m2, acts.drop_last()).0,
            acts.last(),
        );
    }
}

/// Replay determinism over the log value: the derived state after replaying
/// `n` blocks depends only on the contents of those `n` entries, not on the
/// rest of the log or on which log value carries them. In particular,
/// replaying a committed log yields the same derived state as applying the
/// same encoded blocks in order against an empty store, whose own log grows
/// block by block.
pub proof fn lemma_replay_upto_prefix(b1: Seq<Seq<u8>>, b2: Seq<Seq<u8>>, n: int)
    requires
        0 <= n <= b1.len(),
        n <= b2.len(),
        forall|i: int| 0 <= i < n ==> b1[i] == b2[i],
    ensures
        replay_upto(b1, n).accounts == replay_upto(b2, n).accounts,
        replay_upto(b1, n).meta == replay_upto(b2, n).meta,
        replay_upto(b1, n).events == replay_upto(b2, n).events,
    decreases n,
{
    if n > 0 {
        lemma_replay_upto_prefix(b1, b2, n - 1);
        assert(b1[n - 1] == b2[n - 1]);
        lemma_apply_actions_reads_derived(
            replay_upto(b1, n - 1),
            replay_upto(b2, n - 1),
            dec_block_spec(b1[n - 1]).actions,
        );
    }
}

/// The byte budget of one page of blocks.
pub const MAX_PAGE_BYTES: usize = 1_000_000;

/// One page of decoded blocks, with the log's total length and the clamped
/// start index.
pub struct BlocksPage {
    pub total: u64,
    pub start: u64,
    pub blocks: Vec<Block>,
}

/// The block `bytes` encodes, or an empty block where it encodes none.
pub open spec fn dec_or_empty(bytes: Seq<u8>) -> BlockView {
    if is_enc_block(bytes) {
        dec_block_spec(bytes)
    } else {
        BlockView { actions: Seq::empty(), results: Seq::empty() }
    }
}

/// The greedy page starting at `i`: blocks are taken in order while the
/// accumulated encoded size stays within the budget; the first block of a
/// page is always taken, whatever its size.
pub open spec fn page_blocks(
    blocks: Seq<Seq<u8>>,
    i: int,
    end: int,
    acc: int,
    started: bool,
) -> Seq<BlockView>
    decreases end - i,
{
    if i < 0 || i >= end || end > blocks.len() {
        Seq::empty()
    } else if started && acc + blocks[i].len() > MAX_PAGE_BYTES {
        Seq::empty()
    } else {
        seq![dec_or_empty(blocks[i])] + page_blocks(
            blocks,
            i + 1,
            end,
            acc + blocks[i].len(),
            true,
        )
    }
}

/// Reads one page of blocks from the log, decoding each entry.
///
/// The page covers the window `[start, start + len)` clamped to the log,
/// greedily capped at [`MAX_PAGE_BYTES`] of encoded bytes — but never empty
/// unless the window is: the block at `start` is always returned when it
/// exists. An entry that fails to decode yields an empty block.
pub fn get_blocks<A, B, C, D>(store: &StoreGeneric<A, B, C, D>, start: u64, len: u64) -> (r:
    BlocksPage) where
    A: MapStore,
    B: CellStore<Meta>,
    C: LogStore<Event>,
    D: LogStore<Vec<u8>>,

    requires
        store.wf(),
        store.model().blocks.len() <= usize::MAX,
    ensures
        ({
            let blocksv = store.model().blocks;
            let total = blocksv.len() as int;
            let s2 = if start as int <= total {
                start as int
            } else {
                total
            };
            let e2 = if s2 + len as int <= total {
                s2 + len as int
            } else {
                total
            };
            &&& r.total as int == total
            &&& r.start as int == s2
            &&& layer_view(r.blocks@) == page_blocks(blocksv, s2, e2, 0, false)
        }),
{
    let ghost blocksv = store.model().blocks;
    let total_usize = store.blocks.len();
    let total = total_usize as u64;
    let start2 = if start < total {
        start
    } else {
        total
    };
    let end = {
        let e = start2.saturating_add(len);
        if e < total {
            e
        } else {
            total
        }
    };
    let ghost s2 = start2 as int;
    let ghost e2 = end as int;
    let mut page: Vec<Block> = Vec::new();
    let mut acc: usize = 0;
    let mut i: u64 = start2;
    proof {
        assert(layer_view(page@) =~= Seq::<BlockView>::empty());
    }
    while i < end
        invariant
            store.wf(),
            blocksv == store.model().blocks,
            blocksv.len() == total,
            total == total_usize,
            total_usize <= usize::MAX,
            s2 == start2 as int,
            e2 == end as int,
            start2 <= i <= end,
            end <= total,
            page@.len() == i - start2,
            (page@.len() == 0) ==> acc == 0,
            layer_view(page@) + page_blocks(blocksv, i as int, e2, acc as int, page@.len() > 0)
                == page_blocks(blocksv, s2, e2, 0, false),
        ensures
            layer_view(page@) == page_blocks(blocksv, s2, e2, 0, false),
        decreases end - i,
    {
        let idx = i as usize;
        let bytes = match store.blocks.get(idx) {
            Some(b) => b,
            None => {
                proof {
                    assert(false);
                }
                break ;
            },
        };
        let sz = bytes.len();
        if page.len() > 0 && (sz > MAX_PAGE_BYTES || acc > MAX_PAGE_BYTES - sz) {
            proof {
                assert(page_blocks(blocksv, i as int, e2, acc as int, true) =~= Seq::<
                    BlockView,
                >::empty());
                assert(layer_view(page@) + Seq::<BlockView>::empty() =~= layer_view(page@));
            }
            break ;
        }
        let ghost page0 = page@;
        let ghost acc0 = acc as int;
        let block = match decode_block(&bytes) {
            Some(b) => b,
            None => {
                let b = Block { actions: Vec::new(), results: Vec::new() };
                proof {
                    assert(!is_enc_block(bytes@));
                    assert(b@ =~= dec_or_empty(blocksv[i as int]));
                }
                b
            },
        };
        proof {
            if is_enc_block(bytes@) {
                assert(block_bounded(dec_block_spec(bytes@)) && enc_block(
                    dec_block_spec(bytes@),
                ) == bytes@);
                assert(block@ == dec_or_empty(blocksv[i as int]));
            }
        }
        page.push(block);
        acc = acc + sz;
        i = i + 1;
        proof {
            assert(layer_view(page@) =~= layer_view(page0).push(page@.last()@));
            assert(page_blocks(blocksv, i - 1, e2, acc0, page0.len() > 0) =~= seq![
                dec_or_empty(blocksv[i - 1]),
            ] + page_blocks(blocksv, i as int, e2, acc0 + blocksv[i - 1].len(), true));
            assert(layer_view(page@) + page_blocks(
                blocksv,
                i as int,
                e2,
                acc as int,
                page@.len() > 0,
            ) =~= page_blocks(blocksv, s2, e2, 0, false));
        }
    }
    BlocksPage { total, start: start2, blocks: page }
}

} // verus!
