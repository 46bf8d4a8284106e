//! Laws of the staging substrate, stated over the same spec functions the
//! containers' contracts use.

use vstd::prelude::*;
use crate::btree::{eff_get, overlay_commit, staged_get, lemma_staged_get_single_empty};
use crate::log::concat_all;
use crate::struct_store::cell_eff;
use crate::traits::map_get;

verus! {

/// Tombstone persistence: insert `k = v` at the sole layer, open a nested
/// layer, stage a deletion of `k` there, and commit the top layer — the
/// effective value of `k` is gone. A committed tombstone must not reinstate
/// the value staged below it.
pub proof fn lemma_tombstone_persistence(
    base: Map<Seq<u8>, u128>,
    l0: Map<Seq<u8>, Option<u128>>,
    k: Seq<u8>,
    v: u128,
)
    ensures
        ({
            let staged = l0.insert(k, Some(v));
            let top = Map::<Seq<u8>, Option<u128>>::empty().insert(k, None);
            let merged = staged.union_prefer_right(top);
            eff_get(seq![merged], base, k) is None
        }),
{
    let staged = l0.insert(k, Some(v));
    let top = Map::<Seq<u8>, Option<u128>>::empty().insert(k, None);
    let merged = staged.union_prefer_right(top);
    assert(merged.contains_key(k));
    assert(merged[k] is None);
    assert(seq![merged].last() == merged);
}

/// Untouched-cell non-erasure: write `x` at the sole slot, open a nested
/// layer, write nothing, and commit the top layer — the effective value is
/// still `x`. An untouched layer never erases a write made below it.
pub proof fn lemma_untouched_cell_non_erasure<V>(base: Option<V>, x: V)
    ensures
        ({
            let pushed = seq![Some(x)].push(None::<V>);
            let merged = if pushed.last() is Some {
                pushed.last()
            } else {
                pushed[0]
            };
            let after = pushed.drop_last().update(0, merged);
            cell_eff(after, base) == Some(x)
        }),
{
    let pushed = seq![Some(x)].push(None::<V>);
    let merged = if pushed.last() is Some {
        pushed.last()
    } else {
        pushed[0]
    };
    let after = pushed.drop_last().update(0, merged);
    assert(after =~= seq![Some(x)]);
    assert(after.last() == Some(x));
}

/// Log ordering: committing the top layer concatenates it after the layer
/// below, and the effective log — the backend followed by every layer in
/// order — is unchanged.
pub proof fn lemma_log_commit_concat<V>(base: Seq<V>, layers: Seq<Seq<V>>)
    requires
        layers.len() >= 2,
    ensures
        ({
            let n = layers.len() as int;
            let merged = layers.drop_last().update(n - 2, layers[n - 2] + layers.last());
            base + concat_all(merged) == base + concat_all(layers)
        }),
{
    let n = layers.len() as int;
    let merged = layers.drop_last().update(n - 2, layers[n - 2] + layers.last());
    assert(merged.drop_last() =~= layers.drop_last().drop_last());
    assert(merged.last() == layers[n - 2] + layers.last());
    assert(layers.drop_last().last() == layers[n - 2]);
    assert(concat_all(layers) == concat_all(layers.drop_last()) + layers.last());
    assert(concat_all(layers.drop_last()) == concat_all(layers.drop_last().drop_last())
        + layers[n - 2]);
    assert(concat_all(merged) == concat_all(merged.drop_last()) + merged.last());
    assert(concat_all(merged) =~= concat_all(layers));
    assert(base + concat_all(merged) =~= base + concat_all(layers));
}

/// Idempotent commit-all: a full commit leaves one transparent layer over a
/// backend holding the old effective state, and the effective state of that
/// flushed store is its backend again — so committing everything a second
/// time rewrites every backend to the value it already holds and changes
/// nothing.
pub proof fn lemma_commit_all_idempotent<C, L>(
    acc_base: Map<Seq<u8>, u128>,
    cell_base: Option<C>,
    log_base: Seq<L>,
)
    ensures
        Map::new(
            |k: Seq<u8>|
                eff_get(seq![Map::<Seq<u8>, Option<u128>>::empty()], acc_base, k) is Some,
            |k: Seq<u8>| eff_get(seq![Map::<Seq<u8>, Option<u128>>::empty()], acc_base, k)->0,
        ) == acc_base,
        cell_eff(seq![None::<C>], cell_base) == cell_base,
        log_base + concat_all(seq![Seq::<L>::empty()]) == log_base,
{
    assert forall|k: Seq<u8>| true implies #[trigger] eff_get(
        seq![Map::<Seq<u8>, Option<u128>>::empty()],
        acc_base,
        k,
    ) == map_get(acc_base, k) by {
        lemma_staged_get_single_empty(k);
    }
    assert(Map::new(
        |k: Seq<u8>| eff_get(seq![Map::<Seq<u8>, Option<u128>>::empty()], acc_base, k) is Some,
        |k: Seq<u8>| eff_get(seq![Map::<Seq<u8>, Option<u128>>::empty()], acc_base, k)->0,
    ) =~= acc_base);
    crate::struct_store::lemma_slots_get_single_none::<C>();
    crate::log::lemma_concat_all_single_empty::<L>();
    assert(log_base + concat_all(seq![Seq::<L>::empty()]) =~= log_base);
}

} // verus!
