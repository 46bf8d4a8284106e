//! The serialization codec for blocks.
//!
//! Blocks are stored in the blocks log as bytes. The format is fixed:
//! little-endian integers, 64-bit length prefixes, one tag byte per enum
//! variant, and characters as 32-bit scalar values. Encoding and decoding
//! are total inverses: the decoder accepts exactly the encoder's outputs.

use vstd::prelude::*;
use vstd::bytes::{spec_u32_to_le_bytes, spec_u64_to_le_bytes, spec_u128_to_le_bytes,
    spec_u32_from_le_bytes, spec_u64_from_le_bytes, spec_u128_from_le_bytes, u32_to_le_bytes,
    u64_to_le_bytes, u128_to_le_bytes, u32_from_le_bytes, u64_from_le_bytes, u128_from_le_bytes,
    lemma_auto_spec_u32_to_from_le_bytes, lemma_auto_spec_u64_to_from_le_bytes,
    lemma_auto_spec_u128_to_from_le_bytes};
use vstd::std_specs::iter::IteratorSpec;
use crate::actions::{Action, ActionView, ApplyStatus, ApplyStatusView, LedgerAction,
    LedgerActionView, MetaAction, MetaActionView};
use crate::address::Address;
use crate::block::{Block, BlockView};

verus! {

broadcast use vstd::std_specs::vec::axiom_spec_len;

/// A 64-bit integer: eight bytes, little-endian.
pub open spec fn enc_u64(x: u64) -> Seq<u8> {
    spec_u64_to_le_bytes(x)
}

/// A 128-bit integer: sixteen bytes, little-endian.
pub open spec fn enc_u128(x: u128) -> Seq<u8> {
    spec_u128_to_le_bytes(x)
}

/// A character: its scalar value, four bytes, little-endian.
pub open spec fn enc_char(c: char) -> Seq<u8> {
    spec_u32_to_le_bytes(c as u32)
}

/// Characters in order.
pub open spec fn enc_chars(s: Seq<char>) -> Seq<u8>
    decreases s.len(),
{
    if s.len() == 0 {
        Seq::empty()
    } else {
        enc_chars(s.drop_last()) + enc_char(s.last())
    }
}

/// A string: its character count, then its characters.
pub open spec fn enc_str(s: Seq<char>) -> Seq<u8> {
    enc_u64(s.len() as u64) + enc_chars(s)
}

/// A byte string: its length, then its bytes.
pub open spec fn enc_bytes(b: Seq<u8>) -> Seq<u8> {
    enc_u64(b.len() as u64) + b
}

/// A ledger action: a tag byte, then its fields.
pub open spec fn enc_laction(a: LedgerActionView) -> Seq<u8> {
    match a {
        LedgerActionView::Coinbase { to, amount } => seq![0u8] + enc_bytes(to) + enc_u128(
            amount,
        ),
        LedgerActionView::Transfer { from, to, amount } => seq![1u8] + enc_bytes(from)
            + enc_bytes(to) + enc_u128(amount),
    }
}

/// A metadata action: a tag byte, then its fields.
pub open spec fn enc_maction(a: MetaActionView) -> Seq<u8> {
    match a {
        MetaActionView::SetChainName { name } => seq![0u8] + enc_str(name),
        MetaActionView::BumpCounter => seq![1u8],
    }
}

/// An action: a tag byte for the jurisdiction, then the inner action.
pub open spec fn enc_action(a: ActionView) -> Seq<u8> {
    match a {
        ActionView::Ledger(l) => seq![0u8] + enc_laction(l),
        ActionView::Meta(m) => seq![1u8] + enc_maction(m),
    }
}

/// An apply status: a tag byte, then the reason or error, if any.
pub open spec fn enc_status(s: ApplyStatusView) -> Seq<u8> {
    match s {
        ApplyStatusView::Applied => seq![0u8],
        ApplyStatusView::Pass { reason } => seq![1u8] + enc_str(reason),
        ApplyStatusView::Failed { error } => seq![2u8] + enc_str(error),
    }
}

/// Actions in order.
pub open spec fn enc_actions(s: Seq<ActionView>) -> Seq<u8>
    decreases s.len(),
{
    if s.len() == 0 {
        Seq::empty()
    } else {
        enc_actions(s.drop_last()) + enc_action(s.last())
    }
}

/// Statuses in order.
pub open spec fn enc_statuses(s: Seq<ApplyStatusView>) -> Seq<u8>
    decreases s.len(),
{
    if s.len() == 0 {
        Seq::empty()
    } else {
        enc_statuses(s.drop_last()) + enc_status(s.last())
    }
}

/// A block: its action count and actions, then its result count and results.
pub open spec fn enc_block(b: BlockView) -> Seq<u8> {
    enc_u64(b.actions.len() as u64) + enc_actions(b.actions) + enc_u64(b.results.len() as u64)
        + enc_statuses(b.results)
}

/// Lengths that the 64-bit length prefixes represent faithfully.
pub open spec fn str_bounded(s: Seq<char>) -> bool {
    s.len() <= u64::MAX
}

/// See [`str_bounded`].
pub open spec fn bytes_bounded(b: Seq<u8>) -> bool {
    b.len() <= u64::MAX
}

/// See [`str_bounded`].
pub open spec fn action_bounded(a: ActionView) -> bool {
    match a {
        ActionView::Ledger(LedgerActionView::Coinbase { to, amount }) => bytes_bounded(to),
        ActionView::Ledger(LedgerActionView::Transfer { from, to, amount }) => bytes_bounded(
            from,
        ) && bytes_bounded(to),
        ActionView::Meta(MetaActionView::SetChainName { name }) => str_bounded(name),
        ActionView::Meta(MetaActionView::BumpCounter) => true,
    }
}

/// See [`str_bounded`].
pub open spec fn status_bounded(s: ApplyStatusView) -> bool {
    match s {
        ApplyStatusView::Applied => true,
        ApplyStatusView::Pass { reason } => str_bounded(reason),
        ApplyStatusView::Failed { error } => str_bounded(error),
    }
}

/// See [`str_bounded`].
pub open spec fn block_bounded(b: BlockView) -> bool {
    &&& b.actions.len() <= u64::MAX
    &&& b.results.len() <= u64::MAX
    &&& forall|i: int| 0 <= i < b.actions.len() ==> action_bounded(#[trigger] b.actions[i])
    &&& forall|i: int| 0 <= i < b.results.len() ==> status_bounded(#[trigger] b.results[i])
}

/// A Unicode scalar value: what a `char` may hold.
pub open spec fn is_unicode_scalar(u: u32) -> bool {
    u < 0xD800 || (0xE000 <= u && u <= 0x10FFFF)
}

/// Characters with equal scalar values are equal.
proof fn lemma_char_cast_injective(c1: char, c2: char)
    requires
        c1 as u32 == c2 as u32,
    ensures
        c1 == c2,
{
}

/// Every character holds a Unicode scalar value.
proof fn lemma_char_scalar(c: char)
    ensures
        is_unicode_scalar(c as u32),
{
}

/// Relies on char::from_u32: `Some` exactly for Unicode scalar values,
/// returning the character with that value.
#[verifier::external_body]
fn char_from_u32(u: u32) -> (r: Option<char>)
    ensures
        match r {
            Some(c) => c as u32 == u,
            None => !is_unicode_scalar(u),
        },
        is_unicode_scalar(u) ==> r is Some,
{
    char::from_u32(u)
}

/// Relies on String::push: appends the given character to the string.
#[verifier::external_body]
fn push_char(s: &mut String, c: char)
    ensures
        final(s)@ == old(s)@.push(c),
{
    s.push(c);
}

/// The characters of a string, in order, as a vector.
fn str_chars(s: &str) -> (r: Vec<char>)
    ensures
        r@ == s@,
{
    broadcast use vstd::string::next_postcondition, vstd::string::axiom_spec_iter;

    let mut it = s.chars();
    let mut r: Vec<char> = Vec::new();
    loop
        invariant
            it.obeys_prophetic_iter_laws(),
            it.decrease() is Some,
            r@ + it.remaining() == s@,
        ensures
            r@ + it.remaining() == s@,
            it.remaining().len() == 0,
        decreases it.decrease()->0,
    {
        match it.next() {
            Some(c) => {
                r.push(c);
            },
            None => {
                break;
            },
        }
    }
    proof {
        assert(r@ =~= s@);
    }
    r
}

/// Appends an encoded 64-bit integer.
fn put_u64(out: &mut Vec<u8>, x: u64)
    ensures
        final(out)@ == old(out)@ + enc_u64(x),
{
    let mut b = u64_to_le_bytes(x);
    out.append(&mut b);
}

/// Appends an encoded 128-bit integer.
fn put_u128(out: &mut Vec<u8>, x: u128)
    ensures
        final(out)@ == old(out)@ + enc_u128(x),
{
    let mut b = u128_to_le_bytes(x);
    out.append(&mut b);
}

/// Appends an encoded string.
fn put_str(out: &mut Vec<u8>, s: &str)
    ensures
        final(out)@ == old(out)@ + enc_str(s@),
        str_bounded(s@),
{
    let cs = str_chars(s);
    put_u64(out, cs.len() as u64);
    let mut i: usize = 0;
    while i < cs.len()
        invariant
            i <= cs@.len(),
            cs@ == s@,
            out@ == old(out)@ + enc_u64(s@.len() as u64) + enc_chars(s@.take(i as int)),
        decreases cs@.len() - i,
    {
        let mut b = u32_to_le_bytes(cs[i] as u32);
        out.append(&mut b);
        i += 1;
        proof {
            assert(s@.take(i as int).drop_last() =~= s@.take(i - 1));
            assert(out@ =~= old(out)@ + enc_u64(s@.len() as u64) + enc_chars(
                s@.take(i as int),
            ));
        }
    }
    proof {
        assert(s@.take(s@.len() as int) =~= s@);
        assert(enc_chars(Seq::<char>::empty()) =~= Seq::<u8>::empty());
        assert(out@ =~= old(out)@ + enc_str(s@));
    }
}

/// Appends an encoded byte string.
fn put_bytes(out: &mut Vec<u8>, b: &Vec<u8>)
    ensures
        final(out)@ == old(out)@ + enc_bytes(b@),
        bytes_bounded(b@),
{
    put_u64(out, b.len() as u64);
    let mut copy = crate::address::copy_bytes(b);
    out.append(&mut copy);
    proof {
        assert(out@ =~= old(out)@ + enc_bytes(b@));
    }
}

/// Appends one encoded action.
fn put_action(out: &mut Vec<u8>, a: &Action)
    ensures
        final(out)@ == old(out)@ + enc_action(a@),
        action_bounded(a@),
{
    match a {
        Action::Ledger(LedgerAction::Coinbase { to, amount }) => {
            out.push(0u8);
            out.push(0u8);
            put_bytes(out, &to.0);
            put_u128(out, *amount);
            proof {
                assert(out@ =~= old(out)@ + enc_action(a@));
            }
        },
        Action::Ledger(LedgerAction::Transfer { from, to, amount }) => {
            out.push(0u8);
            out.push(1u8);
            put_bytes(out, &from.0);
            put_bytes(out, &to.0);
            put_u128(out, *amount);
            proof {
                assert(out@ =~= old(out)@ + enc_action(a@));
            }
        },
        Action::Meta(MetaAction::SetChainName { name }) => {
            out.push(1u8);
            out.push(0u8);
            put_str(out, name.as_str());
            proof {
                assert(out@ =~= old(out)@ + enc_action(a@));
            }
        },
        Action::Meta(MetaAction::BumpCounter) => {
            out.push(1u8);
            out.push(1u8);
            proof {
                assert(out@ =~= old(out)@ + enc_action(a@));
            }
        },
    }
}

/// Appends one encoded status.
fn put_status(out: &mut Vec<u8>, s: &ApplyStatus)
    ensures
        final(out)@ == old(out)@ + enc_status(s@),
        status_bounded(s@),
{
    match s {
        ApplyStatus::Applied => {
            out.push(0u8);
            proof {
                assert(out@ =~= old(out)@ + enc_status(s@));
            }
        },
        ApplyStatus::Pass { reason } => {
            out.push(1u8);
            put_str(out, reason.as_str());
            proof {
                assert(out@ =~= old(out)@ + enc_status(s@));
            }
        },
        ApplyStatus::Failed { error } => {
            out.push(2u8);
            put_str(out, error.as_str());
            proof {
                assert(out@ =~= old(out)@ + enc_status(s@));
            }
        },
    }
}

/// Encodes a block to bytes. The result decodes back to the same block.
pub fn encode_block(b: &Block) -> (r: Vec<u8>)
    ensures
        r@ == enc_block(b@),
        block_bounded(b@),
{
    let mut out: Vec<u8> = Vec::new();
    put_u64(&mut out, b.actions.len() as u64);
    let ghost acts = b@.actions;
    let mut i: usize = 0;
    proof {
        assert(out@ =~= enc_u64(b@.actions.len() as u64) + enc_actions(acts.take(0)));
    }
    while i < b.actions.len()
        invariant
            i <= b.actions@.len(),
            acts == b@.actions,
            acts.len() == b.actions@.len(),
            out@ == enc_u64(acts.len() as u64) + enc_actions(acts.take(i as int)),
            forall|j: int| 0 <= j < i ==> action_bounded(#[trigger] acts[j]),
        decreases b.actions@.len() - i,
    {
        put_action(&mut out, &b.actions[i]);
        i += 1;
        proof {
            assert(acts.take(i as int).drop_last() =~= acts.take(i - 1));
            assert(acts.take(i as int).last() == acts[i - 1]);
            assert(out@ =~= enc_u64(acts.len() as u64) + enc_actions(acts.take(i as int)));
        }
    }
    proof {
        assert(acts.take(acts.len() as int) =~= acts);
    }
    let ghost mid = out@;
    put_u64(&mut out, b.results.len() as u64);
    let ghost ress = b@.results;
    let mut i: usize = 0;
    proof {
        assert(out@ =~= mid + enc_u64(ress.len() as u64) + enc_statuses(ress.take(0)));
    }
    while i < b.results.len()
        invariant
            i <= b.results@.len(),
            ress == b@.results,
            ress.len() == b.results@.len(),
            out@ == mid + enc_u64(ress.len() as u64) + enc_statuses(ress.take(i as int)),
            forall|j: int| 0 <= j < i ==> status_bounded(#[trigger] ress[j]),
        decreases b.results@.len() - i,
    {
        put_status(&mut out, &b.results[i]);
        i += 1;
        proof {
            assert(ress.take(i as int).drop_last() =~= ress.take(i - 1));
            assert(ress.take(i as int).last() == ress[i - 1]);
            assert(out@ =~= mid + enc_u64(ress.len() as u64) + enc_statuses(
                ress.take(i as int),
            ));
        }
    }
    proof {
        assert(ress.take(ress.len() as int) =~= ress);
        assert(out@ =~= enc_block(b@));
    }
    out
}

/// True when `p` is an initial segment of `s`.
pub open spec fn is_prefix(p: Seq<u8>, s: Seq<u8>) -> bool {
    p.len() <= s.len() && s.subrange(0, p.len() as int) == p
}

/// A prefix made of two parts splits into a prefix and a prefix of the rest.
proof fn lemma_prefix_split(a: Seq<u8>, b: Seq<u8>, s: Seq<u8>)
    requires
        is_prefix(a + b, s),
    ensures
        is_prefix(a, s),
        is_prefix(b, s.skip(a.len() as int)),
{
    let ab = a + b;
    assert forall|j: int| 0 <= j < ab.len() implies s[j] == ab[j] by {
        assert(s.subrange(0, ab.len() as int)[j] == s[j]);
    }
    assert(s.subrange(0, a.len() as int) =~= a);
    assert(s.skip(a.len() as int).subrange(0, b.len() as int) =~= b);
}

/// Skipping twice skips the sum.
proof fn lemma_skip_skip(s: Seq<u8>, i: int, j: int)
    requires
        0 <= i,
        0 <= j,
        i + j <= s.len(),
    ensures
        s.skip(i).skip(j) == s.skip(i + j),
{
    assert(s.skip(i).skip(j) =~= s.skip(i + j));
}

/// Encoded characters take four bytes each.
proof fn lemma_enc_chars_len(s: Seq<char>)
    ensures
        enc_chars(s).len() == 4 * s.len(),
    decreases s.len(),
{
    lemma_auto_spec_u32_to_from_le_bytes();
    if s.len() > 0 {
        lemma_enc_chars_len(s.drop_last());
    }
}

/// Encoded characters split at any character boundary.
proof fn lemma_enc_chars_split(s: Seq<char>, i: int)
    requires
        0 <= i < s.len(),
    ensures
        enc_chars(s) == enc_chars(s.take(i)) + (enc_char(s[i]) + enc_chars(s.skip(i + 1))),
    decreases s.len(),
{
    if i == s.len() - 1 {
        assert(s.take(i) =~= s.drop_last());
        assert(s.skip(i + 1) =~= Seq::<char>::empty());
        assert(enc_chars(s) =~= enc_chars(s.take(i)) + (enc_char(s[i]) + enc_chars(
            s.skip(i + 1),
        )));
    } else {
        lemma_enc_chars_split(s.drop_last(), i);
        assert(s.drop_last().take(i) =~= s.take(i));
        assert(s.drop_last().skip(i + 1) =~= s.skip(i + 1).drop_last());
        assert(s.drop_last()[i] == s[i]);
        assert(enc_chars(s) =~= enc_chars(s.take(i)) + (enc_char(s[i]) + enc_chars(
            s.skip(i + 1),
        )));
    }
}

/// Appending one character appends its encoding.
proof fn lemma_enc_chars_push(s: Seq<char>, c: char)
    ensures
        enc_chars(s.push(c)) == enc_chars(s) + enc_char(c),
{
    assert(s.push(c).drop_last() =~= s);
}

/// Encoded action lists split at any action boundary.
proof fn lemma_enc_actions_split(s: Seq<ActionView>, i: int)
    requires
        0 <= i < s.len(),
    ensures
        enc_actions(s) == enc_actions(s.take(i)) + (enc_action(s[i]) + enc_actions(
            s.skip(i + 1),
        )),
    decreases s.len(),
{
    if i == s.len() - 1 {
        assert(s.take(i) =~= s.drop_last());
        assert(s.skip(i + 1) =~= Seq::<ActionView>::empty());
        assert(enc_actions(s) =~= enc_actions(s.take(i)) + (enc_action(s[i]) + enc_actions(
            s.skip(i + 1),
        )));
    } else {
        lemma_enc_actions_split(s.drop_last(), i);
        assert(s.drop_last().take(i) =~= s.take(i));
        assert(s.drop_last().skip(i + 1) =~= s.skip(i + 1).drop_last());
        assert(s.drop_last()[i] == s[i]);
        assert(enc_actions(s) =~= enc_actions(s.take(i)) + (enc_action(s[i]) + enc_actions(
            s.skip(i + 1),
        )));
    }
}

/// Appending one action appends its encoding.
proof fn lemma_enc_actions_push(s: Seq<ActionView>, a: ActionView)
    ensures
        enc_actions(s.push(a)) == enc_actions(s) + enc_action(a),
{
    assert(s.push(a).drop_last() =~= s);
}

/// Encoded status lists split at any status boundary.
proof fn lemma_enc_statuses_split(s: Seq<ApplyStatusView>, i: int)
    requires
        0 <= i < s.len(),
    ensures
        enc_statuses(s) == enc_statuses(s.take(i)) + (enc_status(s[i]) + enc_statuses(
            s.skip(i + 1),
        )),
    decreases s.len(),
{
    if i == s.len() - 1 {
        assert(s.take(i) =~= s.drop_last());
        assert(s.skip(i + 1) =~= Seq::<ApplyStatusView>::empty());
        assert(enc_statuses(s) =~= enc_statuses(s.take(i)) + (enc_status(s[i]) + enc_statuses(
            s.skip(i + 1),
        )));
    } else {
        lemma_enc_statuses_split(s.drop_last(), i);
        assert(s.drop_last().take(i) =~= s.take(i));
        assert(s.drop_last().skip(i + 1) =~= s.skip(i + 1).drop_last());
        assert(s.drop_last()[i] == s[i]);
        assert(enc_statuses(s) =~= enc_statuses(s.take(i)) + (enc_status(s[i]) + enc_statuses(
            s.skip(i + 1),
        )));
    }
}

/// Appending one status appends its encoding.
proof fn lemma_enc_statuses_push(s: Seq<ApplyStatusView>, a: ApplyStatusView)
    ensures
        enc_statuses(s.push(a)) == enc_statuses(s) + enc_status(a),
{
    assert(s.push(a).drop_last() =~= s);
}

/// Decodes a 64-bit integer.
fn dec_u64(bytes: &Vec<u8>, pos: usize) -> (r: Option<(u64, usize)>)
    requires
        pos <= bytes@.len(),
    ensures
        r is Some ==> (r->0).1 <= bytes@.len() && (r->0).1 == pos + 8 && bytes@.subrange(
            pos as int,
            (r->0).1 as int,
        ) == enc_u64((r->0).0),
        forall|v: u64|
            #[trigger] is_prefix(enc_u64(v), bytes@.skip(pos as int)) ==> r == Some(
                (v, (pos + 8) as usize),
            ),
{
    proof {
        lemma_auto_spec_u64_to_from_le_bytes();
    }
    if bytes.len() - pos < 8 {
        proof {
            assert forall|v: u64| !is_prefix(enc_u64(v), bytes@.skip(pos as int)) by {}
        }
        return None;
    }
    let s = vstd::slice::slice_subrange(bytes.as_slice(), pos, pos + 8);
    let x = u64_from_le_bytes(s);
    proof {
        assert(s@.len() == 8);
        assert(spec_u64_to_le_bytes(x) == s@);
        assert forall|v: u64| is_prefix(enc_u64(v), bytes@.skip(pos as int)) implies x == v by {
            assert(bytes@.skip(pos as int).subrange(0, 8) =~= s@);
            assert(spec_u64_from_le_bytes(enc_u64(v)) == v);
        }
    }
    Some((x, pos + 8))
}

/// Decodes a 128-bit integer.
fn dec_u128(bytes: &Vec<u8>, pos: usize) -> (r: Option<(u128, usize)>)
    requires
        pos <= bytes@.len(),
    ensures
        r is Some ==> (r->0).1 <= bytes@.len() && (r->0).1 == pos + 16 && bytes@.subrange(
            pos as int,
            (r->0).1 as int,
        ) == enc_u128((r->0).0),
        forall|v: u128|
            #[trigger] is_prefix(enc_u128(v), bytes@.skip(pos as int)) ==> r == Some(
                (v, (pos + 16) as usize),
            ),
{
    proof {
        lemma_auto_spec_u128_to_from_le_bytes();
    }
    if bytes.len() - pos < 16 {
        proof {
            assert forall|v: u128| !is_prefix(enc_u128(v), bytes@.skip(pos as int)) by {}
        }
        return None;
    }
    let s = vstd::slice::slice_subrange(bytes.as_slice(), pos, pos + 16);
    let x = u128_from_le_bytes(s);
    proof {
        assert(s@.len() == 16);
        assert(spec_u128_to_le_bytes(x) == s@);
        assert forall|v: u128| is_prefix(enc_u128(v), bytes@.skip(pos as int)) implies x == v by {
            assert(bytes@.skip(pos as int).subrange(0, 16) =~= s@);
            assert(spec_u128_from_le_bytes(enc_u128(v)) == v);
        }
    }
    Some((x, pos + 16))
}

/// Decodes one character.
fn dec_char(bytes: &Vec<u8>, pos: usize) -> (r: Option<(char, usize)>)
    requires
        pos <= bytes@.len(),
    ensures
        r is Some ==> (r->0).1 <= bytes@.len() && (r->0).1 == pos + 4 && bytes@.subrange(
            pos as int,
            (r->0).1 as int,
        ) == enc_char((r->0).0),
        forall|v: char|
            #[trigger] is_prefix(enc_char(v), bytes@.skip(pos as int)) ==> r == Some(
                (v, (pos + 4) as usize),
            ),
{
    proof {
        lemma_auto_spec_u32_to_from_le_bytes();
    }
    if bytes.len() - pos < 4 {
        proof {
            assert forall|v: char| !is_prefix(enc_char(v), bytes@.skip(pos as int)) by {}
        }
        return None;
    }
    let s = vstd::slice::slice_subrange(bytes.as_slice(), pos, pos + 4);
    let u = u32_from_le_bytes(s);
    proof {
        assert(s@.len() == 4);
        assert(spec_u32_to_le_bytes(u) == s@);
    }
    match char_from_u32(u) {
        Some(c) => {
            proof {
                assert(enc_char(c) == s@);
                assert forall|v: char| is_prefix(
                    enc_char(v),
                    bytes@.skip(pos as int),
                ) implies c == v by {
                    assert(enc_char(v).len() == 4);
                    assert(bytes@.skip(pos as int).subrange(0, 4) =~= s@);
                    assert(s@ == enc_char(v));
                    assert(spec_u32_from_le_bytes(enc_char(v)) == v as u32);
                    assert(u == v as u32);
                    assert(c as u32 == v as u32);
                    lemma_char_cast_injective(c, v);
                }
            }
            Some((c, pos + 4))
        },
        None => {
            proof {
                assert forall|v: char| !is_prefix(enc_char(v), bytes@.skip(pos as int)) by {
                    if is_prefix(enc_char(v), bytes@.skip(pos as int)) {
                        assert(enc_char(v).len() == 4);
                        assert(bytes@.skip(pos as int).subrange(0, 4) =~= s@);
                        assert(s@ == enc_char(v));
                        assert(spec_u32_from_le_bytes(enc_char(v)) == v as u32);
                        assert(v as u32 == u);
                        lemma_char_scalar(v);
                        assert(is_unicode_scalar(u));
                    }
                }
            }
            None
        },
    }
}

/// Decodes a length-prefixed byte string.
fn dec_bytes(bytes: &Vec<u8>, pos: usize) -> (r: Option<(Vec<u8>, usize)>)
    requires
        pos <= bytes@.len(),
    ensures
        r is Some ==> (r->0).1 <= bytes@.len() && pos <= (r->0).1 && bytes@.subrange(
            pos as int,
            (r->0).1 as int,
        ) == enc_bytes((r->0).0@) && bytes_bounded((r->0).0@),
        forall|v: Seq<u8>|
            bytes_bounded(v) && #[trigger] is_prefix(enc_bytes(v), bytes@.skip(pos as int))
                ==> r is Some && (r->0).0@ == v && (r->0).1 == pos + 8 + v.len(),
{
    proof {
        lemma_auto_spec_u64_to_from_le_bytes();
    }
    let ghost rem0 = bytes@.skip(pos as int);
    let (count, p1) = match dec_u64(bytes, pos) {
        Some(v) => v,
        None => {
            proof {
                assert forall|v: Seq<u8>|
                    bytes_bounded(v) && is_prefix(enc_bytes(v), rem0) implies false by {
                    lemma_prefix_split(enc_u64(v.len() as u64), v, rem0);
                }
            }
            return None;
        },
    };
    let rem = bytes.len() - p1;
    if count > rem as u64 {
        proof {
            assert forall|v: Seq<u8>|
                bytes_bounded(v) && is_prefix(enc_bytes(v), rem0) implies false by {
                lemma_prefix_split(enc_u64(v.len() as u64), v, rem0);
                assert(count == v.len() as u64);
                assert(is_prefix(v, rem0.skip(8)));
                lemma_skip_skip(bytes@, pos as int, 8);
            }
        }
        return None;
    }
    let n = count as usize;
    let mut out: Vec<u8> = Vec::new();
    let mut i: usize = 0;
    proof {
        assert(n == count);
        assert(out@ =~= bytes@.subrange(p1 as int, p1 as int));
    }
    while i < n
        invariant
            i <= n,
            n == count,
            p1 == pos + 8,
            p1 + n <= bytes@.len(),
            bytes@.len() <= usize::MAX,
            out@ == bytes@.subrange(p1 as int, p1 + i),
        decreases n - i,
    {
        out.push(bytes[p1 + i]);
        i += 1;
        proof {
            assert(out@ =~= bytes@.subrange(p1 as int, p1 + i));
        }
    }
    let end = p1 + n;
    proof {
        assert(bytes@.subrange(pos as int, end as int) =~= enc_u64(count) + out@);
        assert(out@.len() == count);
        assert(bytes@.subrange(pos as int, end as int) == enc_bytes(out@));
        assert forall|v: Seq<u8>|
            bytes_bounded(v) && is_prefix(enc_bytes(v), rem0) implies out@ == v && end == pos + 8
            + v.len() by {
            lemma_prefix_split(enc_u64(v.len() as u64), v, rem0);
            assert(count == v.len() as u64);
            assert(is_prefix(v, rem0.skip(8)));
            lemma_skip_skip(bytes@, pos as int, 8);
            assert(bytes@.skip(p1 as int).subrange(0, count as int) == v);
            assert(out@ =~= bytes@.skip(p1 as int).subrange(0, count as int));
        }
    }
    Some((out, end))
}

/// Decodes a length-prefixed string.
fn dec_str(bytes: &Vec<u8>, pos: usize) -> (r: Option<(String, usize)>)
    requires
        pos <= bytes@.len(),
    ensures
        r is Some ==> (r->0).1 <= bytes@.len() && pos <= (r->0).1 && bytes@.subrange(
            pos as int,
            (r->0).1 as int,
        ) == enc_str((r->0).0@) && str_bounded((r->0).0@),
        forall|v: Seq<char>|
            str_bounded(v) && #[trigger] is_prefix(enc_str(v), bytes@.skip(pos as int))
                ==> r is Some && (r->0).0@ == v && (r->0).1 == pos + enc_str(v).len(),
{
    proof {
        lemma_auto_spec_u64_to_from_le_bytes();
        lemma_auto_spec_u32_to_from_le_bytes();
    }
    let ghost rem0 = bytes@.skip(pos as int);
    let (count, p1) = match dec_u64(bytes, pos) {
        Some(v) => v,
        None => {
            proof {
                assert forall|v: Seq<char>|
                    str_bounded(v) && is_prefix(enc_str(v), rem0) implies false by {
                    lemma_prefix_split(enc_u64(v.len() as u64), enc_chars(v), rem0);
                }
            }
            return None;
        },
    };
    let rem = bytes.len() - p1;
    if count > (rem / 4) as u64 {
        proof {
            assert forall|v: Seq<char>|
                str_bounded(v) && is_prefix(enc_str(v), rem0) implies false by {
                lemma_prefix_split(enc_u64(v.len() as u64), enc_chars(v), rem0);
                assert(count == v.len() as u64);
                lemma_enc_chars_len(v);
                lemma_skip_skip(bytes@, pos as int, 8);
                assert(is_prefix(enc_chars(v), bytes@.skip(p1 as int)));
                assert(4 * v.len() <= rem);
            }
        }
        return None;
    }
    let n = count as usize;
    let mut out = String::new();
    let mut i: usize = 0;
    let mut p: usize = p1;
    proof {
        assert(n == count);
        assert(enc_chars(out@) =~= Seq::<u8>::empty());
        assert(bytes@.subrange(p1 as int, p1 as int) =~= Seq::<u8>::empty());
        assert forall|v: Seq<char>|
            str_bounded(v) && #[trigger] is_prefix(enc_str(v), rem0) implies v.len() == count
            && out@ == v.take(0) by {
            lemma_prefix_split(enc_u64(v.len() as u64), enc_chars(v), rem0);
            assert(out@ =~= v.take(0));
        }
    }
    while i < n
        invariant
            i <= n,
            n == count,
            p1 == pos + 8,
            pos <= bytes@.len(),
            p == p1 + 4 * i,
            p <= bytes@.len(),
            n <= (bytes@.len() - p1) / 4,
            out@.len() == i,
            bytes@.subrange(p1 as int, p as int) == enc_chars(out@),
            rem0 == bytes@.skip(pos as int),
            forall|v: Seq<char>|
                str_bounded(v) && #[trigger] is_prefix(enc_str(v), rem0) ==> v.len() == count
                    && out@ == v.take(i as int),
        decreases n - i,
    {
        let c = match dec_char(bytes, p) {
            Some(v) => v,
            None => {
                proof {
                    assert forall|v: Seq<char>|
                        str_bounded(v) && is_prefix(enc_str(v), rem0) implies false by {
                        lemma_auto_spec_u64_to_from_le_bytes();
                        lemma_prefix_split(enc_u64(v.len() as u64), enc_chars(v), rem0);
                        assert(enc_u64(v.len() as u64).len() == 8);
                        lemma_skip_skip(bytes@, pos as int, 8);
                        assert(rem0.skip(8) == bytes@.skip(p1 as int));
                        assert(is_prefix(enc_chars(v), bytes@.skip(p1 as int)));
                        lemma_enc_chars_split(v, i as int);
                        lemma_enc_chars_len(v.take(i as int));
                        lemma_prefix_split(
                            enc_chars(v.take(i as int)),
                            enc_char(v[i as int]) + enc_chars(v.skip(i + 1)),
                            bytes@.skip(p1 as int),
                        );
                        lemma_prefix_split(
                            enc_char(v[i as int]),
                            enc_chars(v.skip(i + 1)),
                            bytes@.skip(p1 as int).skip(4 * i),
                        );
                        lemma_skip_skip(bytes@, p1 as int, 4 * i);
                        assert(is_prefix(enc_char(v[i as int]), bytes@.skip(p as int)));
                    }
                }
                return None;
            },
        };
        let ghost out0 = out@;
        push_char(&mut out, c.0);
        proof {
            assert(bytes@.subrange(p1 as int, c.1 as int) =~= enc_chars(out0) + enc_char(c.0));
            lemma_enc_chars_push(out0, c.0);
            assert(out@ == out0.push(c.0));
            assert forall|v: Seq<char>|
                str_bounded(v) && is_prefix(enc_str(v), rem0) implies v.len() == count && out@
                == v.take(i + 1) by {
                lemma_auto_spec_u64_to_from_le_bytes();
                lemma_prefix_split(enc_u64(v.len() as u64), enc_chars(v), rem0);
                assert(enc_u64(v.len() as u64).len() == 8);
                lemma_skip_skip(bytes@, pos as int, 8);
                assert(rem0.skip(8) == bytes@.skip(p1 as int));
                assert(is_prefix(enc_chars(v), bytes@.skip(p1 as int)));
                lemma_enc_chars_split(v, i as int);
                lemma_enc_chars_len(v.take(i as int));
                lemma_prefix_split(
                    enc_chars(v.take(i as int)),
                    enc_char(v[i as int]) + enc_chars(v.skip(i + 1)),
                    bytes@.skip(p1 as int),
                );
                lemma_prefix_split(
                    enc_char(v[i as int]),
                    enc_chars(v.skip(i + 1)),
                    bytes@.skip(p1 as int).skip(4 * i),
                );
                lemma_skip_skip(bytes@, p1 as int, 4 * i);
                assert(is_prefix(enc_char(v[i as int]), bytes@.skip(p as int)));
                assert(c.0 == v[i as int]);
                assert(v.take(i + 1) =~= v.take(i as int).push(v[i as int]));
            }
        }
        p = c.1;
        i += 1;
    }
    proof {
        assert(bytes@.subrange(pos as int, p as int) =~= enc_u64(count) + enc_chars(out@));
        assert(out@.len() == count);
        assert(bytes@.subrange(pos as int, p as int) == enc_str(out@));
        assert forall|v: Seq<char>|
            str_bounded(v) && is_prefix(enc_str(v), rem0) implies out@ == v && p == pos + enc_str(
            v,
        ).len() by {
            assert(out@ =~= v.take(v.len() as int));
            assert(v.take(v.len() as int) =~= v);
            lemma_enc_chars_len(v);
        }
    }
    Some((out, p))
}

/// A prefixed coinbase encoding decomposes into its tag bytes and fields.
proof fn lemma_action_prefix_coinbase(v: ActionView, s: Seq<u8>)
    requires
        v is Ledger,
        v->Ledger_0 is Coinbase,
        is_prefix(enc_action(v), s),
    ensures
        s.len() >= 2 && s[0] == 0 && s[1] == 0,
        is_prefix(enc_bytes(v->Ledger_0->Coinbase_to), s.skip(2)),
        is_prefix(
            enc_u128(v->Ledger_0->Coinbase_amount),
            s.skip(2 + 8 + v->Ledger_0->Coinbase_to.len() as int),
        ),
        enc_action(v).len() == 2 + 8 + v->Ledger_0->Coinbase_to.len() + 16,
{
    lemma_auto_spec_u64_to_from_le_bytes();
    lemma_auto_spec_u128_to_from_le_bytes();
    let to = v->Ledger_0->Coinbase_to;
    let am = v->Ledger_0->Coinbase_amount;
    assert(enc_action(v) =~= seq![0u8, 0u8] + (enc_bytes(to) + enc_u128(am)));
    lemma_prefix_split(seq![0u8, 0u8], enc_bytes(to) + enc_u128(am), s);
    lemma_prefix_split(enc_bytes(to), enc_u128(am), s.skip(2));
    lemma_skip_skip(s, 2, 8 + to.len() as int);
    assert(s.subrange(0, enc_action(v).len() as int)[0] == s[0]);
    assert(s.subrange(0, enc_action(v).len() as int)[1] == s[1]);
}

/// A prefixed transfer encoding decomposes into its tag bytes and fields.
proof fn lemma_action_prefix_transfer(v: ActionView, s: Seq<u8>)
    requires
        v is Ledger,
        v->Ledger_0 is Transfer,
        is_prefix(enc_action(v), s),
    ensures
        s.len() >= 2 && s[0] == 0 && s[1] == 1,
        is_prefix(enc_bytes(v->Ledger_0->Transfer_from), s.skip(2)),
        is_prefix(
            enc_bytes(v->Ledger_0->Transfer_to),
            s.skip(2 + 8 + v->Ledger_0->Transfer_from.len() as int),
        ),
        is_prefix(
            enc_u128(v->Ledger_0->Transfer_amount),
            s.skip(
                2 + 8 + v->Ledger_0->Transfer_from.len() + 8
                    + v->Ledger_0->Transfer_to.len() as int,
            ),
        ),
        enc_action(v).len() == 2 + 8 + v->Ledger_0->Transfer_from.len() + 8
            + v->Ledger_0->Transfer_to.len() + 16,
{
    lemma_auto_spec_u64_to_from_le_bytes();
    lemma_auto_spec_u128_to_from_le_bytes();
    let from = v->Ledger_0->Transfer_from;
    let to = v->Ledger_0->Transfer_to;
    let am = v->Ledger_0->Transfer_amount;
    assert(enc_action(v) =~= seq![0u8, 1u8] + (enc_bytes(from) + (enc_bytes(to) + enc_u128(
        am,
    ))));
    lemma_prefix_split(seq![0u8, 1u8], enc_bytes(from) + (enc_bytes(to) + enc_u128(am)), s);
    lemma_prefix_split(enc_bytes(from), enc_bytes(to) + enc_u128(am), s.skip(2));
    lemma_skip_skip(s, 2, 8 + from.len() as int);
    lemma_prefix_split(enc_bytes(to), enc_u128(am), s.skip(2 + 8 + from.len() as int));
    lemma_skip_skip(s, 2 + 8 + from.len() as int, 8 + to.len() as int);
    assert(s.subrange(0, enc_action(v).len() as int)[0] == s[0]);
    assert(s.subrange(0, enc_action(v).len() as int)[1] == s[1]);
}

/// A prefixed chain-name encoding decomposes into its tag bytes and field.
proof fn lemma_action_prefix_setname(v: ActionView, s: Seq<u8>)
    requires
        v is Meta,
        v->Meta_0 is SetChainName,
        is_prefix(enc_action(v), s),
    ensures
        s.len() >= 2 && s[0] == 1 && s[1] == 0,
        is_prefix(enc_str(v->Meta_0->SetChainName_name), s.skip(2)),
        enc_action(v).len() == 2 + enc_str(v->Meta_0->SetChainName_name).len(),
{
    let name = v->Meta_0->SetChainName_name;
    assert(enc_action(v) =~= seq![1u8, 0u8] + enc_str(name));
    lemma_prefix_split(seq![1u8, 0u8], enc_str(name), s);
    assert(s.subrange(0, enc_action(v).len() as int)[0] == s[0]);
    assert(s.subrange(0, enc_action(v).len() as int)[1] == s[1]);
}

/// A prefixed counter-bump encoding is its two tag bytes.
proof fn lemma_action_prefix_bump(v: ActionView, s: Seq<u8>)
    requires
        v is Meta,
        v->Meta_0 is BumpCounter,
        is_prefix(enc_action(v), s),
    ensures
        s.len() >= 2 && s[0] == 1 && s[1] == 1,
        enc_action(v).len() == 2,
{
    assert(enc_action(v) =~= seq![1u8, 1u8]);
    assert(s.subrange(0, enc_action(v).len() as int)[0] == s[0]);
    assert(s.subrange(0, enc_action(v).len() as int)[1] == s[1]);
}

/// Any prefixed action encoding announces its variant in its tag bytes.
proof fn lemma_action_prefix_tags(v: ActionView, s: Seq<u8>)
    requires
        is_prefix(enc_action(v), s),
    ensures
        s.len() >= 2,
        v is Ledger && v->Ledger_0 is Coinbase <==> s[0] == 0 && s[1] == 0,
        v is Ledger && v->Ledger_0 is Transfer <==> s[0] == 0 && s[1] == 1,
        v is Meta && v->Meta_0 is SetChainName <==> s[0] == 1 && s[1] == 0,
        v is Meta && v->Meta_0 is BumpCounter <==> s[0] == 1 && s[1] == 1,
{
    match v {
        ActionView::Ledger(l) => match l {
            LedgerActionView::Coinbase { .. } => {
                lemma_action_prefix_coinbase(v, s);
            },
            LedgerActionView::Transfer { .. } => {
                lemma_action_prefix_transfer(v, s);
            },
        },
        ActionView::Meta(m) => match m {
            MetaActionView::SetChainName { .. } => {
                lemma_action_prefix_setname(v, s);
            },
            MetaActionView::BumpCounter => {
                lemma_action_prefix_bump(v, s);
            },
        },
    }
}

/// Decodes one action.
fn dec_action(bytes: &Vec<u8>, pos: usize) -> (r: Option<(Action, usize)>)
    requires
        pos <= bytes@.len(),
    ensures
        r is Some ==> (r->0).1 <= bytes@.len() && pos <= (r->0).1 && bytes@.subrange(
            pos as int,
            (r->0).1 as int,
        ) == enc_action((r->0).0@) && action_bounded((r->0).0@),
        forall|v: ActionView|
            action_bounded(v) && #[trigger] is_prefix(enc_action(v), bytes@.skip(pos as int))
                ==> r is Some && (r->0).0@ == v && (r->0).1 == pos + enc_action(v).len(),
{
    proof {
        lemma_auto_spec_u64_to_from_le_bytes();
        lemma_auto_spec_u128_to_from_le_bytes();
    }
    let ghost rem0 = bytes@.skip(pos as int);
    if bytes.len() - pos < 2 {
        proof {
            assert forall|v: ActionView|
                action_bounded(v) && is_prefix(enc_action(v), rem0) implies false by {
                lemma_action_prefix_tags(v, rem0);
            }
        }
        return None;
    }
    let tag0 = bytes[pos];
    let tag1 = bytes[pos + 1];
    proof {
        assert(rem0[0] == tag0);
        assert(rem0[1] == tag1);
        lemma_skip_skip(bytes@, pos as int, 2);
    }
    if tag0 == 0 && tag1 == 0 {
        // a coinbase
        let (to, p1) = match dec_bytes(bytes, pos + 2) {
            Some(v) => v,
            None => {
                proof {
                    assert forall|v: ActionView|
                        action_bounded(v) && is_prefix(enc_action(v), rem0) implies false by {
                        lemma_action_prefix_tags(v, rem0);
                        lemma_action_prefix_coinbase(v, rem0);
                    }
                }
                return None;
            },
        };
        let (amount, p2) = match dec_u128(bytes, p1) {
            Some(v) => v,
            None => {
                proof {
                    assert forall|v: ActionView|
                        action_bounded(v) && is_prefix(enc_action(v), rem0) implies false by {
                        lemma_action_prefix_tags(v, rem0);
                        lemma_action_prefix_coinbase(v, rem0);
                        let tov = v->Ledger_0->Coinbase_to;
                        assert(to@ == tov);
                        lemma_skip_skip(bytes@, pos as int, 2 + 8 + tov.len() as int);
                    }
                }
                return None;
            },
        };
        let a = Action::Ledger(LedgerAction::Coinbase { to: Address(to), amount });
        proof {
            assert(bytes@.subrange(pos as int, p2 as int) =~= seq![0u8, 0u8] + (enc_bytes(
                a@->Ledger_0->Coinbase_to,
            ) + enc_u128(amount)));
            assert(enc_action(a@) =~= seq![0u8, 0u8] + (enc_bytes(a@->Ledger_0->Coinbase_to)
                + enc_u128(amount)));
            assert(action_bounded(a@));
            assert forall|v: ActionView|
                action_bounded(v) && is_prefix(enc_action(v), rem0) implies a@ == v && p2 == pos
                + enc_action(v).len() by {
                lemma_action_prefix_tags(v, rem0);
                lemma_action_prefix_coinbase(v, rem0);
                let tov = v->Ledger_0->Coinbase_to;
                let amv = v->Ledger_0->Coinbase_amount;
                assert(to@ == tov);
                lemma_skip_skip(bytes@, pos as int, 2 + 8 + tov.len() as int);
                assert(amount == amv);
                assert(v == ActionView::Ledger(
                    LedgerActionView::Coinbase { to: tov, amount: amv },
                ));
            }
        }
        Some((a, p2))
    } else if tag0 == 0 && tag1 == 1 {
        // a transfer
        let (from, p1) = match dec_bytes(bytes, pos + 2) {
            Some(v) => v,
            None => {
                proof {
                    assert forall|v: ActionView|
                        action_bounded(v) && is_prefix(enc_action(v), rem0) implies false by {
                        lemma_action_prefix_tags(v, rem0);
                        lemma_action_prefix_transfer(v, rem0);
                    }
                }
                return None;
            },
        };
        let (to, p2) = match dec_bytes(bytes, p1) {
            Some(v) => v,
            None => {
                proof {
                    assert forall|v: ActionView|
                        action_bounded(v) && is_prefix(enc_action(v), rem0) implies false by {
                        lemma_action_prefix_tags(v, rem0);
                        lemma_action_prefix_transfer(v, rem0);
                        let frv = v->Ledger_0->Transfer_from;
                        assert(from@ == frv);
                        lemma_skip_skip(bytes@, pos as int, 2 + 8 + frv.len() as int);
                    }
                }
                return None;
            },
        };
        let (amount, p3) = match dec_u128(bytes, p2) {
            Some(v) => v,
            None => {
                proof {
                    assert forall|v: ActionView|
                        action_bounded(v) && is_prefix(enc_action(v), rem0) implies false by {
                        lemma_action_prefix_tags(v, rem0);
                        lemma_action_prefix_transfer(v, rem0);
                        let frv = v->Ledger_0->Transfer_from;
                        let tov = v->Ledger_0->Transfer_to;
                        assert(from@ == frv);
                        lemma_skip_skip(bytes@, pos as int, 2 + 8 + frv.len() as int);
                        assert(to@ == tov);
                        lemma_skip_skip(
                            bytes@,
                            pos as int,
                            2 + 8 + frv.len() + 8 + tov.len() as int,
                        );
                    }
                }
                return None;
            },
        };
        let a = Action::Ledger(
            LedgerAction::Transfer { from: Address(from), to: Address(to), amount },
        );
        proof {
            assert(bytes@.subrange(pos as int, p3 as int) =~= seq![0u8, 1u8] + (enc_bytes(
                a@->Ledger_0->Transfer_from,
            ) + (enc_bytes(a@->Ledger_0->Transfer_to) + enc_u128(amount))));
            assert(enc_action(a@) =~= seq![0u8, 1u8] + (enc_bytes(a@->Ledger_0->Transfer_from)
                + (enc_bytes(a@->Ledger_0->Transfer_to) + enc_u128(amount))));
            assert(action_bounded(a@));
            assert forall|v: ActionView|
                action_bounded(v) && is_prefix(enc_action(v), rem0) implies a@ == v && p3 == pos
                + enc_action(v).len() by {
                lemma_action_prefix_tags(v, rem0);
                lemma_action_prefix_transfer(v, rem0);
                let frv = v->Ledger_0->Transfer_from;
                let tov = v->Ledger_0->Transfer_to;
                let amv = v->Ledger_0->Transfer_amount;
                assert(from@ == frv);
                lemma_skip_skip(bytes@, pos as int, 2 + 8 + frv.len() as int);
                assert(to@ == tov);
                lemma_skip_skip(bytes@, pos as int, 2 + 8 + frv.len() + 8 + tov.len() as int);
                assert(amount == amv);
                assert(v == ActionView::Ledger(
                    LedgerActionView::Transfer { from: frv, to: tov, amount: amv },
                ));
            }
        }
        Some((a, p3))
    } else if tag0 == 1 && tag1 == 0 {
        // a chain-name update
        let (name, p1) = match dec_str(bytes, pos + 2) {
            Some(v) => v,
            None => {
                proof {
                    assert forall|v: ActionView|
                        action_bounded(v) && is_prefix(enc_action(v), rem0) implies false by {
                        lemma_action_prefix_tags(v, rem0);
                        lemma_action_prefix_setname(v, rem0);
                    }
                }
                return None;
            },
        };
        let a = Action::Meta(MetaAction::SetChainName { name });
        proof {
            assert(bytes@.subrange(pos as int, p1 as int) =~= seq![1u8, 0u8] + enc_str(
                a@->Meta_0->SetChainName_name,
            ));
            assert(enc_action(a@) =~= seq![1u8, 0u8] + enc_str(a@->Meta_0->SetChainName_name));
            assert(action_bounded(a@));
            assert forall|v: ActionView|
                action_bounded(v) && is_prefix(enc_action(v), rem0) implies a@ == v && p1 == pos
                + enc_action(v).len() by {
                lemma_action_prefix_tags(v, rem0);
                lemma_action_prefix_setname(v, rem0);
                let nmv = v->Meta_0->SetChainName_name;
                assert(a@->Meta_0->SetChainName_name == nmv);
                assert(v == ActionView::Meta(MetaActionView::SetChainName { name: nmv }));
            }
        }
        Some((a, p1))
    } else if tag0 == 1 && tag1 == 1 {
        // a counter bump
        let a = Action::Meta(MetaAction::BumpCounter);
        proof {
            assert(bytes@.subrange(pos as int, pos + 2) =~= seq![1u8, 1u8]);
            assert(enc_action(a@) =~= seq![1u8, 1u8]);
            assert forall|v: ActionView|
                action_bounded(v) && is_prefix(enc_action(v), rem0) implies a@ == v && pos + 2
                == pos + enc_action(v).len() by {
                lemma_action_prefix_tags(v, rem0);
                lemma_action_prefix_bump(v, rem0);
                assert(v == ActionView::Meta(MetaActionView::BumpCounter));
            }
        }
        Some((a, pos + 2))
    } else {
        proof {
            assert forall|v: ActionView|
                action_bounded(v) && is_prefix(enc_action(v), rem0) implies false by {
                lemma_action_prefix_tags(v, rem0);
            }
        }
        None
    }
}

/// Any prefixed status encoding announces its variant in its tag byte.
proof fn lemma_status_prefix_tags(v: ApplyStatusView, s: Seq<u8>)
    requires
        is_prefix(enc_status(v), s),
    ensures
        s.len() >= 1,
        v is Applied <==> s[0] == 0,
        v is Pass <==> s[0] == 1,
        v is Failed <==> s[0] == 2,
        v is Pass ==> is_prefix(enc_str(v->Pass_reason), s.skip(1)) && enc_status(v).len() == 1
            + enc_str(v->Pass_reason).len(),
        v is Failed ==> is_prefix(enc_str(v->Failed_error), s.skip(1)) && enc_status(v).len()
            == 1 + enc_str(v->Failed_error).len(),
        v is Applied ==> enc_status(v).len() == 1,
{
    match v {
        ApplyStatusView::Applied => {
            assert(enc_status(v) =~= seq![0u8]);
            assert(s.subrange(0, 1)[0] == s[0]);
        },
        ApplyStatusView::Pass { reason } => {
            assert(enc_status(v) =~= seq![1u8] + enc_str(reason));
            lemma_prefix_split(seq![1u8], enc_str(reason), s);
            assert(s.subrange(0, enc_status(v).len() as int)[0] == s[0]);
        },
        ApplyStatusView::Failed { error } => {
            assert(enc_status(v) =~= seq![2u8] + enc_str(error));
            lemma_prefix_split(seq![2u8], enc_str(error), s);
            assert(s.subrange(0, enc_status(v).len() as int)[0] == s[0]);
        },
    }
}

/// Decodes one status.
fn dec_status(bytes: &Vec<u8>, pos: usize) -> (r: Option<(ApplyStatus, usize)>)
    requires
        pos <= bytes@.len(),
    ensures
        r is Some ==> (r->0).1 <= bytes@.len() && pos <= (r->0).1 && bytes@.subrange(
            pos as int,
            (r->0).1 as int,
        ) == enc_status((r->0).0@) && status_bounded((r->0).0@),
        forall|v: ApplyStatusView|
            status_bounded(v) && #[trigger] is_prefix(enc_status(v), bytes@.skip(pos as int))
                ==> r is Some && (r->0).0@ == v && (r->0).1 == pos + enc_status(v).len(),
{
    let ghost rem0 = bytes@.skip(pos as int);
    if pos >= bytes.len() {
        proof {
            assert forall|v: ApplyStatusView|
                status_bounded(v) && is_prefix(enc_status(v), rem0) implies false by {
                lemma_status_prefix_tags(v, rem0);
            }
        }
        return None;
    }
    let tag = bytes[pos];
    proof {
        assert(rem0[0] == tag);
        lemma_skip_skip(bytes@, pos as int, 1);
    }
    if tag == 0 {
        let s = ApplyStatus::Applied;
        proof {
            assert(bytes@.subrange(pos as int, pos + 1) =~= seq![0u8]);
            assert(enc_status(s@) =~= seq![0u8]);
            assert forall|v: ApplyStatusView|
                status_bounded(v) && is_prefix(enc_status(v), rem0) implies s@ == v && pos + 1
                == pos + enc_status(v).len() by {
                lemma_status_prefix_tags(v, rem0);
                assert(v == ApplyStatusView::Applied);
            }
        }
        Some((s, pos + 1))
    } else if tag == 1 {
        let (reason, p1) = match dec_str(bytes, pos + 1) {
            Some(v) => v,
            None => {
                proof {
                    assert forall|v: ApplyStatusView|
                        status_bounded(v) && is_prefix(enc_status(v), rem0) implies false by {
                        lemma_status_prefix_tags(v, rem0);
                    }
                }
                return None;
            },
        };
        let s = ApplyStatus::Pass { reason };
        proof {
            assert(bytes@.subrange(pos as int, p1 as int) =~= seq![1u8] + enc_str(
                s@->Pass_reason,
            ));
            assert(enc_status(s@) =~= seq![1u8] + enc_str(s@->Pass_reason));
            assert forall|v: ApplyStatusView|
                status_bounded(v) && is_prefix(enc_status(v), rem0) implies s@ == v && p1 == pos
                + enc_status(v).len() by {
                lemma_status_prefix_tags(v, rem0);
                let rv = v->Pass_reason;
                assert(s@->Pass_reason == rv);
                assert(v == ApplyStatusView::Pass { reason: rv });
            }
        }
        Some((s, p1))
    } else if tag == 2 {
        let (error, p1) = match dec_str(bytes, pos + 1) {
            Some(v) => v,
            None => {
                proof {
                    assert forall|v: ApplyStatusView|
                        status_bounded(v) && is_prefix(enc_status(v), rem0) implies false by {
                        lemma_status_prefix_tags(v, rem0);
                    }
                }
                return None;
            },
        };
        let s = ApplyStatus::Failed { error };
        proof {
            assert(bytes@.subrange(pos as int, p1 as int) =~= seq![2u8] + enc_str(
                s@->Failed_error,
            ));
            assert(enc_status(s@) =~= seq![2u8] + enc_str(s@->Failed_error));
            assert forall|v: ApplyStatusView|
                status_bounded(v) && is_prefix(enc_status(v), rem0) implies s@ == v && p1 == pos
                + enc_status(v).len() by {
                lemma_status_prefix_tags(v, rem0);
                let ev = v->Failed_error;
                assert(s@->Failed_error == ev);
                assert(v == ApplyStatusView::Failed { error: ev });
            }
        }
        Some((s, p1))
    } else {
        proof {
            assert forall|v: ApplyStatusView|
                status_bounded(v) && is_prefix(enc_status(v), rem0) implies false by {
                lemma_status_prefix_tags(v, rem0);
            }
        }
        None
    }
}

/// A whole-buffer block encoding decomposes into its four parts.
proof fn lemma_block_decompose(v: BlockView, s: Seq<u8>)
    requires
        enc_block(v) == s,
    ensures
        is_prefix(enc_u64(v.actions.len() as u64), s),
        is_prefix(enc_actions(v.actions), s.skip(8)),
        is_prefix(
            enc_u64(v.results.len() as u64),
            s.skip(8 + enc_actions(v.actions).len() as int),
        ),
        is_prefix(
            enc_statuses(v.results),
            s.skip(8 + enc_actions(v.actions).len() as int + 8),
        ),
        s.len() == 8 + enc_actions(v.actions).len() + 8 + enc_statuses(v.results).len(),
{
    lemma_auto_spec_u64_to_from_le_bytes();
    let ea = enc_actions(v.actions);
    let es = enc_statuses(v.results);
    let ca = enc_u64(v.actions.len() as u64);
    let cr = enc_u64(v.results.len() as u64);
    assert(s =~= ca + (ea + (cr + es)));
    assert(s.subrange(0, s.len() as int) =~= s);
    assert(is_prefix(ca + (ea + (cr + es)), s));
    lemma_prefix_split(ca, ea + (cr + es), s);
    lemma_prefix_split(ea, cr + es, s.skip(8));
    lemma_skip_skip(s, 8, ea.len() as int);
    lemma_prefix_split(cr, es, s.skip(8 + ea.len() as int));
    lemma_skip_skip(s, 8 + ea.len() as int, 8);
}

/// Decodes a whole buffer as one block. `Some` exactly when the buffer is
/// an encoded block, which it then returns.
pub fn decode_block(bytes: &Vec<u8>) -> (r: Option<Block>)
    ensures
        r is Some ==> bytes@ == enc_block((r->0)@) && block_bounded((r->0)@),
        forall|v: BlockView|
            block_bounded(v) && #[trigger] enc_block(v) == bytes@ ==> r is Some && (r->0)@
                == v,
{
    proof {
        lemma_auto_spec_u64_to_from_le_bytes();
    }
    let ghost whole = bytes@;
    let blen = bytes.len();
    let (count_a, p1) = match dec_u64(bytes, 0) {
        Some(x) => x,
        None => {
            proof {
                assert forall|v: BlockView|
                    block_bounded(v) && enc_block(v) == whole implies false by {
                    lemma_block_decompose(v, whole);
                    assert(whole.skip(0) =~= whole);
                }
            }
            return None;
        },
    };
    proof {
        assert(whole.skip(0) =~= whole);
    }
    let mut out_a: Vec<Action> = Vec::new();
    let na = if count_a > blen as u64 {
        // more actions than bytes: no encoding can say so
        proof {
            assert forall|v: BlockView|
                block_bounded(v) && enc_block(v) == whole implies false by {
                lemma_block_decompose(v, whole);
                assert(count_a == v.actions.len() as u64);
                lemma_enc_actions_min_len(v.actions);
            }
        }
        return None;
    } else {
        count_a as usize
    };
    let mut i: usize = 0;
    let mut p: usize = p1;
    proof {
        assert(crate::log::layer_view(out_a@) =~= Seq::<ActionView>::empty());
        assert(enc_actions(Seq::<ActionView>::empty()) =~= Seq::<u8>::empty());
        assert(whole.subrange(8, 8) =~= Seq::<u8>::empty());
        assert forall|v: BlockView|
            block_bounded(v) && #[trigger] enc_block(v) == whole implies v.actions.len()
            == count_a && crate::log::layer_view(out_a@) == v.actions.take(0) && p == 8
            + enc_actions(v.actions.take(0)).len() by {
            lemma_block_decompose(v, whole);
            assert(whole.skip(0) =~= whole);
            assert(count_a == v.actions.len() as u64);
            assert(crate::log::layer_view(out_a@) =~= v.actions.take(0));
            assert(v.actions.take(0) =~= Seq::<ActionView>::empty());
        }
    }
    while i < na
        invariant
            i <= na,
            na == count_a,
            p1 == 8,
            8 <= p <= bytes@.len(),
            bytes@.len() <= usize::MAX,
            whole == bytes@,
            out_a@.len() == i,
            bytes@.subrange(8, p as int) == enc_actions(crate::log::layer_view(out_a@)),
            forall|j: int|
                0 <= j < i ==> action_bounded(#[trigger] crate::log::layer_view(out_a@)[j]),
            forall|v: BlockView|
                block_bounded(v) && #[trigger] enc_block(v) == whole ==> v.actions.len()
                    == count_a && crate::log::layer_view(out_a@) == v.actions.take(i as int)
                    && p == 8 + enc_actions(v.actions.take(i as int)).len(),
        decreases na - i,
    {
        let a = match dec_action(bytes, p) {
            Some(x) => x,
            None => {
                proof {
                    assert forall|v: BlockView|
                        block_bounded(v) && enc_block(v) == whole implies false by {
                        lemma_block_decompose(v, whole);
                        lemma_enc_actions_split(v.actions, i as int);
                        lemma_prefix_split(
                            enc_actions(v.actions.take(i as int)),
                            enc_action(v.actions[i as int]) + enc_actions(
                                v.actions.skip(i + 1),
                            ),
                            whole.skip(8),
                        );
                        lemma_prefix_split(
                            enc_action(v.actions[i as int]),
                            enc_actions(v.actions.skip(i + 1)),
                            whole.skip(8).skip(enc_actions(v.actions.take(i as int)).len() as int),
                        );
                        lemma_skip_skip(
                            whole,
                            8,
                            enc_actions(v.actions.take(i as int)).len() as int,
                        );
                        assert(is_prefix(enc_action(v.actions[i as int]), whole.skip(p as int)));
                    }
                }
                return None;
            },
        };
        let ghost outs0 = crate::log::layer_view(out_a@);
        out_a.push(a.0);
        proof {
            assert(crate::log::layer_view(out_a@) =~= outs0.push(a.0@));
            lemma_enc_actions_push(outs0, a.0@);
            assert(bytes@.subrange(8, a.1 as int) =~= enc_actions(outs0) + enc_action(a.0@));
            assert forall|v: BlockView|
                block_bounded(v) && enc_block(v) == whole implies v.actions.len() == count_a
                && crate::log::layer_view(out_a@) == v.actions.take(i + 1) && a.1 == 8
                + enc_actions(v.actions.take(i + 1)).len() by {
                lemma_block_decompose(v, whole);
                lemma_enc_actions_split(v.actions, i as int);
                lemma_prefix_split(
                    enc_actions(v.actions.take(i as int)),
                    enc_action(v.actions[i as int]) + enc_actions(v.actions.skip(i + 1)),
                    whole.skip(8),
                );
                lemma_prefix_split(
                    enc_action(v.actions[i as int]),
                    enc_actions(v.actions.skip(i + 1)),
                    whole.skip(8).skip(enc_actions(v.actions.take(i as int)).len() as int),
                );
                lemma_skip_skip(whole, 8, enc_actions(v.actions.take(i as int)).len() as int);
                assert(is_prefix(enc_action(v.actions[i as int]), whole.skip(p as int)));
                assert(a.0@ == v.actions[i as int]);
                assert(v.actions.take(i + 1) =~= v.actions.take(i as int).push(
                    v.actions[i as int],
                ));
                lemma_enc_actions_push(v.actions.take(i as int), v.actions[i as int]);
            }
        }
        p = a.1;
        i += 1;
    }
    let ghost avs = crate::log::layer_view(out_a@);
    proof {
        assert forall|v: BlockView|
            block_bounded(v) && enc_block(v) == whole implies avs == v.actions && p == 8
            + enc_actions(v.actions).len() by {
            assert(avs == v.actions.take(v.actions.len() as int));
            assert(v.actions.take(v.actions.len() as int) =~= v.actions);
        }
    }
    let (count_r, q1) = match dec_u64(bytes, p) {
        Some(x) => x,
        None => {
            proof {
                assert forall|v: BlockView|
                    block_bounded(v) && enc_block(v) == whole implies false by {
                    lemma_block_decompose(v, whole);
                }
            }
            return None;
        },
    };
    let mut out_r: Vec<ApplyStatus> = Vec::new();
    let nr = if count_r > blen as u64 {
        proof {
            assert forall|v: BlockView|
                block_bounded(v) && enc_block(v) == whole implies false by {
                lemma_block_decompose(v, whole);
                assert(count_r == v.results.len() as u64);
                lemma_enc_statuses_min_len(v.results);
            }
        }
        return None;
    } else {
        count_r as usize
    };
    let mut i: usize = 0;
    let mut q: usize = q1;
    proof {
        assert(crate::log::layer_view(out_r@) =~= Seq::<ApplyStatusView>::empty());
        assert(enc_statuses(Seq::<ApplyStatusView>::empty()) =~= Seq::<u8>::empty());
        assert(whole.subrange(q1 as int, q1 as int) =~= Seq::<u8>::empty());
        assert forall|v: BlockView|
            block_bounded(v) && #[trigger] enc_block(v) == whole implies v.results.len()
            == count_r && crate::log::layer_view(out_r@) == v.results.take(0) && q == q1
            && q1 == 8 + enc_actions(v.actions).len() + 8 + enc_statuses(
            v.results.take(0),
        ).len() by {
            lemma_block_decompose(v, whole);
            assert(count_r == v.results.len() as u64);
            assert(crate::log::layer_view(out_r@) =~= v.results.take(0));
            assert(v.results.take(0) =~= Seq::<ApplyStatusView>::empty());
        }
    }
    while i < nr
        invariant
            i <= nr,
            nr == count_r,
            q1 == p + 8,
            8 <= p,
            p + 8 <= bytes@.len(),
            q1 <= q <= bytes@.len(),
            bytes@.len() <= usize::MAX,
            whole == bytes@,
            out_r@.len() == i,
            bytes@.subrange(q1 as int, q as int) == enc_statuses(
                crate::log::layer_view(out_r@),
            ),
            forall|j: int|
                0 <= j < i ==> status_bounded(#[trigger] crate::log::layer_view(out_r@)[j]),
            forall|v: BlockView|
                block_bounded(v) && #[trigger] enc_block(v) == whole ==> v.results.len()
                    == count_r && crate::log::layer_view(out_r@) == v.results.take(i as int)
                    && q1 == 8 + enc_actions(v.actions).len() + 8 && q == q1 + enc_statuses(
                    v.results.take(i as int),
                ).len(),
        decreases nr - i,
    {
        let a = match dec_status(bytes, q) {
            Some(x) => x,
            None => {
                proof {
                    assert forall|v: BlockView|
                        block_bounded(v) && enc_block(v) == whole implies false by {
                        lemma_block_decompose(v, whole);
                        lemma_enc_statuses_split(v.results, i as int);
                        lemma_prefix_split(
                            enc_statuses(v.results.take(i as int)),
                            enc_status(v.results[i as int]) + enc_statuses(
                                v.results.skip(i + 1),
                            ),
                            whole.skip(q1 as int),
                        );
                        lemma_prefix_split(
                            enc_status(v.results[i as int]),
                            enc_statuses(v.results.skip(i + 1)),
                            whole.skip(q1 as int).skip(
                                enc_statuses(v.results.take(i as int)).len() as int,
                            ),
                        );
                        lemma_skip_skip(
                            whole,
                            q1 as int,
                            enc_statuses(v.results.take(i as int)).len() as int,
                        );
                        assert(is_prefix(enc_status(v.results[i as int]), whole.skip(q as int)));
                    }
                }
                return None;
            },
        };
        let ghost outs0 = crate::log::layer_view(out_r@);
        out_r.push(a.0);
        proof {
            assert(crate::log::layer_view(out_r@) =~= outs0.push(a.0@));
            lemma_enc_statuses_push(outs0, a.0@);
            assert(bytes@.subrange(q1 as int, a.1 as int) =~= enc_statuses(outs0) + enc_status(
                a.0@,
            ));
            assert forall|v: BlockView|
                block_bounded(v) && enc_block(v) == whole implies v.results.len() == count_r
                && crate::log::layer_view(out_r@) == v.results.take(i + 1) && q1 == 8
                + enc_actions(v.actions).len() + 8 && a.1 == q1 + enc_statuses(
                v.results.take(i + 1),
            ).len() by {
                lemma_block_decompose(v, whole);
                lemma_enc_statuses_split(v.results, i as int);
                lemma_prefix_split(
                    enc_statuses(v.results.take(i as int)),
                    enc_status(v.results[i as int]) + enc_statuses(v.results.skip(i + 1)),
                    whole.skip(q1 as int),
                );
                lemma_prefix_split(
                    enc_status(v.results[i as int]),
                    enc_statuses(v.results.skip(i + 1)),
                    whole.skip(q1 as int).skip(
                        enc_statuses(v.results.take(i as int)).len() as int,
                    ),
                );
                lemma_skip_skip(
                    whole,
                    q1 as int,
                    enc_statuses(v.results.take(i as int)).len() as int,
                );
                assert(is_prefix(enc_status(v.results[i as int]), whole.skip(q as int)));
                assert(a.0@ == v.results[i as int]);
                assert(v.results.take(i + 1) =~= v.results.take(i as int).push(
                    v.results[i as int],
                ));
                lemma_enc_statuses_push(v.results.take(i as int), v.results[i as int]);
            }
        }
        q = a.1;
        i += 1;
    }
    let ghost rvs = crate::log::layer_view(out_r@);
    proof {
        assert forall|v: BlockView|
            block_bounded(v) && enc_block(v) == whole implies rvs == v.results && q == 8
            + enc_actions(v.actions).len() + 8 + enc_statuses(v.results).len() by {
            assert(rvs == v.results.take(v.results.len() as int));
            assert(v.results.take(v.results.len() as int) =~= v.results);
        }
    }
    if q != blen {
        proof {
            assert forall|v: BlockView|
                block_bounded(v) && enc_block(v) == whole implies false by {
                lemma_block_decompose(v, whole);
            }
        }
        return None;
    }
    let b = Block { actions: out_a, results: out_r };
    proof {
        assert(b@.actions == avs);
        assert(b@.results == rvs);
        assert(bytes@ =~= bytes@.subrange(0, 8) + bytes@.subrange(8, p as int)
            + bytes@.subrange(p as int, q1 as int) + bytes@.subrange(q1 as int, q as int));
        assert(b@.actions.len() as u64 == count_a);
        assert(b@.results.len() as u64 == count_r);
        assert(bytes@ == enc_block(b@));
        assert(block_bounded(b@));
    }
    Some(b)
}

/// An encoded action list is at least as long as its count.
proof fn lemma_enc_actions_min_len(s: Seq<ActionView>)
    ensures
        enc_actions(s).len() >= s.len(),
    decreases s.len(),
{
    if s.len() > 0 {
        lemma_enc_actions_min_len(s.drop_last());
        lemma_action_enc_nonempty(s.last());
    }
}

/// Every action encoding holds at least one byte.
proof fn lemma_action_enc_nonempty(a: ActionView)
    ensures
        enc_action(a).len() >= 1,
{
}

/// An encoded status list is at least as long as its count.
proof fn lemma_enc_statuses_min_len(s: Seq<ApplyStatusView>)
    ensures
        enc_statuses(s).len() >= s.len(),
    decreases s.len(),
{
    if s.len() > 0 {
        lemma_enc_statuses_min_len(s.drop_last());
        lemma_status_enc_nonempty(s.last());
    }
}

/// Every status encoding holds at least one byte.
proof fn lemma_status_enc_nonempty(s: ApplyStatusView)
    ensures
        enc_status(s).len() >= 1,
{
}

} // verus!
