//! Tests of the block codec: the decoder accepts exactly the encoder's
//! outputs and inverts them.

use staging_memory::actions::{Action, ApplyStatus, LedgerAction, MetaAction};
use staging_memory::address::Address;
use staging_memory::block::Block;
use staging_memory::codec::{decode_block, encode_block};

fn sample_block() -> Block {
    Block {
        actions: vec![
            Action::Ledger(LedgerAction::Coinbase { to: Address(vec![1, 2, 3]), amount: 7 }),
            Action::Ledger(LedgerAction::Transfer {
                from: Address(vec![1, 2, 3]),
                to: Address(vec![]),
                amount: u128::MAX,
            }),
            Action::Meta(MetaAction::SetChainName { name: "naïve ✓ name".to_owned() }),
            Action::Meta(MetaAction::BumpCounter),
        ],
        results: vec![
            ApplyStatus::Applied,
            ApplyStatus::Pass { reason: "insufficient funds".to_owned() },
            ApplyStatus::Failed { error: "boom".to_owned() },
        ],
    }
}

#[test]
fn round_trip_preserves_block() {
    let b = sample_block();
    let bytes = encode_block(&b);
    let back = decode_block(&bytes).expect("an encoded block decodes");
    assert_eq!(back, b);
}

#[test]
fn round_trip_empty_block() {
    let b = Block { actions: vec![], results: vec![] };
    let bytes = encode_block(&b);
    assert_eq!(bytes.len(), 16);
    let back = decode_block(&bytes).expect("an encoded block decodes");
    assert_eq!(back, b);
}

#[test]
fn decoder_rejects_truncation_and_trailing_bytes() {
    let b = sample_block();
    let bytes = encode_block(&b);
    let mut truncated = bytes.clone();
    truncated.pop();
    assert!(decode_block(&truncated).is_none());
    let mut extended = bytes.clone();
    extended.push(0);
    assert!(decode_block(&extended).is_none());
    assert!(decode_block(&vec![]).is_none());
    assert!(decode_block(&vec![9, 9, 9]).is_none());
}

#[test]
fn decoder_rejects_bad_tags_and_scalars() {
    // count 1, then an action with an unknown jurisdiction tag
    let mut bytes = 1u64.to_le_bytes().to_vec();
    bytes.push(7);
    bytes.push(0);
    assert!(decode_block(&bytes).is_none());

    // a chain-name action whose character is a surrogate value
    let mut bytes = 1u64.to_le_bytes().to_vec();
    bytes.push(1);
    bytes.push(0);
    bytes.extend_from_slice(&1u64.to_le_bytes());
    bytes.extend_from_slice(&0xD800u32.to_le_bytes());
    bytes.extend_from_slice(&0u64.to_le_bytes());
    assert!(decode_block(&bytes).is_none());
}

#[test]
fn encoding_is_byte_stable() {
    let b1 = sample_block();
    let b2 = sample_block();
    assert_eq!(encode_block(&b1), encode_block(&b2));
}
