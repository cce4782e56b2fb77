//! End-to-end tests of the relay engine: genesis setup, submissions,
//! fork tracking, reorg promotion, batch atomicity, and inclusion proofs.

use btc_relay::codec::hash256;
use btc_relay::errors::RelayError;
use btc_relay::relay::Relay;

/// Compact bits whose target is 0x02 * 256^31: most hashes pass, and the
/// target survives the retarget arithmetic without overflowing.
const EASY_BITS: [u8; 4] = [0x02, 0x00, 0x00, 0x22];

/// Compact bits whose target is zero: no hash can pass.
const ZERO_BITS: [u8; 4] = [0x00, 0x00, 0x00, 0x00];

fn build_header(
    prev_hash: &[u8],
    merkle_root: &[u8],
    time: u32,
    bits: [u8; 4],
    nonce: u32,
) -> Vec<u8> {
    let mut h = Vec::new();
    h.extend_from_slice(&1u32.to_le_bytes());
    h.extend_from_slice(prev_hash);
    h.extend_from_slice(merkle_root);
    h.extend_from_slice(&time.to_le_bytes());
    h.extend_from_slice(&bits);
    h.extend_from_slice(&nonce.to_le_bytes());
    h
}

/// Build a header and search nonces until its hash clears the easy
/// target (top byte below 0x02).
fn mine_header(prev_hash: &[u8], merkle_root: &[u8], time: u32, bits: [u8; 4]) -> Vec<u8> {
    for nonce in 0..100000u32 {
        let h = build_header(prev_hash, merkle_root, time, bits, nonce);
        let d = hash256(&h);
        if d[31] < 0x02 {
            return h;
        }
    }
    panic!("no nonce cleared the easy target");
}

fn genesis_relay(height: u32) -> (Relay, Vec<u8>, Vec<u8>) {
    let header = mine_header(&[0u8; 32], &[7u8; 32], 1_000_000, EASY_BITS);
    let hash = hash256(&header);
    let relay = Relay::initialize(&header, height, &hash).unwrap();
    (relay, header, hash)
}

#[test]
fn test_initialize_and_getters() {
    let (relay, _header, hash) = genesis_relay(100);
    assert_eq!(relay.best_height(), 100);
    assert_eq!(relay.best_block(), hash);
    assert_eq!(relay.chain_counter(), 1);
    assert_eq!(relay.canonical_hash_at(100), Some(hash.clone()));
    assert_eq!(relay.canonical_hash_at(101), None);
    let rec = relay.get_header(&hash).unwrap();
    assert_eq!(rec.height, 100);
    assert_eq!(rec.chain_id, 1);
}

#[test]
fn test_initialize_errors() {
    let header = mine_header(&[0u8; 32], &[7u8; 32], 1_000_000, EASY_BITS);
    let hash = hash256(&header);
    let short = vec![0u8; 79];
    assert_eq!(
        Relay::initialize(&short, 100, &hash).err(),
        Some(RelayError::InvalidHeaderSize)
    );
    assert_eq!(
        Relay::initialize(&header, 0, &hash).err(),
        Some(RelayError::InvalidGenesisHeight)
    );
    let wrong = vec![1u8; 32];
    assert_eq!(
        Relay::initialize(&header, 100, &wrong).err(),
        Some(RelayError::InvalidBlockHash)
    );
}

#[test]
fn test_submit_extends_main_chain() {
    let (mut relay, _g, ghash) = genesis_relay(100);
    let child = mine_header(&ghash, &[8u8; 32], 1_000_600, EASY_BITS);
    let chash = hash256(&child);
    let r = relay.submit_block_header(&child, &chash, &ghash, 1, 101, 2);
    assert!(r.unwrap().is_none());
    assert_eq!(relay.best_height(), 101);
    assert_eq!(relay.best_block(), chash);
    assert_eq!(relay.canonical_hash_at(101), Some(chash.clone()));
    // the counter is only consumed by a new fork
    assert_eq!(relay.chain_counter(), 1);
}

#[test]
fn test_duplicate_block_rejected() {
    let (mut relay, _g, ghash) = genesis_relay(100);
    let child = mine_header(&ghash, &[8u8; 32], 1_000_600, EASY_BITS);
    let chash = hash256(&child);
    relay.submit_block_header(&child, &chash, &ghash, 1, 101, 2).unwrap();
    let again = relay.submit_block_header(&child, &chash, &ghash, 1, 101, 2);
    assert_eq!(again.err(), Some(RelayError::DuplicateBlock));
}

#[test]
fn test_unknown_parent_rejected() {
    let (mut relay, _g, ghash) = genesis_relay(100);
    let child = mine_header(&[9u8; 32], &[8u8; 32], 1_000_600, EASY_BITS);
    let chash = hash256(&child);
    let missing = vec![9u8; 32];
    let r = relay.submit_block_header(&child, &chash, &missing, 1, 101, 2);
    assert_eq!(r.err(), Some(RelayError::PreviousBlockNotFound));
    // right parent, wrong height
    let child2 = mine_header(&ghash, &[8u8; 32], 1_000_600, EASY_BITS);
    let chash2 = hash256(&child2);
    let r2 = relay.submit_block_header(&child2, &chash2, &ghash, 1, 105, 2);
    assert_eq!(r2.err(), Some(RelayError::PreviousBlockNotFound));
}

#[test]
fn test_invalid_counter_and_chain_id() {
    let (mut relay, _g, ghash) = genesis_relay(100);
    let child = mine_header(&ghash, &[8u8; 32], 1_000_600, EASY_BITS);
    let chash = hash256(&child);
    let r = relay.submit_block_header(&child, &chash, &ghash, 1, 101, 5);
    assert_eq!(r.err(), Some(RelayError::InvalidCounter));
    let r2 = relay.submit_block_header(&child, &chash, &ghash, 3, 101, 2);
    assert_eq!(r2.err(), Some(RelayError::InvalidChainId));
}

#[test]
fn test_invalid_block_hash_rejected() {
    let (mut relay, _g, ghash) = genesis_relay(100);
    let child = mine_header(&ghash, &[8u8; 32], 1_000_600, EASY_BITS);
    let wrong = vec![3u8; 32];
    let r = relay.submit_block_header(&child, &wrong, &ghash, 1, 101, 2);
    assert_eq!(r.err(), Some(RelayError::InvalidBlockHash));
}

#[test]
fn test_low_difficulty_rejected() {
    let (mut relay, _g, ghash) = genesis_relay(100);
    // a zero target: passes every earlier check, but no hash can meet it
    let child = build_header(&ghash, &[8u8; 32], 1_000_600, ZERO_BITS, 1);
    let chash = hash256(&child);
    let r = relay.submit_block_header(&child, &chash, &ghash, 1, 101, 2);
    assert_eq!(r.err(), Some(RelayError::LowDifficulty));
}

#[test]
fn test_fork_reorg_promotes_branch() {
    let (mut relay, _g, ghash) = genesis_relay(100);
    // extend the main chain by one block
    let main_a = mine_header(&ghash, &[10u8; 32], 1_000_600, EASY_BITS);
    let main_a_hash = hash256(&main_a);
    relay.submit_block_header(&main_a, &main_a_hash, &ghash, 1, 101, 2).unwrap();
    // a competing branch from the genesis block: a new fork (id 2)
    let mut fork_hashes = Vec::new();
    let f1 = mine_header(&ghash, &[20u8; 32], 1_000_700, EASY_BITS);
    let f1_hash = hash256(&f1);
    let ev = relay.submit_block_header(&f1, &f1_hash, &ghash, 1, 101, 2).unwrap();
    assert!(ev.is_none());
    assert_eq!(relay.chain_counter(), 2);
    fork_hashes.push(f1_hash.clone());
    // grow the fork to height 107 = best(101) + 6; only the last submission reorgs
    let mut prev = f1_hash.clone();
    let mut events = 0;
    let mut last_event = None;
    for i in 0..6u32 {
        let height = 102 + i;
        let fh = mine_header(&prev, &[21 + i as u8; 32], 1_000_800 + i, EASY_BITS);
        let fh_hash = hash256(&fh);
        let ev = relay
            .submit_block_header(&fh, &fh_hash, &prev, 2, height, 3)
            .unwrap();
        if let Some(e) = ev {
            events += 1;
            last_event = Some(e);
        }
        fork_hashes.push(fh_hash.clone());
        prev = fh_hash;
    }
    // exactly one reorg notification, naming the promoted fork
    assert_eq!(events, 1);
    let e = last_event.unwrap();
    assert_eq!(e.from, main_a_hash);
    assert_eq!(e.to, prev);
    assert_eq!(e.chain_id, 2);
    // the canonical index now returns the branch's hashes at every height
    assert_eq!(relay.best_height(), 107);
    assert_eq!(relay.best_block(), prev);
    for (i, fh) in fork_hashes.iter().enumerate() {
        let height = 101 + i as u32;
        assert_eq!(relay.canonical_hash_at(height), Some(fh.clone()));
        assert_eq!(relay.get_header(fh).unwrap().chain_id, 1);
    }
    // the displaced header reports the freshly retired fork id
    assert_eq!(relay.get_header(&main_a_hash).unwrap().chain_id, 3);
    assert_eq!(relay.chain_counter(), 3);
    // the main fork record absorbed the branch: genesis, then the seven
    // promoted blocks, ending at the new tip
    let main_fork = relay.get_fork(1).unwrap();
    assert_eq!(main_fork.height, 107);
    assert_eq!(main_fork.descendants.len(), 8);
    assert_eq!(main_fork.descendants[0], ghash);
    assert_eq!(main_fork.descendants.last().unwrap(), &prev);
    // the promoted fork record is retired; the fresh id holds the
    // displaced block
    assert!(relay.get_fork(2).is_none());
    let retired = relay.get_fork(3).unwrap();
    assert_eq!(retired.height, 101);
    assert_eq!(retired.ancestor, ghash);
    assert_eq!(retired.descendants, vec![main_a_hash.clone()]);
    // the main chain tracks its own extensions immediately after the reorg
    let next = mine_header(&prev, &[90u8; 32], 1_002_000, EASY_BITS);
    let next_hash = hash256(&next);
    let ev = relay.submit_block_header(&next, &next_hash, &prev, 1, 108, 4).unwrap();
    assert!(ev.is_none());
    assert_eq!(relay.best_height(), 108);
    assert_eq!(relay.best_block(), next_hash);
    assert_eq!(relay.canonical_hash_at(108), Some(next_hash.clone()));
    assert_eq!(relay.get_header(&next_hash).unwrap().chain_id, 1);
    // no fork id was consumed by the straight-line extension
    assert_eq!(relay.chain_counter(), 3);
    let main_fork2 = relay.get_fork(1).unwrap();
    assert_eq!(main_fork2.height, 108);
    assert_eq!(main_fork2.descendants.last().unwrap(), &next_hash);
}

#[test]
fn test_batch_is_atomic() {
    let (mut relay, _g, ghash) = genesis_relay(100);
    let c1 = mine_header(&ghash, &[30u8; 32], 1_000_600, EASY_BITS);
    let c1_hash = hash256(&c1);
    let c2 = mine_header(&c1_hash, &[31u8; 32], 1_000_700, EASY_BITS);
    let c2_hash = hash256(&c2);
    // the third header fails the proof-of-work check
    let c3 = build_header(&c2_hash, &[32u8; 32], 1_000_800, ZERO_BITS, 1);
    let batch = vec![c1.clone(), c2.clone(), c3];
    let r = relay.submit_block_header_batch(&batch);
    assert_eq!(r.err(), Some(RelayError::LowDifficulty));
    // nothing committed, not even the two valid headers
    assert_eq!(relay.best_height(), 100);
    assert!(relay.get_header(&c1_hash).is_none());
    assert!(relay.get_header(&c2_hash).is_none());
    // the same batch without the bad header commits whole
    let good = vec![c1, c2];
    relay.submit_block_header_batch(&good).unwrap();
    assert_eq!(relay.best_height(), 102);
    assert_eq!(relay.best_block(), c2_hash);
}

#[test]
fn test_verify_tx_confirmations() {
    // a genesis whose merkle root commits to one transaction pair
    let txid = vec![0xabu8; 32];
    let sibling = vec![0xcdu8; 32];
    let mut pair = txid.clone();
    pair.extend_from_slice(&sibling);
    let root = hash256(&pair);
    let header = mine_header(&[0u8; 32], &root, 1_000_000, EASY_BITS);
    let hash = hash256(&header);
    let relay = Relay::initialize(&header, 100, &hash).unwrap();
    // one confirmation is available at the tip
    let ok = relay.verify_tx(100, 0, &txid, &header, &sibling, 1, false);
    assert_eq!(ok, Ok(true));
    // one more than available fails
    let too_deep = relay.verify_tx(100, 0, &txid, &header, &sibling, 2, false);
    assert_eq!(too_deep.err(), Some(RelayError::InsufficientConfirmations));
    // the insecure flag bypasses only the confirmation requirement
    let insecure = relay.verify_tx(100, 0, &txid, &header, &sibling, 2, true);
    assert_eq!(insecure, Ok(true));
    // a wrong transaction id does not connect to the root
    let wrong_tx = vec![0x11u8; 32];
    let bad = relay.verify_tx(100, 0, &wrong_tx, &header, &sibling, 1, false);
    assert_eq!(bad.err(), Some(RelayError::IncorrectMerkleProof));
    // an odd index hashes the sibling on the other side
    let bad_side = relay.verify_tx(100, 1, &txid, &header, &sibling, 1, false);
    assert_eq!(bad_side.err(), Some(RelayError::IncorrectMerkleProof));
    // a short transaction id is malformed
    let short_tx = vec![0xabu8; 16];
    let short = relay.verify_tx(100, 0, &short_tx, &header, &sibling, 1, false);
    assert_eq!(short.err(), Some(RelayError::InvalidTxId));
    // no canonical block at that height
    let missing = relay.verify_tx(99, 0, &txid, &header, &sibling, 1, false);
    assert_eq!(missing.err(), Some(RelayError::BlockNotFound));
    // header bytes that are not the canonical block at that height
    let other = mine_header(&[1u8; 32], &root, 1_000_000, EASY_BITS);
    let mismatch = relay.verify_tx(100, 0, &txid, &other, &sibling, 1, false);
    assert_eq!(mismatch.err(), Some(RelayError::InvalidBlockHash));
}

#[test]
fn test_period_boundary_difficulty_validation() {
    // genesis just before a period end, so heights 2015 and 2016 follow
    let (mut relay, _g, ghash) = genesis_relay(2014);
    // period-end header carries a different target (0x01 * 256^31)
    let end_bits: [u8; 4] = [0x01, 0x00, 0x00, 0x22];
    let mut end_hdr = Vec::new();
    for nonce in 0..2_000_000u32 {
        let h = build_header(&ghash, &[40u8; 32], 2_209_600, end_bits, nonce);
        let d = hash256(&h);
        if d[31] == 0 {
            end_hdr = h;
            break;
        }
    }
    assert!(!end_hdr.is_empty());
    let end_hash = hash256(&end_hdr);
    relay.submit_block_header(&end_hdr, &end_hash, &ghash, 1, 2015, 2).unwrap();
    // a period-start header whose target has a bit the expected one lacks
    // is rejected; it must still clear its own (smaller) target
    let bad_bits: [u8; 4] = [0x01, 0x00, 0x00, 0x22];
    let mut bad_hdr = Vec::new();
    for nonce in 0..2_000_000u32 {
        let h = build_header(&end_hash, &[41u8; 32], 2_209_700, bad_bits, nonce);
        let d = hash256(&h);
        if d[31] == 0 {
            bad_hdr = h;
            break;
        }
    }
    assert!(!bad_hdr.is_empty());
    let bad_hash = hash256(&bad_hdr);
    let r = relay.submit_block_header(&bad_hdr, &bad_hash, &end_hash, 1, 2016, 2);
    assert_eq!(r.err(), Some(RelayError::IncorrectDifficultyTarget));
    // the expected target itself is accepted: the end sample sits exactly
    // one intended period after the genesis sample, so the retarget
    // returns the genesis target unchanged
    let good_hdr = mine_header(&end_hash, &[41u8; 32], 2_209_700, EASY_BITS);
    let good_hash = hash256(&good_hdr);
    let r2 = relay.submit_block_header(&good_hdr, &good_hash, &end_hash, 1, 2016, 2);
    assert!(r2.unwrap().is_none());
    assert_eq!(relay.best_height(), 2016);
}

#[test]
fn test_fork_of_fork_reorg_promotes_both_segments() {
    let (mut relay, _g, ghash) = genesis_relay(100);
    // main chain gains one block: best 101
    let main_a = mine_header(&ghash, &[50u8; 32], 1_000_600, EASY_BITS);
    let main_a_hash = hash256(&main_a);
    relay.submit_block_header(&main_a, &main_a_hash, &ghash, 1, 101, 2).unwrap();
    // fork 2 off the genesis block: three blocks at 101..103
    let f1 = mine_header(&ghash, &[60u8; 32], 1_000_700, EASY_BITS);
    let f1_hash = hash256(&f1);
    relay.submit_block_header(&f1, &f1_hash, &ghash, 1, 101, 2).unwrap();
    let f2 = mine_header(&f1_hash, &[61u8; 32], 1_000_800, EASY_BITS);
    let f2_hash = hash256(&f2);
    relay.submit_block_header(&f2, &f2_hash, &f1_hash, 2, 102, 3).unwrap();
    let f3 = mine_header(&f2_hash, &[62u8; 32], 1_000_900, EASY_BITS);
    let f3_hash = hash256(&f3);
    relay.submit_block_header(&f3, &f3_hash, &f2_hash, 2, 103, 3).unwrap();
    // fork 3 branches from the middle of fork 2 (block at 102)
    let b1 = mine_header(&f2_hash, &[70u8; 32], 1_001_000, EASY_BITS);
    let b1_hash = hash256(&b1);
    relay.submit_block_header(&b1, &b1_hash, &f2_hash, 2, 103, 3).unwrap();
    assert_eq!(relay.chain_counter(), 3);
    // grow fork 3 to height 107 = best(101) + 6
    let mut prev = b1_hash.clone();
    let mut branch = vec![f1_hash.clone(), f2_hash.clone(), b1_hash.clone()];
    let mut events = 0;
    let mut last_event = None;
    for i in 0..4u32 {
        let height = 104 + i;
        let bh = mine_header(&prev, &[71 + i as u8; 32], 1_001_100 + i, EASY_BITS);
        let bh_hash = hash256(&bh);
        let ev = relay
            .submit_block_header(&bh, &bh_hash, &prev, 3, height, 4)
            .unwrap();
        if let Some(e) = ev {
            events += 1;
            last_event = Some(e);
        }
        branch.push(bh_hash.clone());
        prev = bh_hash;
    }
    // exactly one promotion, crossing both fork records
    assert_eq!(events, 1);
    let e = last_event.unwrap();
    assert_eq!(e.from, main_a_hash);
    assert_eq!(e.to, prev);
    assert_eq!(e.chain_id, 3);
    assert_eq!(relay.best_height(), 107);
    assert_eq!(relay.best_block(), prev);
    // heights 101..107 hold the promoted branch: the fork-2 prefix up to
    // the divergence point, then the fork-3 blocks
    for (i, h) in branch.iter().enumerate() {
        let height = 101 + i as u32;
        assert_eq!(relay.canonical_hash_at(height), Some(h.clone()));
        assert_eq!(relay.get_header(h).unwrap().chain_id, 1);
    }
    // the fork-2 tail past the divergence point was not promoted
    assert_eq!(relay.get_header(&f3_hash).unwrap().chain_id, 2);
    // the displaced main-chain block moved to the retired fork id
    assert_eq!(relay.get_header(&main_a_hash).unwrap().chain_id, 4);
    assert_eq!(relay.chain_counter(), 4);
    // both promoted fork records were retired; the main record absorbed
    // the whole branch
    assert!(relay.get_fork(2).is_none());
    assert!(relay.get_fork(3).is_none());
    let main_fork = relay.get_fork(1).unwrap();
    assert_eq!(main_fork.height, 107);
    assert_eq!(main_fork.descendants.len(), 8);
    assert_eq!(main_fork.descendants[0], ghash);
    assert_eq!(main_fork.descendants.last().unwrap(), &prev);
    let retired = relay.get_fork(4).unwrap();
    assert_eq!(retired.height, 101);
    assert_eq!(retired.descendants, vec![main_a_hash.clone()]);
    // straight-line growth continues on the main chain without delay
    let next = mine_header(&prev, &[80u8; 32], 1_002_000, EASY_BITS);
    let next_hash = hash256(&next);
    let ev = relay.submit_block_header(&next, &next_hash, &prev, 1, 108, 5).unwrap();
    assert!(ev.is_none());
    assert_eq!(relay.best_height(), 108);
    assert_eq!(relay.best_block(), next_hash);
    assert_eq!(relay.chain_counter(), 4);
}
