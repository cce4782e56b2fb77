//! The relay engine: genesis initialization, header submission with fork
//! tracking and reorg promotion, batch submission, and transaction
//! inclusion proofs. Every operation is a transition on an abstract relay
//! model, stated by a spec function and proved of the executable code.

use vstd::prelude::*;
use crate::bytes::{bytes_eq, clone_bytes, le_val};
use crate::codec::{
    extract_merkle_root, extract_prev_hash, extract_target_at, extract_timestamp, hash256,
    hash256_of, merkle_root_of, prev_hash_of, target_of, timestamp_of,
};
use crate::errors::RelayError;
use crate::retarget::{
    correct_target_spec, is_correct_difficulty_target, is_period_end, is_period_start,
    spec_is_period_end, spec_is_period_start,
};
use crate::store::{seq_views, BlockHash, ChainIndex, Fork, ForkMap, ForkModel, Header, HeaderMap};
use crate::u256::U256;
use crate::{CONFIRMATIONS, MAIN_CHAIN_ID};

verus! {

/// The process-wide ledger summary.
pub struct RelayState {
    pub best_block: Vec<u8>,
    pub best_height: u32,
    pub epoch_start_target: U256,
    pub epoch_end_target: U256,
    pub epoch_start_time: u32,
    pub epoch_end_time: u32,
    pub chain_counter: u32,
}

/// The notification a successful reorg promotion returns, exactly once.
pub struct ChainReorg {
    pub from: Vec<u8>,
    pub to: Vec<u8>,
    pub chain_id: u64,
}

#[verifier::ext_equal]
pub ghost struct ReorgModel {
    pub from: Seq<u8>,
    pub to: Seq<u8>,
    pub chain_id: u64,
}

impl View for ChainReorg {
    type V = ReorgModel;

    open spec fn view(&self) -> ReorgModel {
        ReorgModel { from: self.from@, to: self.to@, chain_id: self.chain_id }
    }
}

/// The whole relay: the ledger summary plus the header repository.
pub struct Relay {
    pub state: RelayState,
    pub headers: HeaderMap,
    pub forks: ForkMap,
    pub chain: ChainIndex,
}

/// The mathematical state of a relay.
#[verifier::ext_equal]
pub ghost struct RelayModel {
    pub best_block: Seq<u8>,
    pub best_height: u32,
    pub epoch_start_target: nat,
    pub epoch_end_target: nat,
    pub epoch_start_time: u32,
    pub epoch_end_time: u32,
    pub chain_counter: u32,
    pub headers: Map<Seq<u8>, Header>,
    pub forks: Map<u32, ForkModel>,
    pub chain: Map<u32, Seq<u8>>,
}

impl View for Relay {
    type V = RelayModel;

    open spec fn view(&self) -> RelayModel {
        RelayModel {
            best_block: self.state.best_block@,
            best_height: self.state.best_height,
            epoch_start_target: self.state.epoch_start_target.val(),
            epoch_end_target: self.state.epoch_end_target.val(),
            epoch_start_time: self.state.epoch_start_time,
            epoch_end_time: self.state.epoch_end_time,
            chain_counter: self.state.chain_counter,
            headers: self.headers@,
            forks: self.forks@,
            chain: self.chain@,
        }
    }
}

/// The all-zero hash that anchors the genesis fork.
pub open spec fn zero_hash() -> Seq<u8> {
    Seq::new(32, |i: int| 0u8)
}

/// What a successful initialization produces, and on which inputs it fails.
pub open spec fn init_transition(header: Seq<u8>, height: u32, block_hash: Seq<u8>) -> Result<
    RelayModel,
    RelayError,
> {
    if header.len() != 80 {
        Err(RelayError::InvalidHeaderSize)
    } else if height == 0 {
        Err(RelayError::InvalidGenesisHeight)
    } else if hash256_of(header) != block_hash {
        Err(RelayError::InvalidBlockHash)
    } else {
        Ok(
            RelayModel {
                best_block: block_hash,
                best_height: height,
                epoch_start_target: target_of(header),
                epoch_end_target: target_of(header),
                epoch_start_time: timestamp_of(header),
                epoch_end_time: timestamp_of(header),
                chain_counter: MAIN_CHAIN_ID,
                headers: Map::<Seq<u8>, Header>::empty().insert(
                    block_hash,
                    Header { height, chain_id: MAIN_CHAIN_ID },
                ),
                forks: Map::<u32, ForkModel>::empty().insert(
                    MAIN_CHAIN_ID,
                    ForkModel { height, ancestor: zero_hash(), descendants: seq![block_hash] },
                ),
                chain: Map::<u32, Seq<u8>>::empty().insert(height, block_hash),
            },
        )
    }
}

fn zero_hash_vec() -> (r: Vec<u8>)
    ensures
        r@ == zero_hash(),
{
    let mut b: Vec<u8> = Vec::new();
    let mut i: usize = 0;
    while i < 32
        invariant
            0 <= i <= 32,
            b@.len() == i as int,
            forall|j: int| 0 <= j < i ==> b@[j] == 0,
        decreases 32 - i,
    {
        b.push(0);
        i += 1;
    }
    proof {
        assert(b@ =~= zero_hash());
    }
    b
}

/// Build a fresh fork record holding a single block.
fn _initialize_fork(hash_curr_block: &Vec<u8>, hash_prev_block: &Vec<u8>, height: u32) -> (f: Fork)
    ensures
        f@ == (ForkModel {
            height,
            ancestor: hash_prev_block@,
            descendants: seq![hash_curr_block@],
        }),
{
    let mut ds: Vec<Vec<u8>> = Vec::new();
    ds.push(clone_bytes(hash_curr_block));
    proof {
        assert(seq_views(ds@) =~= seq![hash_curr_block@]);
    }
    Fork { height, ancestor: clone_bytes(hash_prev_block), descendants: ds }
}

/// The first check a submission fails, if any. The checks run in this
/// order: header size, counter compare-and-swap, recomputed hash against
/// the claimed one, duplicate, parent linkage, declared parent chain id,
/// proof of work, difficulty-period validation, then fork dispatch.
pub open spec fn submit_error(
    pre: RelayModel,
    header: Seq<u8>,
    block_hash: Seq<u8>,
    parent_hash: Seq<u8>,
    parent_chain_id: u32,
    block_height: u32,
    next_counter: u32,
) -> Option<RelayError> {
    if header.len() != 80 {
        Some(RelayError::InvalidHeaderSize)
    } else if pre.chain_counter + 1 != next_counter {
        Some(RelayError::InvalidCounter)
    } else if hash256_of(header) != block_hash {
        Some(RelayError::InvalidBlockHash)
    } else if pre.headers.contains_key(block_hash) {
        Some(RelayError::DuplicateBlock)
    } else if !pre.headers.contains_key(parent_hash) || pre.headers[parent_hash].height + 1
        != block_height {
        Some(RelayError::PreviousBlockNotFound)
    } else if pre.headers[parent_hash].chain_id != parent_chain_id {
        Some(RelayError::InvalidChainId)
    } else if le_val(block_hash) > target_of(header) {
        Some(RelayError::LowDifficulty)
    } else {
        let period_check = if spec_is_period_start(block_height) {
            match correct_target_spec(
                pre.epoch_start_target,
                pre.epoch_start_time,
                pre.epoch_end_target,
                pre.epoch_end_time,
                target_of(header),
            ) {
                Err(e) => Some(e),
                Ok(b) => if b {
                    None
                } else {
                    Some(RelayError::IncorrectDifficultyTarget)
                },
            }
        } else {
            None
        };
        if period_check is Some {
            period_check
        } else if !pre.forks.contains_key(parent_chain_id) {
            Some(RelayError::ForkNotFound)
        } else {
            let parent = pre.headers[parent_hash];
            let pfork = pre.forks[parent_chain_id];
            if pfork.height != parent.height {
                None
            } else if parent_chain_id == MAIN_CHAIN_ID {
                None
            } else if block_height >= pre.best_height + CONFIRMATIONS {
                reorg_error(pre, block_hash, parent_chain_id, block_height)
            } else {
                None
            }
        }
    }
}

/// The header map just after the submitted block is recorded on its
/// parent's fork.
pub open spec fn mid_headers(
    pre: RelayModel,
    block_hash: Seq<u8>,
    block_height: u32,
    parent_chain_id: u32,
) -> Map<Seq<u8>, Header> {
    pre.headers.insert(block_hash, Header { height: block_height, chain_id: parent_chain_id })
}

/// The fork map just after the submitted block is appended to its
/// parent's fork.
pub open spec fn mid_forks(
    pre: RelayModel,
    block_hash: Seq<u8>,
    block_height: u32,
    parent_chain_id: u32,
) -> Map<u32, ForkModel> {
    let f = pre.forks[parent_chain_id];
    pre.forks.insert(
        parent_chain_id,
        ForkModel {
            height: block_height,
            ancestor: f.ancestor,
            descendants: f.descendants.push(block_hash),
        },
    )
}

/// Walk fork records from `id` back toward the main chain through each
/// fork's ancestor. Yields the promoted fork ids (main-side first), the
/// promoted hashes in height order, and the main-chain hash the earliest
/// fork diverged from; `None` when a record is missing, a segment does
/// not reach back to its divergence height, or the fuel runs out on a
/// malformed chain. Of each ancestor fork only the descendants at or
/// below the height the child diverged from (`cut`) belong to the
/// overtaking branch; descendants past that point stay where they are.
pub open spec fn branch_walk(
    forks: Map<u32, ForkModel>,
    headers: Map<Seq<u8>, Header>,
    id: u32,
    cut: Option<u32>,
    fuel: nat,
) -> Option<(Seq<u32>, Seq<Seq<u8>>, Seq<u8>)>
    decreases fuel,
{
    if !forks.contains_key(id) {
        None
    } else {
        let f = forks[id];
        let seg_len: Option<int> = match cut {
            None => Some(f.descendants.len() as int),
            Some(c) => if f.height < c || f.descendants.len() < f.height - c {
                None
            } else {
                Some(f.descendants.len() - (f.height - c))
            },
        };
        match seg_len {
            None => None,
            Some(keep) => {
                let seg = f.descendants.take(keep);
                if !headers.contains_key(f.ancestor) {
                    None
                } else {
                    let anc_id = headers[f.ancestor].chain_id;
                    if anc_id == MAIN_CHAIN_ID {
                        Some((seq![id], seg, f.ancestor))
                    } else if fuel == 0 {
                        None
                    } else {
                        match branch_walk(
                            forks,
                            headers,
                            anc_id,
                            Some(headers[f.ancestor].height),
                            (fuel - 1) as nat,
                        ) {
                            None => None,
                            Some(w) => Some((w.0.push(id), w.1 + seg, w.2)),
                        }
                    }
                }
            },
        }
    }
}

/// The gathered branch covers exactly the heights ending at the tip,
/// one block per height with no gaps.
pub open spec fn branch_contiguous(
    hs: Seq<Seq<u8>>,
    headers: Map<Seq<u8>, Header>,
    tip_height: u32,
) -> bool {
    &&& 1 <= hs.len() <= tip_height
    &&& forall|i: int|
        0 <= i < hs.len() ==> headers.contains_key(#[trigger] hs[i]) && headers[hs[i]].height
            + hs.len() == tip_height + 1 + i
}

/// How many of the main chain's recorded descendants lie at or below the
/// branch point `h0 - 1` and therefore survive a promotion; `None` when
/// the main record is missing or does not reach back that far.
pub open spec fn main_keep_len(forks: Map<u32, ForkModel>, h0: int) -> Option<int> {
    if !forks.contains_key(MAIN_CHAIN_ID) {
        None
    } else {
        let mf = forks[MAIN_CHAIN_ID];
        if mf.height < h0 - 1 || mf.descendants.len() < mf.height - (h0 - 1) {
            None
        } else {
            Some(mf.descendants.len() - (mf.height - (h0 - 1)))
        }
    }
}

/// Why a reorg promotion fails, if it does.
pub open spec fn reorg_error(
    pre: RelayModel,
    block_hash: Seq<u8>,
    parent_chain_id: u32,
    block_height: u32,
) -> Option<RelayError> {
    let mh = mid_headers(pre, block_hash, block_height, parent_chain_id);
    let mf = mid_forks(pre, block_hash, block_height, parent_chain_id);
    match branch_walk(mf, mh, parent_chain_id, None, pre.chain_counter as nat) {
        None => Some(RelayError::ForkNotFound),
        Some(w) => if !branch_contiguous(w.1, mh, block_height) {
            Some(RelayError::ForkNotFound)
        } else if main_keep_len(mf, block_height + 1 - w.1.len()) is None {
            Some(RelayError::ForkNotFound)
        } else {
            None
        },
    }
}

/// Whether `k` was a canonical hash at one of the promoted heights.
pub open spec fn demoted_key(
    chain: Map<u32, Seq<u8>>,
    count: int,
    h0: int,
    k: Seq<u8>,
) -> bool {
    exists|i: int|
        0 <= i < count && chain.contains_key(#[trigger] ((h0 + i) as u32)) && chain[(h0
            + i) as u32] == k
}

/// The header map after promotion: branch members join the main chain,
/// the headers they displace move to the retired fork id, everything
/// else is untouched.
pub open spec fn reorg_headers(
    mh: Map<Seq<u8>, Header>,
    chain: Map<u32, Seq<u8>>,
    hs: Seq<Seq<u8>>,
    h0: int,
    retired: u32,
) -> Map<Seq<u8>, Header> {
    Map::new(
        |k: Seq<u8>| mh.dom().contains(k),
        |k: Seq<u8>|
            if hs.contains(k) {
                Header { height: mh[k].height, chain_id: MAIN_CHAIN_ID }
            } else if demoted_key(chain, hs.len() as int, h0, k) {
                Header { height: mh[k].height, chain_id: retired }
            } else {
                mh[k]
            },
    )
}

/// The canonical index after promotion: the promoted heights now hold the
/// branch hashes.
pub open spec fn reorg_chain_map(chain: Map<u32, Seq<u8>>, hs: Seq<Seq<u8>>, h0: int) -> Map<
    u32,
    Seq<u8>,
> {
    Map::new(
        |h: u32| chain.dom().contains(h) || h0 <= h < h0 + hs.len(),
        |h: u32|
            if h0 <= h < h0 + hs.len() {
                hs[h - h0]
            } else {
                chain[h]
            },
    )
}

/// The displaced canonical hashes in height order: the demoted fork's
/// descendants.
pub open spec fn demoted_hashes(chain: Map<u32, Seq<u8>>, h0: int, count: nat) -> Seq<Seq<u8>>
    decreases count,
{
    if count == 0 {
        Seq::empty()
    } else {
        let prefix = demoted_hashes(chain, h0, (count - 1) as nat);
        let h = (h0 + count - 1) as u32;
        if chain.contains_key(h) {
            prefix.push(chain[h])
        } else {
            prefix
        }
    }
}

/// A map without the given keys.
pub open spec fn remove_ids(m: Map<u32, ForkModel>, ids: Seq<u32>) -> Map<u32, ForkModel> {
    Map::new(|k: u32| m.dom().contains(k) && !ids.contains(k), |k: u32| m[k])
}

/// The state after a successful promotion, and the notification it
/// returns: the branch joins the main chain — the main fork record
/// absorbs it, keeping its descendants up to the branch point and taking
/// the promoted hashes from there — the displaced headers move to a
/// freshly retired fork id that also receives a fork record for them,
/// the promoted fork records are dropped, and the best block becomes the
/// branch tip.
pub open spec fn reorg_transition(
    st1: RelayModel,
    block_hash: Seq<u8>,
    parent_chain_id: u32,
    block_height: u32,
) -> (RelayModel, ReorgModel) {
    let mh = mid_headers(st1, block_hash, block_height, parent_chain_id);
    let mf = mid_forks(st1, block_hash, block_height, parent_chain_id);
    let w = branch_walk(mf, mh, parent_chain_id, None, st1.chain_counter as nat).unwrap();
    let h0 = block_height + 1 - w.1.len();
    let retired = (st1.chain_counter + 1) as u32;
    let demoted = ForkModel {
        height: st1.best_height,
        ancestor: w.2,
        descendants: demoted_hashes(st1.chain, h0, w.1.len()),
    };
    let mainf = mf[MAIN_CHAIN_ID];
    let new_main = ForkModel {
        height: block_height,
        ancestor: mainf.ancestor,
        descendants: mainf.descendants.take(main_keep_len(mf, h0).unwrap()) + w.1,
    };
    (
        RelayModel {
            best_block: block_hash,
            best_height: block_height,
            chain_counter: retired,
            headers: reorg_headers(mh, st1.chain, w.1, h0, retired),
            forks: remove_ids(mf, w.0).insert(MAIN_CHAIN_ID, new_main).insert(retired, demoted),
            chain: reorg_chain_map(st1.chain, w.1, h0),
            ..st1
        },
        ReorgModel { from: st1.best_block, to: block_hash, chain_id: parent_chain_id as u64 },
    )
}

/// The epoch bookkeeping a submission performs before fork dispatch: a
/// period-start header resets the start sample and clears the end sample;
/// a period-end header records the end sample.
pub open spec fn epoch_update(pre: RelayModel, header: Seq<u8>, block_height: u32) -> RelayModel {
    if spec_is_period_start(block_height) {
        RelayModel {
            epoch_start_target: target_of(header),
            epoch_start_time: timestamp_of(header),
            epoch_end_target: 0,
            epoch_end_time: 0,
            ..pre
        }
    } else if spec_is_period_end(block_height) {
        RelayModel {
            epoch_end_target: target_of(header),
            epoch_end_time: timestamp_of(header),
            ..pre
        }
    } else {
        pre
    }
}

/// The full submission transition: either the first failing check's
/// error, or the successor state together with the reorg notification
/// when the submission promoted a fork.
pub open spec fn submit_transition(
    pre: RelayModel,
    header: Seq<u8>,
    block_hash: Seq<u8>,
    parent_hash: Seq<u8>,
    parent_chain_id: u32,
    block_height: u32,
    next_counter: u32,
) -> Result<(RelayModel, Option<ReorgModel>), RelayError> {
    match submit_error(
        pre,
        header,
        block_hash,
        parent_hash,
        parent_chain_id,
        block_height,
        next_counter,
    ) {
        Some(e) => Err(e),
        None => {
            let st1 = epoch_update(pre, header, block_height);
            let parent = pre.headers[parent_hash];
            let pfork = pre.forks[parent_chain_id];
            if pfork.height != parent.height {
                // The parent already has a later descendant: a new fork
                // anchored at the parent.
                Ok(
                    (
                        RelayModel {
                            chain_counter: next_counter,
                            headers: st1.headers.insert(
                                block_hash,
                                Header { height: block_height, chain_id: next_counter },
                            ),
                            forks: st1.forks.insert(
                                next_counter,
                                ForkModel {
                                    height: block_height,
                                    ancestor: parent_hash,
                                    descendants: seq![block_hash],
                                },
                            ),
                            ..st1
                        },
                        None,
                    ),
                )
            } else if parent_chain_id == MAIN_CHAIN_ID {
                // Extending the main chain advances the best block at once.
                Ok(
                    (
                        RelayModel {
                            best_block: block_hash,
                            best_height: block_height,
                            headers: st1.headers.insert(
                                block_hash,
                                Header { height: block_height, chain_id: MAIN_CHAIN_ID },
                            ),
                            forks: st1.forks.insert(
                                MAIN_CHAIN_ID,
                                ForkModel {
                                    height: block_height,
                                    ancestor: pfork.ancestor,
                                    descendants: pfork.descendants.push(block_hash),
                                },
                            ),
                            chain: st1.chain.insert(block_height, block_hash),
                            ..st1
                        },
                        None,
                    ),
                )
            } else if block_height >= pre.best_height + CONFIRMATIONS {
                // The fork outpaces the best chain: promote it.
                let post = reorg_transition(st1, block_hash, parent_chain_id, block_height);
                Ok((post.0, Some(post.1)))
            } else {
                // Extending a fork that stays behind the best chain.
                Ok(
                    (
                        RelayModel {
                            headers: st1.headers.insert(
                                block_hash,
                                Header { height: block_height, chain_id: parent_chain_id },
                            ),
                            forks: st1.forks.insert(
                                parent_chain_id,
                                ForkModel {
                                    height: block_height,
                                    ancestor: pfork.ancestor,
                                    descendants: pfork.descendants.push(block_hash),
                                },
                            ),
                            ..st1
                        },
                        None,
                    ),
                )
            }
        },
    }
}


/// One merkle fold step per 32-byte sibling: pair-hash with the sibling,
/// on the side the index's low bit selects, then halve the index.
pub open spec fn merkle_fold(cur: Seq<u8>, proof: Seq<u8>, index: nat) -> Seq<u8>
    decreases proof.len(),
{
    if proof.len() < 32 {
        cur
    } else {
        let sib = proof.take(32);
        let next = if index % 2 == 1 {
            hash256_of(sib + cur)
        } else {
            hash256_of(cur + sib)
        };
        merkle_fold(next, proof.skip(32), index / 2)
    }
}

/// How many confirmations the canonical block at `height` has.
pub open spec fn spec_available_confirmations(pre: RelayModel, height: u32) -> int {
    if height <= pre.best_height {
        pre.best_height - height + 1
    } else {
        0
    }
}

/// What a transaction-inclusion check returns: each failing condition's
/// error, in order, or success.
pub open spec fn verify_tx_spec(
    pre: RelayModel,
    height: u32,
    index: u64,
    txid: Seq<u8>,
    header: Seq<u8>,
    proof: Seq<u8>,
    confirmations: u64,
    insecure: bool,
) -> Result<bool, RelayError> {
    if txid.len() != 32 {
        Err(RelayError::InvalidTxId)
    } else if header.len() != 80 {
        Err(RelayError::InvalidHeaderSize)
    } else if proof.len() % 32 != 0 {
        Err(RelayError::IncorrectMerkleProof)
    } else if !pre.chain.contains_key(height) {
        Err(RelayError::BlockNotFound)
    } else if hash256_of(header) != pre.chain[height] {
        Err(RelayError::InvalidBlockHash)
    } else if !insecure && confirmations > spec_available_confirmations(pre, height) {
        Err(RelayError::InsufficientConfirmations)
    } else if merkle_fold(txid, proof, index as nat) != merkle_root_of(header) {
        Err(RelayError::IncorrectMerkleProof)
    } else {
        Ok(true)
    }
}

/// One batch step: the submission arguments are derived from the raw
/// header bytes and the current state, then the submission transition is
/// applied.
pub open spec fn batch_step(pre: RelayModel, header: Seq<u8>) -> Result<RelayModel, RelayError> {
    if header.len() != 80 {
        Err(RelayError::InvalidHeaderSize)
    } else {
        let bh = hash256_of(header);
        let ph = prev_hash_of(header);
        if !pre.headers.contains_key(ph) {
            Err(RelayError::PreviousBlockNotFound)
        } else if pre.headers[ph].height == u32::MAX || pre.chain_counter == u32::MAX {
            Err(RelayError::ArithmeticError)
        } else {
            match submit_transition(
                pre,
                header,
                bh,
                ph,
                pre.headers[ph].chain_id,
                (pre.headers[ph].height + 1) as u32,
                (pre.chain_counter + 1) as u32,
            ) {
                Ok(post) => Ok(post.0),
                Err(e) => Err(e),
            }
        }
    }
}

/// The whole batch, applied strictly in order; the first failure aborts.
pub open spec fn batch_transition(pre: RelayModel, headers: Seq<Seq<u8>>) -> Result<
    RelayModel,
    RelayError,
>
    decreases headers.len(),
{
    if headers.len() == 0 {
        Ok(pre)
    } else {
        match batch_step(pre, headers[0]) {
            Err(e) => Err(e),
            Ok(m) => batch_transition(m, headers.skip(1)),
        }
    }
}

/// The concatenation of two byte vectors.
fn concat_bytes(a: &Vec<u8>, b: &Vec<u8>) -> (r: Vec<u8>)
    ensures
        r@ == a@ + b@,
{
    let mut out = clone_bytes(a);
    let n = b.len();
    let mut i: usize = 0;
    while i < n
        invariant
            0 <= i <= n,
            n == b@.len(),
            out@ =~= a@ + b@.take(i as int),
        decreases n - i,
    {
        out.push(b[i]);
        proof {
            assert(out@ =~= a@ + b@.take(i + 1));
        }
        i += 1;
    }
    proof {
        assert(out@ =~= a@ + b@);
    }
    out
}

impl Relay {
    /// The representation invariant: the stored targets and the best-block
    /// hash are well-formed 32-byte values.
    pub open spec fn wf(&self) -> bool {
        &&& self.state.epoch_start_target.wf()
        &&& self.state.epoch_end_target.wf()
        &&& self.state.best_block@.len() == 32
    }

    /// Set up the relay from the genesis block.
    pub fn initialize(
        genesis_header: &Vec<u8>,
        genesis_height: u32,
        genesis_block_hash: &Vec<u8>,
    ) -> (r: Result<Relay, RelayError>)
        ensures
            match r {
                Ok(relay) => relay.wf() && init_transition(genesis_header@, genesis_height,
                    genesis_block_hash@) == Ok::<RelayModel, RelayError>(relay@),
                Err(e) => init_transition(genesis_header@, genesis_height, genesis_block_hash@)
                    == Err::<RelayModel, RelayError>(e),
            },
    {
        if genesis_header.len() != 80 {
            return Err(RelayError::InvalidHeaderSize);
        }
        if genesis_height == 0 {
            return Err(RelayError::InvalidGenesisHeight);
        }
        let digest = hash256(genesis_header);
        if !bytes_eq(&digest, genesis_block_hash) {
            return Err(RelayError::InvalidBlockHash);
        }
        let target = extract_target_at(genesis_header, 0);
        let timestamp = extract_timestamp(genesis_header);
        let mut headers = HeaderMap::new();
        headers.set(&digest, Header { height: genesis_height, chain_id: MAIN_CHAIN_ID });
        let mut forks = ForkMap::new();
        let anc = zero_hash_vec();
        forks.set(MAIN_CHAIN_ID, _initialize_fork(&digest, &anc, genesis_height));
        let mut chain = ChainIndex::new();
        chain.set(genesis_height, BlockHash { block_hash: clone_bytes(&digest) });
        let end_target = target.clone_u256();
        let relay = Relay {
            state: RelayState {
                best_block: clone_bytes(&digest),
                best_height: genesis_height,
                epoch_start_target: target,
                epoch_end_target: end_target,
                epoch_start_time: timestamp,
                epoch_end_time: timestamp,
                chain_counter: MAIN_CHAIN_ID,
            },
            headers,
            forks,
            chain,
        };
        proof {
            let expected = init_transition(genesis_header@, genesis_height,
                genesis_block_hash@).unwrap();
            assert(relay@ =~= expected);
        }
        Ok(relay)
    }

    /// Record a header and make it the canonical block at its height.
    fn _store_block_header(&mut self, digest: &Vec<u8>, height: u32, chain_id: u32)
        ensures
            final(self).state == old(self).state,
            final(self).forks == old(self).forks,
            final(self)@.headers == old(self)@.headers.insert(
                digest@,
                Header { height, chain_id },
            ),
            final(self)@.chain == old(self)@.chain.insert(height, digest@),
    {
        self.headers.set(digest, Header { height, chain_id });
        self.chain.set(height, BlockHash { block_hash: clone_bytes(digest) });
    }

    /// An explicit deep copy; batch submission stages its work on one.
    pub fn clone_relay(&self) -> (r: Relay)
        ensures
            r@ == self@,
            self.wf() ==> r.wf(),
    {
        let r = Relay {
            state: RelayState {
                best_block: clone_bytes(&self.state.best_block),
                best_height: self.state.best_height,
                epoch_start_target: self.state.epoch_start_target.clone_u256(),
                epoch_end_target: self.state.epoch_end_target.clone_u256(),
                epoch_start_time: self.state.epoch_start_time,
                epoch_end_time: self.state.epoch_end_time,
                chain_counter: self.state.chain_counter,
            },
            headers: self.headers.clone_map(),
            forks: self.forks.clone_map(),
            chain: self.chain.clone_map(),
        };
        proof {
            assert(r@ =~= self@);
        }
        r
    }

    /// Gather the promotion branch for the fork `start_id` by walking its
    /// ancestor chain back to the main chain, with the chain counter as
    /// the bound against malformed (cyclic) fork graphs.
    fn collect_branch(&self, start_id: u32) -> (r: Result<
        (Vec<u32>, Vec<Vec<u8>>, Vec<u8>),
        RelayError,
    >)
        ensures
            match branch_walk(
                self@.forks,
                self@.headers,
                start_id,
                None,
                self@.chain_counter as nat,
            ) {
                None => r == Err::<(Vec<u32>, Vec<Vec<u8>>, Vec<u8>), RelayError>(
                    RelayError::ForkNotFound,
                ),
                Some(w) => r matches Ok(t) && t.0@ == w.0 && seq_views(t.1@) == w.1 && t.2@ == w.2,
            },
    {
        let ghost full = branch_walk(
            self@.forks,
            self@.headers,
            start_id,
            None,
            self@.chain_counter as nat,
        );
        let mut ids_acc: Vec<u32> = Vec::new();
        let mut hashes_acc: Vec<Vec<u8>> = Vec::new();
        let mut cur: u32 = start_id;
        let mut cut: Option<u32> = None;
        let mut fuel: u32 = self.state.chain_counter;
        proof {
            assert(seq_views(hashes_acc@) =~= Seq::<Seq<u8>>::empty());
        }
        loop
            invariant
                full == branch_walk(
                    self@.forks,
                    self@.headers,
                    start_id,
                    None,
                    self@.chain_counter as nat,
                ),
                match branch_walk(self@.forks, self@.headers, cur, cut, fuel as nat) {
                    None => full is None,
                    Some(w0) => full matches Some(w) && w.0 == w0.0 + ids_acc@ && w.1 == w0.1
                        + seq_views(hashes_acc@) && w.2 == w0.2,
                },
            decreases fuel,
        {
            let f = match self.forks.get(cur) {
                None => {
                    return Err(RelayError::ForkNotFound);
                },
                Some(f) => f,
            };
            // only the descendants at or below the divergence height
            // belong to the branch
            let keep: usize = match cut {
                None => f.descendants.len(),
                Some(c) => {
                    if f.height < c {
                        return Err(RelayError::ForkNotFound);
                    }
                    let drop = (f.height - c) as usize;
                    if f.descendants.len() < drop {
                        return Err(RelayError::ForkNotFound);
                    }
                    f.descendants.len() - drop
                },
            };
            let ghost seg = f@.descendants.take(keep as int);
            let anc_hdr = match self.headers.get(&f.ancestor) {
                None => {
                    return Err(RelayError::ForkNotFound);
                },
                Some(h) => h,
            };
            if anc_hdr.chain_id == MAIN_CHAIN_ID {
                let ids = prepend_id(cur, &ids_acc);
                let hashes = prepend_hashes(&f.descendants, keep, &hashes_acc);
                proof {
                    assert(branch_walk(self@.forks, self@.headers, cur, cut, fuel as nat)
                        matches Some(w0) && w0.0 == seq![cur] && w0.1 == seg && w0.2
                        == f@.ancestor);
                    assert(seq![cur] + ids_acc@ =~= ids@);
                    assert(seq_views(f.descendants@.take(keep as int)) =~= seg);
                }
                return Ok((ids, hashes, f.ancestor));
            }
            if fuel == 0 {
                return Err(RelayError::ForkNotFound);
            }
            let ghost ids_old = ids_acc@;
            let ghost hashes_old = seq_views(hashes_acc@);
            let ghost cur_old = cur;
            let ghost cut_old = cut;
            let ghost fuel_old = fuel as nat;
            fuel = fuel - 1;
            ids_acc = prepend_id(cur, &ids_acc);
            hashes_acc = prepend_hashes(&f.descendants, keep, &hashes_acc);
            cut = Some(anc_hdr.height);
            cur = anc_hdr.chain_id;
            proof {
                assert(ids_acc@ == seq![cur_old] + ids_old);
                assert(seq_views(f.descendants@.take(keep as int)) =~= seg);
                assert(seq_views(hashes_acc@) == seg + hashes_old);
                match branch_walk(self@.forks, self@.headers, cur, cut, fuel as nat) {
                    None => {
                        assert(branch_walk(self@.forks, self@.headers, cur_old, cut_old, fuel_old)
                            is None);
                    },
                    Some(w0) => {
                        assert(branch_walk(self@.forks, self@.headers, cur_old, cut_old, fuel_old)
                            matches Some(wc) && wc.0 == w0.0.push(cur_old) && wc.1 == w0.1 + seg
                            && wc.2 == w0.2);
                        assert(w0.0.push(cur_old) + ids_old =~= w0.0 + (seq![cur_old] + ids_old));
                        assert((w0.1 + seg) + hashes_old =~= w0.1 + (seg + hashes_old));
                    },
                }
            }
        }
    }

    /// Promote the fork `chain_id` — whose freshly appended tip
    /// `hash_curr_block` stands at `height` — into the main chain:
    /// all-or-nothing, failing before any rewrite when a record is missing
    /// or the gathered branch does not line up.
    fn reorg_chain(&mut self, chain_id: u32, height: u32, hash_curr_block: &Vec<u8>) -> (r: Result<
        ChainReorg,
        RelayError,
    >)
        requires
            old(self).wf(),
            old(self)@.chain_counter < u32::MAX,
            hash_curr_block@.len() == 32,
        ensures
            match branch_walk(
                old(self)@.forks,
                old(self)@.headers,
                chain_id,
                None,
                old(self)@.chain_counter as nat,
            ) {
                None => r == Err::<ChainReorg, RelayError>(RelayError::ForkNotFound),
                Some(w) => if !branch_contiguous(w.1, old(self)@.headers, height) {
                    r == Err::<ChainReorg, RelayError>(RelayError::ForkNotFound)
                } else if main_keep_len(old(self)@.forks, height + 1 - w.1.len()) is None {
                    r == Err::<ChainReorg, RelayError>(RelayError::ForkNotFound)
                } else {
                    let h0 = height + 1 - w.1.len();
                    let retired = (old(self)@.chain_counter + 1) as u32;
                    let mainf = old(self)@.forks[MAIN_CHAIN_ID];
                    &&& r matches Ok(ev) && ev@ == (ReorgModel {
                        from: old(self)@.best_block,
                        to: hash_curr_block@,
                        chain_id: chain_id as u64,
                    })
                    &&& final(self).wf()
                    &&& final(self)@ == (RelayModel {
                        best_block: hash_curr_block@,
                        best_height: height,
                        chain_counter: retired,
                        headers: reorg_headers(
                            old(self)@.headers,
                            old(self)@.chain,
                            w.1,
                            h0,
                            retired,
                        ),
                        forks: remove_ids(old(self)@.forks, w.0).insert(
                            MAIN_CHAIN_ID,
                            ForkModel {
                                height,
                                ancestor: mainf.ancestor,
                                descendants: mainf.descendants.take(
                                    main_keep_len(old(self)@.forks, h0).unwrap(),
                                ) + w.1,
                            },
                        ).insert(
                            retired,
                            ForkModel {
                                height: old(self)@.best_height,
                                ancestor: w.2,
                                descendants: demoted_hashes(old(self)@.chain, h0, w.1.len()),
                            },
                        ),
                        chain: reorg_chain_map(old(self)@.chain, w.1, h0),
                        ..old(self)@
                    })
                },
            },
    {
        let walk = match self.collect_branch(chain_id) {
            Ok(t) => t,
            Err(e) => {
                return Err(e);
            },
        };
        let ids = walk.0;
        let hashes = walk.1;
        let root = walk.2;
        let ghost w = branch_walk(
            self@.forks,
            self@.headers,
            chain_id,
            None,
            self@.chain_counter as nat,
        ).unwrap();
        let n = hashes.len();
        if n == 0 || (n as u64) > (height as u64) {
            return Err(RelayError::ForkNotFound);
        }
        let h0: u32 = height - (n as u32) + 1;
        let mut i: usize = 0;
        while i < n
            invariant
                *self == *old(self),
                0 <= i <= n,
                n == hashes@.len(),
                1 <= n <= height,
                h0 + n == height + 1,
                w == branch_walk(
                    self@.forks,
                    self@.headers,
                    chain_id,
                    None,
                    self@.chain_counter as nat,
                ).unwrap(),
                w.1 == seq_views(hashes@),
                forall|j: int|
                    0 <= j < i ==> self@.headers.contains_key(#[trigger] w.1[j])
                        && self@.headers[w.1[j]].height + n == height + 1 + j,
            decreases n - i,
        {
            let bad: bool = match self.headers.get(&hashes[i]) {
                None => true,
                Some(h) => (h.height as u64) + (n as u64) != (height as u64) + 1 + (i as u64),
            };
            if bad {
                proof {
                    assert(seq_views(hashes@)[i as int] == hashes@[i as int]@);
                    if branch_contiguous(w.1, self@.headers, height) {
                        assert(self@.headers.contains_key(w.1[i as int])
                            && self@.headers[w.1[i as int]].height + n == height + 1 + i);
                        assert(false);
                    }
                }
                return Err(RelayError::ForkNotFound);
            }
            proof {
                assert(seq_views(hashes@)[i as int] == hashes@[i as int]@);
            }
            i += 1;
        }
        proof {
            assert(branch_contiguous(w.1, self@.headers, height));
        }
        // The main chain's record must reach back to the branch point; its
        // prefix up to there survives, the promoted branch replaces the rest.
        let mainf = match self.forks.get(MAIN_CHAIN_ID) {
            Some(f) => f,
            None => {
                return Err(RelayError::ForkNotFound);
            },
        };
        if (mainf.height as u64) + 1 < (h0 as u64) {
            return Err(RelayError::ForkNotFound);
        }
        let drop_m: u32 = mainf.height - (h0 - 1);
        if (mainf.descendants.len() as u64) < (drop_m as u64) {
            return Err(RelayError::ForkNotFound);
        }
        let keep_m: usize = mainf.descendants.len() - (drop_m as usize);
        proof {
            assert(main_keep_len(self@.forks, h0 as int) == Some(keep_m as int));
        }
        let new_main_desc = prepend_hashes(&mainf.descendants, keep_m, &hashes);
        let ghost mainfm = mainf@;
        proof {
            assert(seq_views(mainf.descendants@.take(keep_m as int)) =~= mainfm.descendants.take(
                keep_m as int,
            ));
            assert(seq_views(new_main_desc@) == mainfm.descendants.take(keep_m as int) + w.1);
        }
        let ghost mid = self@;
        let retired: u32 = self.state.chain_counter + 1;
        // Demote: every header the branch displaces moves to the retired id.
        let mut demoted_vec: Vec<Vec<u8>> = Vec::new();
        let mut i: usize = 0;
        proof {
            assert(seq_views(demoted_vec@) =~= demoted_hashes(mid.chain, h0 as int, 0));
        }
        while i < n
            invariant
                0 <= i <= n,
                1 <= n <= height,
                h0 + n == height + 1,
                self.state == old(self).state,
                self.forks == old(self).forks,
                self.chain == old(self).chain,
                mid == old(self)@,
                retired == mid.chain_counter + 1,
                self@.headers.dom() =~= mid.headers.dom(),
                forall|k: Seq<u8>|
                    mid.headers.dom().contains(k) ==> #[trigger] self@.headers[k] == (
                    if demoted_key(mid.chain, i as int, h0 as int, k) {
                        Header { height: mid.headers[k].height, chain_id: retired }
                    } else {
                        mid.headers[k]
                    }),
                seq_views(demoted_vec@) == demoted_hashes(mid.chain, h0 as int, i as nat),
            decreases n - i,
        {
            let h: u32 = h0 + (i as u32);
            match self.chain.get(h) {
                None => {
                    proof {
                        assert forall|k: Seq<u8>|
                            demoted_key(mid.chain, i + 1, h0 as int, k) == demoted_key(
                            mid.chain, i as int, h0 as int, k) by {
                            if demoted_key(mid.chain, i + 1, h0 as int, k) {
                                let j = choose|j: int|
                                    0 <= j < i + 1 && mid.chain.contains_key(
                                        #[trigger] ((h0 + j) as u32),
                                    ) && mid.chain[(h0 + j) as u32] == k;
                                if j == i {
                                    assert(mid.chain.contains_key((h0 + i as int) as u32));
                                    assert(false);
                                }
                            }
                        }
                        assert(demoted_hashes(mid.chain, h0 as int, (i + 1) as nat)
                            == demoted_hashes(mid.chain, h0 as int, i as nat));
                    }
                },
                Some(old_hash) => {
                    match self.headers.get(&old_hash) {
                        None => {},
                        Some(oh) => {
                            self.headers.set(
                                &old_hash,
                                Header { height: oh.height, chain_id: retired },
                            );
                        },
                    }
                    let ghost dpre = demoted_vec@;
                    let ghost oh_view = old_hash@;
                    demoted_vec.push(old_hash);
                    proof {
                        crate::store::lemma_seq_views_push(dpre, demoted_vec@, oh_view);
                        assert(demoted_hashes(mid.chain, h0 as int, (i + 1) as nat)
                            == demoted_hashes(mid.chain, h0 as int, i as nat).push(
                            mid.chain[(h0 + i as int) as u32]));
                        assert(mid.chain[(h0 + i as int) as u32] == oh_view);
                        assert(seq_views(demoted_vec@) == demoted_hashes(
                            mid.chain, h0 as int, (i + 1) as nat));
                        assert forall|k: Seq<u8>| mid.headers.dom().contains(k)
                            implies #[trigger] self@.headers[k] == (
                            if demoted_key(mid.chain, i + 1, h0 as int, k) {
                                Header { height: mid.headers[k].height, chain_id: retired }
                            } else {
                                mid.headers[k]
                            }) by {
                            if k == oh_view {
                                assert(mid.chain.contains_key((h0 + i as int) as u32)
                                    && mid.chain[(h0 + i as int) as u32] == k);
                                assert(demoted_key(mid.chain, i + 1, h0 as int, k));
                            } else {
                                if demoted_key(mid.chain, i + 1, h0 as int, k) {
                                    let j = choose|j: int|
                                        0 <= j < i + 1 && mid.chain.contains_key(
                                            #[trigger] ((h0 + j) as u32),
                                        ) && mid.chain[(h0 + j) as u32] == k;
                                    if j == i {
                                        assert(k == oh_view);
                                        assert(false);
                                    }
                                    assert(demoted_key(mid.chain, i as int, h0 as int, k));
                                }
                            }
                        }
                    }
                },
            }
            i += 1;
        }
        // Promote: the branch members join the main chain and take over
        // the canonical index at their heights.
        let ghost demote_done = self@;
        let mut i: usize = 0;
        proof {
            assert(forall|k: Seq<u8>| !w.1.take(0).contains(k));
        }
        while i < n
            invariant
                0 <= i <= n,
                1 <= n <= height,
                h0 + n == height + 1,
                n == hashes@.len(),
                w.1 == seq_views(hashes@),
                self.state == old(self).state,
                self.forks == old(self).forks,
                mid == old(self)@,
                retired == mid.chain_counter + 1,
                branch_contiguous(w.1, mid.headers, height),
                self@.headers.dom() =~= mid.headers.dom(),
                forall|k: Seq<u8>|
                    mid.headers.dom().contains(k) ==> #[trigger] self@.headers[k] == (
                    if w.1.take(i as int).contains(k) {
                        Header { height: mid.headers[k].height, chain_id: MAIN_CHAIN_ID }
                    } else if demoted_key(mid.chain, n as int, h0 as int, k) {
                        Header { height: mid.headers[k].height, chain_id: retired }
                    } else {
                        mid.headers[k]
                    }),
                forall|h: u32|
                    #[trigger] self@.chain.dom().contains(h) == (mid.chain.dom().contains(h) || (
                    h0 <= h < h0 + i)),
                forall|h: u32|
                    self@.chain.dom().contains(h) ==> #[trigger] self@.chain[h] == (if h0 <= h < h0
                        + i {
                        w.1[h - h0]
                    } else {
                        mid.chain[h]
                    }),
            decreases n - i,
        {
            let h: u32 = h0 + (i as u32);
            proof {
                assert(seq_views(hashes@)[i as int] == hashes@[i as int]@);
                assert(mid.headers.contains_key(w.1[i as int]) && mid.headers[w.1[
                i as int]].height + n == height + 1 + i);
            }
            let ghost chain_pre = self@.chain;
            let hh = clone_bytes(&hashes[i]);
            self.headers.set(&hh, Header { height: h, chain_id: MAIN_CHAIN_ID });
            self.chain.set(h, BlockHash { block_hash: hh });
            proof {
                assert(self@.chain == chain_pre.insert(h, w.1[i as int]));
                assert(w.1.take(i + 1) =~= w.1.take(i as int).push(w.1[i as int]));
                assert forall|k: Seq<u8>| mid.headers.dom().contains(k)
                    implies #[trigger] self@.headers[k] == (
                    if w.1.take(i + 1).contains(k) {
                        Header { height: mid.headers[k].height, chain_id: MAIN_CHAIN_ID }
                    } else if demoted_key(mid.chain, n as int, h0 as int, k) {
                        Header { height: mid.headers[k].height, chain_id: retired }
                    } else {
                        mid.headers[k]
                    }) by {
                    if k == w.1[i as int] {
                        assert(w.1.take(i + 1).contains(k)) by {
                            assert(w.1.take(i + 1)[i as int] == k);
                        }
                    } else {
                        if w.1.take(i + 1).contains(k) {
                            let j = choose|j: int| 0 <= j < i + 1 && #[trigger] w.1.take(i + 1)[j] == k;
                            if j < i {
                                assert(w.1.take(i as int)[j] == k);
                            }
                        }
                        if w.1.take(i as int).contains(k) {
                            let j = choose|j: int| 0 <= j < i && #[trigger] w.1.take(i as int)[j] == k;
                            assert(w.1.take(i + 1)[j] == k);
                        }
                        assert(w.1.take(i + 1).contains(k) == w.1.take(i as int).contains(k));
                    }
                }
                assert forall|hx: u32|
                    #[trigger] self@.chain.dom().contains(hx) == (mid.chain.dom().contains(hx)
                    || (h0 <= hx < h0 + (i + 1))) by {
                    assert(chain_pre.dom().contains(hx) == (mid.chain.dom().contains(hx) || (h0
                        <= hx < h0 + i)));
                    assert(h == h0 + i);
                }
                assert forall|hx: u32| self@.chain.dom().contains(hx)
                    implies #[trigger] self@.chain[hx] == (if h0 <= hx < h0 + (i + 1) {
                    w.1[hx - h0]
                } else {
                    mid.chain[hx]
                }) by {
                    assert(h == h0 + i);
                    if hx == h {
                        assert(self@.chain[hx] == w.1[i as int]);
                    } else {
                        assert(chain_pre.dom().contains(hx) == (mid.chain.dom().contains(hx) || (
                        h0 <= hx < h0 + i)));
                        assert(self@.chain[hx] == chain_pre[hx]);
                        if chain_pre.dom().contains(hx) {
                            assert(chain_pre[hx] == (if h0 <= hx < h0 + i {
                                w.1[hx - h0]
                            } else {
                                mid.chain[hx]
                            }));
                        }
                    }
                }
            }
            i += 1;
        }
        proof {
            assert(w.1.take(n as int) =~= w.1);
        }
        // Retire the promoted fork records; the displaced segment gets a
        // record under the retired id.
        let m = ids.len();
        let mut i: usize = 0;
        proof {
            assert(self@.headers =~= reorg_headers(mid.headers, mid.chain, w.1, h0 as int,
                retired));
            assert(self@.chain =~= reorg_chain_map(mid.chain, w.1, h0 as int));
            assert(self@.forks =~= remove_ids(mid.forks, w.0.take(0)));
        }
        let ghost headers_done = self@.headers;
        let ghost chain_done = self@.chain;
        while i < m
            invariant
                0 <= i <= m,
                m == ids@.len(),
                w.0 == ids@,
                self.state == old(self).state,
                mid == old(self)@,
                self@.headers == headers_done,
                self@.chain == chain_done,
                headers_done == reorg_headers(mid.headers, mid.chain, w.1, h0 as int, retired),
                chain_done == reorg_chain_map(mid.chain, w.1, h0 as int),
                retired == mid.chain_counter + 1,
                self@.forks == remove_ids(mid.forks, w.0.take(i as int)),
            decreases m - i,
        {
            self.forks.remove(ids[i]);
            proof {
                assert forall|k: u32|
                    #[trigger] w.0.take(i + 1).contains(k) == (w.0.take(i as int).contains(k) || k
                    == w.0[i as int]) by {
                    if w.0.take(i + 1).contains(k) {
                        let j = choose|j: int| 0 <= j < i + 1 && #[trigger] w.0.take(i + 1)[j] == k;
                        if j < i {
                            assert(w.0.take(i as int)[j] == k);
                        }
                    }
                    if w.0.take(i as int).contains(k) {
                        let j = choose|j: int| 0 <= j < i && #[trigger] w.0.take(i as int)[j] == k;
                        assert(w.0.take(i + 1)[j] == k);
                    }
                    if k == w.0[i as int] {
                        assert(w.0.take(i + 1)[i as int] == k);
                    }
                }
                assert(self@.forks =~= remove_ids(mid.forks, w.0.take(i + 1)));
            }
            i += 1;
        }
        proof {
            assert(w.0.take(m as int) =~= w.0);
        }
        let new_main_fork = Fork {
            height,
            ancestor: mainf.ancestor,
            descendants: new_main_desc,
        };
        self.forks.set(MAIN_CHAIN_ID, new_main_fork);
        let demoted_fork = Fork {
            height: self.state.best_height,
            ancestor: root,
            descendants: demoted_vec,
        };
        self.forks.set(retired, demoted_fork);
        let from = clone_bytes(&self.state.best_block);
        self.state.chain_counter = retired;
        self.state.best_block = clone_bytes(hash_curr_block);
        self.state.best_height = height;
        let ev = ChainReorg { from, to: clone_bytes(hash_curr_block), chain_id: chain_id as u64 };
        proof {
            assert(self@.headers =~= reorg_headers(mid.headers, mid.chain, w.1, h0 as int,
                retired));
            assert(self@.chain =~= reorg_chain_map(mid.chain, w.1, h0 as int));
            assert(h0 as int == height + 1 - w.1.len());
            assert(self@ =~= (RelayModel {
                best_block: hash_curr_block@,
                best_height: height,
                chain_counter: retired,
                headers: reorg_headers(mid.headers, mid.chain, w.1, h0 as int, retired),
                forks: remove_ids(mid.forks, w.0).insert(
                    MAIN_CHAIN_ID,
                    ForkModel {
                        height,
                        ancestor: mainfm.ancestor,
                        descendants: mainfm.descendants.take(
                            main_keep_len(mid.forks, h0 as int).unwrap(),
                        ) + w.1,
                    },
                ).insert(
                    retired,
                    ForkModel {
                        height: mid.best_height,
                        ancestor: w.2,
                        descendants: demoted_hashes(mid.chain, h0 as int, w.1.len()),
                    },
                ),
                chain: reorg_chain_map(mid.chain, w.1, h0 as int),
                ..mid
            }));
        }
        Ok(ev)
    }

    /// The full submission pipeline, applied in place; on an error the
    /// relay may hold partial work, so the public entry point runs it on a
    /// staged copy.
    fn submit_inner(
        &mut self,
        header: &Vec<u8>,
        block_hash: &Vec<u8>,
        prev_block_hash: &Vec<u8>,
        prev_block_hash_chain_id: u32,
        block_height: u32,
        next_counter: u32,
    ) -> (r: Result<Option<ChainReorg>, RelayError>)
        requires
            old(self).wf(),
        ensures
            match submit_transition(
                old(self)@,
                header@,
                block_hash@,
                prev_block_hash@,
                prev_block_hash_chain_id,
                block_height,
                next_counter,
            ) {
                Ok(post) => {
                    &&& r is Ok
                    &&& final(self).wf()
                    &&& final(self)@ == post.0
                    &&& match (r.unwrap(), post.1) {
                        (Some(ev), Some(em)) => ev@ == em,
                        (None, None) => true,
                        _ => false,
                    }
                },
                Err(e) => r == Err::<Option<ChainReorg>, RelayError>(e),
            },
    {
        let ghost pre = self@;
        if header.len() != 80 {
            return Err(RelayError::InvalidHeaderSize);
        }
        if (self.state.chain_counter as u64) + 1 != (next_counter as u64) {
            return Err(RelayError::InvalidCounter);
        }
        let digest = hash256(header);
        if !bytes_eq(&digest, block_hash) {
            return Err(RelayError::InvalidBlockHash);
        }
        match self.headers.get(&digest) {
            Some(_) => {
                return Err(RelayError::DuplicateBlock);
            },
            None => {},
        }
        let parent = match self.headers.get(prev_block_hash) {
            Some(p) => p,
            None => {
                return Err(RelayError::PreviousBlockNotFound);
            },
        };
        if (parent.height as u64) + 1 != (block_height as u64) {
            return Err(RelayError::PreviousBlockNotFound);
        }
        if parent.chain_id != prev_block_hash_chain_id {
            return Err(RelayError::InvalidChainId);
        }
        let target = extract_target_at(header, 0);
        let hash_num = U256::from_le_bytes(&digest);
        if !hash_num.le(&target) {
            return Err(RelayError::LowDifficulty);
        }
        if is_period_start(block_height) {
            match is_correct_difficulty_target(
                &self.state.epoch_start_target,
                self.state.epoch_start_time,
                &self.state.epoch_end_target,
                self.state.epoch_end_time,
                &target,
            ) {
                Err(e) => {
                    return Err(e);
                },
                Ok(false) => {
                    return Err(RelayError::IncorrectDifficultyTarget);
                },
                Ok(true) => {
                    self.state.epoch_start_target = target.clone_u256();
                    self.state.epoch_start_time = extract_timestamp(header);
                    self.state.epoch_end_target = U256::zero();
                    self.state.epoch_end_time = 0;
                },
            }
        } else if is_period_end(block_height) {
            self.state.epoch_end_target = target.clone_u256();
            self.state.epoch_end_time = extract_timestamp(header);
        }
        let ghost st1 = epoch_update(pre, header@, block_height);
        proof {
            assert(self@ =~= st1);
        }
        let pfork = match self.forks.get(prev_block_hash_chain_id) {
            Some(f) => f,
            None => {
                return Err(RelayError::ForkNotFound);
            },
        };
        proof {
            // every check up to fork dispatch has passed, so the only
            // remaining failure source is the reorg walk
            assert(submit_error(pre, header@, block_hash@, prev_block_hash@,
                prev_block_hash_chain_id, block_height, next_counter) matches Some(e) ==> (
            prev_block_hash_chain_id != MAIN_CHAIN_ID && pfork@.height == pre.headers[
            prev_block_hash@].height && block_height >= pre.best_height + CONFIRMATIONS));
        }
        if pfork.height != parent.height {
            // The parent already has a later descendant: open a new fork.
            self.state.chain_counter = next_counter;
            let fork = _initialize_fork(&digest, prev_block_hash, block_height);
            self.forks.set(next_counter, fork);
            self.headers.set(&digest, Header { height: block_height, chain_id: next_counter });
            proof {
                let post = submit_transition(pre, header@, block_hash@, prev_block_hash@,
                    prev_block_hash_chain_id, block_height, next_counter).unwrap();
                assert(self@ =~= post.0);
            }
            Ok(None)
        } else if prev_block_hash_chain_id == MAIN_CHAIN_ID {
            // Extend the main chain and advance the best block.
            self._store_block_header(&digest, block_height, MAIN_CHAIN_ID);
            self.state.best_block = clone_bytes(&digest);
            self.state.best_height = block_height;
            let mut pf = pfork;
            let ghost dpre = pf.descendants@;
            pf.height = block_height;
            pf.descendants.push(clone_bytes(&digest));
            proof {
                crate::store::lemma_seq_views_push(dpre, pf.descendants@, digest@);
            }
            self.forks.set(MAIN_CHAIN_ID, pf);
            proof {
                let post = submit_transition(pre, header@, block_hash@, prev_block_hash@,
                    prev_block_hash_chain_id, block_height, next_counter).unwrap();
                assert(self@ =~= post.0);
            }
            Ok(None)
        } else if (block_height as u64) >= (self.state.best_height as u64) + (
        CONFIRMATIONS as u64) {
            // The fork outpaces the best chain: append the tip, then
            // promote the whole branch.
            self.headers.set(
                &digest,
                Header { height: block_height, chain_id: prev_block_hash_chain_id },
            );
            let mut pf = pfork;
            let ghost dpre = pf.descendants@;
            pf.height = block_height;
            pf.descendants.push(clone_bytes(&digest));
            proof {
                crate::store::lemma_seq_views_push(dpre, pf.descendants@, digest@);
            }
            self.forks.set(prev_block_hash_chain_id, pf);
            proof {
                assert(self@.headers =~= mid_headers(st1, block_hash@, block_height,
                    prev_block_hash_chain_id));
                assert(self@.forks =~= mid_forks(st1, block_hash@, block_height,
                    prev_block_hash_chain_id));
                assert(mid_headers(st1, block_hash@, block_height, prev_block_hash_chain_id)
                    == mid_headers(pre, block_hash@, block_height, prev_block_hash_chain_id));
                assert(mid_forks(st1, block_hash@, block_height, prev_block_hash_chain_id)
                    == mid_forks(pre, block_hash@, block_height, prev_block_hash_chain_id));
            }
            match self.reorg_chain(prev_block_hash_chain_id, block_height, &digest) {
                Ok(ev) => {
                    proof {
                        let post = submit_transition(pre, header@, block_hash@, prev_block_hash@,
                            prev_block_hash_chain_id, block_height, next_counter).unwrap();
                        let rt = reorg_transition(st1, block_hash@, prev_block_hash_chain_id,
                            block_height);
                        assert(self@ =~= rt.0);
                        assert(ev@ == rt.1);
                    }
                    Ok(Some(ev))
                },
                Err(e) => {
                    proof {
                        assert(e == RelayError::ForkNotFound);
                        assert(reorg_error(pre, block_hash@, prev_block_hash_chain_id,
                            block_height) == Some(RelayError::ForkNotFound));
                    }
                    Err(e)
                },
            }
        } else {
            // Extend a fork that stays behind the best chain.
            self.headers.set(
                &digest,
                Header { height: block_height, chain_id: prev_block_hash_chain_id },
            );
            let mut pf = pfork;
            let ghost dpre = pf.descendants@;
            pf.height = block_height;
            pf.descendants.push(clone_bytes(&digest));
            proof {
                crate::store::lemma_seq_views_push(dpre, pf.descendants@, digest@);
            }
            self.forks.set(prev_block_hash_chain_id, pf);
            proof {
                let post = submit_transition(pre, header@, block_hash@, prev_block_hash@,
                    prev_block_hash_chain_id, block_height, next_counter).unwrap();
                assert(self@ =~= post.0);
            }
            Ok(None)
        }
    }

    /// Submit one block header. All checks and the fork dispatch of the
    /// submission transition are applied atomically: on any error the
    /// relay is unchanged. Returns the reorg notification exactly when the
    /// submission promoted a fork.
    pub fn submit_block_header(
        &mut self,
        header: &Vec<u8>,
        block_hash: &Vec<u8>,
        prev_block_hash: &Vec<u8>,
        prev_block_hash_chain_id: u32,
        block_height: u32,
        next_counter: u32,
    ) -> (r: Result<Option<ChainReorg>, RelayError>)
        requires
            old(self).wf(),
        ensures
            final(self).wf(),
            match submit_transition(
                old(self)@,
                header@,
                block_hash@,
                prev_block_hash@,
                prev_block_hash_chain_id,
                block_height,
                next_counter,
            ) {
                Ok(post) => {
                    &&& r is Ok
                    &&& final(self)@ == post.0
                    &&& match (r.unwrap(), post.1) {
                        (Some(ev), Some(em)) => ev@ == em,
                        (None, None) => true,
                        _ => false,
                    }
                },
                Err(e) => r == Err::<Option<ChainReorg>, RelayError>(e) && final(self)@ == old(
                self)@,
            },
    {
        let mut work = self.clone_relay();
        match work.submit_inner(
            header,
            block_hash,
            prev_block_hash,
            prev_block_hash_chain_id,
            block_height,
            next_counter,
        ) {
            Ok(ev) => {
                *self = work;
                Ok(ev)
            },
            Err(e) => Err(e),
        }
    }

    /// Apply a batch of raw headers in order, each one's parent linkage
    /// derived from its own bytes; the batch commits atomically — on any
    /// failure the relay is left exactly as it was.
    pub fn submit_block_header_batch(&mut self, headers: &Vec<Vec<u8>>) -> (r: Result<
        (),
        RelayError,
    >)
        requires
            old(self).wf(),
        ensures
            final(self).wf(),
            match batch_transition(old(self)@, seq_views(headers@)) {
                Ok(m) => r is Ok && final(self)@ == m,
                Err(e) => r == Err::<(), RelayError>(e) && final(self)@ == old(self)@,
            },
    {
        let mut work = self.clone_relay();
        let n = headers.len();
        let mut i: usize = 0;
        proof {
            assert(seq_views(headers@).skip(0) =~= seq_views(headers@));
        }
        while i < n
            invariant
                0 <= i <= n,
                n == headers@.len(),
                self.wf(),
                self@ == old(self)@,
                work.wf(),
                batch_transition(old(self)@, seq_views(headers@)) == batch_transition(
                    work@,
                    seq_views(headers@).skip(i as int),
                ),
            decreases n - i,
        {
            proof {
                assert(seq_views(headers@).skip(i as int)[0] == headers@[i as int]@);
                assert(seq_views(headers@).skip(i as int).len() == n - i);
            }
            let h = &headers[i];
            if h.len() != 80 {
                return Err(RelayError::InvalidHeaderSize);
            }
            let bh = hash256(h);
            let ph = extract_prev_hash(h);
            let parent = match work.headers.get(&ph) {
                Some(p) => p,
                None => {
                    return Err(RelayError::PreviousBlockNotFound);
                },
            };
            if parent.height == u32::MAX || work.state.chain_counter == u32::MAX {
                return Err(RelayError::ArithmeticError);
            }
            let next_counter = work.state.chain_counter + 1;
            match work.submit_inner(h, &bh, &ph, parent.chain_id, parent.height + 1, next_counter) {
                Ok(_) => {},
                Err(e) => {
                    return Err(e);
                },
            }
            proof {
                assert(seq_views(headers@).skip(i as int).skip(1) =~= seq_views(headers@).skip(
                    i + 1,
                ));
            }
            i += 1;
        }
        proof {
            assert(seq_views(headers@).skip(n as int) =~= Seq::<Seq<u8>>::empty());
        }
        *self = work;
        Ok(())
    }

    /// Check a transaction's merkle inclusion in the canonical block at
    /// `height`, demanding the given confirmation depth. The `insecure`
    /// flag bypasses only the confirmation requirement and is meant for
    /// testing alone.
    pub fn verify_tx(
        &self,
        height: u32,
        index: u64,
        txid: &Vec<u8>,
        header: &Vec<u8>,
        proof: &Vec<u8>,
        confirmations: u64,
        insecure: bool,
    ) -> (r: Result<bool, RelayError>)
        ensures
            r == verify_tx_spec(self@, height, index, txid@, header@, proof@, confirmations,
                insecure),
    {
        if txid.len() != 32 {
            return Err(RelayError::InvalidTxId);
        }
        if header.len() != 80 {
            return Err(RelayError::InvalidHeaderSize);
        }
        if proof.len() % 32 != 0 {
            return Err(RelayError::IncorrectMerkleProof);
        }
        let canonical = match self.chain.get(height) {
            Some(h) => h,
            None => {
                return Err(RelayError::BlockNotFound);
            },
        };
        let digest = hash256(header);
        if !bytes_eq(&digest, &canonical) {
            return Err(RelayError::InvalidBlockHash);
        }
        if !insecure {
            let available: u64 = if height <= self.state.best_height {
                ((self.state.best_height - height) as u64) + 1
            } else {
                0
            };
            if confirmations > available {
                return Err(RelayError::InsufficientConfirmations);
            }
        }
        let mut cur = clone_bytes(txid);
        let mut idx: u64 = index;
        let mut off: usize = 0;
        let n = proof.len();
        proof {
            assert(proof@.skip(0) =~= proof@);
        }
        while off < n
            invariant
                n == proof@.len(),
                0 <= off <= n,
                off % 32 == 0,
                n % 32 == 0,
                cur@.len() == 32,
                merkle_fold(txid@, proof@, index as nat) == merkle_fold(
                    cur@,
                    proof@.skip(off as int),
                    idx as nat,
                ),
            decreases n - off,
        {
            proof {
                assert(n - off >= 32) by {
                    assert(off % 32 == 0 && n % 32 == 0 && off < n);
                    vstd::arithmetic::div_mod::lemma_fundamental_div_mod(off as int, 32);
                    vstd::arithmetic::div_mod::lemma_fundamental_div_mod(n as int, 32);
                    vstd::arithmetic::div_mod::lemma_div_is_ordered(off as int, n as int, 32);
                }
            }
            let mut sib: Vec<u8> = Vec::new();
            let mut k: usize = 0;
            while k < 32
                invariant
                    0 <= k <= 32,
                    off + 32 <= n,
                    n == proof@.len(),
                    sib@ =~= proof@.subrange(off as int, off + k),
                decreases 32 - k,
            {
                sib.push(proof[off + k]);
                k += 1;
            }
            proof {
                assert(sib@ =~= proof@.skip(off as int).take(32));
            }
            let pair = if idx % 2 == 1 {
                concat_bytes(&sib, &cur)
            } else {
                concat_bytes(&cur, &sib)
            };
            let next = hash256(&pair);
            proof {
                assert(proof@.skip(off as int).skip(32) =~= proof@.skip(off + 32));
            }
            cur = next;
            idx = idx / 2;
            off += 32;
        }
        proof {
            assert(proof@.skip(n as int) =~= Seq::<u8>::empty());
        }
        let root = extract_merkle_root(header);
        if !bytes_eq(&cur, &root) {
            return Err(RelayError::IncorrectMerkleProof);
        }
        Ok(true)
    }

    /// The current best (canonical tip) height.
    pub fn best_height(&self) -> (r: u32)
        ensures
            r == self@.best_height,
    {
        self.state.best_height
    }

    /// The current best (canonical tip) block hash.
    pub fn best_block(&self) -> (r: Vec<u8>)
        ensures
            r@ == self@.best_block,
    {
        clone_bytes(&self.state.best_block)
    }

    /// The current fork-id counter.
    pub fn chain_counter(&self) -> (r: u32)
        ensures
            r == self@.chain_counter,
    {
        self.state.chain_counter
    }

    /// The recorded header for a block hash, if any.
    pub fn get_header(&self, hash: &Vec<u8>) -> (r: Option<Header>)
        ensures
            match r {
                Some(h) => self@.headers.contains_key(hash@) && self@.headers[hash@] == h,
                None => !self@.headers.contains_key(hash@),
            },
    {
        self.headers.get(hash)
    }

    /// The canonical block hash at a height, if any.
    pub fn canonical_hash_at(&self, height: u32) -> (r: Option<Vec<u8>>)
        ensures
            match r {
                Some(h) => self@.chain.contains_key(height) && self@.chain[height] == h@,
                None => !self@.chain.contains_key(height),
            },
    {
        self.chain.get(height)
    }

    /// The fork record under a chain id, if any.
    pub fn get_fork(&self, id: u32) -> (r: Option<Fork>)
        ensures
            match r {
                Some(f) => self@.forks.contains_key(id) && self@.forks[id] == f@,
                None => !self@.forks.contains_key(id),
            },
    {
        self.forks.get(id)
    }
}

fn prepend_id(x: u32, rest: &Vec<u32>) -> (r: Vec<u32>)
    ensures
        r@ == seq![x] + rest@,
{
    let mut out: Vec<u32> = Vec::new();
    out.push(x);
    let n = rest.len();
    let mut i: usize = 0;
    while i < n
        invariant
            0 <= i <= n,
            n == rest@.len(),
            out@ =~= seq![x] + rest@.take(i as int),
        decreases n - i,
    {
        out.push(rest[i]);
        proof {
            assert(out@ =~= seq![x] + rest@.take(i + 1));
        }
        i += 1;
    }
    proof {
        assert(out@ =~= seq![x] + rest@);
    }
    out
}

fn prepend_hashes(first: &Vec<Vec<u8>>, keep: usize, rest: &Vec<Vec<u8>>) -> (r: Vec<Vec<u8>>)
    requires
        keep <= first@.len(),
    ensures
        seq_views(r@) == seq_views(first@.take(keep as int)) + seq_views(rest@),
{
    let mut out: Vec<Vec<u8>> = Vec::new();
    let n1 = keep;
    let mut i: usize = 0;
    proof {
        assert(seq_views(out@) =~= seq_views(first@.take(0)));
    }
    while i < n1
        invariant
            0 <= i <= n1,
            n1 == keep <= first@.len(),
            out@.len() == i as int,
            seq_views(out@) == seq_views(first@.take(i as int)),
        decreases n1 - i,
    {
        let ghost pre = out@;
        out.push(clone_bytes(&first[i]));
        proof {
            crate::store::lemma_seq_views_push(pre, out@, first@[i as int]@);
            assert forall|j: int|
                0 <= j < i + 1 implies seq_views(first@.take(i + 1))[j] == seq_views(pre).push(
                first@[i as int]@,
            )[j] by {
                if j < i {
                    assert(seq_views(first@.take(i as int))[j] == first@[j]@);
                }
            }
            assert(seq_views(out@) =~= seq_views(first@.take(i + 1)));
        }
        i += 1;
    }
    let n2 = rest.len();
    let mut k: usize = 0;
    while k < n2
        invariant
            0 <= k <= n2,
            n2 == rest@.len(),
            keep <= first@.len(),
            out@.len() == keep + k,
            seq_views(out@) == seq_views(first@.take(keep as int)) + seq_views(
                rest@.take(k as int),
            ),
        decreases n2 - k,
    {
        let ghost pre = out@;
        out.push(clone_bytes(&rest[k]));
        proof {
            crate::store::lemma_seq_views_push(pre, out@, rest@[k as int]@);
            assert forall|j: int|
                0 <= j < out@.len() implies (seq_views(first@.take(keep as int)) + seq_views(
                rest@.take(k + 1),
            ))[j] == seq_views(pre).push(rest@[k as int]@)[j] by {
                if j < keep {
                    assert(seq_views(first@.take(keep as int))[j] == first@[j]@);
                } else if j < keep + k {
                    assert(seq_views(rest@.take(k as int))[j - keep] == rest@[j - keep]@);
                    assert(seq_views(rest@.take(k + 1))[j - keep] == rest@[j - keep]@);
                } else {
                    assert(seq_views(rest@.take(k + 1))[j - keep] == rest@[k as int]@);
                }
            }
            assert(seq_views(out@) =~= seq_views(first@.take(keep as int)) + seq_views(
                rest@.take(k + 1),
            ));
        }
        k += 1;
    }
    proof {
        assert(rest@.take(n2 as int) =~= rest@);
    }
    out
}

} // verus!
