//! Laws the relay obeys, stated and proved over the transition model.

use vstd::prelude::*;
use vstd::arithmetic::div_mod::{
    lemma_div_by_self, lemma_div_is_ordered, lemma_div_multiples_vanish,
    lemma_fundamental_div_mod,
};
use crate::bytes::le_val;
use crate::codec::{hash256_of, target_of};
use crate::errors::RelayError;
use crate::relay::{
    branch_walk, mid_forks, mid_headers, submit_error, submit_transition, ReorgModel, RelayModel,
};
use crate::retarget::{clamp_elapsed, retarget_calc};
use crate::{CONFIRMATIONS, MAIN_CHAIN_ID, RETARGET_PERIOD};

verus! {

/// The identity hash is deterministic: equal header bytes always yield
/// the same double-SHA-256 hash, so re-serializing a header re-yields
/// its hash.
pub proof fn lemma_hash_header_deterministic(a: Seq<u8>, b: Seq<u8>)
    requires
        a == b,
    ensures
        hash256_of(a) == hash256_of(b),
{
}

/// Elapsed times below one quarter period or above four periods are
/// clamped before use: the retarget outcome equals the boundary's.
pub proof fn lemma_retarget_clamps(prev: nat, e: nat)
    ensures
        e <= (RETARGET_PERIOD / 4) as nat ==> retarget_calc(prev, e) == retarget_calc(
            prev,
            (RETARGET_PERIOD / 4) as nat,
        ),
        e >= 4 * (RETARGET_PERIOD as nat) ==> retarget_calc(prev, e) == retarget_calc(
            prev,
            4 * (RETARGET_PERIOD as nat),
        ),
{
    assert(clamp_elapsed((RETARGET_PERIOD / 4) as nat) == (RETARGET_PERIOD / 4) as nat);
    assert(clamp_elapsed(4 * (RETARGET_PERIOD as nat)) == 4 * (RETARGET_PERIOD as nat));
}

/// A longer elapsed time never lowers the retargeted value: within the
/// unclamped range, if the longer time stays representable, the result
/// is monotone in the elapsed time.
pub proof fn lemma_retarget_monotonic(prev: nat, e1: nat, e2: nat)
    requires
        (RETARGET_PERIOD / 4) as nat <= e1 <= e2 <= 4 * (RETARGET_PERIOD as nat),
        retarget_calc(prev, e2) is Ok,
    ensures
        retarget_calc(prev, e1) is Ok,
        retarget_calc(prev, e1).unwrap() <= retarget_calc(prev, e2).unwrap(),
{
    let q = prev / 65536;
    assert(clamp_elapsed(e1) == e1 && clamp_elapsed(e2) == e2);
    assert(q * e1 <= q * e2) by (nonlinear_arith)
        requires
            e1 <= e2,
            q >= 0,
    ;
    lemma_div_is_ordered((q * e1) as int, (q * e2) as int, RETARGET_PERIOD as int);
}

/// Doubling the elapsed time within the unclamped range strictly raises
/// the resulting target (lowering difficulty), provided the previous
/// target is not degenerately small: the quotient `prev / 65536` times
/// the elapsed time must reach one full period. (With, say, a zero
/// previous target both outcomes are zero and nothing can increase.)
pub proof fn lemma_retarget_doubling(prev: nat, e: nat)
    requires
        (RETARGET_PERIOD / 4) as nat <= e,
        2 * e <= 4 * (RETARGET_PERIOD as nat),
        (prev / 65536) * e >= RETARGET_PERIOD as nat,
        retarget_calc(prev, 2 * e) is Ok,
    ensures
        retarget_calc(prev, e) is Ok,
        retarget_calc(prev, e).unwrap() < retarget_calc(prev, 2 * e).unwrap(),
{
    let p = RETARGET_PERIOD as int;
    let q = prev / 65536;
    let a1 = (q * e) as int;
    let a2 = (q * (2 * e)) as int;
    assert(clamp_elapsed(e) == e && clamp_elapsed(2 * e) == 2 * e);
    assert(a2 == 2 * a1) by (nonlinear_arith)
        requires
            a1 == q * e,
            a2 == q * (2 * e),
    ;
    let k = a1 / p;
    lemma_div_is_ordered(p, a1, p);
    lemma_div_by_self(p);
    assert(k >= 1);
    lemma_fundamental_div_mod(a1, p);
    assert(a1 >= p * k);
    assert(a2 >= p * (2 * k)) by (nonlinear_arith)
        requires
            a2 == 2 * a1,
            a1 >= p * k,
    ;
    lemma_div_multiples_vanish(2 * k, p);
    lemma_div_is_ordered(p * (2 * k), a2, p);
    assert(a2 / p >= 2 * k);
    assert(a2 / p >= k + 1);
}

/// Submitting the same header twice fails the second time with
/// `DuplicateBlock`: after any accepted submission, re-submitting the
/// same header (under the correct next counter, with any declared
/// linkage) is rejected because its hash is now recorded.
pub proof fn lemma_resubmit_duplicate(
    pre: RelayModel,
    header: Seq<u8>,
    block_hash: Seq<u8>,
    parent_hash: Seq<u8>,
    parent_chain_id: u32,
    block_height: u32,
    next_counter: u32,
    parent_hash2: Seq<u8>,
    parent_chain_id2: u32,
    block_height2: u32,
    next_counter2: u32,
)
    requires
        submit_transition(
            pre,
            header,
            block_hash,
            parent_hash,
            parent_chain_id,
            block_height,
            next_counter,
        ) is Ok,
        submit_transition(
            pre,
            header,
            block_hash,
            parent_hash,
            parent_chain_id,
            block_height,
            next_counter,
        ).unwrap().0.chain_counter + 1 == next_counter2,
    ensures
        submit_transition(
            submit_transition(
                pre,
                header,
                block_hash,
                parent_hash,
                parent_chain_id,
                block_height,
                next_counter,
            ).unwrap().0,
            header,
            block_hash,
            parent_hash2,
            parent_chain_id2,
            block_height2,
            next_counter2,
        ) == Err::<(RelayModel, Option<ReorgModel>), RelayError>(RelayError::DuplicateBlock),
{
    let post = submit_transition(
        pre,
        header,
        block_hash,
        parent_hash,
        parent_chain_id,
        block_height,
        next_counter,
    ).unwrap().0;
    assert(submit_error(
        pre,
        header,
        block_hash,
        parent_hash,
        parent_chain_id,
        block_height,
        next_counter,
    ) is None);
    assert(header.len() == 80);
    assert(hash256_of(header) == block_hash);
    assert(post.headers.contains_key(block_hash)) by {
        let st1 = crate::relay::epoch_update(pre, header, block_height);
        let mh = mid_headers(st1, block_hash, block_height, parent_chain_id);
        assert(mh.contains_key(block_hash));
    }
}

/// Submitting a header whose declared parent is unknown, or whose height
/// is not the parent's height plus one, fails with
/// `PreviousBlockNotFound`.
pub proof fn lemma_unknown_parent_rejected(
    pre: RelayModel,
    header: Seq<u8>,
    block_hash: Seq<u8>,
    parent_hash: Seq<u8>,
    parent_chain_id: u32,
    block_height: u32,
    next_counter: u32,
)
    requires
        header.len() == 80,
        pre.chain_counter + 1 == next_counter,
        hash256_of(header) == block_hash,
        !pre.headers.contains_key(block_hash),
        !pre.headers.contains_key(parent_hash) || pre.headers[parent_hash].height + 1
            != block_height,
    ensures
        submit_transition(
            pre,
            header,
            block_hash,
            parent_hash,
            parent_chain_id,
            block_height,
            next_counter,
        ) == Err::<(RelayModel, Option<ReorgModel>), RelayError>(
            RelayError::PreviousBlockNotFound,
        ),
{
}

/// A header that passes every earlier check but whose hash, read as a
/// number, exceeds its declared target fails with `LowDifficulty`.
pub proof fn lemma_low_difficulty_rejected(
    pre: RelayModel,
    header: Seq<u8>,
    block_hash: Seq<u8>,
    parent_hash: Seq<u8>,
    parent_chain_id: u32,
    block_height: u32,
    next_counter: u32,
)
    requires
        header.len() == 80,
        pre.chain_counter + 1 == next_counter,
        hash256_of(header) == block_hash,
        !pre.headers.contains_key(block_hash),
        pre.headers.contains_key(parent_hash),
        pre.headers[parent_hash].height + 1 == block_height,
        pre.headers[parent_hash].chain_id == parent_chain_id,
        le_val(block_hash) > target_of(header),
    ensures
        submit_transition(
            pre,
            header,
            block_hash,
            parent_hash,
            parent_chain_id,
            block_height,
            next_counter,
        ) == Err::<(RelayModel, Option<ReorgModel>), RelayError>(RelayError::LowDifficulty),
{
}

/// An accepted submission returns a reorg notification exactly when it
/// extends a non-main fork at its tip and the new height reaches the
/// confirmation lead over the best chain — so one promotion yields
/// exactly one notification.
pub proof fn lemma_reorg_event_iff(
    pre: RelayModel,
    header: Seq<u8>,
    block_hash: Seq<u8>,
    parent_hash: Seq<u8>,
    parent_chain_id: u32,
    block_height: u32,
    next_counter: u32,
)
    requires
        submit_transition(
            pre,
            header,
            block_hash,
            parent_hash,
            parent_chain_id,
            block_height,
            next_counter,
        ) is Ok,
    ensures
        (submit_transition(
            pre,
            header,
            block_hash,
            parent_hash,
            parent_chain_id,
            block_height,
            next_counter,
        ).unwrap().1 is Some) <==> (pre.forks[parent_chain_id].height == pre.headers[
        parent_hash].height && parent_chain_id != MAIN_CHAIN_ID && block_height
            >= pre.best_height + CONFIRMATIONS),
{
}

/// After a submission that promoted a fork: the canonical index at every
/// promoted height holds the new branch's hash, every promoted header now
/// carries the main chain id, the displaced headers carry the freshly
/// retired fork id, and the notification names the old and new best
/// blocks and the promoted fork.
pub proof fn lemma_reorg_promotes(
    pre: RelayModel,
    header: Seq<u8>,
    block_hash: Seq<u8>,
    parent_hash: Seq<u8>,
    parent_chain_id: u32,
    block_height: u32,
    next_counter: u32,
)
    requires
        submit_transition(
            pre,
            header,
            block_hash,
            parent_hash,
            parent_chain_id,
            block_height,
            next_counter,
        ) matches Ok(p) && p.1 is Some,
    ensures
        ({
            let post = submit_transition(
                pre,
                header,
                block_hash,
                parent_hash,
                parent_chain_id,
                block_height,
                next_counter,
            ).unwrap().0;
            let ev = submit_transition(
                pre,
                header,
                block_hash,
                parent_hash,
                parent_chain_id,
                block_height,
                next_counter,
            ).unwrap().1.unwrap();
            let mh = mid_headers(pre, block_hash, block_height, parent_chain_id);
            let w = branch_walk(
                mid_forks(pre, block_hash, block_height, parent_chain_id),
                mh,
                parent_chain_id,
                None,
                pre.chain_counter as nat,
            ).unwrap();
            let h0 = block_height + 1 - w.1.len();
            let retired = (pre.chain_counter + 1) as u32;
            &&& ev == (ReorgModel {
                from: pre.best_block,
                to: block_hash,
                chain_id: parent_chain_id as u64,
            })
            &&& post.best_block == block_hash
            &&& post.best_height == block_height
            &&& post.chain_counter == retired
            &&& forall|i: int|
                0 <= i < w.1.len() ==> post.chain.contains_key((h0 + i) as u32) && post.chain[(h0
                    + i) as u32] == w.1[i] && post.headers[#[trigger] w.1[i]].chain_id
                    == MAIN_CHAIN_ID
            &&& forall|i: int|
                0 <= i < w.1.len() && pre.chain.contains_key(#[trigger] ((h0 + i) as u32))
                    && !w.1.contains(pre.chain[(h0 + i) as u32]) && mh.dom().contains(
                    pre.chain[(h0 + i) as u32],
                ) ==> post.headers[pre.chain[(h0 + i) as u32]].chain_id == retired
        }),
{
    let st1 = crate::relay::epoch_update(pre, header, block_height);
    let mh = mid_headers(pre, block_hash, block_height, parent_chain_id);
    let mf = mid_forks(pre, block_hash, block_height, parent_chain_id);
    assert(mid_headers(st1, block_hash, block_height, parent_chain_id) == mh);
    assert(mid_forks(st1, block_hash, block_height, parent_chain_id) == mf);
    let w = branch_walk(mf, mh, parent_chain_id, None, pre.chain_counter as nat).unwrap();
    let h0 = block_height + 1 - w.1.len();
    let retired = (pre.chain_counter + 1) as u32;
    assert(crate::relay::branch_contiguous(w.1, mh, block_height));
    let post = submit_transition(
        pre,
        header,
        block_hash,
        parent_hash,
        parent_chain_id,
        block_height,
        next_counter,
    ).unwrap().0;
    assert forall|i: int| 0 <= i < w.1.len() implies post.chain.contains_key((h0 + i) as u32)
        && post.chain[(h0 + i) as u32] == w.1[i] && post.headers[#[trigger] w.1[i]].chain_id
        == MAIN_CHAIN_ID by {
        assert(mh.contains_key(w.1[i]));
        assert((h0 + i) as u32 - h0 == i);
        assert(w.1.contains(w.1[i]));
    }
    assert forall|i: int|
        0 <= i < w.1.len() && pre.chain.contains_key(#[trigger] ((h0 + i) as u32))
            && !w.1.contains(pre.chain[(h0 + i) as u32]) && mh.dom().contains(
            pre.chain[(h0 + i) as u32],
        ) implies post.headers[pre.chain[(h0 + i) as u32]].chain_id == retired by {
        let k = pre.chain[(h0 + i) as u32];
        assert(crate::relay::demoted_key(pre.chain, w.1.len() as int, h0 as int, k));
    }
}

} // verus!
