use vstd::prelude::*;
use tokio_util::sync::CancellationToken;
use crate::block::{Block, BlockView, block_hash, has_zero_prefix, starts_with_zeros};

verus! {

#[verifier::external_type_specification]
#[verifier::external_body]
pub struct ExCancellationToken(CancellationToken);

/// Relies on tokio_util's `CancellationToken::is_cancelled`: whether
/// cancellation has been requested, which another task may do at any time.
pub assume_specification[ CancellationToken::is_cancelled ](token: &CancellationToken) -> bool;

/// `b` with its nonce set to `n`.
pub open spec fn with_nonce(b: BlockView, n: u64) -> BlockView {
    BlockView { nonce: n, ..b }
}

/// No nonce below `n` gives `b` a hash with `difficulty` leading zeros.
pub open spec fn no_nonce_below(b: BlockView, n: int, difficulty: nat) -> bool {
    forall|k: u64| k < n ==> !has_zero_prefix(#[trigger] block_hash(with_nonce(b, k)), difficulty)
}

/// Searches nonces from zero upward for the first one whose hash starts with
/// `difficulty` zero digits, and checks the cancellation token after each
/// probe. On success the block holds that nonce and its hash is returned;
/// `None` when cancelled or when every nonce failed.
pub fn mine(block: &mut Block, difficulty: usize, cancellation_token: CancellationToken) -> (r: Option<String>)
    ensures
        final(block)@ == with_nonce(old(block)@, final(block)@.nonce),
        r.is_some() ==> r.unwrap()@ == block_hash(final(block)@),
        r.is_some() ==> has_zero_prefix(r.unwrap()@, difficulty as nat),
        r.is_some() ==> no_nonce_below(old(block)@, final(block)@.nonce as int, difficulty as nat),
        r.is_none() ==> no_nonce_below(old(block)@, final(block)@.nonce as int + 1, difficulty as nat),
{
    let ghost b0 = block@;
    let mut nonce: u64 = 0;
    loop
        invariant
            block@ == with_nonce(b0, block@.nonce),
            b0 == old(block)@,
            no_nonce_below(b0, nonce as int, difficulty as nat),
        decreases u64::MAX - nonce,
    {
        block.set_nonce(nonce);
        let hash = block.hash();
        if starts_with_zeros(&hash, difficulty) {
            return Some(hash);
        }
        assert(block@ == with_nonce(b0, nonce));
        assert(!has_zero_prefix(block_hash(with_nonce(b0, nonce)), difficulty as nat));
        if cancellation_token.is_cancelled() || nonce == u64::MAX {
            return None;
        }
        nonce = nonce + 1;
    }
}

/// Searches nonces from zero upward for the first one whose hash starts with
/// `difficulty` zero digits. On success the block holds that nonce and its
/// hash is returned; `None` when every nonce failed.
pub fn mine_sync(block: &mut Block, difficulty: usize) -> (r: Option<String>)
    ensures
        final(block)@ == with_nonce(old(block)@, final(block)@.nonce),
        r.is_some() ==> r.unwrap()@ == block_hash(final(block)@),
        r.is_some() ==> has_zero_prefix(r.unwrap()@, difficulty as nat),
        r.is_some() ==> no_nonce_below(old(block)@, final(block)@.nonce as int, difficulty as nat),
        r.is_none() ==> no_nonce_below(old(block)@, u64::MAX as int + 1, difficulty as nat),
{
    let ghost b0 = block@;
    let mut nonce: u64 = 0;
    loop
        invariant
            block@ == with_nonce(b0, block@.nonce),
            b0 == old(block)@,
            no_nonce_below(b0, nonce as int, difficulty as nat),
        decreases u64::MAX - nonce,
    {
        block.set_nonce(nonce);
        let hash = block.hash();
        if starts_with_zeros(&hash, difficulty) {
            return Some(hash);
        }
        assert(block@ == with_nonce(b0, nonce));
        assert(!has_zero_prefix(block_hash(with_nonce(b0, nonce)), difficulty as nat));
        if nonce == u64::MAX {
            return None;
        }
        nonce = nonce + 1;
    }
}

} // verus!
