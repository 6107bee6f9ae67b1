use vstd::prelude::*;
use crate::block::{Block, block_hash, has_zero_prefix, child_view, links};
use crate::blockchain::Blockchain;
use crate::chain_model::{ChainView, append_result, resolve, carries, known};
use crate::simple_transaction::SimpleTransaction;

verus! {

/// A mining node; it knows the addresses of its peers.
pub struct Worker {
    peers: Vec<String>,
}

impl Worker {
    /// A worker with no known peers.
    pub fn new() -> (r: Self)
        ensures
            r.peer_count() == 0,
    {
        Worker { peers: Vec::new() }
    }

    /// Number of known peers.
    pub closed spec fn peer_count(&self) -> nat {
        self.peers@.len()
    }
}

/// A block received from a peer. One whose hash lacks `difficulty` leading
/// zeros is dropped and the replica is left alone; any other is admitted.
/// True when the main chain grew by it, in which case the current mining
/// attempt is to be cancelled.
pub fn on_network_block(chain: &mut Blockchain, block: Block, difficulty: usize) -> (r: bool)
    requires
        old(chain).wf(),
    ensures
        final(chain).wf(),
        !has_zero_prefix(block_hash(block@), difficulty as nat) ==> !r && final(chain)@ == old(chain)@,
        has_zero_prefix(block_hash(block@), difficulty as nat) ==> (final(chain)@, r) == append_result(old(chain)@, block@),
{
    if !block.is_hash_valid(difficulty) {
        return false;
    }
    chain.add_block_safe(block)
}

/// The block to mine for `tx`: `None` when the main chain already carries
/// `tx`, else a block on top of the main tip.
pub fn candidate_for(chain: &Blockchain, tx: SimpleTransaction) -> (r: Option<Block>)
    requires
        chain.wf(),
    ensures
        r.is_none() <==> carries(chain@.main, tx@),
        r.is_some() ==> r.unwrap()@ == child_view(tx@, chain@.main.last()),
{
    if chain.has_transaction(&tx) {
        None
    } else {
        Some(chain.get_candidate_block(tx))
    }
}

/// Records a block this worker has just mined, then resolves forks. It goes
/// straight onto the main chain when it still extends the tip, is not held
/// yet and no orphan waits for it; otherwise (the tip moved meanwhile) it is admitted like a
/// block from a peer.
pub fn commit_mined_block(chain: &mut Blockchain, block: Block)
    requires
        old(chain).wf(),
    ensures
        final(chain).wf(),
        ({
            let s = old(chain)@;
            let direct = links(s.main.last(), block@) && !known(s, block@) && forall|j: int|
                0 <= j < s.orphans.len() ==> !links(block@, #[trigger] s.orphans[j]);
            &&& direct ==> final(chain)@ == resolve(ChainView { main: s.main.push(block@), ..s })
            &&& !direct ==> final(chain)@ == resolve(append_result(s, block@).0)
        }),
{
    if chain.can_append_trusted(&block) {
        chain.add_block_unsafe(block);
    } else {
        chain.add_block_safe(block);
    }
    chain.resolve_pending_forks();
}

} // verus!
