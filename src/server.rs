use vstd::prelude::*;
use rand::Rng;
use crate::block::{Block, BlockView};
use crate::blockchain::Blockchain;
use crate::chain_model::{append_result, resolve, safely_written};
use crate::simple_transaction::SimpleTransaction;

verus! {

/// Relies on rand's `thread_rng().gen_range(0..len)`: a value below `len`;
/// the range must not be empty.
#[verifier::external_body]
fn random_index(len: usize) -> (r: usize)
    requires
        len > 0,
    ensures
        r < len,
{
    rand::thread_rng().gen_range(0..len)
}

/// The mempool entries that are not yet safely written in `main`, in order.
pub open spec fn unsettled(mempool: Seq<Seq<char>>, main: Seq<BlockView>) -> Seq<Seq<char>> {
    mempool.filter(|t: Seq<char>| !safely_written(main, t))
}

/// The transaction intake server: a FIFO pool of pending transactions and a
/// chain replica that follows the blocks the workers produce.
pub struct Server {
    mempool: Vec<SimpleTransaction>,
    blockchain: Blockchain,
}

impl Server {
    /// The pending transactions, oldest first.
    pub closed spec fn pool(&self) -> Seq<Seq<char>> {
        self.mempool@.map_values(|t: SimpleTransaction| t@)
    }

    /// The server's chain replica.
    pub closed spec fn chain(&self) -> Blockchain {
        self.blockchain
    }

    /// The replica's invariants hold.
    pub open spec fn wf(&self) -> bool {
        self.chain().wf()
    }

    /// An empty pool and a replica holding the genesis block alone.
    pub fn new() -> (r: Self)
        ensures
            r.pool() == Seq::<Seq<char>>::empty(),
            r.chain()@ == Blockchain::new_view(),
            r.wf(),
    {
        let r = Server { mempool: Vec::new(), blockchain: Blockchain::new() };
        assert(r.pool() =~= Seq::<Seq<char>>::empty());
        r
    }

    /// Adds `tx` at the back of the pool.
    pub fn submit_transaction(&mut self, tx: SimpleTransaction)
        ensures
            final(self).pool() == old(self).pool().push(tx@),
            final(self).chain() == old(self).chain(),
    {
        self.mempool.push(tx);
        assert(self.pool() =~= old(self).pool().push(tx@));
    }

    /// One pending transaction picked at random, left in the pool; `None`
    /// when the pool is empty.
    pub fn get_pending_transaction(&self) -> (r: Option<SimpleTransaction>)
        ensures
            r.is_none() <==> self.pool().len() == 0,
            r.is_some() ==> self.pool().contains(r.unwrap()@),
    {
        if self.mempool.len() == 0 {
            None
        } else {
            let i = random_index(self.mempool.len());
            let t = self.mempool[i].duplicate();
            assert(self.pool()[i as int] == t@);
            Some(t)
        }
    }

    /// Drops from the pool every transaction that is safely written in the
    /// server's replica, keeping the order of the rest.
    pub fn resolve_safe_transactions(&mut self)
        ensures
            final(self).pool() == unsettled(old(self).pool(), old(self).chain()@.main),
            final(self).chain() == old(self).chain(),
    {
        let ghost all = self.pool();
        let ghost main = self.blockchain@.main;
        let mut rest: Vec<SimpleTransaction> = Vec::new();
        std::mem::swap(&mut rest, &mut self.mempool);
        let mut kept: Vec<SimpleTransaction> = Vec::new();
        let ghost mut i: int = 0;
        while rest.len() > 0
            invariant
                0 <= i <= all.len(),
                rest@.map_values(|t: SimpleTransaction| t@) =~= all.skip(i),
                kept@.map_values(|t: SimpleTransaction| t@) == unsettled(all.take(i), main),
                self.blockchain@.main == main,
                self.blockchain == old(self).blockchain,
                main == old(self).chain()@.main,
                all == old(self).pool(),
            decreases rest.len(),
        {
            let ghost r0 = rest@;
            assert(r0.map_values(|t: SimpleTransaction| t@).len() == r0.len());
            assert(r0.map_values(|t: SimpleTransaction| t@)[0] == all[i]);
            let t = rest.remove(0);
            let written = self.blockchain.is_transaction_safely_written(&t);
            proof {
                reveal(Seq::filter);
                assert(all.take(i + 1).drop_last() =~= all.take(i));
                assert(all.take(i + 1).last() == all[i]);
            }
            if !written {
                kept.push(t);
                assert(kept@.map_values(|t: SimpleTransaction| t@) =~= unsettled(all.take(i), main).push(all[i]));
            }
            proof {
                assert forall|k: int| 0 <= k < rest@.len() implies #[trigger] rest@[k]@ == all[i + 1 + k] by {
                    assert(rest@[k] == r0[k + 1]);
                    assert(r0.map_values(|t: SimpleTransaction| t@)[k + 1] == all.skip(i)[k + 1]);
                }
                i = i + 1;
            }
        }
        assert(all.take(i) =~= all);
        self.mempool = kept;
    }

    /// Follows a block produced by a worker: admits it, resolves forks, then
    /// retires the transactions that have become safely written.
    pub fn ingest_block(&mut self, block: Block)
        requires
            old(self).wf(),
        ensures
            final(self).chain()@ == resolve(append_result(old(self).chain()@, block@).0),
            final(self).pool() == unsettled(old(self).pool(), final(self).chain()@.main),
            final(self).wf(),
    {
        self.blockchain.add_block_safe(block);
        self.blockchain.resolve_pending_forks();
        self.resolve_safe_transactions();
    }

    /// The pending transactions, oldest first.
    pub fn pending_transactions(&self) -> (r: &Vec<SimpleTransaction>)
        ensures
            r@.map_values(|t: SimpleTransaction| t@) == self.pool(),
    {
        &self.mempool
    }

    /// The server's chain replica.
    pub fn blockchain(&self) -> (r: &Blockchain)
        ensures
            *r == self.chain(),
    {
        &self.blockchain
    }
}

} // verus!
