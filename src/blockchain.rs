use vstd::prelude::*;
use crate::block::{Block, BlockView, links, genesis_view, child_view};
use crate::chain_model::{
    ChainView, ForkView, chain_wf, structure_ok, fork_ok, first_fork_from, find_root_from, linkable,
    attaches_to_main, extends_fork, place, lemma_first_fork_from, lemma_find_root_from, known,
    first_linkable_from, settled, append_result,
    lemma_settled_done, lemma_settle_step, best_fork, promotes, swap_best, root_limit, retain_forks,
    prune, resolve, root_pos, tip_height, lemma_best_fork, lemma_resolve_structure, SAFE_HORIZON,
    lemma_splice_main_prefix, carries, safely_written, distinct_ok, lemma_place_distinct,
    lemma_resolve_distinct, lemma_splice_wf, lemma_settled_noop,
};
use crate::simple_transaction::SimpleTransaction;

verus! {

/// A pending fork: the hash of the main-chain block where it branches off,
/// and its blocks in order.
pub struct Fork {
    root: String,
    blocks: Vec<Block>,
}

impl View for Fork {
    type V = ForkView;

    closed spec fn view(&self) -> ForkView {
        ForkView { root: self.root@, blocks: self.blocks@.map_values(|b: Block| b@) }
    }
}

/// A node's replica of the ledger: the main chain, the pending forks that
/// branch off it, and the orphan blocks whose parent is not known yet.
pub struct Blockchain {
    chain: Vec<Block>,
    pending_forks: Vec<Fork>,
    orphan: Vec<Block>,
}

impl View for Blockchain {
    type V = ChainView;

    closed spec fn view(&self) -> ChainView {
        ChainView {
            main: self.chain@.map_values(|b: Block| b@),
            forks: self.pending_forks@.map_values(|f: Fork| f@),
            orphans: self.orphan@.map_values(|b: Block| b@),
        }
    }
}

/// `child` is a valid successor of `parent`.
fn is_child_of(parent: &Block, child: &Block) -> (r: bool)
    ensures
        r == links(parent@, child@),
{
    let pi = parent.index_in_chain();
    if pi == u64::MAX || child.index_in_chain() != pi + 1 {
        return false;
    }
    match child.previous_hash() {
        Some(p) => p == parent.hash(),
        None => false,
    }
}

impl Blockchain {
    /// The replica's invariants hold.
    pub open spec fn wf(&self) -> bool {
        chain_wf(self@)
    }

    /// The replica holding the genesis block alone.
    pub open spec fn new_view() -> ChainView {
        ChainView { main: seq![genesis_view()], forks: Seq::empty(), orphans: Seq::empty() }
    }

    /// A replica holding the genesis block alone.
    pub fn new() -> (r: Self)
        ensures
            r@ == Self::new_view(),
            r.wf(),
    {
        let genesis = Block::genesis();
        let r = Blockchain { chain: vec![genesis], pending_forks: Vec::new(), orphan: Vec::new() };
        assert(r@.main =~= seq![genesis_view()]);
        assert(r@.forks =~= Seq::<ForkView>::empty());
        assert(r@.orphans =~= Seq::<BlockView>::empty());
        r
    }

    /// The tip of the fork at `i`.
    fn fork_tip(&self, i: usize) -> (r: &Block)
        requires
            structure_ok(self@),
            i < self@.forks.len(),
        ensures
            r@ == self@.forks[i as int].blocks.last(),
    {
        let f = &self.pending_forks[i];
        assert(f@ == self@.forks[i as int]);
        assert(fork_ok(self@.main, self@.forks[i as int]));
        &f.blocks[f.blocks.len() - 1]
    }

    /// Index of the first fork whose tip `b` extends, or the number of forks.
    fn first_fork(&self, b: &Block) -> (r: usize)
        requires
            structure_ok(self@),
        ensures
            r == first_fork_from(self@.forks, b@, 0),
    {
        let mut i: usize = 0;
        while i < self.pending_forks.len()
            invariant
                structure_ok(self@),
                i <= self@.forks.len() == self.pending_forks@.len(),
                first_fork_from(self@.forks, b@, 0) == first_fork_from(self@.forks, b@, i as int),
            decreases self.pending_forks.len() - i,
        {
            if is_child_of(self.fork_tip(i), b) {
                return i;
            }
            i = i + 1;
        }
        i
    }

    /// Index of the first fork with the given root, or the number of forks.
    fn find_root(&self, root: &String) -> (r: usize)
        ensures
            r == find_root_from(self@.forks, root@, 0),
    {
        let mut i: usize = 0;
        while i < self.pending_forks.len()
            invariant
                i <= self@.forks.len() == self.pending_forks@.len(),
                find_root_from(self@.forks, root@, 0) == find_root_from(self@.forks, root@, i as int),
            decreases self.pending_forks.len() - i,
        {
            assert(self.pending_forks@[i as int]@ == self@.forks[i as int]);
            if self.pending_forks[i].root == *root {
                return i;
            }
            i = i + 1;
        }
        i
    }

    /// `b` could be placed on a main-chain block or at a fork's tip.
    fn can_attach(&self, b: &Block) -> (r: bool)
        requires
            structure_ok(self@),
        ensures
            r == linkable(self@, b@),
    {
        let idx = b.index_in_chain();
        if idx >= 1 && idx <= self.chain.len() as u64 {
            if is_child_of(&self.chain[(idx - 1) as usize], b) {
                return true;
            }
        }
        proof {
            lemma_first_fork_from(self@.forks, b@, 0);
        }
        let i = self.first_fork(b);
        if i < self.pending_forks.len() {
            return true;
        }
        assert(!attaches_to_main(self@.main, b@));
        assert forall|k: int| 0 <= k < self@.forks.len() implies !extends_fork(#[trigger] self@.forks[k], b@) by {}
        false
    }

    /// Places `b` without looking for duplicates; true when the main chain grew.
    fn place_block(&mut self, b: Block) -> (r: bool)
        requires
            structure_ok(old(self)@),
        ensures
            (final(self)@, r) == place(old(self)@, b@),
    {
        let ghost s = self@;
        let tip = self.chain.len() - 1;
        if is_child_of(&self.chain[tip], &b) {
            self.chain.push(b);
            assert(self@.main =~= s.main.push(b@));
            return true;
        }
        let i = self.first_fork(&b);
        if i < self.pending_forks.len() {
            let mut f = self.pending_forks.remove(i);
            let ghost fv = f@;
            f.blocks.push(b);
            assert(f@.blocks =~= fv.blocks.push(b@));
            self.pending_forks.insert(i, f);
            assert(self@.forks =~= s.forks.update(i as int, ForkView { root: fv.root, blocks: fv.blocks.push(b@) }));
            return false;
        }
        let idx = b.index_in_chain();
        if idx >= 1 && idx <= self.chain.len() as u64 {
            if is_child_of(&self.chain[(idx - 1) as usize], &b) {
                let root = self.chain[(idx - 1) as usize].hash();
                let j = self.find_root(&root);
                let f = Fork { root, blocks: vec![b] };
                assert(f@.blocks =~= seq![b@]);
                proof {
                    lemma_find_root_from(s.forks, f@.root, 0);
                }
                if j < self.pending_forks.len() {
                    self.pending_forks.remove(j);
                    self.pending_forks.insert(j, f);
                    assert(self@.forks =~= s.forks.update(j as int, f@));
                } else {
                    self.pending_forks.push(f);
                    assert(self@.forks =~= s.forks.push(f@));
                }
                return false;
            }
        }
        self.orphan.push(b);
        assert(self@.orphans =~= s.orphans.push(b@));
        false
    }

    /// `b` is already held in the main chain, in a fork or among the orphans.
    fn knows(&self, b: &Block) -> (r: bool)
        ensures
            r == known(self@, b@),
    {
        let ghost s = self@;
        let mut i: usize = 0;
        while i < self.chain.len()
            invariant
                i <= self.chain@.len() == s.main.len(),
                s == self@,
                forall|k: int| 0 <= k < i ==> s.main[k] != b@,
            decreases self.chain.len() - i,
        {
            if self.chain[i].same_as(b) {
                assert(s.main[i as int] == b@);
                return true;
            }
            i = i + 1;
        }
        assert(!s.main.contains(b@));
        let mut f: usize = 0;
        while f < self.pending_forks.len()
            invariant
                f <= self.pending_forks@.len() == s.forks.len(),
                s == self@,
                forall|k: int| 0 <= k < f ==> !(#[trigger] s.forks[k]).blocks.contains(b@),
            decreases self.pending_forks.len() - f,
        {
            let blocks = &self.pending_forks[f].blocks;
            assert(self.pending_forks@[f as int]@ == s.forks[f as int]);
            let mut j: usize = 0;
            while j < blocks.len()
                invariant
                    f < s.forks.len(),
                s == self@,
                j <= blocks@.len() == s.forks[f as int].blocks.len(),
                    s.forks[f as int].blocks == blocks@.map_values(|b: Block| b@),
                    forall|k: int| 0 <= k < j ==> s.forks[f as int].blocks[k] != b@,
                decreases blocks.len() - j,
            {
                if blocks[j].same_as(b) {
                    assert(s.forks[f as int].blocks[j as int] == b@);
                    assert(s.forks[f as int].blocks.contains(b@));
                    assert(0 <= f < s.forks.len());
                    return true;
                }
                j = j + 1;
            }
            f = f + 1;
        }
        let mut i: usize = 0;
        while i < self.orphan.len()
            invariant
                i <= self.orphan@.len() == s.orphans.len(),
                s == self@,
                forall|k: int| 0 <= k < i ==> s.orphans[k] != b@,
            decreases self.orphan.len() - i,
        {
            if self.orphan[i].same_as(b) {
                assert(s.orphans[i as int] == b@);
                return true;
            }
            i = i + 1;
        }
        assert(!s.orphans.contains(b@));
        false
    }

    /// Index of the first orphan that could be placed, or the number of orphans.
    fn first_linkable(&self) -> (r: usize)
        requires
            structure_ok(self@),
        ensures
            r == first_linkable_from(self@, 0),
    {
        let mut j: usize = 0;
        while j < self.orphan.len()
            invariant
                structure_ok(self@),
                j <= self@.orphans.len() == self.orphan@.len(),
                first_linkable_from(self@, 0) == first_linkable_from(self@, j as int),
            decreases self.orphan.len() - j,
        {
            if self.can_attach(&self.orphan[j]) {
                return j;
            }
            j = j + 1;
        }
        j
    }

    /// Places orphans, first placeable first, until none can be placed.
    fn settle(&mut self)
        requires
            structure_ok(old(self)@),
            distinct_ok(old(self)@),
        ensures
            final(self)@ == settled(old(self)@),
            chain_wf(final(self)@),
    {
        proof {
            lemma_splice_wf(self@, self@.orphans.len());
        }
        loop
            invariant
                structure_ok(self@),
                distinct_ok(self@),
                settled(self@) == settled(old(self)@),
                chain_wf(settled(old(self)@)),
            ensures
                self@ == settled(old(self)@),
                chain_wf(self@),
            decreases self.orphan.len(),
        {
            let ghost s = self@;
            let j = self.first_linkable();
            if j >= self.orphan.len() {
                proof {
                    lemma_settled_done(s);
                }
                break;
            }
            let o = self.orphan.remove(j);
            assert(self@ == (ChainView { orphans: s.orphans.remove(j as int), ..s })) by {
                assert(self@.orphans =~= s.orphans.remove(j as int));
            }
            proof {
                lemma_settle_step(s, j as int);
            }
            self.place_block(o);
        }
    }

    /// Admits a block from any source. True when the main chain grew by this
    /// block. A block already held changes nothing; otherwise it goes on the
    /// main tip, else on the first fork whose tip it extends, else starts a
    /// fork on the main-chain block it extends, else joins the orphans. Then
    /// every orphan that has become placeable is placed.
    pub fn add_block_safe(&mut self, block: Block) -> (r: bool)
        requires
            old(self).wf(),
        ensures
            (final(self)@, r) == append_result(old(self)@, block@),
            r == (!known(old(self)@, block@) && links(old(self)@.main.last(), block@)),
            final(self).wf(),
    {
        if self.knows(&block) {
            proof {
                lemma_settled_noop(self@);
            }
            return false;
        }
        proof {
            crate::chain_model::lemma_place_structure(self@, block@);
            lemma_place_distinct(self@, block@);
        }
        let r = self.place_block(block);
        self.settle();
        r
    }

    /// Appends a block just mined on the current tip, with no fork or orphan
    /// handling. The caller has checked that it extends the tip and that no
    /// orphan waits for it.
    pub fn add_block_unsafe(&mut self, block: Block)
        requires
            old(self).wf(),
            links(old(self)@.main.last(), block@),
            !known(old(self)@, block@),
            forall|j: int| 0 <= j < old(self)@.orphans.len() ==> !links(block@, #[trigger] old(self)@.orphans[j]),
        ensures
            final(self)@ == (ChainView { main: old(self)@.main.push(block@), ..old(self)@ }),
            final(self).wf(),
    {
        let ghost s = self@;
        self.chain.push(block);
        assert(self@.main =~= s.main.push(block@));
        proof {
            crate::chain_model::lemma_place_structure(s, block@);
            lemma_place_distinct(s, block@);
            let t = self@;
            assert forall|j: int| 0 <= j < t.orphans.len() implies !linkable(t, #[trigger] t.orphans[j]) by {
                let o = t.orphans[j];
                assert(!linkable(s, o));
                if attaches_to_main(t.main, o) {
                    if o.index - 1 < s.main.len() {
                        assert(t.main[o.index - 1] == s.main[o.index - 1]);
                    }
                }
                assert(t.forks == s.forks);
            }
        }
    }

    /// Whether `block` may be handed to `add_block_unsafe`: it extends the
    /// tip, is not held yet, and no orphan is its child.
    pub fn can_append_trusted(&self, block: &Block) -> (r: bool)
        requires
            self.wf(),
        ensures
            r == (links(self@.main.last(), block@) && !known(self@, block@) && forall|j: int|
                0 <= j < self@.orphans.len() ==> !links(block@, #[trigger] self@.orphans[j])),
    {
        if !is_child_of(&self.chain[self.chain.len() - 1], block) {
            return false;
        }
        if self.knows(block) {
            return false;
        }
        let mut j: usize = 0;
        while j < self.orphan.len()
            invariant
                j <= self.orphan@.len() == self@.orphans.len(),
                forall|k: int| 0 <= k < j ==> !links(block@, #[trigger] self@.orphans[k]),
            decreases self.orphan.len() - j,
        {
            if is_child_of(block, &self.orphan[j]) {
                assert(links(block@, self@.orphans[j as int]));
                return false;
            }
            j = j + 1;
        }
        true
    }

    /// Index of the fork with the highest tip, the earliest on a tie.
    fn best_fork_index(&self) -> (r: usize)
        requires
            structure_ok(self@),
            self@.forks.len() > 0,
        ensures
            r == best_fork(self@.forks, self@.forks.len() as int),
    {
        let mut best: usize = 0;
        let mut i: usize = 1;
        while i < self.pending_forks.len()
            invariant
                structure_ok(self@),
                1 <= i <= self@.forks.len() == self.pending_forks@.len(),
                best == best_fork(self@.forks, i as int),
            decreases self.pending_forks.len() - i,
        {
            proof {
                lemma_best_fork(self@.forks, i as int);
            }
            if self.fork_tip(i).index_in_chain() > self.fork_tip(best).index_in_chain() {
                best = i;
            }
            i = i + 1;
        }
        best
    }

    /// Keeps the forks whose tip is at most the safe horizon below `height`
    /// and whose root is at or before `limit`, in their order.
    fn prune_forks(&mut self, height: u64, limit: u64)
        requires
            forall|i: int| 0 <= i < old(self)@.forks.len() ==>
                (#[trigger] old(self)@.forks[i]).blocks.len() >= 1 && old(self)@.forks[i].blocks[0].index >= 1,
        ensures
            final(self)@ == (ChainView {
                forks: retain_forks(old(self)@.forks, height as int, limit as int),
                ..old(self)@
            }),
    {
        let ghost s = self@;
        let ghost all = s.forks;
        let mut rest: Vec<Fork> = Vec::new();
        std::mem::swap(&mut rest, &mut self.pending_forks);
        assert(rest@.map_values(|f: Fork| f@) == all);
        let mut kept: Vec<Fork> = Vec::new();
        let ghost mut i: int = 0;
        while rest.len() > 0
            invariant
                0 <= i <= all.len(),
                rest@.map_values(|f: Fork| f@) =~= all.skip(i),
                kept@.map_values(|f: Fork| f@) == retain_forks(all.take(i), height as int, limit as int),
                forall|k: int| 0 <= k < all.len() ==>
                    (#[trigger] all[k]).blocks.len() >= 1 && all[k].blocks[0].index >= 1,
                self.chain@ == old(self).chain@,
                self.orphan@ == old(self).orphan@,
            decreases rest.len(),
        {
            let ghost r0 = rest@;
            assert(r0.map_values(|f: Fork| f@).len() == r0.len());
            assert(r0.map_values(|f: Fork| f@)[0] == all[i]);
            let f = rest.remove(0);
            assert(f@ == all[i]);
            let n = f.blocks.len();
            assert(f@.blocks.len() == n);
            assert(n >= 1);
            let tip = f.blocks[n - 1].index_in_chain();
            let first = f.blocks[0].index_in_chain();
            assert(tip == tip_height(all[i]));
            assert(first - 1 == root_pos(all[i]));
            let keep = (height <= SAFE_HORIZON as u64 || tip >= height - SAFE_HORIZON as u64) && first - 1 <= limit;
            assert(all.take(i + 1).drop_last() =~= all.take(i));
            assert(all.take(i + 1).last() == all[i]);
            if keep {
                kept.push(f);
                assert(kept@.map_values(|f: Fork| f@) =~= retain_forks(all.take(i), height as int, limit as int).push(all[i]));
            }
            proof {
                assert forall|k: int| 0 <= k < rest@.len() implies #[trigger] rest@[k]@ == all[i + 1 + k] by {
                    assert(rest@[k] == r0[k + 1]);
                    assert(r0.map_values(|f: Fork| f@)[k + 1] == all.skip(i)[k + 1]);
                }
                i = i + 1;
            }
            assert(rest@.map_values(|f: Fork| f@) =~= all.skip(i));
        }
        assert(all.take(i) =~= all);
        self.pending_forks = kept;
        assert(self@.forks == retain_forks(all, height as int, limit as int));
        assert(self@.main == s.main);
        assert(self@.orphans == s.orphans);
    }

    /// Swaps in the fork with the highest tip when it reaches above the main
    /// tip (the earliest such fork on a tie): the main chain is cut after the
    /// fork's root and the fork's blocks follow. Forks whose root was cut
    /// away, and forks whose tip lies more than the safe horizon below the
    /// new main tip, are dropped; orphans that have become placeable are
    /// placed.
    pub fn resolve_pending_forks(&mut self)
        requires
            old(self).wf(),
        ensures
            final(self)@ == resolve(old(self)@),
            final(self).wf(),
            final(self)@.main.len() >= old(self)@.main.len(),
            final(self)@.main.last().index >= old(self)@.main.last().index,
    {
        let ghost s = self@;
        proof {
            lemma_resolve_structure(s);
            lemma_resolve_distinct(s);
        }
        let mut limit: u64 = self.chain.len() as u64;
        if self.pending_forks.len() > 0 {
            let b = self.best_fork_index();
            proof {
                lemma_best_fork(s.forks, s.forks.len() as int);
                assert(fork_ok(s.main, s.forks[b as int]));
            }
            let tip_h = self.fork_tip(b).index_in_chain();
            let main_h = self.chain[self.chain.len() - 1].index_in_chain();
            if tip_h > main_h {
                assert(promotes(s));
                let f = self.pending_forks.remove(b);
                assert(f@ == s.forks[b as int]);
                let k = (f.blocks[0].index_in_chain() - 1) as usize;
                assert(k == root_pos(s.forks[b as int]));
                self.chain.truncate(k + 1);
                let mut blocks = f.blocks;
                self.chain.append(&mut blocks);
                limit = k as u64;
                assert(self@.main =~= swap_best(s).main);
                assert(self@.forks =~= swap_best(s).forks);
            } else {
                assert(!promotes(s));
            }
        }
        assert(self@ == swap_best(s));
        assert(limit as int == root_limit(s));
        let height = self.chain[self.chain.len() - 1].index_in_chain();
        self.prune_forks(height, limit);
        assert(self@ == prune(swap_best(s), root_limit(s)));
        self.settle();
        proof {
            let p = prune(swap_best(s), root_limit(s));
            lemma_splice_main_prefix(p, p.orphans.len());
        }
        assert(s.main.last().index == s.main.len() - 1);
        assert(self@.main.last().index == self@.main.len() - 1);
    }

    /// The transaction of the main tip.
    pub fn last_transaction(&self) -> (r: &SimpleTransaction)
        requires
            self.wf(),
        ensures
            r@ == self@.main.last().tx,
    {
        self.chain[self.chain.len() - 1].transactions()
    }

    /// A block for `transaction` on top of the main tip, with nonce zero.
    pub fn get_candidate_block(&self, transaction: SimpleTransaction) -> (r: Block)
        requires
            self.wf(),
        ensures
            r@ == child_view(transaction@, self@.main.last()),
            links(self@.main.last(), r@),
    {
        let last = &self.chain[self.chain.len() - 1];
        assert(last@.index == self@.main.len() - 1);
        Block::new_after_block(transaction, last)
    }

    /// Number of blocks in the main chain.
    pub fn len(&self) -> (r: usize)
        ensures
            r == self@.main.len(),
    {
        self.chain.len()
    }

    /// Number of pending forks.
    pub fn fork_count(&self) -> (r: usize)
        ensures
            r == self@.forks.len(),
    {
        self.pending_forks.len()
    }

    /// Number of orphan blocks.
    pub fn orphan_count(&self) -> (r: usize)
        ensures
            r == self@.orphans.len(),
    {
        self.orphan.len()
    }

    /// Some main-chain block carries `tx`.
    pub fn has_transaction(&self, tx: &SimpleTransaction) -> (r: bool)
        ensures
            r == carries(self@.main, tx@),
    {
        let mut i: usize = 0;
        while i < self.chain.len()
            invariant
                i <= self.chain@.len() == self@.main.len(),
                forall|k: int| 0 <= k < i ==> (#[trigger] self@.main[k]).tx != tx@,
            decreases self.chain.len() - i,
        {
            if *self.chain[i].transactions() == *tx {
                assert(self@.main[i as int].tx == tx@);
                return true;
            }
            i = i + 1;
        }
        false
    }

    /// `tx` sits in the main chain at least the safe horizon below the tip,
    /// where all nodes are taken to agree on it.
    pub fn is_transaction_safely_written(&self, tx: &SimpleTransaction) -> (r: bool)
        ensures
            r == safely_written(self@.main, tx@),
    {
        if self.chain.len() < SAFE_HORIZON {
            return false;
        }
        let end = self.chain.len() - SAFE_HORIZON;
        let mut i: usize = 0;
        while i < end
            invariant
                end + SAFE_HORIZON == self.chain@.len() == self@.main.len(),
                i <= end,
                forall|k: int| 0 <= k < i ==> (#[trigger] self@.main[k]).tx != tx@,
            decreases end - i,
        {
            if *self.chain[i].transactions() == *tx {
                assert(self@.main[i as int].tx == tx@);
                return true;
            }
            i = i + 1;
        }
        false
    }

    /// Height and transaction of each block of `blocks`.
    fn listing(blocks: &Vec<Block>) -> (r: Vec<(u64, SimpleTransaction)>)
        ensures
            r@.len() == blocks@.len(),
            forall|i: int| 0 <= i < r@.len() ==> (#[trigger] r@[i]).0 == blocks@[i]@.index && r@[i].1@ == blocks@[i]@.tx,
    {
        let mut r: Vec<(u64, SimpleTransaction)> = Vec::new();
        let mut i: usize = 0;
        while i < blocks.len()
            invariant
                i <= blocks@.len(),
                r@.len() == i,
                forall|k: int| 0 <= k < i ==> (#[trigger] r@[k]).0 == blocks@[k]@.index && r@[k].1@ == blocks@[k]@.tx,
            decreases blocks.len() - i,
        {
            let b = &blocks[i];
            r.push((b.index_in_chain(), b.transactions().duplicate()));
            i = i + 1;
        }
        r
    }

    /// A diagnostic listing, height and transaction of each block: first the
    /// main chain, then each pending fork in order.
    pub fn snapshot(&self) -> (r: Vec<Vec<(u64, SimpleTransaction)>>)
        ensures
            r@.len() == 1 + self@.forks.len(),
            r@[0]@.len() == self@.main.len(),
            forall|i: int| 0 <= i < self@.main.len() ==>
                (#[trigger] r@[0]@[i]).0 == self@.main[i].index && r@[0]@[i].1@ == self@.main[i].tx,
            forall|f: int| 0 <= f < self@.forks.len() ==> (#[trigger] r@[f + 1])@.len() == self@.forks[f].blocks.len(),
            forall|f: int, j: int| 0 <= f < self@.forks.len() && 0 <= j < self@.forks[f].blocks.len() ==>
                (#[trigger] r@[f + 1]@[j]).0 == self@.forks[f].blocks[j].index
                && r@[f + 1]@[j].1@ == self@.forks[f].blocks[j].tx,
    {
        let mut r: Vec<Vec<(u64, SimpleTransaction)>> = Vec::new();
        r.push(Self::listing(&self.chain));
        let mut f: usize = 0;
        while f < self.pending_forks.len()
            invariant
                f <= self.pending_forks@.len() == self@.forks.len(),
                r@.len() == f + 1,
                r@[0]@.len() == self@.main.len(),
                forall|i: int| 0 <= i < self@.main.len() ==>
                    (#[trigger] r@[0]@[i]).0 == self@.main[i].index && r@[0]@[i].1@ == self@.main[i].tx,
                forall|g: int| 0 <= g < f ==> (#[trigger] r@[g + 1])@.len() == self@.forks[g].blocks.len(),
                forall|g: int, j: int| 0 <= g < f && 0 <= j < self@.forks[g].blocks.len() ==>
                    (#[trigger] r@[g + 1]@[j]).0 == self@.forks[g].blocks[j].index
                    && r@[g + 1]@[j].1@ == self@.forks[g].blocks[j].tx,
            decreases self.pending_forks.len() - f,
        {
            let l = Self::listing(&self.pending_forks[f].blocks);
            assert(self.pending_forks@[f as int]@ == self@.forks[f as int]);
            r.push(l);
            f = f + 1;
        }
        r
    }
}

} // verus!
