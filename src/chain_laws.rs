use vstd::prelude::*;
use crate::block::{BlockView, links};
use crate::chain_model::{
    ChainView, ForkView, SAFE_HORIZON, chain_wf, structure_ok, orphans_ok, fork_ok, linkable,
    attaches_to_main, extends_fork, place, admission, known, settled, append_result, resolve,
    swap_best, prune, root_limit, promotes, best_fork, retain_forks, keep_fork, root_pos,
    tip_height, safely_written, put_fork, first_fork_from, lemma_first_fork_from,
    lemma_find_root_from, lemma_place_structure, lemma_settled_noop, lemma_splice_main_prefix,
    lemma_best_fork, lemma_retain_forks, lemma_resolve_structure, lemma_resolve_distinct,
    lemma_place_distinct, lemma_splice_wf,
};

verus! {

/// The replica's invariants hold after `append` and after
/// `resolve_pending_forks`; resolving never shortens the main chain nor
/// lowers its tip.
pub proof fn lemma_operations_keep_invariants(s: ChainView, b: BlockView)
    requires
        chain_wf(s),
    ensures
        chain_wf(append_result(s, b).0),
        chain_wf(resolve(s)),
        resolve(s).main.len() >= s.main.len(),
        resolve(s).main.last().index >= s.main.last().index,
{
    if known(s, b) {
        lemma_settled_noop(s);
    } else {
        lemma_place_structure(s, b);
        lemma_place_distinct(s, b);
        let a = place(s, b).0;
        lemma_splice_wf(a, a.orphans.len());
    }
    lemma_resolve_structure(s);
    lemma_resolve_distinct(s);
    let p = prune(swap_best(s), root_limit(s));
    lemma_splice_wf(p, p.orphans.len());
    lemma_splice_main_prefix(p, p.orphans.len());
    let r = resolve(s);
    assert(r.main.last().index == r.main.len() - 1);
    assert(s.main.last().index == s.main.len() - 1);
}

/// Placing a block that no orphan waits for leaves no orphan placeable.
pub proof fn lemma_place_keeps_orphans_ok(s: ChainView, b: BlockView)
    requires
        chain_wf(s),
        forall|j: int| 0 <= j < s.orphans.len() ==> !links(b, #[trigger] s.orphans[j]),
    ensures
        orphans_ok(place(s, b).0),
{
    let t = place(s, b).0;
    lemma_place_structure(s, b);
    lemma_first_fork_from(s.forks, b, 0);
    let fi = first_fork_from(s.forks, b, 0);
    if links(s.main.last(), b) {
        assert forall|j: int| 0 <= j < t.orphans.len() implies !linkable(t, #[trigger] t.orphans[j]) by {
            let o = t.orphans[j];
            assert(!linkable(s, o));
            assert(!links(b, o));
            if attaches_to_main(t.main, o) && o.index - 1 < s.main.len() {
                assert(t.main[o.index - 1] == s.main[o.index - 1]);
            }
            assert(t.forks == s.forks);
        }
    } else if fi < s.forks.len() {
        assert forall|j: int| 0 <= j < t.orphans.len() implies !linkable(t, #[trigger] t.orphans[j]) by {
            let o = t.orphans[j];
            assert(!linkable(s, o));
            assert(!links(b, o));
            assert forall|i: int| 0 <= i < t.forks.len() implies !extends_fork(#[trigger] t.forks[i], o) by {
                if i != fi {
                    assert(t.forks[i] == s.forks[i]);
                    assert(!extends_fork(s.forks[i], o));
                } else {
                    assert(t.forks[i].blocks.last() == b);
                }
            }
        }
    } else if attaches_to_main(s.main, b) {
        let f = ForkView { root: block_root(s, b), blocks: seq![b] };
        lemma_find_root_from(s.forks, f.root, 0);
        assert(t.forks == put_fork(s.forks, f));
        assert forall|j: int| 0 <= j < t.orphans.len() implies !linkable(t, #[trigger] t.orphans[j]) by {
            let o = t.orphans[j];
            assert(!linkable(s, o));
            assert(!links(b, o));
            assert forall|i: int| 0 <= i < t.forks.len() implies !extends_fork(#[trigger] t.forks[i], o) by {
                if t.forks[i] != f {
                    assert(t.forks[i] == s.forks[i]);
                    assert(!extends_fork(s.forks[i], o));
                } else {
                    assert(f.blocks.last() == b);
                }
            }
        }
    } else {
        assert forall|j: int| 0 <= j < t.orphans.len() implies !linkable(t, #[trigger] t.orphans[j]) by {
            let o = t.orphans[j];
            if j < s.orphans.len() {
                assert(o == s.orphans[j]);
                assert(!linkable(s, o));
            } else {
                assert(o == b);
                assert(!linkable(s, b));
            }
            assert(t.main == s.main && t.forks == s.forks);
        }
    }
}

/// Hash of the main-chain block that `b` extends.
pub open spec fn block_root(s: ChainView, b: BlockView) -> Seq<char> {
    crate::block::block_hash(s.main[b.index - 1])
}

/// `append(b)` returns true exactly when the main chain grew by one block
/// and that block is `b`, provided no orphan waits for `b` (otherwise the
/// orphans that follow it are spliced onto the main chain too).
pub proof fn lemma_append_result_iff_main_grew(s: ChainView, b: BlockView)
    requires
        chain_wf(s),
        forall|j: int| 0 <= j < s.orphans.len() ==> !links(b, #[trigger] s.orphans[j]),
    ensures
        append_result(s, b).1 <==> (append_result(s, b).0.main.len() == s.main.len() + 1
            && append_result(s, b).0.main.last() == b),
{
    if known(s, b) {
        lemma_settled_noop(s);
    } else {
        lemma_place_keeps_orphans_ok(s, b);
        lemma_settled_noop(place(s, b).0);
        lemma_place_structure(s, b);
    }
}

/// Once a transaction is safely written, appending any block keeps it so.
pub proof fn lemma_safely_written_after_append(s: ChainView, b: BlockView, tx: Seq<char>)
    requires
        chain_wf(s),
        safely_written(s.main, tx),
    ensures
        safely_written(append_result(s, b).0.main, tx),
{
    let a = admission(s, b).0;
    if !known(s, b) {
        lemma_place_structure(s, b);
    }
    assert(a.main == s.main || a.main == s.main.push(b));
    lemma_splice_main_prefix(a, a.orphans.len());
    let r = settled(a).main;
    let p = choose|p: int| 0 <= p && p + SAFE_HORIZON < s.main.len() && (#[trigger] s.main[p]).tx == tx;
    assert(r.take(a.main.len() as int)[p] == a.main[p]);
    assert(a.main[p] == s.main[p]);
    assert(r[p] == s.main[p]);
}

/// Once a transaction is safely written, resolving forks keeps it so, as
/// long as every pending fork branches off within the safe horizon (a fork
/// from deeper down that overtakes the main chain cuts the block away).
pub proof fn lemma_safely_written_after_resolve(s: ChainView, tx: Seq<char>)
    requires
        chain_wf(s),
        safely_written(s.main, tx),
        forall|i: int| 0 <= i < s.forks.len() ==> root_pos(#[trigger] s.forks[i]) + SAFE_HORIZON + 1 >= s.main.len(),
    ensures
        safely_written(resolve(s).main, tx),
{
    lemma_resolve_structure(s);
    let t = swap_best(s);
    let pruned = prune(t, root_limit(s));
    lemma_splice_main_prefix(pruned, pruned.orphans.len());
    let r = settled(pruned).main;
    let p = choose|p: int| 0 <= p && p + SAFE_HORIZON < s.main.len() && (#[trigger] s.main[p]).tx == tx;
    if promotes(s) {
        let n = s.forks.len() as int;
        lemma_best_fork(s.forks, n);
        let f = s.forks[best_fork(s.forks, n)];
        assert(root_pos(f) + SAFE_HORIZON + 1 >= s.main.len());
        assert(t.main[p] == s.main[p]);
    }
    assert(t.main[p] == s.main[p]);
    assert(r.take(pruned.main.len() as int)[p] == pruned.main[p]);
    assert(r[p] == s.main[p]);
}

/// Forks that all stay are kept as they are.
pub proof fn lemma_retain_all(forks: Seq<ForkView>, height: int, limit: int)
    requires
        forall|i: int| 0 <= i < forks.len() ==> keep_fork(#[trigger] forks[i], height, limit),
    ensures
        retain_forks(forks, height, limit) == forks,
    decreases forks.len(),
{
    if forks.len() > 0 {
        let d = forks.drop_last();
        assert forall|i: int| 0 <= i < d.len() implies keep_fork(#[trigger] d[i], height, limit) by {
            assert(d[i] == forks[i]);
        }
        lemma_retain_all(d, height, limit);
        assert(keep_fork(forks[forks.len() - 1], height, limit));
        assert(d.push(forks.last()) =~= forks);
    }
}

/// Resolving forks twice in a row does what resolving once does, provided
/// no orphan waits for a block of a pending fork (otherwise orphans spliced
/// after a swap may grow a fork above the new main tip).
pub proof fn lemma_resolve_idempotent(s: ChainView)
    requires
        structure_ok(s),
        orphans_ok(s),
        forall|i: int, k: int, j: int|
            0 <= i < s.forks.len() && 0 <= k < s.forks[i].blocks.len() && 0 <= j < s.orphans.len()
            ==> !links(#[trigger] s.forks[i].blocks[k], #[trigger] s.orphans[j]),
    ensures
        resolve(resolve(s)) == resolve(s),
{
    lemma_resolve_structure(s);
    let t = swap_best(s);
    let limit = root_limit(s);
    let p = prune(t, limit);
    let h = t.main.last().index as int;
    lemma_retain_forks(t.forks, h, limit);
    let n = s.forks.len() as int;
    if n > 0 {
        lemma_best_fork(s.forks, n);
    }
    // every fork of `p` is a fork of `s`
    assert forall|i: int| 0 <= i < p.forks.len() implies s.forks.contains(#[trigger] p.forks[i]) by {
        let g = p.forks[i];
        assert(t.forks.contains(g));
        let w = choose|w: int| 0 <= w < t.forks.len() && t.forks[w] == g;
        if promotes(s) {
            let b = best_fork(s.forks, n);
            if w < b {
                assert(s.forks[w] == g);
            } else {
                assert(s.forks[w + 1] == g);
            }
        }
    }
    // no orphan is placeable in `p`
    assert forall|j: int| 0 <= j < p.orphans.len() implies !linkable(p, #[trigger] p.orphans[j]) by {
        let o = p.orphans[j];
        assert(o == s.orphans[j]);
        assert(!linkable(s, o));
        if attaches_to_main(p.main, o) {
            if promotes(s) {
                let b = best_fork(s.forks, n);
                let f = s.forks[b];
                let k = root_pos(f);
                if o.index - 1 <= k {
                    assert(p.main[o.index - 1] == s.main[o.index - 1]);
                } else {
                    assert(p.main[o.index - 1] == f.blocks[o.index - 1 - k - 1]);
                    assert(!links(s.forks[b].blocks[o.index - 1 - k - 1], s.orphans[j]));
                }
            }
        }
        assert forall|i: int| 0 <= i < p.forks.len() implies !extends_fork(#[trigger] p.forks[i], o) by {
            assert(s.forks.contains(p.forks[i]));
            let w = choose|w: int| 0 <= w < s.forks.len() && s.forks[w] == p.forks[i];
            assert(!extends_fork(s.forks[w], o));
        }
    }
    lemma_settled_noop(p);
    assert(resolve(s) == p);
    // `p` has no fork above its tip
    if p.forks.len() > 0 {
        let m = p.forks.len() as int;
        lemma_best_fork(p.forks, m);
        let g = p.forks[best_fork(p.forks, m)];
        assert(s.forks.contains(g));
        let w = choose|w: int| 0 <= w < s.forks.len() && s.forks[w] == g;
        assert(tip_height(s.forks[w]) <= tip_height(s.forks[best_fork(s.forks, n)]));
        if promotes(s) {
            let f = s.forks[best_fork(s.forks, n)];
            assert(fork_ok(s.main, f));
            assert(f.blocks.last().index == f.blocks[0].index + f.blocks.len() - 1);
            assert(p.main.last() == f.blocks.last());
        }
    }
    assert(!promotes(p));
    assert(swap_best(p) == p);
    assert forall|i: int| 0 <= i < p.forks.len() implies keep_fork(#[trigger] p.forks[i], h, p.main.len() as int) by {
        assert(keep_fork(p.forks[i], h, limit));
        assert(fork_ok(p.main, p.forks[i]));
    }
    lemma_retain_all(p.forks, h, p.main.len() as int);
    assert(prune(p, root_limit(p)) == p);
}

} // verus!
