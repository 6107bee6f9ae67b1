use vstd::prelude::*;
use crate::block::{BlockView, block_hash, genesis_view, links};

verus! {

/// Depth below the head of the main chain past which all nodes are taken to agree.
pub const SAFE_HORIZON: usize = 4;

/// A pending fork: the hash of the main-chain block it branches from, and
/// its blocks in order.
pub struct ForkView {
    pub root: Seq<char>,
    pub blocks: Seq<BlockView>,
}

/// A chain replica as plain values.
pub struct ChainView {
    pub main: Seq<BlockView>,
    pub forks: Seq<ForkView>,
    pub orphans: Seq<BlockView>,
}

/// `tx` is carried by some block of the main chain.
pub open spec fn carries(main: Seq<BlockView>, tx: Seq<char>) -> bool {
    exists|p: int| 0 <= p < main.len() && (#[trigger] main[p]).tx == tx
}

/// `tx` is carried by a main-chain block at least the safe horizon below the
/// tip: at a position `p` with `main.len() - p > SAFE_HORIZON`.
pub open spec fn safely_written(main: Seq<BlockView>, tx: Seq<char>) -> bool {
    exists|p: int| 0 <= p && p + SAFE_HORIZON < main.len() && (#[trigger] main[p]).tx == tx
}

/// Position in the main chain of the block a fork branches from.
pub open spec fn root_pos(f: ForkView) -> int {
    f.blocks[0].index - 1
}

/// Height of the last block of a fork.
pub open spec fn tip_height(f: ForkView) -> int {
    f.blocks.last().index as int
}

/// The main chain starts at genesis and each block links to the one before.
pub open spec fn main_ok(main: Seq<BlockView>) -> bool {
    &&& main.len() >= 1
    &&& main[0] == genesis_view()
    &&& forall|i: int| 0 <= i < main.len() ==> (#[trigger] main[i]).index == i
    &&& forall|i: int| 1 <= i < main.len() ==> links(main[i - 1], #[trigger] main[i])
}

/// A fork is non-empty, branches from a main-chain block whose hash is its
/// root, and each of its blocks links to the one before.
pub open spec fn fork_ok(main: Seq<BlockView>, f: ForkView) -> bool {
    &&& f.blocks.len() >= 1
    &&& 0 <= root_pos(f) < main.len()
    &&& f.root == block_hash(main[root_pos(f)])
    &&& links(main[root_pos(f)], f.blocks[0])
    &&& forall|j: int| 0 <= j < f.blocks.len() ==> (#[trigger] f.blocks[j]).index == f.blocks[0].index + j
    &&& forall|j: int| 1 <= j < f.blocks.len() ==> links(f.blocks[j - 1], #[trigger] f.blocks[j])
}

/// `b` is a valid child of some main-chain block.
pub open spec fn attaches_to_main(main: Seq<BlockView>, b: BlockView) -> bool {
    1 <= b.index <= main.len() && links(main[b.index - 1], b)
}

/// `b` is a valid child of the fork's last block.
pub open spec fn extends_fork(f: ForkView, b: BlockView) -> bool {
    f.blocks.len() >= 1 && links(f.blocks.last(), b)
}

/// `b` could be placed: on a main-chain block or at the tip of a fork.
pub open spec fn linkable(s: ChainView, b: BlockView) -> bool {
    attaches_to_main(s.main, b) || exists|i: int| 0 <= i < s.forks.len() && extends_fork(#[trigger] s.forks[i], b)
}

/// Main chain and forks are well formed.
pub open spec fn structure_ok(s: ChainView) -> bool {
    &&& main_ok(s.main)
    &&& forall|i: int| 0 <= i < s.forks.len() ==> fork_ok(s.main, #[trigger] s.forks[i])
}

/// No orphan could be placed.
pub open spec fn orphans_ok(s: ChainView) -> bool {
    forall|j: int| 0 <= j < s.orphans.len() ==> !linkable(s, #[trigger] s.orphans[j])
}

/// `b` is a block of one of the forks.
pub open spec fn in_forks(forks: Seq<ForkView>, b: BlockView) -> bool {
    exists|i: int| 0 <= i < forks.len() && (#[trigger] forks[i]).blocks.contains(b)
}

/// No block is held in two places: main chain, a fork, the orphans.
pub open spec fn distinct_ok(s: ChainView) -> bool {
    &&& forall|i: int| 0 <= i < s.main.len() ==>
        !in_forks(s.forks, #[trigger] s.main[i]) && !s.orphans.contains(s.main[i])
    &&& forall|j: int| 0 <= j < s.orphans.len() ==> !in_forks(s.forks, #[trigger] s.orphans[j])
    &&& forall|i1: int, i2: int, k1: int, k2: int|
        0 <= i1 < s.forks.len() && 0 <= i2 < s.forks.len() && i1 != i2
        && 0 <= k1 < s.forks[i1].blocks.len() && 0 <= k2 < s.forks[i2].blocks.len()
        ==> #[trigger] s.forks[i1].blocks[k1] != #[trigger] s.forks[i2].blocks[k2]
    &&& s.orphans.no_duplicates()
}

/// The invariants of a chain replica.
pub open spec fn chain_wf(s: ChainView) -> bool {
    structure_ok(s) && distinct_ok(s) && orphans_ok(s)
}

/// Index of the first fork at or after `i` whose tip `b` extends, or the
/// number of forks when there is none.
pub open spec fn first_fork_from(forks: Seq<ForkView>, b: BlockView, i: int) -> int
    decreases forks.len() - i,
{
    if i >= forks.len() || i < 0 {
        forks.len() as int
    } else if extends_fork(forks[i], b) {
        i
    } else {
        first_fork_from(forks, b, i + 1)
    }
}

/// Index of the first fork at or after `i` with the given root, or the
/// number of forks when there is none.
pub open spec fn find_root_from(forks: Seq<ForkView>, root: Seq<char>, i: int) -> int
    decreases forks.len() - i,
{
    if i >= forks.len() || i < 0 {
        forks.len() as int
    } else if forks[i].root == root {
        i
    } else {
        find_root_from(forks, root, i + 1)
    }
}

/// The forks after starting `f`: it takes the place of a fork with the same
/// root, or goes last.
pub open spec fn put_fork(forks: Seq<ForkView>, f: ForkView) -> Seq<ForkView> {
    let i = find_root_from(forks, f.root, 0);
    if i < forks.len() {
        forks.update(i, f)
    } else {
        forks.push(f)
    }
}

/// Placing `b` without looking for duplicates: on the main tip, else on the
/// first fork whose tip it extends, else as a new fork on a main-chain block,
/// else among the orphans. The flag says whether the main chain grew.
pub open spec fn place(s: ChainView, b: BlockView) -> (ChainView, bool) {
    if links(s.main.last(), b) {
        (ChainView { main: s.main.push(b), ..s }, true)
    } else {
        let i = first_fork_from(s.forks, b, 0);
        if i < s.forks.len() {
            let f = s.forks[i];
            (ChainView { forks: s.forks.update(i, ForkView { root: f.root, blocks: f.blocks.push(b) }), ..s }, false)
        } else if attaches_to_main(s.main, b) {
            let f = ForkView { root: block_hash(s.main[b.index - 1]), blocks: seq![b] };
            (ChainView { forks: put_fork(s.forks, f), ..s }, false)
        } else {
            (ChainView { orphans: s.orphans.push(b), ..s }, false)
        }
    }
}

/// `b` is already held somewhere in the replica.
pub open spec fn known(s: ChainView, b: BlockView) -> bool {
    s.main.contains(b) || in_forks(s.forks, b) || s.orphans.contains(b)
}

/// Admission of `b`: a block already held changes nothing.
pub open spec fn admission(s: ChainView, b: BlockView) -> (ChainView, bool) {
    if known(s, b) {
        (s, false)
    } else {
        place(s, b)
    }
}

/// Index of the first orphan at or after `j` that could be placed, or the
/// number of orphans when there is none.
pub open spec fn first_linkable_from(s: ChainView, j: int) -> int
    decreases s.orphans.len() - j,
{
    if j >= s.orphans.len() || j < 0 {
        s.orphans.len() as int
    } else if linkable(s, s.orphans[j]) {
        j
    } else {
        first_linkable_from(s, j + 1)
    }
}

/// Takes the orphan at `j` out of the pool and places it.
pub open spec fn move_orphan(s: ChainView, j: int) -> ChainView {
    place(ChainView { orphans: s.orphans.remove(j), ..s }, s.orphans[j]).0
}

/// Places orphans, first placeable first, for at most `fuel` rounds.
pub open spec fn splice(s: ChainView, fuel: nat) -> ChainView
    decreases fuel,
{
    let j = first_linkable_from(s, 0);
    if fuel == 0 || j >= s.orphans.len() {
        s
    } else {
        splice(move_orphan(s, j), (fuel - 1) as nat)
    }
}

/// The replica once every placeable orphan has been placed.
pub open spec fn settled(s: ChainView) -> ChainView {
    splice(s, s.orphans.len())
}

/// The replica after `append(b)`, and its result.
pub open spec fn append_result(s: ChainView, b: BlockView) -> (ChainView, bool) {
    (settled(admission(s, b).0), admission(s, b).1)
}


pub proof fn lemma_first_fork_from(forks: Seq<ForkView>, b: BlockView, i: int)
    requires
        0 <= i <= forks.len(),
    ensures
        i <= first_fork_from(forks, b, i) <= forks.len(),
        first_fork_from(forks, b, i) < forks.len() ==> extends_fork(forks[first_fork_from(forks, b, i)], b),
        forall|k: int| i <= k < first_fork_from(forks, b, i) ==> !extends_fork(#[trigger] forks[k], b),
    decreases forks.len() - i,
{
    if i < forks.len() && !extends_fork(forks[i], b) {
        lemma_first_fork_from(forks, b, i + 1);
    }
}

pub proof fn lemma_find_root_from(forks: Seq<ForkView>, root: Seq<char>, i: int)
    requires
        0 <= i <= forks.len(),
    ensures
        i <= find_root_from(forks, root, i) <= forks.len(),
        find_root_from(forks, root, i) < forks.len() ==> forks[find_root_from(forks, root, i)].root == root,
    decreases forks.len() - i,
{
    if i < forks.len() && forks[i].root != root {
        lemma_find_root_from(forks, root, i + 1);
    }
}

pub proof fn lemma_first_linkable_from(s: ChainView, j: int)
    requires
        0 <= j <= s.orphans.len(),
    ensures
        j <= first_linkable_from(s, j) <= s.orphans.len(),
        first_linkable_from(s, j) < s.orphans.len() ==> linkable(s, s.orphans[first_linkable_from(s, j)]),
        forall|k: int| j <= k < first_linkable_from(s, j) ==> !linkable(s, #[trigger] s.orphans[k]),
    decreases s.orphans.len() - j,
{
    if j < s.orphans.len() && !linkable(s, s.orphans[j]) {
        lemma_first_linkable_from(s, j + 1);
    }
}

/// Placing a block keeps the main chain and the forks well formed, and a
/// placeable block does not land among the orphans.
pub proof fn lemma_place_structure(s: ChainView, b: BlockView)
    requires
        structure_ok(s),
    ensures
        structure_ok(place(s, b).0),
        linkable(s, b) ==> place(s, b).0.orphans == s.orphans,
        !linkable(s, b) ==> place(s, b).0 == (ChainView { orphans: s.orphans.push(b), ..s }),
        place(s, b).1 <==> links(s.main.last(), b),
        place(s, b).1 ==> place(s, b).0 == (ChainView { main: s.main.push(b), ..s }),
        !place(s, b).1 ==> place(s, b).0.main == s.main,
{
    let r = place(s, b).0;
    lemma_first_fork_from(s.forks, b, 0);
    let i = first_fork_from(s.forks, b, 0);
    if links(s.main.last(), b) {
        let m = s.main.push(b);
        assert(attaches_to_main(s.main, b));
        assert forall|k: int| 1 <= k < m.len() implies links(m[k - 1], #[trigger] m[k]) by {
            if k < m.len() - 1 {
                assert(m[k] == s.main[k] && m[k - 1] == s.main[k - 1]);
            }
        }
        assert forall|k: int| 0 <= k < s.forks.len() implies fork_ok(m, #[trigger] s.forks[k]) by {
            assert(fork_ok(s.main, s.forks[k]));
            assert(m[root_pos(s.forks[k])] == s.main[root_pos(s.forks[k])]);
        }
    } else if i < s.forks.len() {
        let f = s.forks[i];
        let g = ForkView { root: f.root, blocks: f.blocks.push(b) };
        assert(fork_ok(s.main, f));
        assert(g.blocks[0] == f.blocks[0]);
        assert forall|j: int| 1 <= j < g.blocks.len() implies links(g.blocks[j - 1], #[trigger] g.blocks[j]) by {
            if j < g.blocks.len() - 1 {
                assert(g.blocks[j] == f.blocks[j]);
            }
        }
        assert forall|j: int| 0 <= j < g.blocks.len() implies (#[trigger] g.blocks[j]).index == g.blocks[0].index + j by {
            if j < g.blocks.len() - 1 {
                assert(g.blocks[j] == f.blocks[j]);
            } else {
                assert(f.blocks[f.blocks.len() - 1].index == f.blocks[0].index + f.blocks.len() - 1);
            }
        }
        assert(fork_ok(s.main, g));
        assert(linkable(s, b));
    } else if attaches_to_main(s.main, b) {
        let f = ForkView { root: block_hash(s.main[b.index - 1]), blocks: seq![b] };
        assert(fork_ok(s.main, f));
        lemma_find_root_from(s.forks, f.root, 0);
        let fs = put_fork(s.forks, f);
        assert forall|k: int| 0 <= k < fs.len() implies fork_ok(s.main, #[trigger] fs[k]) by {
            if fs[k] != f {
                assert(fs[k] == s.forks[k]);
            }
        }
    } else {
        assert(!linkable(s, b));
    }
}


/// Moving a placeable orphan keeps the structure and shrinks the pool by one.
pub proof fn lemma_move_orphan(s: ChainView, j: int)
    requires
        structure_ok(s),
        distinct_ok(s),
        0 <= j < s.orphans.len(),
        linkable(s, s.orphans[j]),
    ensures
        structure_ok(move_orphan(s, j)),
        distinct_ok(move_orphan(s, j)),
        move_orphan(s, j).orphans == s.orphans.remove(j),
{
    let o = s.orphans[j];
    let s0 = ChainView { orphans: s.orphans.remove(j), ..s };
    assert(s0.forks == s.forks && s0.main == s.main);
    assert(linkable(s0, o));
    lemma_place_structure(s0, o);
    assert(distinct_ok(s0)) by {
        assert forall|a: int| 0 <= a < s0.orphans.len() implies !in_forks(s0.forks, #[trigger] s0.orphans[a]) by {
            if a < j {
                assert(s0.orphans[a] == s.orphans[a]);
            } else {
                assert(s0.orphans[a] == s.orphans[a + 1]);
            }
        }
        assert forall|i: int| 0 <= i < s0.main.len() implies !s0.orphans.contains(#[trigger] s0.main[i]) by {
            if s0.orphans.contains(s0.main[i]) {
                let a = choose|a: int| 0 <= a < s0.orphans.len() && s0.orphans[a] == s0.main[i];
                if a < j {
                    assert(s.orphans[a] == s.main[i]);
                } else {
                    assert(s.orphans[a + 1] == s.main[i]);
                }
            }
        }
        assert forall|a: int, c: int| 0 <= a < s0.orphans.len() && 0 <= c < s0.orphans.len() && a != c
            implies s0.orphans[a] != s0.orphans[c] by {
            let a1 = if a < j { a } else { a + 1 };
            let c1 = if c < j { c } else { c + 1 };
            assert(s0.orphans[a] == s.orphans[a1]);
            assert(s0.orphans[c] == s.orphans[c1]);
        }
    }
    assert(!known(s0, o)) by {
        assert(!s0.main.contains(o)) by {
            if s0.main.contains(o) {
                let i = choose|i: int| 0 <= i < s0.main.len() && s0.main[i] == o;
                assert(s.orphans.contains(s.main[i]));
            }
        }
        assert(!in_forks(s.forks, s.orphans[j]));
        assert(!s0.orphans.contains(o)) by {
            if s0.orphans.contains(o) {
                let a = choose|a: int| 0 <= a < s0.orphans.len() && s0.orphans[a] == o;
                if a < j {
                    assert(s.orphans[a] == s.orphans[j]);
                } else {
                    assert(s.orphans[a + 1] == s.orphans[j]);
                }
            }
        }
    }
    lemma_place_distinct(s0, o);
}

/// Placing a block that is not held anywhere keeps every block in one place.
pub proof fn lemma_place_distinct(s: ChainView, b: BlockView)
    requires
        structure_ok(s),
        distinct_ok(s),
        !known(s, b),
    ensures
        distinct_ok(place(s, b).0),
{
    let t = place(s, b).0;
    lemma_first_fork_from(s.forks, b, 0);
    let fi = first_fork_from(s.forks, b, 0);
    if links(s.main.last(), b) {
        assert forall|i: int| 0 <= i < t.main.len() implies
            !in_forks(t.forks, #[trigger] t.main[i]) && !t.orphans.contains(t.main[i]) by {
            if i < s.main.len() {
                assert(t.main[i] == s.main[i]);
            }
        }
    } else if fi < s.forks.len() {
        let f = s.forks[fi];
        let g = ForkView { root: f.root, blocks: f.blocks.push(b) };
        assert(t.forks == s.forks.update(fi, g));
        assert forall|x: BlockView| #[trigger] in_forks(t.forks, x) implies in_forks(s.forks, x) || x == b by {
            let i = choose|i: int| 0 <= i < t.forks.len() && (#[trigger] t.forks[i]).blocks.contains(x);
            let k = choose|k: int| 0 <= k < t.forks[i].blocks.len() && t.forks[i].blocks[k] == x;
            if i != fi {
                assert(s.forks[i].blocks.contains(x));
            } else if k < f.blocks.len() {
                assert(f.blocks[k] == x);
                assert(s.forks[fi].blocks.contains(x));
            }
        }
        assert forall|i: int| 0 <= i < t.main.len() implies
            !in_forks(t.forks, #[trigger] t.main[i]) && !t.orphans.contains(t.main[i]) by {
            assert(s.main[i] != b);
        }
        assert forall|j: int| 0 <= j < t.orphans.len() implies !in_forks(t.forks, #[trigger] t.orphans[j]) by {
            assert(s.orphans[j] != b);
        }
        assert forall|i1: int, i2: int, k1: int, k2: int|
            0 <= i1 < t.forks.len() && 0 <= i2 < t.forks.len() && i1 != i2
            && 0 <= k1 < t.forks[i1].blocks.len() && 0 <= k2 < t.forks[i2].blocks.len()
            implies #[trigger] t.forks[i1].blocks[k1] != #[trigger] t.forks[i2].blocks[k2] by {
            if i1 == fi && k1 == f.blocks.len() {
                assert(s.forks[i2].blocks.contains(t.forks[i2].blocks[k2]));
            } else if i2 == fi && k2 == f.blocks.len() {
                assert(s.forks[i1].blocks.contains(t.forks[i1].blocks[k1]));
            } else {
                assert(t.forks[i1].blocks[k1] == s.forks[i1].blocks[k1]);
                assert(t.forks[i2].blocks[k2] == s.forks[i2].blocks[k2]);
            }
        }
    } else if attaches_to_main(s.main, b) {
        let f = ForkView { root: block_hash(s.main[b.index - 1]), blocks: seq![b] };
        lemma_find_root_from(s.forks, f.root, 0);
        let ri = find_root_from(s.forks, f.root, 0);
        assert(t.forks == put_fork(s.forks, f));
        assert forall|i: int| 0 <= i < t.forks.len() && t.forks[i] != f implies
            #[trigger] t.forks[i] == s.forks[i] && i < s.forks.len() by {}
        assert forall|x: BlockView| #[trigger] in_forks(t.forks, x) implies in_forks(s.forks, x) || x == b by {
            let i = choose|i: int| 0 <= i < t.forks.len() && (#[trigger] t.forks[i]).blocks.contains(x);
            if t.forks[i] != f {
                assert(s.forks[i].blocks.contains(x));
            }
        }
        assert forall|i: int| 0 <= i < t.main.len() implies
            !in_forks(t.forks, #[trigger] t.main[i]) && !t.orphans.contains(t.main[i]) by {
            assert(s.main[i] != b);
        }
        assert forall|j: int| 0 <= j < t.orphans.len() implies !in_forks(t.forks, #[trigger] t.orphans[j]) by {
            assert(s.orphans[j] != b);
        }
        assert forall|i1: int, i2: int, k1: int, k2: int|
            0 <= i1 < t.forks.len() && 0 <= i2 < t.forks.len() && i1 != i2
            && 0 <= k1 < t.forks[i1].blocks.len() && 0 <= k2 < t.forks[i2].blocks.len()
            implies #[trigger] t.forks[i1].blocks[k1] != #[trigger] t.forks[i2].blocks[k2] by {
            if t.forks[i1] == f {
                assert(t.forks[i1].blocks[k1] == b);
                if t.forks[i2] != f {
                    assert(s.forks[i2].blocks.contains(t.forks[i2].blocks[k2]));
                } else {
                    assert(false) by {
                        if i1 < s.forks.len() && i2 < s.forks.len() {
                            assert(ri < s.forks.len());
                        }
                    }
                }
            } else if t.forks[i2] == f {
                assert(t.forks[i2].blocks[k2] == b);
                assert(s.forks[i1].blocks.contains(t.forks[i1].blocks[k1]));
            } else {
                assert(t.forks[i1] == s.forks[i1]);
                assert(t.forks[i2] == s.forks[i2]);
            }
        }
    } else {
        assert forall|i: int| 0 <= i < t.main.len() implies
            !in_forks(t.forks, #[trigger] t.main[i]) && !t.orphans.contains(t.main[i]) by {
            assert(s.main[i] != b);
            if t.orphans.contains(t.main[i]) {
                let a = choose|a: int| 0 <= a < t.orphans.len() && t.orphans[a] == t.main[i];
                if a < s.orphans.len() {
                    assert(s.orphans[a] == s.main[i]);
                }
            }
        }
        assert forall|j: int| 0 <= j < t.orphans.len() implies !in_forks(t.forks, #[trigger] t.orphans[j]) by {
            if j < s.orphans.len() {
                assert(t.orphans[j] == s.orphans[j]);
            }
        }
        assert forall|a: int, c: int| 0 <= a < t.orphans.len() && 0 <= c < t.orphans.len() && a != c
            implies t.orphans[a] != t.orphans[c] by {
            if a == s.orphans.len() {
                assert(!s.orphans.contains(b));
                assert(t.orphans[c] == s.orphans[c]);
            } else if c == s.orphans.len() {
                assert(t.orphans[a] == s.orphans[a]);
            } else {
                assert(t.orphans[a] == s.orphans[a]);
                assert(t.orphans[c] == s.orphans[c]);
            }
        }
    }
}

/// Splicing, given one round per orphan, ends in a state that meets every invariant.
pub proof fn lemma_splice_wf(s: ChainView, fuel: nat)
    requires
        structure_ok(s),
        distinct_ok(s),
        fuel == s.orphans.len(),
    ensures
        chain_wf(splice(s, fuel)),
    decreases fuel,
{
    lemma_first_linkable_from(s, 0);
    let j = first_linkable_from(s, 0);
    if fuel == 0 || j >= s.orphans.len() {
    } else {
        lemma_move_orphan(s, j);
        lemma_splice_wf(move_orphan(s, j), (fuel - 1) as nat);
    }
}

/// A state whose orphans are all unplaceable is left as it is.
pub proof fn lemma_settled_noop(s: ChainView)
    requires
        orphans_ok(s),
    ensures
        settled(s) == s,
{
    lemma_first_linkable_from(s, 0);
}


/// One round of splicing: moving the first placeable orphan leaves the
/// settled state unchanged and keeps the structure.
pub proof fn lemma_settle_step(s: ChainView, j: int)
    requires
        structure_ok(s),
        distinct_ok(s),
        j == first_linkable_from(s, 0),
        0 <= j < s.orphans.len(),
    ensures
        structure_ok(move_orphan(s, j)),
        distinct_ok(move_orphan(s, j)),
        move_orphan(s, j).orphans.len() == s.orphans.len() - 1,
        settled(move_orphan(s, j)) == settled(s),
{
    lemma_first_linkable_from(s, 0);
    lemma_move_orphan(s, j);
}


/// When no orphan can be placed, splicing changes nothing.
pub proof fn lemma_settled_done(s: ChainView)
    requires
        first_linkable_from(s, 0) >= s.orphans.len(),
    ensures
        settled(s) == s,
{
}


/// Index of the fork with the highest tip among the first `n`; the earliest
/// one on a tie.
pub open spec fn best_fork(forks: Seq<ForkView>, n: int) -> int
    decreases n,
{
    if n <= 1 {
        0
    } else {
        let b = best_fork(forks, n - 1);
        if tip_height(forks[n - 1]) > tip_height(forks[b]) {
            n - 1
        } else {
            b
        }
    }
}

/// The best fork reaches higher than the main tip.
pub open spec fn promotes(s: ChainView) -> bool {
    s.forks.len() > 0 && tip_height(s.forks[best_fork(s.forks, s.forks.len() as int)]) > s.main.last().index
}

/// The main chain cut after the best fork's root, with the fork's blocks
/// appended, and the fork taken out; or `s` when no fork reaches higher.
pub open spec fn swap_best(s: ChainView) -> ChainView {
    if promotes(s) {
        let b = best_fork(s.forks, s.forks.len() as int);
        let f = s.forks[b];
        ChainView { main: s.main.take(root_pos(f) + 1) + f.blocks, forks: s.forks.remove(b), orphans: s.orphans }
    } else {
        s
    }
}

/// Forks rooted past this main-chain position lost their root in the swap.
pub open spec fn root_limit(s: ChainView) -> int {
    if promotes(s) {
        root_pos(s.forks[best_fork(s.forks, s.forks.len() as int)])
    } else {
        s.main.len() as int
    }
}

/// A fork stays when its tip is at most the safe horizon below `height` and
/// its root is at or before `limit`.
pub open spec fn keep_fork(f: ForkView, height: int, limit: int) -> bool {
    tip_height(f) + SAFE_HORIZON >= height && root_pos(f) <= limit
}

/// The forks that stay, in their order.
pub open spec fn retain_forks(forks: Seq<ForkView>, height: int, limit: int) -> Seq<ForkView>
    decreases forks.len(),
{
    if forks.len() == 0 {
        forks
    } else {
        let r = retain_forks(forks.drop_last(), height, limit);
        if keep_fork(forks.last(), height, limit) {
            r.push(forks.last())
        } else {
            r
        }
    }
}

/// Drops the forks that do not stay, measured against the main tip.
pub open spec fn prune(s: ChainView, limit: int) -> ChainView {
    ChainView { forks: retain_forks(s.forks, s.main.last().index as int, limit), ..s }
}

/// The replica after `resolve_pending_forks`.
pub open spec fn resolve(s: ChainView) -> ChainView {
    settled(prune(swap_best(s), root_limit(s)))
}

pub proof fn lemma_best_fork(forks: Seq<ForkView>, n: int)
    requires
        1 <= n <= forks.len(),
    ensures
        0 <= best_fork(forks, n) < n,
        forall|k: int| 0 <= k < n ==> tip_height(#[trigger] forks[k]) <= tip_height(forks[best_fork(forks, n)]),
    decreases n,
{
    if n > 1 {
        lemma_best_fork(forks, n - 1);
    }
}

pub proof fn lemma_retain_forks(forks: Seq<ForkView>, height: int, limit: int)
    ensures
        retain_forks(forks, height, limit).len() <= forks.len(),
        forall|k: int| 0 <= k < retain_forks(forks, height, limit).len() ==>
            forks.contains(#[trigger] retain_forks(forks, height, limit)[k])
            && keep_fork(retain_forks(forks, height, limit)[k], height, limit),
    decreases forks.len(),
{
    if forks.len() > 0 {
        let r = retain_forks(forks, height, limit);
        let d = forks.drop_last();
        lemma_retain_forks(d, height, limit);
        assert forall|k: int| 0 <= k < r.len() implies forks.contains(#[trigger] r[k]) && keep_fork(r[k], height, limit) by {
            if k < retain_forks(d, height, limit).len() {
                let x = retain_forks(d, height, limit)[k];
                assert(r[k] == x);
                assert(d.contains(x));
                let w = choose|w: int| 0 <= w < d.len() && d[w] == x;
                assert(forks[w] == x);
            } else {
                assert(r[k] == forks[forks.len() - 1]);
            }
        }
    }
}

/// Swapping in the best fork and dropping the forks that lost their root
/// keeps the main chain and the forks well formed; the main chain never
/// gets shorter.
pub proof fn lemma_resolve_structure(s: ChainView)
    requires
        structure_ok(s),
    ensures
        structure_ok(prune(swap_best(s), root_limit(s))),
        swap_best(s).main.len() >= s.main.len(),
        swap_best(s).orphans == s.orphans,
        !promotes(s) ==> swap_best(s) == s,
        forall|i: int| 0 <= i < swap_best(s).forks.len() ==>
            (#[trigger] swap_best(s).forks[i]).blocks.len() >= 1 && swap_best(s).forks[i].blocks[0].index >= 1,
{
    let t = swap_best(s);
    let limit = root_limit(s);
    let p = prune(t, limit);
    lemma_retain_forks(t.forks, t.main.last().index as int, limit);
    if promotes(s) {
        let n = s.forks.len() as int;
        lemma_best_fork(s.forks, n);
        let b = best_fork(s.forks, n);
        let f = s.forks[b];
        assert(fork_ok(s.main, f));
        let k = root_pos(f);
        let m = t.main;
        assert(m == s.main.take(k + 1) + f.blocks);
        assert(m.len() == k + 1 + f.blocks.len());
        assert(f.blocks.last().index == f.blocks[0].index + f.blocks.len() - 1);
        assert(s.main.last().index == s.main.len() - 1);
        assert forall|i: int| 0 <= i < m.len() implies (#[trigger] m[i]).index == i by {
            if i <= k {
                assert(m[i] == s.main[i]);
            } else {
                assert(m[i] == f.blocks[i - k - 1]);
            }
        }
        assert forall|i: int| 1 <= i < m.len() implies links(m[i - 1], #[trigger] m[i]) by {
            if i <= k {
                assert(m[i] == s.main[i]);
                assert(m[i - 1] == s.main[i - 1]);
            } else if i == k + 1 {
                assert(m[i] == f.blocks[0]);
                assert(m[i - 1] == s.main[k]);
            } else {
                assert(m[i] == f.blocks[i - k - 1]);
                assert(m[i - 1] == f.blocks[i - k - 2]);
            }
        }
        assert(m[0] == s.main[0]);
        assert(main_ok(m));
        assert forall|i: int| 0 <= i < p.forks.len() implies fork_ok(p.main, #[trigger] p.forks[i]) by {
            let g = p.forks[i];
            assert(t.forks.contains(g));
            let w = choose|w: int| 0 <= w < t.forks.len() && t.forks[w] == g;
            if w < b {
                assert(s.forks[w] == g);
            } else {
                assert(s.forks[w + 1] == g);
            }
            assert(s.forks.contains(g));
            assert(fork_ok(s.main, g));
            assert(m[root_pos(g)] == s.main[root_pos(g)]);
        }
        assert forall|i: int| 0 <= i < t.forks.len() implies
            (#[trigger] t.forks[i]).blocks.len() >= 1 && t.forks[i].blocks[0].index >= 1 by {
            if i < b {
                assert(t.forks[i] == s.forks[i]);
            } else {
                assert(t.forks[i] == s.forks[i + 1]);
            }
            assert(fork_ok(s.main, s.forks[i]) && fork_ok(s.main, s.forks[i + 1]));
        }
    } else {
        assert forall|i: int| 0 <= i < p.forks.len() implies fork_ok(p.main, #[trigger] p.forks[i]) by {
            let g = p.forks[i];
            assert(t.forks.contains(g));
        }
        assert forall|i: int| 0 <= i < t.forks.len() implies
            (#[trigger] t.forks[i]).blocks.len() >= 1 && t.forks[i].blocks[0].index >= 1 by {
            assert(fork_ok(s.main, s.forks[i]));
        }
    }
}

/// Splicing only appends to the main chain.
pub proof fn lemma_splice_main_prefix(s: ChainView, fuel: nat)
    ensures
        splice(s, fuel).main.len() >= s.main.len(),
        splice(s, fuel).main.take(s.main.len() as int) == s.main,
    decreases fuel,
{
    let j = first_linkable_from(s, 0);
    if fuel == 0 || j >= s.orphans.len() {
        assert(s.main.take(s.main.len() as int) =~= s.main);
    } else {
        let s0 = ChainView { orphans: s.orphans.remove(j), ..s };
        let t = move_orphan(s, j);
        assert(t.main == s.main || t.main == s.main.push(s.orphans[j]));
        lemma_splice_main_prefix(t, (fuel - 1) as nat);
        let u = splice(t, (fuel - 1) as nat);
        assert(u == splice(s, fuel));
        assert(u.main.take(s.main.len() as int) =~= u.main.take(t.main.len() as int).take(s.main.len() as int));
        assert(t.main.take(s.main.len() as int) =~= s.main);
    }
}


pub proof fn lemma_retain_no_duplicates(forks: Seq<ForkView>, height: int, limit: int)
    requires
        forks.no_duplicates(),
    ensures
        retain_forks(forks, height, limit).no_duplicates(),
    decreases forks.len(),
{
    if forks.len() > 0 {
        let d = forks.drop_last();
        assert(d.no_duplicates()) by {
            assert forall|a: int, c: int| 0 <= a < d.len() && 0 <= c < d.len() && a != c implies d[a] != d[c] by {
                assert(d[a] == forks[a] && d[c] == forks[c]);
            }
        }
        lemma_retain_no_duplicates(d, height, limit);
        lemma_retain_forks(d, height, limit);
        let r = retain_forks(d, height, limit);
        if keep_fork(forks.last(), height, limit) {
            assert forall|a: int, c: int| 0 <= a < r.len() + 1 && 0 <= c < r.len() + 1 && a != c
                implies r.push(forks.last())[a] != r.push(forks.last())[c] by {
                if a == r.len() || c == r.len() {
                    let other = if a == r.len() { c } else { a };
                    assert(d.contains(r[other]));
                    let w = choose|w: int| 0 <= w < d.len() && d[w] == r[other];
                    assert(forks[w] == r[other]);
                    assert(forks[forks.len() - 1] == forks.last());
                }
            }
        }
    }
}

/// The index of the fork swapped in by `resolve`, when there is one.
pub open spec fn swapped_index(s: ChainView) -> int {
    if promotes(s) { best_fork(s.forks, s.forks.len() as int) } else { -1 }
}

/// `x` is a fork of `s` other than the one swapped in.
pub open spec fn kept_from(s: ChainView, x: ForkView) -> bool {
    exists|w: int| 0 <= w < s.forks.len() && w != swapped_index(s) && #[trigger] s.forks[w] == x
}

pub proof fn lemma_pruned_forks(s: ChainView)
    requires
        structure_ok(s),
        distinct_ok(s),
    ensures
        prune(swap_best(s), root_limit(s)).forks.no_duplicates(),
        forall|i: int| 0 <= i < prune(swap_best(s), root_limit(s)).forks.len() ==>
            kept_from(s, #[trigger] prune(swap_best(s), root_limit(s)).forks[i]),
{
    let t = swap_best(s);
    let limit = root_limit(s);
    let p = prune(t, limit);
    let h = t.main.last().index as int;
    let n = s.forks.len() as int;
    let best = swapped_index(s);
    if n > 0 {
        lemma_best_fork(s.forks, n);
    }
    lemma_retain_forks(t.forks, h, limit);
    assert(s.forks.no_duplicates()) by {
        assert forall|a: int, c: int| 0 <= a < n && 0 <= c < n && a != c implies s.forks[a] != s.forks[c] by {
            assert(fork_ok(s.main, s.forks[a]));
            if s.forks[a] == s.forks[c] {
                assert(s.forks[a].blocks[0] == s.forks[c].blocks[0]);
            }
        }
    }
    assert(t.forks.no_duplicates()) by {
        if promotes(s) {
            assert forall|a: int, c: int| 0 <= a < t.forks.len() && 0 <= c < t.forks.len() && a != c
                implies t.forks[a] != t.forks[c] by {
                let a1 = if a < best { a } else { a + 1 };
                let c1 = if c < best { c } else { c + 1 };
                assert(t.forks[a] == s.forks[a1]);
                assert(t.forks[c] == s.forks[c1]);
            }
        }
    }
    lemma_retain_no_duplicates(t.forks, h, limit);
    assert forall|i: int| 0 <= i < p.forks.len() implies kept_from(s, #[trigger] p.forks[i]) by {
        assert(t.forks.contains(p.forks[i]));
        let w = choose|w: int| 0 <= w < t.forks.len() && t.forks[w] == p.forks[i];
        if promotes(s) {
            let w1 = if w < best { w } else { w + 1 };
            assert(s.forks[w1] == p.forks[i]);
        } else {
            assert(s.forks[w] == p.forks[i]);
        }
    }
}

/// A block of a kept fork is a block of a fork of `s` other than the swapped one.
pub proof fn lemma_kept_block(s: ChainView, forks: Seq<ForkView>, x: BlockView)
    requires
        forall|i: int| 0 <= i < forks.len() ==> kept_from(s, #[trigger] forks[i]),
        in_forks(forks, x),
    ensures
        exists|w: int, k: int| 0 <= w < s.forks.len() && w != swapped_index(s)
            && 0 <= k < s.forks[w].blocks.len() && #[trigger] s.forks[w].blocks[k] == x,
{
    let i = choose|i: int| 0 <= i < forks.len() && (#[trigger] forks[i]).blocks.contains(x);
    assert(kept_from(s, forks[i]));
    let w = choose|w: int| 0 <= w < s.forks.len() && w != swapped_index(s) && #[trigger] s.forks[w] == forks[i];
    let k = choose|k: int| 0 <= k < forks[i].blocks.len() && forks[i].blocks[k] == x;
    assert(s.forks[w].blocks[k] == x);
}

/// Swapping in the best fork and dropping forks keeps every block in one place.
pub proof fn lemma_resolve_distinct(s: ChainView)
    requires
        structure_ok(s),
        distinct_ok(s),
    ensures
        distinct_ok(prune(swap_best(s), root_limit(s))),
{
    let t = swap_best(s);
    let p = prune(t, root_limit(s));
    let n = s.forks.len() as int;
    let best = swapped_index(s);
    if n > 0 {
        lemma_best_fork(s.forks, n);
    }
    lemma_pruned_forks(s);
    assert forall|i: int| 0 <= i < p.main.len() implies
        !in_forks(p.forks, #[trigger] p.main[i]) && !p.orphans.contains(p.main[i]) by {
        let x = p.main[i];
        if promotes(s) && i > root_pos(s.forks[best]) {
            let f = s.forks[best];
            let m = i - root_pos(f) - 1;
            assert(fork_ok(s.main, f));
            assert(x == f.blocks[m]);
            if in_forks(p.forks, x) {
                lemma_kept_block(s, p.forks, x);
                let (w, k) = choose|w: int, k: int| 0 <= w < s.forks.len() && w != swapped_index(s)
                    && 0 <= k < s.forks[w].blocks.len() && #[trigger] s.forks[w].blocks[k] == x;
                assert(s.forks[best].blocks[m] != s.forks[w].blocks[k]);
            }
            if p.orphans.contains(x) {
                let a = choose|a: int| 0 <= a < p.orphans.len() && p.orphans[a] == x;
                assert(!in_forks(s.forks, s.orphans[a]));
                assert(s.forks[best].blocks.contains(x));
            }
        } else {
            assert(x == s.main[i]);
            assert(!in_forks(s.forks, s.main[i]));
            if in_forks(p.forks, x) {
                lemma_kept_block(s, p.forks, x);
                let (w, k) = choose|w: int, k: int| 0 <= w < s.forks.len() && w != swapped_index(s)
                    && 0 <= k < s.forks[w].blocks.len() && #[trigger] s.forks[w].blocks[k] == x;
                assert(s.forks[w].blocks.contains(x));
            }
        }
    }
    assert forall|j: int| 0 <= j < p.orphans.len() implies !in_forks(p.forks, #[trigger] p.orphans[j]) by {
        let x = p.orphans[j];
        assert(!in_forks(s.forks, s.orphans[j]));
        if in_forks(p.forks, x) {
            lemma_kept_block(s, p.forks, x);
            let (w, k) = choose|w: int, k: int| 0 <= w < s.forks.len() && w != swapped_index(s)
                && 0 <= k < s.forks[w].blocks.len() && #[trigger] s.forks[w].blocks[k] == x;
            assert(s.forks[w].blocks.contains(x));
        }
    }
    assert forall|i1: int, i2: int, k1: int, k2: int|
        0 <= i1 < p.forks.len() && 0 <= i2 < p.forks.len() && i1 != i2
        && 0 <= k1 < p.forks[i1].blocks.len() && 0 <= k2 < p.forks[i2].blocks.len()
        implies #[trigger] p.forks[i1].blocks[k1] != #[trigger] p.forks[i2].blocks[k2] by {
        assert(kept_from(s, p.forks[i1]) && kept_from(s, p.forks[i2]));
        let w1 = choose|w: int| 0 <= w < s.forks.len() && w != swapped_index(s) && #[trigger] s.forks[w] == p.forks[i1];
        let w2 = choose|w: int| 0 <= w < s.forks.len() && w != swapped_index(s) && #[trigger] s.forks[w] == p.forks[i2];
        assert(p.forks[i1] != p.forks[i2]);
        assert(s.forks[w1].blocks[k1] != s.forks[w2].blocks[k2]);
    }
}

} // verus!
