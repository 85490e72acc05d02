//! Partitions of the states of an automaton into blocks, and what it means
//! for a partition to be stable.

use crate::model::Dfa;
use vstd::prelude::*;
use vstd::set_lib::{lemma_int_range, lemma_len_subset, set_int_range};

verus! {

/// The blocks of an executable partition as sequences of state numbers.
pub open spec fn blocks_view(blocks: Seq<Vec<usize>>) -> Seq<Seq<int>> {
    Seq::new(blocks.len(), |i: int| Seq::new(blocks[i]@.len(), |j: int| blocks[i][j] as int))
}

/// Some block holds the state.
pub open spec fn covered(p: Seq<Seq<int>>, state: int) -> bool {
    exists|i: int| 0 <= i < p.len() && #[trigger] p[i].contains(state)
}

/// The blocks are non-empty sets of states below `n`, no state occurs twice
/// in them, and every state below `n` occurs.
pub open spec fn is_partition(p: Seq<Seq<int>>, n: int) -> bool {
    &&& forall|i: int| 0 <= i < p.len() ==> (#[trigger] p[i]).len() > 0
    &&& forall|i: int, j: int| 0 <= i < p.len() && 0 <= j < p[i].len() ==> 0 <= #[trigger] p[i][j] < n
    &&& forall|state: int| 0 <= state < n ==> #[trigger] covered(p, state)
    &&& forall|i1: int, j1: int, i2: int, j2: int|
        0 <= i1 < p.len() && 0 <= j1 < p[i1].len() && 0 <= i2 < p.len() && 0 <= j2 < p[i2].len()
            && #[trigger] p[i1][j1] == #[trigger] p[i2][j2] ==> i1 == i2 && j1 == j2
}

/// The position of the block that holds the state.
pub open spec fn block_of(p: Seq<Seq<int>>, state: int) -> int {
    choose|i: int| 0 <= i < p.len() && #[trigger] p[i].contains(state)
}

/// Each block lists its states in rising order, and the blocks stand in the
/// order of their least states.
pub open spec fn is_canonical(p: Seq<Seq<int>>) -> bool {
    &&& forall|i: int, j1: int, j2: int|
        0 <= i < p.len() && 0 <= j1 < j2 < p[i].len() ==> #[trigger] p[i][j1] < #[trigger] p[i][j2]
    &&& forall|i1: int, i2: int| 0 <= i1 < i2 < p.len() ==> (#[trigger] p[i1])[0] < (#[trigger] p[i2])[0]
}

/// The block into which `symbol` leads from `state`, if it leads anywhere.
pub open spec fn target_block(dfa: Dfa, p: Seq<Seq<int>>, state: int, symbol: Seq<char>) -> Option<int> {
    match dfa.step(state, symbol) {
        None => None,
        Some(next) => Some(block_of(p, next)),
    }
}

/// On every symbol of the alphabet, any two states of one block either both
/// have no transition or move into one and the same block.
pub open spec fn is_stable(dfa: Dfa, p: Seq<Seq<int>>) -> bool {
    forall|i: int, j1: int, j2: int, k: int|
        0 <= i < p.len() && 0 <= j1 < p[i].len() && 0 <= j2 < p[i].len() && 0 <= k < dfa.alphabet.len()
            ==> target_block(dfa, p, #[trigger] p[i][j1], #[trigger] dfa.alphabet[k]) == target_block(
            dfa,
            p,
            #[trigger] p[i][j2],
            dfa.alphabet[k],
        )
}

/// No block holds an accepting state together with one that is not.
pub open spec fn respects_accepting(dfa: Dfa, p: Seq<Seq<int>>) -> bool {
    forall|i: int, j1: int, j2: int|
        0 <= i < p.len() && 0 <= j1 < p[i].len() && 0 <= j2 < p[i].len() ==> dfa.is_accepting(
            #[trigger] p[i][j1],
        ) == dfa.is_accepting(#[trigger] p[i][j2])
}

/// Two states share a block exactly if no word tells them apart.
pub open spec fn groups_equivalent(dfa: Dfa, p: Seq<Seq<int>>) -> bool {
    forall|u: int, v: int|
        0 <= u < dfa.size() && 0 <= v < dfa.size() ==> (#[trigger] block_of(p, u) == #[trigger] block_of(p, v)
            <==> dfa.equivalent(u, v))
}

/// The partition that minimization computes: the coarsest stable partition
/// of the states that respects acceptance, in canonical order.
pub open spec fn is_minimal_partition(dfa: Dfa, p: Seq<Seq<int>>) -> bool {
    &&& is_partition(p, dfa.size())
    &&& is_canonical(p)
    &&& is_stable(dfa, p)
    &&& respects_accepting(dfa, p)
    &&& groups_equivalent(dfa, p)
}

/// In a partition, a state's block is the one in which it is listed.
pub proof fn lemma_block_of(p: Seq<Seq<int>>, n: int, i: int, j: int)
    requires
        is_partition(p, n),
        0 <= i < p.len(),
        0 <= j < p[i].len(),
    ensures
        block_of(p, p[i][j]) == i,
{
    let state = p[i][j];
    assert(p[i].contains(state));
    let found = block_of(p, state);
    assert(0 <= found < p.len() && p[found].contains(state));
    let at = choose|at: int| 0 <= at < p[found].len() && p[found][at] == state;
    assert(p[found][at] == p[i][j]);
}

/// In a partition, every state lies in the block that `block_of` names.
pub proof fn lemma_block_of_state(p: Seq<Seq<int>>, n: int, state: int)
    requires
        is_partition(p, n),
        0 <= state < n,
    ensures
        0 <= block_of(p, state) < p.len(),
        p[block_of(p, state)].contains(state),
{
    assert(covered(p, state));
}

/// A list of distinct numbers below a bound is no longer than the bound.
pub proof fn lemma_injection_bound(list: Seq<int>, bound: int)
    requires
        0 <= bound,
        list.no_duplicates(),
        forall|i: int| 0 <= i < list.len() ==> 0 <= #[trigger] list[i] < bound,
    ensures
        list.len() <= bound,
{
    if list.len() > 0 {
        list.unique_seq_to_set();
        lemma_int_range(0, bound);
        assert(list.to_set().subset_of(set_int_range(0, bound))) by {
            assert forall|x: int| list.to_set().contains(x) implies set_int_range(0, bound).contains(x) by {
                let i = choose|i: int| 0 <= i < list.len() && list[i] == x;
                assert(0 <= list[i] < bound);
            }
        }
        lemma_len_subset(list.to_set(), set_int_range(0, bound));
    }
}

/// A partition of `n` states has at most `n` blocks.
pub proof fn lemma_partition_len(p: Seq<Seq<int>>, n: int)
    requires
        0 <= n,
        is_partition(p, n),
    ensures
        p.len() <= n,
{
    let firsts = Seq::new(p.len(), |i: int| p[i][0]);
    assert forall|i1: int, i2: int| 0 <= i1 < firsts.len() && 0 <= i2 < firsts.len() && i1 != i2 implies firsts[i1]
        != firsts[i2] by {
        if firsts[i1] == firsts[i2] {
            assert(p[i1][0] == p[i2][0]);
        }
    }
    assert forall|i: int| 0 <= i < firsts.len() implies 0 <= #[trigger] firsts[i] < n by {
        assert(0 <= p[i][0] < n);
    }
    lemma_injection_bound(firsts, n);
}

/// Gathers the states into blocks by the class that `classes` gives each
/// state. The states of a block come in rising order, and the blocks in the
/// order of their least states.
pub fn collect_blocks(classes: &Vec<usize>, count: usize) -> (blocks: Vec<Vec<usize>>)
    requires
        forall|u: int| 0 <= u < classes.len() ==> classes[u] < count,
    ensures
        is_partition(blocks_view(blocks@), classes.len() as int),
        is_canonical(blocks_view(blocks@)),
        forall|u: int, v: int|
            0 <= u < classes.len() && 0 <= v < classes.len() ==> (block_of(blocks_view(blocks@), u) == block_of(
                blocks_view(blocks@),
                v,
            ) <==> classes[u] == classes[v]),
{
    let n = classes.len();
    let mut remap: Vec<Option<usize>> = Vec::new();
    let mut b: usize = 0;
    while b < count
        invariant
            b <= count,
            remap.len() == b,
            forall|c: int| 0 <= c < b ==> remap[c] is None,
        decreases count - b,
    {
        remap.push(None);
        b += 1;
    }
    let mut blocks: Vec<Vec<usize>> = Vec::new();
    let mut u: usize = 0;
    while u < n
        invariant
            n == classes.len(),
            u <= n,
            remap.len() == count,
            forall|v: int| 0 <= v < n ==> classes[v] < count,
            forall|i: int| 0 <= i < blocks.len() ==> (#[trigger] blocks[i]).len() > 0,
            forall|i: int, j: int|
                0 <= i < blocks.len() && 0 <= j < blocks[i].len() ==> (#[trigger] blocks[i][j]) < u && remap[classes[blocks[i][j] as int] as int]
                    == Some(i as usize),
            forall|c: int| 0 <= c < count && (#[trigger] remap[c]) is Some ==> remap[c]->0 < blocks.len(),
            forall|c1: int, c2: int|
                0 <= c1 < count && 0 <= c2 < count && (#[trigger] remap[c1]) is Some && remap[c1] == (
                #[trigger] remap[c2]) ==> c1 == c2,
            forall|v: int|
                0 <= v < u ==> (#[trigger] remap[classes[v] as int]) is Some && blocks[remap[classes[v] as int]->0 as int]@.contains(
                    v as usize,
                ),
            forall|i: int, j1: int, j2: int|
                0 <= i < blocks.len() && 0 <= j1 < j2 < blocks[i].len() ==> #[trigger] blocks[i][j1] < #[trigger] blocks[i][j2],
            forall|i1: int, i2: int|
                0 <= i1 < i2 < blocks.len() ==> (#[trigger] blocks[i1])[0] < (#[trigger] blocks[i2])[0],
        decreases n - u,
    {
        let class = classes[u];
        let ghost before = blocks@;
        match remap[class] {
            Some(i) => {
                blocks[i].push(u);
                proof {
                    assert(blocks[i as int]@[before[i as int].len() as int] == u);
                    assert forall|v: int| 0 <= v < u + 1 implies (#[trigger] remap[classes[v] as int]) is Some
                        && blocks[remap[classes[v] as int]->0 as int]@.contains(v as usize) by {
                        if v < u {
                            let at = remap[classes[v] as int]->0 as int;
                            let j = choose|j: int| 0 <= j < before[at].len() && before[at]@[j] == v as usize;
                            assert(blocks[at]@[j] == v as usize);
                        }
                    }
                }
            },
            None => {
                remap[class] = Some(blocks.len());
                let mut fresh: Vec<usize> = Vec::new();
                fresh.push(u);
                blocks.push(fresh);
                proof {
                    let last = before.len() as int;
                    assert(blocks[last]@[0] == u);
                    assert forall|v: int| 0 <= v < u + 1 implies (#[trigger] remap[classes[v] as int]) is Some
                        && blocks[remap[classes[v] as int]->0 as int]@.contains(v as usize) by {
                        if v < u {
                            assert(classes[v] != class);
                        }
                    }
                    assert forall|i1: int, i2: int| 0 <= i1 < i2 < blocks.len() implies (#[trigger] blocks[i1])[0] < (
                    #[trigger] blocks[i2])[0] by {
                        if i2 == last {
                            assert(before[i1][0] < u);
                        }
                    }
                }
            },
        }
        u += 1;
    }
    proof {
        let p = blocks_view(blocks@);
        assert forall|state: int| 0 <= state < n implies #[trigger] covered(p, state) by {
            let at = remap[classes[state] as int]->0 as int;
            let j = choose|j: int| 0 <= j < blocks[at].len() && blocks[at]@[j] == state as usize;
            assert(p[at][j] == state);
            assert(p[at].contains(state));
        }
        assert forall|i1: int, j1: int, i2: int, j2: int|
            0 <= i1 < p.len() && 0 <= j1 < p[i1].len() && 0 <= i2 < p.len() && 0 <= j2 < p[i2].len()
                && #[trigger] p[i1][j1] == #[trigger] p[i2][j2] implies i1 == i2 && j1 == j2 by {
            assert(blocks[i1][j1] == blocks[i2][j2]);
            assert(remap[classes[blocks[i1][j1] as int] as int] == Some(i1 as usize));
            assert(remap[classes[blocks[i2][j2] as int] as int] == Some(i2 as usize));
            if j1 < j2 {
                assert(blocks[i1][j1] < blocks[i1][j2]);
            }
            if j2 < j1 {
                assert(blocks[i1][j2] < blocks[i1][j1]);
            }
        }
        assert(is_partition(p, n as int)) by {
            assert forall|i: int, j: int| 0 <= i < p.len() && 0 <= j < p[i].len() implies 0 <= #[trigger] p[i][j]
                < n by {
                assert(blocks[i][j] < u);
            }
        }
        assert(is_canonical(p)) by {
            assert forall|i: int, j1: int, j2: int| 0 <= i < p.len() && 0 <= j1 < j2 < p[i].len() implies #[trigger] p[i][j1]
                < #[trigger] p[i][j2] by {
                assert(blocks[i][j1] < blocks[i][j2]);
            }
            assert forall|i1: int, i2: int| 0 <= i1 < i2 < p.len() implies (#[trigger] p[i1])[0] < (#[trigger] p[i2])[0] by {
                assert(blocks[i1][0] < blocks[i2][0]);
            }
        }
        assert forall|x: int, y: int| 0 <= x < n && 0 <= y < n implies (block_of(p, x) == block_of(p, y)
            <==> classes[x] == classes[y]) by {
            let ax = remap[classes[x] as int]->0 as int;
            let jx = choose|j: int| 0 <= j < blocks[ax].len() && blocks[ax]@[j] == x as usize;
            assert(p[ax][jx] == x);
            lemma_block_of(p, n as int, ax, jx);
            let ay = remap[classes[y] as int]->0 as int;
            let jy = choose|j: int| 0 <= j < blocks[ay].len() && blocks[ay]@[j] == y as usize;
            assert(p[ay][jy] == y);
            lemma_block_of(p, n as int, ay, jy);
        }
    }
    blocks
}

/// The state stands at one of the first `upto` places of the block.
pub open spec fn listed_before(block: Seq<usize>, upto: int, state: int) -> bool {
    exists|b: int| 0 <= b < upto && b < block.len() && #[trigger] block[b] == state
}

/// For each state the position of the block that holds it, if the blocks
/// partition the states below `n`; nothing if they do not.
pub fn index_blocks(blocks: &Vec<Vec<usize>>, n: usize) -> (classes: Option<Vec<usize>>)
    ensures
        match classes {
            Some(list) => {
                &&& is_partition(blocks_view(blocks@), n as int)
                &&& list.len() == n
                &&& forall|u: int| 0 <= u < n ==> list[u] == block_of(blocks_view(blocks@), u)
            },
            None => !is_partition(blocks_view(blocks@), n as int),
        },
{
    let count = blocks.len();
    let ghost p = blocks_view(blocks@);
    let mut classes: Vec<usize> = Vec::new();
    let mut u: usize = 0;
    while u < n
        invariant
            u <= n,
            classes.len() == u,
            forall|v: int| 0 <= v < u ==> classes[v] == count,
        decreases n - u,
    {
        classes.push(count);
        u += 1;
    }
    let mut i: usize = 0;
    while i < count
        invariant
            i <= count,
            count == blocks.len(),
            classes.len() == n,
            p == blocks_view(blocks@),
            forall|a: int| 0 <= a < i ==> (#[trigger] blocks[a]).len() > 0,
            forall|a: int, b: int|
                0 <= a < i && 0 <= b < blocks[a].len() ==> (#[trigger] blocks[a][b]) < n && classes[blocks[a][b] as int]
                    == a,
            forall|v: int|
                0 <= v < n ==> (#[trigger] classes[v]) == count || (classes[v] < i && blocks[classes[v] as int]@.contains(
                    v as usize,
                )),
            forall|a: int, b1: int, b2: int|
                0 <= a < i && 0 <= b1 < b2 < blocks[a].len() ==> #[trigger] blocks[a][b1] != #[trigger] blocks[a][b2],
        decreases count - i,
    {
        let block = &blocks[i];
        if block.len() == 0 {
            proof {
                assert(p[i as int].len() == 0);
            }
            return None;
        }
        let mut j: usize = 0;
        while j < block.len()
            invariant
                i < count,
                count == blocks.len(),
                classes.len() == n,
                p == blocks_view(blocks@),
                block == blocks[i as int],
                j <= block.len(),
                forall|a: int, b: int|
                    0 <= a < i && 0 <= b < blocks[a].len() ==> (#[trigger] blocks[a][b]) < n && classes[blocks[a][b] as int]
                        == a,
                forall|b: int| 0 <= b < j ==> (#[trigger] block[b]) < n && classes[block[b] as int] == i,
                forall|v: int|
                    0 <= v < n ==> (#[trigger] classes[v]) == count || (classes[v] < i
                        && blocks[classes[v] as int]@.contains(v as usize)) || (classes[v] == i && listed_before(
                        block@,
                        j as int,
                        v,
                    )),
                forall|b1: int, b2: int| 0 <= b1 < b2 < j ==> #[trigger] block[b1] != #[trigger] block[b2],
            decreases block.len() - j,
        {
            let state = block[j];
            if state >= n {
                proof {
                    assert(p[i as int][j as int] == state);
                }
                return None;
            }
            if classes[state] != count {
                proof {
                    let at = classes[state as int] as int;
                    assert(p[i as int][j as int] == state);
                    if at < i {
                        let b = choose|b: int| 0 <= b < blocks[at].len() && blocks[at]@[b] == state;
                        assert(p[at][b] == state);
                    } else {
                        let b = choose|b: int| 0 <= b < j && b < block.len() && #[trigger] block@[b] == state as int;
                        assert(p[i as int][b] == state);
                    }
                }
                return None;
            }
            let ghost before = classes@;
            classes[state] = i;
            proof {
                assert forall|v: int| 0 <= v < n implies (#[trigger] classes[v]) == count || (classes[v] < i
                    && blocks[classes[v] as int]@.contains(v as usize)) || (classes[v] == i && listed_before(
                    block@,
                    j + 1,
                    v,
                )) by {
                    if v == state {
                        assert(block@[j as int] == v);
                    } else if before[v] == i {
                        let b = choose|b: int| 0 <= b < j && b < block.len() && #[trigger] block@[b] == v;
                        assert(block@[b] == v);
                    }
                }
            }
            j += 1;
        }
        proof {
            assert forall|v: int| 0 <= v < n implies (#[trigger] classes[v]) == count || (classes[v] < i + 1
                && blocks[classes[v] as int]@.contains(v as usize)) by {
                if classes[v] == i {
                    let b = choose|b: int| 0 <= b < j && b < block.len() && #[trigger] block@[b] == v;
                    assert(blocks[i as int]@[b] == v as usize);
                }
            }
        }
        i += 1;
    }
    let mut u: usize = 0;
    while u < n
        invariant
            u <= n,
            count == blocks.len(),
            classes.len() == n,
            p == blocks_view(blocks@),
            forall|a: int, b: int|
                0 <= a < count && 0 <= b < blocks[a].len() ==> (#[trigger] blocks[a][b]) < n && classes[blocks[a][b] as int]
                    == a,
            forall|v: int| 0 <= v < u ==> classes[v] != count,
        decreases n - u,
    {
        if classes[u] == count {
            proof {
                if covered(p, u as int) {
                    let a = choose|a: int| 0 <= a < p.len() && #[trigger] p[a].contains(u as int);
                    let b = choose|b: int| 0 <= b < p[a].len() && p[a][b] == u as int;
                    assert(blocks[a][b] == u);
                }
            }
            return None;
        }
        u += 1;
    }
    proof {
        assert forall|state: int| 0 <= state < n implies #[trigger] covered(p, state) by {
            let a = classes[state] as int;
            let b = choose|b: int| 0 <= b < blocks[a].len() && blocks[a]@[b] == state as usize;
            assert(p[a][b] == state);
            assert(p[a].contains(state));
        }
        assert forall|i1: int, j1: int, i2: int, j2: int|
            0 <= i1 < p.len() && 0 <= j1 < p[i1].len() && 0 <= i2 < p.len() && 0 <= j2 < p[i2].len()
                && #[trigger] p[i1][j1] == #[trigger] p[i2][j2] implies i1 == i2 && j1 == j2 by {
            assert(blocks[i1][j1] == blocks[i2][j2]);
            assert(classes[blocks[i1][j1] as int] == i1);
            assert(classes[blocks[i2][j2] as int] == i2);
            if j1 < j2 {
                assert(blocks[i1][j1] != blocks[i1][j2]);
            }
            if j2 < j1 {
                assert(blocks[i1][j2] != blocks[i1][j1]);
            }
        }
        assert(is_partition(p, n as int)) by {
            assert forall|a: int, b: int| 0 <= a < p.len() && 0 <= b < p[a].len() implies 0 <= #[trigger] p[a][b]
                < n by {
                assert(blocks[a][b] < n);
            }
            assert forall|a: int| 0 <= a < p.len() implies (#[trigger] p[a]).len() > 0 by {
                assert(blocks[a].len() > 0);
            }
        }
        assert forall|v: int| 0 <= v < n implies classes[v] == block_of(p, v) by {
            let a = classes[v] as int;
            let b = choose|b: int| 0 <= b < blocks[a].len() && blocks[a]@[b] == v as usize;
            assert(p[a][b] == v);
            lemma_block_of(p, n as int, a, b);
        }
    }
    Some(classes)
}

} // verus!
