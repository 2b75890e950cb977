use vstd::prelude::*;
use crate::store::{
    MempoolCsvRow, is_ancestor, chain_of, chains_resolved, chains_aggregated, sum_fee, sum_weight,
    lemma_chain_of, lemma_ancestor_trans, lemma_sums_concat, acyclic,
};

verus! {

/// The outcome of a selection pass.
#[derive(Debug, Clone)]
pub struct BlockSelection {
    /// Handles of the included candidates, in the order they were committed.
    pub included: Vec<usize>,
    /// Sum of the chain fees of the committed bundles.
    pub total_fee: u128,
    /// Capacity left unused: the capacity minus the own weights of the included candidates.
    pub remaining_weight: u64,
}

impl BlockSelection {
    /// The ids of the included candidates, in commit order.
    pub fn included_ids(&self, mempool: &Vec<MempoolCsvRow>) -> (r: Vec<String>)
        requires
            forall|k: int| 0 <= k < self.included@.len() ==> (#[trigger] self.included@[k]) < mempool.len(),
        ensures
            r@.len() == self.included@.len(),
            forall|k: int| 0 <= k < r@.len() ==> (#[trigger] r@[k])@ == mempool@[self.included@[k] as int].txid@,
    {
        let mut r: Vec<String> = Vec::new();
        let mut k: usize = 0;
        while k < self.included.len()
            invariant
                k <= self.included@.len(),
                r@.len() == k,
                forall|k: int| 0 <= k < self.included@.len() ==> (#[trigger] self.included@[k]) < mempool.len(),
                forall|x: int| 0 <= x < k ==> (#[trigger] r@[x])@ == mempool@[self.included@[x] as int].txid@,
            decreases self.included@.len() - k,
        {
            r.push(mempool[self.included[k]].txid.clone());
            k += 1;
        }
        r
    }
}

/// The `included` flags of the store.
pub open spec fn flags(m: Seq<MempoolCsvRow>) -> Seq<bool> {
    Seq::new(m.len(), |x: int| m[x].already_included)
}

/// Neither candidate `c` nor any member of `chain` is included yet.
pub open spec fn bundle_free(inc: Seq<bool>, chain: Seq<usize>, c: int) -> bool {
    &&& !inc[c]
    &&& forall|y: int| 0 <= y < chain.len() ==> !inc[#[trigger] chain[y] as int]
}

/// The flags after candidate `c` and every member of `chain` are included.
pub open spec fn commit(inc: Seq<bool>, chain: Seq<usize>, c: int) -> Seq<bool> {
    Seq::new(inc.len(), |x: int| inc[x] || x == c || chain.contains(x as usize))
}

/// A store ready for selection: chains resolved and summed, no cycles, nothing
/// included yet.
pub open spec fn ready(m: Seq<MempoolCsvRow>) -> bool {
    &&& m.len() <= usize::MAX
    &&& chains_resolved(m)
    &&& chains_aggregated(m)
    &&& acyclic(m)
    &&& forall|c: int| 0 <= c < m.len() ==> !(#[trigger] m[c]).already_included
}

/// `b` is `a` with at most the `included` flags changed.
pub open spec fn only_flags_changed(a: Seq<MempoolCsvRow>, b: Seq<MempoolCsvRow>) -> bool {
    &&& a.len() == b.len()
    &&& forall|i: int| 0 <= i < a.len() ==> {
        &&& (#[trigger] b[i]).txid == a[i].txid
        &&& b[i].fee == a[i].fee
        &&& b[i].weight == a[i].weight
        &&& b[i].parent_txids == a[i].parent_txids
        &&& b[i].whole_chain_indexes == a[i].whole_chain_indexes
        &&& b[i].chain_fee == a[i].chain_fee
        &&& b[i].chain_weight == a[i].chain_weight
    }
}

/// What holds of every partial selection on a ready store `m`: `block` lists
/// each included candidate once, every included candidate has its whole chain
/// included, and `total` is the fee of the block.
pub open spec fn selection_inv(m: Seq<MempoolCsvRow>, inc: Seq<bool>, block: Seq<usize>, total: int) -> bool {
    &&& inc.len() == m.len()
    &&& block.no_duplicates()
    &&& forall|y: int| 0 <= y < block.len() ==> (#[trigger] block[y]) < m.len()
    &&& forall|x: int| 0 <= x < m.len() ==> (#[trigger] inc[x] <==> block.contains(x as usize))
    &&& forall|x: int, y: int|
        0 <= x < m.len() && inc[x] && 0 <= y < m[x].whole_chain_indexes@.len()
            ==> inc[#[trigger] m[x].whole_chain_indexes@[y] as int]
    &&& total == sum_fee(m, block)
}

/// Committing a free bundle keeps the selection invariant, and adds the
/// bundle's chain fee and chain weight to the block's totals.
pub proof fn lemma_commit(m: Seq<MempoolCsvRow>, inc: Seq<bool>, block: Seq<usize>, total: int, c: int)
    requires
        ready(m),
        0 <= c < m.len(),
        selection_inv(m, inc, block, total),
        bundle_free(inc, m[c].whole_chain_indexes@, c),
    ensures
        selection_inv(
            m,
            commit(inc, m[c].whole_chain_indexes@, c),
            block + m[c].whole_chain_indexes@.push(c as usize),
            total + m[c].chain_fee,
        ),
        sum_weight(m, block + m[c].whole_chain_indexes@.push(c as usize))
            == sum_weight(m, block) + m[c].chain_weight,
{
    let n = m.len() as int;
    let ch = m[c].whole_chain_indexes@;
    let bundle = ch.push(c as usize);
    let inc2 = commit(inc, ch, c);
    let block2 = block + bundle;
    lemma_chain_of(m, c);
    assert(ch == chain_of(m, c));
    assert(!ch.contains(c as usize));
    // sums
    lemma_sums_concat(m, block, bundle);
    assert(bundle.drop_last() =~= ch);
    // membership
    assert forall|x: int| 0 <= x < n implies (#[trigger] inc2[x] <==> block2.contains(x as usize)) by {
        if inc2[x] {
            if inc[x] {
                let y = choose|y: int| 0 <= y < block.len() && block[y] == x as usize;
                assert(block2[y] == x as usize);
            } else if x == c {
                assert(block2[(block.len() + ch.len()) as int] == x as usize);
            } else {
                let y = choose|y: int| 0 <= y < ch.len() && ch[y] == x as usize;
                assert(block2[block.len() + y] == x as usize);
            }
        }
        if block2.contains(x as usize) {
            let y = choose|y: int| 0 <= y < block2.len() && block2[y] == x as usize;
            if y < block.len() {
                assert(block[y] == x as usize);
            } else if y < block.len() + ch.len() {
                assert(ch[y - block.len()] == x as usize);
            }
        }
    }
    // no duplicates
    assert forall|y1: int, y2: int| 0 <= y1 < y2 < block2.len() implies block2[y1] != block2[y2] by {
        if y2 >= block.len() && y1 < block.len() {
            let x = block2[y2] as int;
            assert(block.contains(block2[y1]));
            if y2 < block.len() + ch.len() {
                assert(ch[y2 - block.len()] == x as usize);
                assert(!inc[x]);
            } else {
                assert(x == c);
            }
            assert(inc[block2[y1] as int]);
        } else if y1 >= block.len() && y2 < block.len() + ch.len() {
            assert(ch[y1 - block.len()] != ch[y2 - block.len()]);
        } else if y1 >= block.len() && y2 == block.len() + ch.len() {
            assert(ch.contains(ch[y1 - block.len()]));
        }
    }
    // closure
    assert forall|x: int, y: int|
        0 <= x < n && inc2[x] && 0 <= y < m[x].whole_chain_indexes@.len()
            implies inc2[#[trigger] m[x].whole_chain_indexes@[y] as int] by {
        let p = m[x].whole_chain_indexes@[y];
        lemma_chain_of(m, x);
        assert(m[x].whole_chain_indexes@ == chain_of(m, x));
        assert(chain_of(m, x).contains(p));
        if inc[x] {
            assert(inc[p as int]);
        } else if x == c {
            assert(ch.contains(p));
        } else {
            assert(ch.contains(x as usize));
            assert(is_ancestor(m, c, x));
            assert(is_ancestor(m, x, p as int));
            lemma_ancestor_trans(m, c, x, p as int);
            assert(ch.contains(p));
        }
    }
    assert forall|y: int| 0 <= y < block2.len() implies (#[trigger] block2[y]) < m.len() by {
        if y >= block.len() && y < block.len() + ch.len() {
            assert(ch[y - block.len()] == block2[y]);
        }
    }
}

/// Whether neither candidate `index` nor any member of its chain is included.
pub fn check_chain_not_included(mempool: &Vec<MempoolCsvRow>, index: usize) -> (r: bool)
    requires
        index < mempool.len(),
        forall|y: int| 0 <= y < mempool@[index as int].whole_chain_indexes@.len()
            ==> (#[trigger] mempool@[index as int].whole_chain_indexes@[y]) < mempool.len(),
    ensures
        r == bundle_free(flags(mempool@), mempool@[index as int].whole_chain_indexes@, index as int),
{
    if mempool[index].already_included {
        return false;
    }
    let mut y: usize = 0;
    while y < mempool[index].whole_chain_indexes.len()
        invariant
            index < mempool.len(),
            forall|z: int| 0 <= z < mempool@[index as int].whole_chain_indexes@.len()
                ==> (#[trigger] mempool@[index as int].whole_chain_indexes@[z]) < mempool.len(),
            forall|z: int| 0 <= z < y ==> !flags(mempool@)[#[trigger] mempool@[index as int].whole_chain_indexes@[z] as int],
        decreases mempool@[index as int].whole_chain_indexes@.len() - y,
    {
        let p = mempool[index].whole_chain_indexes[y];
        if mempool[p].already_included {
            return false;
        }
        y += 1;
    }
    true
}

/// Includes candidate `c` and every member of its chain, and appends them to
/// `block`: the chain in its order, then `c`.
pub(crate) fn commit_bundle(mempool: &mut Vec<MempoolCsvRow>, c: usize, block: &mut Vec<usize>)
    requires
        c < old(mempool).len(),
        forall|y: int| 0 <= y < old(mempool)@[c as int].whole_chain_indexes@.len()
            ==> (#[trigger] old(mempool)@[c as int].whole_chain_indexes@[y]) < old(mempool).len(),
    ensures
        only_flags_changed(old(mempool)@, final(mempool)@),
        flags(final(mempool)@) == commit(flags(old(mempool)@), old(mempool)@[c as int].whole_chain_indexes@, c as int),
        final(block)@ == old(block)@ + old(mempool)@[c as int].whole_chain_indexes@.push(c),
{
    let ghost m0 = mempool@;
    let ghost ch = mempool@[c as int].whole_chain_indexes@;
    let n = mempool.len();
    let mut y: usize = 0;
    while y < mempool[c].whole_chain_indexes.len()
        invariant
            n == mempool.len(),
            c < n,
            only_flags_changed(m0, mempool@),
            ch == mempool@[c as int].whole_chain_indexes@,
            forall|z: int| 0 <= z < ch.len() ==> (#[trigger] ch[z]) < n,
            y <= ch.len(),
            block@ == old(block)@ + ch.subrange(0, y as int),
            forall|x: int| 0 <= x < n ==> (#[trigger] mempool@[x]).already_included
                == (m0[x].already_included || ch.subrange(0, y as int).contains(x as usize)),
        decreases ch.len() - y,
    {
        let p = mempool[c].whole_chain_indexes[y];
        mempool[p].already_included = true;
        block.push(p);
        proof {
            assert(ch.subrange(0, y + 1) =~= ch.subrange(0, y as int).push(p));
            assert forall|x: int| 0 <= x < n implies (#[trigger] mempool@[x]).already_included
                == (m0[x].already_included || ch.subrange(0, y + 1).contains(x as usize)) by {
                if ch.subrange(0, y as int).contains(x as usize) {
                    let z = choose|z: int| 0 <= z < y && #[trigger] ch.subrange(0, y as int)[z] == x as usize;
                    assert(ch.subrange(0, y + 1)[z] == x as usize);
                }
                if ch.subrange(0, y + 1).contains(x as usize) && x != p {
                    let z = choose|z: int| 0 <= z < y + 1 && #[trigger] ch.subrange(0, y + 1)[z] == x as usize;
                    assert(ch.subrange(0, y as int)[z] == x as usize);
                }
                if x == p {
                    assert(ch.subrange(0, y + 1)[y as int] == p);
                }
            }
        }
        y += 1;
    }
    mempool[c].already_included = true;
    block.push(c);
    proof {
        assert(ch.subrange(0, ch.len() as int) =~= ch);
        assert(flags(mempool@) =~= commit(flags(m0), ch, c as int));
        assert(block@ =~= old(block)@ + ch.push(c));
    }
}

} // verus!
