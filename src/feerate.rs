use vstd::prelude::*;
use crate::store::{MempoolCsvRow, sum_weight, chains_in_range, lemma_resolved_in_range};
use crate::select::{
    flags, bundle_free, commit, ready, only_flags_changed, selection_inv, lemma_commit,
    check_chain_not_included, commit_bundle, BlockSelection,
};

verus! {

/// Candidate `a` has a strictly higher bundle fee rate than `b`; a bundle of
/// weight zero ranks above every bundle of positive weight.
pub open spec fn rate_first(m: Seq<MempoolCsvRow>, a: int, b: int) -> bool {
    let (fa, wa, fb, wb) = (m[a].chain_fee as int, m[a].chain_weight as int, m[b].chain_fee as int, m[b].chain_weight as int);
    (wa == 0 && wb > 0) || (wa > 0 && wb > 0 && fa * wb > fb * wa)
}

/// Candidates `a` and `b` have the same bundle fee rate.
pub open spec fn rate_tie(m: Seq<MempoolCsvRow>, a: int, b: int) -> bool {
    let (fa, wa, fb, wb) = (m[a].chain_fee as int, m[a].chain_weight as int, m[b].chain_fee as int, m[b].chain_weight as int);
    (wa == 0 && wb == 0) || (wa > 0 && wb > 0 && fa * wb == fb * wa)
}

/// The greedy order: higher fee rate first; at equal rates the heavier bundle
/// first, then the lower handle.
pub open spec fn ranks_before(m: Seq<MempoolCsvRow>, a: int, b: int) -> bool {
    rate_first(m, a, b) || (rate_tie(m, a, b) && (m[a].chain_weight > m[b].chain_weight
        || (m[a].chain_weight == m[b].chain_weight && a < b)))
}

/// `order` lists every handle of `m` once, in the greedy order.
pub open spec fn sorted_by_rate(m: Seq<MempoolCsvRow>, order: Seq<usize>) -> bool {
    &&& order.len() == m.len()
    &&& order.no_duplicates()
    &&& forall|x: int| 0 <= x < order.len() ==> (#[trigger] order[x]) < m.len()
    &&& forall|v: usize| v < m.len() ==> #[trigger] order.contains(v)
    &&& forall|x: int, y: int| 0 <= x < y < order.len() ==> ranks_before(m, #[trigger] order[x] as int, #[trigger] order[y] as int)
}

proof fn lemma_cross(fa: int, wa: int, fb: int, wb: int, fc: int, wc: int)
    requires
        wa > 0, wb > 0, wc > 0,
        fa * wb >= fb * wa,
        fb * wc >= fc * wb,
    ensures
        fa * wc >= fc * wa,
        fa * wb > fb * wa ==> fa * wc > fc * wa,
        fb * wc > fc * wb ==> fa * wc > fc * wa,
{
    assert(fa * wb * wc >= fb * wa * wc) by (nonlinear_arith)
        requires fa * wb >= fb * wa, wc > 0;
    assert(fb * wc * wa >= fc * wb * wa) by (nonlinear_arith)
        requires fb * wc >= fc * wb, wa > 0;
    assert(fa * wc * wb >= fc * wa * wb) by (nonlinear_arith)
        requires fa * wb * wc >= fb * wa * wc, fb * wc * wa >= fc * wb * wa;
    assert(fa * wc >= fc * wa) by (nonlinear_arith)
        requires fa * wc * wb >= fc * wa * wb, wb > 0;
    if fa * wb > fb * wa {
        assert(fa * wb * wc > fb * wa * wc) by (nonlinear_arith)
            requires fa * wb > fb * wa, wc > 0;
        assert(fa * wc * wb > fc * wa * wb) by (nonlinear_arith)
            requires fa * wb * wc > fb * wa * wc, fb * wc * wa >= fc * wb * wa;
        assert(fa * wc > fc * wa) by (nonlinear_arith)
            requires fa * wc * wb > fc * wa * wb, wb > 0;
    }
    if fb * wc > fc * wb {
        assert(fb * wc * wa > fc * wb * wa) by (nonlinear_arith)
            requires fb * wc > fc * wb, wa > 0;
        assert(fa * wc * wb > fc * wa * wb) by (nonlinear_arith)
            requires fa * wb * wc >= fb * wa * wc, fb * wc * wa > fc * wb * wa;
        assert(fa * wc > fc * wa) by (nonlinear_arith)
            requires fa * wc * wb > fc * wa * wb, wb > 0;
    }
}

/// The greedy order is transitive.
pub proof fn lemma_ranks_trans(m: Seq<MempoolCsvRow>, a: int, b: int, c: int)
    requires
        ranks_before(m, a, b),
        ranks_before(m, b, c),
    ensures
        ranks_before(m, a, c),
{
    let (fa, wa) = (m[a].chain_fee as int, m[a].chain_weight as int);
    let (fb, wb) = (m[b].chain_fee as int, m[b].chain_weight as int);
    let (fc, wc) = (m[c].chain_fee as int, m[c].chain_weight as int);
    if wa > 0 && wb > 0 && wc > 0 {
        lemma_cross(fa, wa, fb, wb, fc, wc);
    }
}

/// Of two distinct handles, one ranks before the other.
pub proof fn lemma_ranks_total(m: Seq<MempoolCsvRow>, a: int, b: int)
    requires
        a != b,
    ensures
        ranks_before(m, a, b) || ranks_before(m, b, a),
{
}

proof fn lemma_sorted_agree(m: Seq<MempoolCsvRow>, o1: Seq<usize>, o2: Seq<usize>, k: int)
    requires
        sorted_by_rate(m, o1),
        sorted_by_rate(m, o2),
        0 <= k < o1.len(),
    ensures
        forall|j: int| 0 <= j <= k ==> o1[j] == o2[j],
    decreases k,
{
    if k > 0 {
        lemma_sorted_agree(m, o1, o2, k - 1);
    }
    let a = o1[k];
    let b = o2[k];
    if a != b {
        assert(o2.contains(a));
        let j = choose|j: int| 0 <= j < o2.len() && o2[j] == a;
        if j < k {
            assert(o1[j] == a);
        }
        assert(ranks_before(m, o2[k] as int, o2[j] as int));
        assert(o1.contains(b));
        let i = choose|i: int| 0 <= i < o1.len() && o1[i] == b;
        if i < k {
            assert(o2[i] == b);
        }
        assert(ranks_before(m, o1[k] as int, o1[i] as int));
        lemma_ranks_trans(m, a as int, b as int, a as int);
    }
}

/// There is only one greedy order of a store.
pub proof fn lemma_sorted_unique(m: Seq<MempoolCsvRow>, o1: Seq<usize>, o2: Seq<usize>)
    requires
        sorted_by_rate(m, o1),
        sorted_by_rate(m, o2),
    ensures
        o1 == o2,
{
    if o1.len() > 0 {
        lemma_sorted_agree(m, o1, o2, o1.len() - 1);
    }
    assert(o1 =~= o2);
}

/// Exec form of `ranks_before`.
fn ranks_before_exec(mempool: &Vec<MempoolCsvRow>, a: usize, b: usize) -> (r: bool)
    requires
        a < mempool.len(),
        b < mempool.len(),
    ensures
        r == ranks_before(mempool@, a as int, b as int),
{
    let fa = mempool[a].chain_fee as u128;
    let wa = mempool[a].chain_weight as u128;
    let fb = mempool[b].chain_fee as u128;
    let wb = mempool[b].chain_weight as u128;
    if wa == 0 || wb == 0 {
        (wa == 0 && wb > 0) || (wa == 0 && wb == 0 && a < b)
    } else {
        assert(fa * wb <= u64::MAX * u64::MAX) by (nonlinear_arith)
            requires fa <= u64::MAX, wb <= u64::MAX;
        assert(fb * wa <= u64::MAX * u64::MAX) by (nonlinear_arith)
            requires fb <= u64::MAX, wa <= u64::MAX;
        let x = fa * wb;
        let y = fb * wa;
        x > y || (x == y && (wa > wb || (wa == wb && a < b)))
    }
}

/// Every handle of the store, in the greedy order.
pub fn rate_order(mempool: &Vec<MempoolCsvRow>) -> (order: Vec<usize>)
    ensures
        sorted_by_rate(mempool@, order@),
{
    let n = mempool.len();
    let mut order: Vec<usize> = Vec::new();
    let mut i: usize = 0;
    while i < n
        invariant
            i <= n,
            n == mempool.len(),
            order@.len() == i,
            forall|x: int| 0 <= x < i ==> order@[x] == x,
        decreases n - i,
    {
        order.push(i);
        i += 1;
    }
    proof {
        assert forall|v: usize| v < n implies #[trigger] order@.contains(v) by {
            assert(order@[v as int] == v);
        }
    }
    let mut pos: usize = 0;
    while pos < n
        invariant
            n == mempool.len(),
            pos <= n,
            order@.len() == n,
            order@.no_duplicates(),
            forall|x: int| 0 <= x < n ==> (#[trigger] order@[x]) < n,
            forall|v: usize| v < n ==> #[trigger] order@.contains(v),
            forall|x: int, y: int| 0 <= x < y < n && x < pos
                ==> ranks_before(mempool@, #[trigger] order@[x] as int, #[trigger] order@[y] as int),
        decreases n - pos,
    {
        let mut best: usize = pos;
        let mut j: usize = pos + 1;
        while j < n
            invariant
                n == mempool.len(),
                pos < n,
                pos <= best < j <= n,
                order@.len() == n,
                order@.no_duplicates(),
                forall|v: usize| v < n ==> #[trigger] order@.contains(v),
                forall|x: int| 0 <= x < n ==> (#[trigger] order@[x]) < n,
                forall|t: int| pos <= t < j && t != best
                    ==> ranks_before(mempool@, order@[best as int] as int, #[trigger] order@[t] as int),
            decreases n - j,
        {
            if ranks_before_exec(mempool, order[j], order[best]) {
                proof {
                    assert forall|t: int| pos <= t < j + 1 && t != j
                        implies ranks_before(mempool@, order@[j as int] as int, #[trigger] order@[t] as int) by {
                        if t != best {
                            lemma_ranks_trans(mempool@, order@[j as int] as int, order@[best as int] as int, order@[t] as int);
                        }
                    }
                }
                best = j;
            } else {
                proof {
                    lemma_ranks_total(mempool@, order@[j as int] as int, order@[best as int] as int);
                }
            }
            j += 1;
        }
        let a = order[pos];
        let b = order[best];
        let ghost o0 = order@;
        order.set(pos, b);
        order.set(best, a);
        proof {
            assert(order@ =~= o0.update(pos as int, b).update(best as int, a));
            assert forall|x: int, y: int| 0 <= x < y < n implies order@[x] != order@[y] by {
                assert(o0[x] != o0[y]);
            }
            assert forall|v: usize| v < n implies #[trigger] order@.contains(v) by {
                assert(o0.contains(v));
                let z = choose|z: int| 0 <= z < n && o0[z] == v;
                if z == pos {
                    assert(order@[best as int] == v);
                } else if z == best {
                    assert(order@[pos as int] == v);
                } else {
                    assert(order@[z] == v);
                }
            }
            assert forall|x: int, y: int| 0 <= x < y < n && x < pos + 1
                implies ranks_before(mempool@, #[trigger] order@[x] as int, #[trigger] order@[y] as int) by {
                if x == pos {
                    if y == best {
                        assert(ranks_before(mempool@, o0[best as int] as int, o0[pos as int] as int));
                    } else {
                        assert(order@[y] == o0[y]);
                    }
                } else {
                    if y == best {
                        assert(ranks_before(mempool@, o0[x] as int, o0[pos as int] as int));
                    } else if y == pos {
                        assert(ranks_before(mempool@, o0[x] as int, o0[best as int] as int));
                    }
                }
            }
        }
        pos += 1;
    }
    order
}

/// The state of a selection pass: flags, block, remaining capacity, total fee.
pub type SelectionState = (Seq<bool>, Seq<usize>, int, int);

/// One greedy step on candidate `c`: its bundle is committed when it is free
/// and fits in what is left.
pub open spec fn greedy_step(m: Seq<MempoolCsvRow>, st: SelectionState, c: int) -> SelectionState {
    let ch = m[c].whole_chain_indexes@;
    if bundle_free(st.0, ch, c) && m[c].chain_weight <= st.2 {
        (commit(st.0, ch, c), st.1 + ch.push(c as usize), st.2 - m[c].chain_weight, st.3 + m[c].chain_fee)
    } else {
        st
    }
}

/// The greedy pass over the first `k` handles of `order`.
pub open spec fn greedy_run(m: Seq<MempoolCsvRow>, order: Seq<usize>, k: int, capacity: int) -> SelectionState
    decreases k,
{
    if k <= 0 {
        (Seq::new(m.len(), |x: int| false), Seq::empty(), capacity, 0)
    } else {
        greedy_step(m, greedy_run(m, order, k - 1, capacity), order[k - 1] as int)
    }
}

/// Packs bundles in the greedy order while they fit in `capacity`.
///
/// A bundle is skipped when it does not fit or when it shares a candidate
/// with what is already included; skipped bundles are not tried again.
pub fn choose_txs_to_inlcude_in_block(mempool: &mut Vec<MempoolCsvRow>, capacity: u64) -> (r: BlockSelection)
    requires
        ready(old(mempool)@),
    ensures
        only_flags_changed(old(mempool)@, final(mempool)@),
        forall|order: Seq<usize>| sorted_by_rate(old(mempool)@, order) ==> #[trigger] greedy_run(
            old(mempool)@, order, old(mempool)@.len() as int, capacity as int)
            == (flags(final(mempool)@), r.included@, r.remaining_weight as int, r.total_fee as int),
        selection_inv(old(mempool)@, flags(final(mempool)@), r.included@, r.total_fee as int),
        sum_weight(old(mempool)@, r.included@) + r.remaining_weight == capacity,
{
    let ghost m0 = mempool@;
    let n = mempool.len();
    proof {
        lemma_resolved_in_range(m0);
    }
    let order = rate_order(mempool);
    let mut block: Vec<usize> = Vec::new();
    let mut remaining: u64 = capacity;
    let mut total: u128 = 0;
    let mut k: usize = 0;
    proof {
        assert(flags(mempool@) =~= Seq::new(n as nat, |x: int| false));
        assert(block@.no_duplicates());
    }
    while k < n
        invariant
            n == mempool.len(),
            n == m0.len(),
            k <= n,
            ready(m0),
            chains_in_range(m0),
            sorted_by_rate(m0, order@),
            only_flags_changed(m0, mempool@),
            greedy_run(m0, order@, k as int, capacity as int)
                == (flags(mempool@), block@, remaining as int, total as int),
            selection_inv(m0, flags(mempool@), block@, total as int),
            sum_weight(m0, block@) + remaining == capacity,
            total <= k * (u64::MAX as int),
        decreases n - k,
    {
        let c = order[k];
        proof {
            assert(order@[k as int] < n);
        }
        if check_chain_not_included(mempool, c) && mempool[c].chain_weight <= remaining {
            proof {
                lemma_commit(m0, flags(mempool@), block@, total as int, c as int);
            }
            commit_bundle(mempool, c, &mut block);
            remaining = remaining - mempool[c].chain_weight;
            proof {
                assert((k + 1) * (u64::MAX as int) == k * (u64::MAX as int) + u64::MAX) by (nonlinear_arith);
                assert(k * (u64::MAX as int) <= (usize::MAX as int) * (u64::MAX as int)) by (nonlinear_arith)
                    requires k <= usize::MAX;
            }
            total = total + mempool[c].chain_fee as u128;
        } else {
            proof {
                assert((k + 1) * (u64::MAX as int) == k * (u64::MAX as int) + u64::MAX) by (nonlinear_arith);
            }
        }
        k += 1;
    }
    proof {
        assert forall|o: Seq<usize>| sorted_by_rate(m0, o) implies #[trigger] greedy_run(m0, o, n as int, capacity as int)
            == (flags(mempool@), block@, remaining as int, total as int) by {
            lemma_sorted_unique(m0, o, order@);
        }
    }
    BlockSelection { included: block, total_fee: total, remaining_weight: remaining }
}

} // verus!
