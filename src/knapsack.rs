use vstd::prelude::*;
use vstd::arithmetic::div_mod::lemma_fundamental_div_mod;
use crate::feerate::{greedy_run, sorted_by_rate, choose_txs_to_inlcude_in_block as greedy_choose};
use crate::store::{MempoolCsvRow, sum_weight, chains_in_range, lemma_resolved_in_range};
use crate::select::{
    flags, bundle_free, commit, ready, only_flags_changed, selection_inv, lemma_commit,
    check_chain_not_included, commit_bundle, BlockSelection,
};

verus! {

/// `x / s` rounded up.
pub open spec fn ceil_div(x: int, s: int) -> int {
    x / s + if x % s == 0 { 0int } else { 1int }
}

/// The quantized bundle weight of candidate `i`.
pub open spec fn qweight(m: Seq<MempoolCsvRow>, i: int, scale: int) -> int {
    ceil_div(m[i].chain_weight as int, scale)
}

/// The best total chain fee of bundles among the first `i` candidates whose
/// quantized weights add up to at most `w`, each bundle counted on its own.
pub open spec fn best_fee(m: Seq<MempoolCsvRow>, scale: int, i: int, w: int) -> int
    decreases i,
{
    if i <= 0 {
        0
    } else {
        let ex = best_fee(m, scale, i - 1, w);
        let q = qweight(m, i - 1, scale);
        if q <= w && best_fee(m, scale, i - 1, w - q) + m[i - 1].chain_fee > ex {
            best_fee(m, scale, i - 1, w - q) + m[i - 1].chain_fee
        } else {
            ex
        }
    }
}

/// One backtracking step on row `i`: the bundle of candidate `i - 1` is
/// committed when the row's best fee differs from the row above and the
/// bundle is free.
pub open spec fn knapsack_step(m: Seq<MempoolCsvRow>, scale: int, st: (Seq<bool>, Seq<usize>, int, int), i: int)
    -> (Seq<bool>, Seq<usize>, int, int)
{
    let c = i - 1;
    let ch = m[c].whole_chain_indexes@;
    if best_fee(m, scale, i, st.2) != best_fee(m, scale, i - 1, st.2) && bundle_free(st.0, ch, c) {
        (commit(st.0, ch, c), st.1 + ch.push(c as usize), st.2 - qweight(m, c, scale), st.3 + m[c].chain_fee)
    } else {
        st
    }
}

/// Backtracking over the rows `n` down to `n - k + 1`, from quantized capacity `cap`.
pub open spec fn knapsack_run(m: Seq<MempoolCsvRow>, scale: int, cap: int, k: int) -> (Seq<bool>, Seq<usize>, int, int)
    decreases k,
{
    if k <= 0 {
        (Seq::new(m.len(), |x: int| false), Seq::empty(), cap, 0)
    } else {
        knapsack_step(m, scale, knapsack_run(m, scale, cap, k - 1), m.len() - k + 1)
    }
}

proof fn lemma_best_fee_bounds(m: Seq<MempoolCsvRow>, scale: int, i: int, w: int)
    requires
        0 <= i,
    ensures
        0 <= best_fee(m, scale, i, w) <= i * (u64::MAX as int),
    decreases i,
{
    if i > 0 {
        lemma_best_fee_bounds(m, scale, i - 1, w);
        lemma_best_fee_bounds(m, scale, i - 1, w - qweight(m, i - 1, scale));
        assert(i * (u64::MAX as int) == (i - 1) * (u64::MAX as int) + u64::MAX) by (nonlinear_arith);
    }
}

proof fn lemma_ceil_div(x: int, s: int)
    requires
        0 <= x,
        0 < s,
    ensures
        x <= s * ceil_div(x, s),
        0 <= ceil_div(x, s) <= x + 1,
{
    lemma_fundamental_div_mod(x, s);
    assert(s * ceil_div(x, s) == s * (x / s) + s * (if x % s == 0 { 0int } else { 1int })) by (nonlinear_arith);
    assert(0 <= x / s <= x) by (nonlinear_arith) requires 0 <= x, 0 < s;
}

/// `x / s` rounded up, for `s > 0`.
fn ceil_div_exec(x: u64, s: u64) -> (r: u64)
    requires
        s > 0,
    ensures
        r == ceil_div(x as int, s as int),
{
    proof {
        lemma_ceil_div(x as int, s as int);
        assert(x / s <= x) by (nonlinear_arith) requires s > 0;
        assert(x % s == 0 || x / s < x) by (nonlinear_arith) requires s > 0;
    }
    if x % s == 0 { x / s } else { x / s + 1 }
}

/// The table of `best_fee` for rows `0..=n` and quantized capacities `0..=cap`.
fn fill_table(mempool: &Vec<MempoolCsvRow>, scale: u64, cap: usize) -> (table: Vec<Vec<u128>>)
    requires
        scale > 0,
        cap < usize::MAX,
    ensures
        table@.len() == mempool.len() + 1,
        forall|i: int| 0 <= i <= mempool.len() ==> (#[trigger] table@[i])@.len() == cap + 1,
        forall|i: int, w: int| 0 <= i <= mempool.len() && 0 <= w <= cap
            ==> (#[trigger] table@[i]@[w]) == best_fee(mempool@, scale as int, i, w),
{
    let n = mempool.len();
    let mut table: Vec<Vec<u128>> = Vec::new();
    table.push(vec![0u128; cap + 1]);
    let mut k: usize = 0;
    while k < n
        invariant
            n == mempool.len(),
            scale > 0,
            cap < usize::MAX,
            k <= n,
            table@.len() == k + 1,
            forall|x: int| 0 <= x <= k ==> (#[trigger] table@[x])@.len() == cap + 1,
            forall|x: int, w: int| 0 <= x <= k && 0 <= w <= cap
                ==> (#[trigger] table@[x]@[w]) == best_fee(mempool@, scale as int, x, w),
        decreases n - k,
    {
        let i = k + 1;
        let q = ceil_div_exec(mempool[i - 1].chain_weight, scale);
        let fee = mempool[i - 1].chain_fee as u128;
        let mut row: Vec<u128> = Vec::new();
        let mut w: usize = 0;
        while w <= cap
            invariant
                n == mempool.len(),
                scale > 0,
                cap < usize::MAX,
                1 <= i <= n,
                table@.len() == i,
                forall|x: int| 0 <= x < i ==> (#[trigger] table@[x])@.len() == cap + 1,
                forall|x: int, w: int| 0 <= x < i && 0 <= w <= cap
                    ==> (#[trigger] table@[x]@[w]) == best_fee(mempool@, scale as int, x, w),
                q == qweight(mempool@, i - 1, scale as int),
                fee == mempool@[i - 1].chain_fee,
                w <= cap + 1,
                row@.len() == w,
                forall|y: int| 0 <= y < w ==> (#[trigger] row@[y]) == best_fee(mempool@, scale as int, i as int, y),
            decreases cap + 1 - w,
        {
            let ex = table[i - 1][w];
            proof {
                lemma_best_fee_bounds(mempool@, scale as int, i - 1, w as int);
                lemma_best_fee_bounds(mempool@, scale as int, i - 1, w - q);
                assert((i as int) * (u64::MAX as int) == (i - 1) * (u64::MAX as int) + u64::MAX) by (nonlinear_arith);
                assert((i as int) * (u64::MAX as int) <= (usize::MAX as int) * (u64::MAX as int)) by (nonlinear_arith)
                    requires i <= usize::MAX;
            }
            if q <= w as u64 {
                let inc = table[i - 1][w - q as usize] + fee;
                if inc > ex {
                    row.push(inc);
                } else {
                    row.push(ex);
                }
            } else {
                row.push(ex);
            }
            w += 1;
        }
        table.push(row);
        k += 1;
    }
    table
}

/// The knapsack pass alone: the capacity is divided by `scale` and rounded
/// down, bundle weights are divided by `scale` and rounded up, and each bundle
/// is one item of value `chain_fee`. Backtracking from the last row commits a
/// bundle where its row improves on the row above, unless it shares a
/// candidate with what is already included.
fn knapsack_pass(mempool: &mut Vec<MempoolCsvRow>, capacity: u64, scale: u64) -> (r: BlockSelection)
    requires
        ready(old(mempool)@),
        scale > 0,
        capacity / scale < usize::MAX,
    ensures
        only_flags_changed(old(mempool)@, final(mempool)@),
        knapsack_run(old(mempool)@, scale as int, (capacity / scale) as int, old(mempool)@.len() as int).0 == flags(final(mempool)@),
        knapsack_run(old(mempool)@, scale as int, (capacity / scale) as int, old(mempool)@.len() as int).1 == r.included@,
        knapsack_run(old(mempool)@, scale as int, (capacity / scale) as int, old(mempool)@.len() as int).3 == r.total_fee,
        selection_inv(old(mempool)@, flags(final(mempool)@), r.included@, r.total_fee as int),
        sum_weight(old(mempool)@, r.included@) + r.remaining_weight == capacity,
{
    let ghost m0 = mempool@;
    let ghost s = scale as int;
    let n = mempool.len();
    proof {
        lemma_resolved_in_range(m0);
        lemma_fundamental_div_mod(capacity as int, scale as int);
        assert(scale * (capacity / scale) <= capacity) by (nonlinear_arith)
            requires capacity as int == scale * (capacity / scale) + capacity % scale, scale > 0, capacity % scale >= 0;
    }
    let cap = (capacity / scale) as usize;
    let mut used: u64 = 0;
    let table = fill_table(mempool, scale, cap);
    let mut block: Vec<usize> = Vec::new();
    let mut w: usize = cap;
    let mut total: u128 = 0;
    let mut i: usize = n;
    proof {
        assert(flags(mempool@) =~= Seq::new(n as nat, |x: int| false));
        assert(block@.no_duplicates());
    }
    while i > 0
        invariant
            n == mempool.len(),
            n == m0.len(),
            i <= n,
            s == scale as int,
            scale > 0,
            ready(m0),
            chains_in_range(m0),
            only_flags_changed(m0, mempool@),
            table@.len() == n + 1,
            forall|x: int| 0 <= x <= n ==> (#[trigger] table@[x])@.len() == cap + 1,
            forall|x: int, y: int| 0 <= x <= n && 0 <= y <= cap
                ==> (#[trigger] table@[x]@[y]) == best_fee(m0, s, x, y),
            w <= cap,
            knapsack_run(m0, s, cap as int, n - i)
                == (flags(mempool@), block@, w as int, total as int),
            selection_inv(m0, flags(mempool@), block@, total as int),
            sum_weight(m0, block@) <= s * (cap - w),
            used == sum_weight(m0, block@),
            s * cap <= capacity,
            total <= (n - i) * (u64::MAX as int),
        decreases i,
    {
        let c = i - 1;
        proof {
            assert(m0.len() - (n - i + 1) + 1 == i);
            assert((n - i + 1) * (u64::MAX as int) == (n - i) * (u64::MAX as int) + u64::MAX) by (nonlinear_arith);
            assert((n - i) * (u64::MAX as int) <= (usize::MAX as int) * (u64::MAX as int)) by (nonlinear_arith)
                requires n - i <= usize::MAX;
        }
        if table[i][w] != table[c][w] && check_chain_not_included(mempool, c) {
            let q = ceil_div_exec(mempool[c].chain_weight, scale);
            proof {
                lemma_commit(m0, flags(mempool@), block@, total as int, c as int);
                lemma_ceil_div(m0[c as int].chain_weight as int, s);
                assert(q <= w);
                assert(s * (cap - w) + s * q == s * (cap - (w - q))) by (nonlinear_arith);
                assert(s * (cap - (w - q)) <= s * cap) by (nonlinear_arith) requires s > 0, w - q >= 0;
            }
            commit_bundle(mempool, c, &mut block);
            used = used + mempool[c].chain_weight;
            w = w - q as usize;
            total = total + mempool[c].chain_fee as u128;
        }
        i -= 1;
    }
    proof {
        assert(s * (cap - w) <= s * cap) by (nonlinear_arith) requires s > 0, w >= 0;
    }
    BlockSelection { included: block, total_fee: total, remaining_weight: capacity - used }
}

/// Sets every `included` flag back to `false`.
fn clear_flags(mempool: &mut Vec<MempoolCsvRow>)
    ensures
        only_flags_changed(old(mempool)@, final(mempool)@),
        forall|x: int| 0 <= x < final(mempool)@.len() ==> !(#[trigger] final(mempool)@[x]).already_included,
{
    let n = mempool.len();
    let mut i: usize = 0;
    while i < n
        invariant
            n == mempool.len(),
            i <= n,
            only_flags_changed(old(mempool)@, mempool@),
            forall|x: int| 0 <= x < i ==> !(#[trigger] mempool@[x]).already_included,
        decreases n - i,
    {
        mempool[i].already_included = false;
        i += 1;
    }
}

proof fn lemma_cleared_is_fresh(a: Seq<MempoolCsvRow>, b: Seq<MempoolCsvRow>)
    requires
        only_flags_changed(a, b),
        forall|x: int| 0 <= x < a.len() ==> !(#[trigger] a[x]).already_included,
        forall|x: int| 0 <= x < b.len() ==> !(#[trigger] b[x]).already_included,
    ensures
        a == b,
{
    assert forall|x: int| 0 <= x < a.len() implies a[x] == b[x] by {
        assert(a[x].already_included == b[x].already_included);
    }
    assert(a =~= b);
}

/// Picks bundles with the knapsack pass, unless the greedy selection by fee
/// rate pays more, in which case that selection is returned.
///
/// Both selections keep the true capacity: `remaining_weight` is the capacity
/// minus the own weights of the included candidates.
pub fn choose_txs_to_inlcude_in_block(mempool: &mut Vec<MempoolCsvRow>, capacity: u64, scale: u64)
    -> (r: BlockSelection)
    requires
        ready(old(mempool)@),
        scale > 0,
        capacity / scale < usize::MAX,
    ensures
        only_flags_changed(old(mempool)@, final(mempool)@),
        selection_inv(old(mempool)@, flags(final(mempool)@), r.included@, r.total_fee as int),
        sum_weight(old(mempool)@, r.included@) + r.remaining_weight == capacity,
        forall|order: Seq<usize>| sorted_by_rate(old(mempool)@, order) ==> {
            let k = knapsack_run(old(mempool)@, scale as int, (capacity / scale) as int, old(mempool)@.len() as int);
            let g = #[trigger] greedy_run(old(mempool)@, order, old(mempool)@.len() as int, capacity as int);
            &&& r.total_fee >= g.3
            &&& k.3 >= g.3 ==> (flags(final(mempool)@) == k.0 && r.included@ == k.1 && r.total_fee == k.3)
            &&& k.3 < g.3 ==> (flags(final(mempool)@), r.included@, r.remaining_weight as int, r.total_fee as int) == g
        },
{
    let ghost m0 = mempool@;
    let g = greedy_choose(mempool, capacity);
    clear_flags(mempool);
    proof {
        lemma_cleared_is_fresh(m0, mempool@);
    }
    let k = knapsack_pass(mempool, capacity, scale);
    if k.total_fee >= g.total_fee {
        k
    } else {
        clear_flags(mempool);
        proof {
            lemma_cleared_is_fresh(m0, mempool@);
        }
        greedy_choose(mempool, capacity)
    }
}

} // verus!
