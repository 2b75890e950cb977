use vstd::prelude::*;
use crate::store::{
    MempoolCsvRow, is_ancestor, chain_of, chains_resolved, chains_aggregated, same_graph, acyclic,
    lemma_chain_of, lemma_same_graph_chains, lemma_sums_nonneg, lemma_sums_same_values, lemma_resolved_in_range,
};
use crate::select::{ready, commit, bundle_free};
use crate::feerate::{greedy_run, sorted_by_rate};
use crate::knapsack::{best_fee, qweight, knapsack_run};

verus! {

/// Once fees and weights are aggregated, every bundle weighs at least the
/// candidate itself and pays at least its own fee.
pub proof fn lemma_bundle_at_least_own(m: Seq<MempoolCsvRow>, i: int)
    requires
        chains_aggregated(m),
        0 <= i < m.len(),
    ensures
        m[i].chain_weight >= m[i].weight,
        m[i].chain_fee >= m[i].fee,
{
    lemma_sums_nonneg(m, m[i].whole_chain_indexes@);
}

/// In a resolved store without cycles, a chain never names its own candidate,
/// names each ancestor once, and lists every ancestor before its descendants.
pub proof fn lemma_chain_excludes_self(m: Seq<MempoolCsvRow>, i: int)
    requires
        chains_resolved(m),
        m.len() <= usize::MAX,
        acyclic(m),
        0 <= i < m.len(),
    ensures
        !m[i].whole_chain_indexes@.contains(i as usize),
        m[i].whole_chain_indexes@.no_duplicates(),
        forall|a: int, b: int| 0 <= a < m[i].whole_chain_indexes@.len() && 0 <= b < m[i].whole_chain_indexes@.len()
            && is_ancestor(m, #[trigger] m[i].whole_chain_indexes@[b] as int, #[trigger] m[i].whole_chain_indexes@[a] as int)
            ==> a < b,
{
    lemma_chain_of(m, i);
    assert(m[i].whole_chain_indexes@ == chain_of(m, i));
}

/// Resolving and aggregating again gives the same chains and totals: two
/// resolved and aggregated stores over the same ids, parents, fees and
/// weights agree on every chain, chain fee and chain weight.
pub proof fn lemma_resolve_aggregate_idempotent(a: Seq<MempoolCsvRow>, b: Seq<MempoolCsvRow>)
    requires
        same_graph(a, b),
        forall|i: int| 0 <= i < a.len() ==> (#[trigger] a[i]).fee == b[i].fee && a[i].weight == b[i].weight,
        a.len() <= usize::MAX,
        chains_resolved(a),
        chains_aggregated(a),
        chains_resolved(b),
        chains_aggregated(b),
    ensures
        forall|i: int| 0 <= i < a.len() ==> {
            &&& (#[trigger] a[i]).whole_chain_indexes@ == b[i].whole_chain_indexes@
            &&& a[i].chain_fee == b[i].chain_fee
            &&& a[i].chain_weight == b[i].chain_weight
        },
{
    lemma_same_graph_chains(a, b);
    lemma_resolved_in_range(a);
    assert forall|i: int| 0 <= i < a.len() implies {
        &&& (#[trigger] a[i]).whole_chain_indexes@ == b[i].whole_chain_indexes@
        &&& a[i].chain_fee == b[i].chain_fee
        &&& a[i].chain_weight == b[i].chain_weight
    } by {
        assert(a[i].whole_chain_indexes@ == chain_of(a, i));
        assert(b[i].whole_chain_indexes@ == chain_of(b, i));
        lemma_sums_same_values(a, b, a[i].whole_chain_indexes@);
    }
}

/// Sum of the chain fees of the candidates below `i` that `sel` marks.
spec fn marked_fee(m: Seq<MempoolCsvRow>, sel: Seq<bool>, i: int) -> int
    decreases i,
{
    if i <= 0 {
        0
    } else {
        marked_fee(m, sel, i - 1) + if sel[i - 1] { m[i - 1].chain_fee as int } else { 0 }
    }
}

/// Sum of the quantized weights of the candidates below `i` that `sel` marks.
spec fn marked_qweight(m: Seq<MempoolCsvRow>, sel: Seq<bool>, i: int, scale: int) -> int
    decreases i,
{
    if i <= 0 {
        0
    } else {
        marked_qweight(m, sel, i - 1, scale) + if sel[i - 1] { qweight(m, i - 1, scale) } else { 0 }
    }
}

proof fn lemma_marked_mark_one(m: Seq<MempoolCsvRow>, sel: Seq<bool>, c: int, i: int)
    requires
        0 <= c < sel.len(),
        !sel[c],
        i <= sel.len(),
    ensures
        marked_fee(m, sel.update(c, true), i) == marked_fee(m, sel, i) + if c < i { m[c].chain_fee as int } else { 0 },
        marked_qweight(m, sel.update(c, true), i, 1)
            == marked_qweight(m, sel, i, 1) + if c < i { qweight(m, c, 1) } else { 0 },
    decreases i,
{
    if i > 0 {
        lemma_marked_mark_one(m, sel, c, i - 1);
    }
}

/// The dynamic program's value is at least the fee of any marked set of
/// bundles whose quantized weights fit.
proof fn lemma_best_fee_optimal(m: Seq<MempoolCsvRow>, sel: Seq<bool>, i: int, w: int, scale: int)
    requires
        0 <= i <= sel.len(),
        scale > 0,
        marked_qweight(m, sel, i, scale) <= w,
    ensures
        best_fee(m, scale, i, w) >= marked_fee(m, sel, i),
    decreases i,
{
    if i > 0 {
        lemma_marked_qweight_nonneg(m, sel, i - 1, scale);
        let q = qweight(m, i - 1, scale);
        assert(q >= 0) by {
            assert(m[i - 1].chain_weight as int / scale >= 0) by (nonlinear_arith)
                requires m[i - 1].chain_weight >= 0, scale > 0;
        }
        if sel[i - 1] {
            lemma_best_fee_optimal(m, sel, i - 1, w - q, scale);
        } else {
            lemma_best_fee_optimal(m, sel, i - 1, w, scale);
        }
    }
}

proof fn lemma_marked_qweight_nonneg(m: Seq<MempoolCsvRow>, sel: Seq<bool>, i: int, scale: int)
    requires
        scale > 0,
    ensures
        marked_qweight(m, sel, i, scale) >= 0,
    decreases i,
{
    if i > 0 {
        lemma_marked_qweight_nonneg(m, sel, i - 1, scale);
        assert(m[i - 1].chain_weight as int / scale >= 0) by (nonlinear_arith)
            requires m[i - 1].chain_weight >= 0, scale > 0;
    }
}

/// Without parents, backtracking collects exactly the dynamic program's value.
proof fn lemma_knapsack_realizes_best(m: Seq<MempoolCsvRow>, cap: int, k: int)
    requires
        0 <= k <= m.len(),
        0 <= cap,
        forall|c: int| 0 <= c < m.len() ==> (#[trigger] m[c]).whole_chain_indexes@.len() == 0,
    ensures
        knapsack_run(m, 1, cap, k).0.len() == m.len(),
        forall|x: int| 0 <= x < m.len() - k ==> !knapsack_run(m, 1, cap, k).0[x],
        0 <= knapsack_run(m, 1, cap, k).2,
        knapsack_run(m, 1, cap, k).3 + best_fee(m, 1, m.len() - k, knapsack_run(m, 1, cap, k).2)
            == best_fee(m, 1, m.len() as int, cap),
    decreases k,
{
    if k > 0 {
        lemma_knapsack_realizes_best(m, cap, k - 1);
        let st = knapsack_run(m, 1, cap, k - 1);
        let i = m.len() - k + 1;
        let c = i - 1;
        assert(m[c].whole_chain_indexes@.len() == 0);
        assert(bundle_free(st.0, m[c].whole_chain_indexes@, c));
        if best_fee(m, 1, i, st.2) != best_fee(m, 1, i - 1, st.2) {
            assert(qweight(m, c, 1) >= 0);
        }
    } else {
        assert(knapsack_run(m, 1, cap, 0).0 =~= Seq::new(m.len(), |x: int| false));
    }
}

/// Without parents, the greedy pass's fee and weight are those of its flags.
proof fn lemma_greedy_marked(m: Seq<MempoolCsvRow>, order: Seq<usize>, cap: int, k: int)
    requires
        0 <= k <= m.len(),
        0 <= cap,
        sorted_by_rate(m, order),
        forall|c: int| 0 <= c < m.len() ==> (#[trigger] m[c]).whole_chain_indexes@.len() == 0,
    ensures
        greedy_run(m, order, k, cap).0.len() == m.len(),
        greedy_run(m, order, k, cap).3 == marked_fee(m, greedy_run(m, order, k, cap).0, m.len() as int),
        marked_qweight(m, greedy_run(m, order, k, cap).0, m.len() as int, 1) + greedy_run(m, order, k, cap).2 == cap,
        0 <= greedy_run(m, order, k, cap).2,
    decreases k,
{
    let n = m.len() as int;
    if k > 0 {
        lemma_greedy_marked(m, order, cap, k - 1);
        let st = greedy_run(m, order, k - 1, cap);
        let c = order[k - 1] as int;
        let ch = m[c].whole_chain_indexes@;
        if bundle_free(st.0, ch, c) && m[c].chain_weight <= st.2 {
            assert(commit(st.0, ch, c) =~= st.0.update(c, true));
            lemma_marked_mark_one(m, st.0, c, n);
        }
    } else {
        let z = Seq::new(m.len(), |x: int| false);
        assert(greedy_run(m, order, 0, cap).0 =~= z);
        lemma_marked_zero(m, z, n);
    }
}

proof fn lemma_marked_zero(m: Seq<MempoolCsvRow>, sel: Seq<bool>, i: int)
    requires
        i <= sel.len(),
        forall|x: int| 0 <= x < sel.len() ==> !sel[x],
    ensures
        marked_fee(m, sel, i) == 0,
        marked_qweight(m, sel, i, 1) == 0,
    decreases i,
{
    if i > 0 {
        lemma_marked_zero(m, sel, i - 1);
    }
}

/// Where no candidate has a parent and weights are not scaled, the knapsack
/// pass on its own already collects at least the greedy selector's fee.
pub proof fn lemma_knapsack_dominates_greedy(m: Seq<MempoolCsvRow>, capacity: int, order: Seq<usize>)
    requires
        ready(m),
        0 <= capacity,
        sorted_by_rate(m, order),
        forall|c: int| 0 <= c < m.len() ==> (#[trigger] m[c]).whole_chain_indexes@.len() == 0,
    ensures
        knapsack_run(m, 1, capacity, m.len() as int).3
            >= greedy_run(m, order, m.len() as int, capacity).3,
{
    let n = m.len() as int;
    lemma_knapsack_realizes_best(m, capacity, n);
    lemma_greedy_marked(m, order, capacity, n);
    let g = greedy_run(m, order, n, capacity);
    lemma_best_fee_optimal(m, g.0, n, capacity, 1);
    let st = knapsack_run(m, 1, capacity, n);
    assert(best_fee(m, 1, 0, st.2) == 0);
}

} // verus!
