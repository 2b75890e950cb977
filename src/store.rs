use vstd::prelude::*;

verus! {

/// One candidate transaction together with the data derived for it.
#[derive(Debug, Default, Clone)]
pub struct MempoolCsvRow {
    pub txid: String,
    pub fee: u64,
    pub weight: u64,
    /// Ids of the direct parents; an empty id stands for "no parent".
    pub parent_txids: Vec<String>,
    /// Ancestor handles without duplicates, each ancestor before its descendants.
    pub whole_chain_indexes: Vec<usize>,
    pub already_included: bool,
    pub chain_fee: u64,
    pub chain_weight: u64,
}

/// No two candidates share an id.
pub open spec fn ids_unique(m: Seq<MempoolCsvRow>) -> bool {
    forall|a: int, b: int|
        0 <= a < m.len() && 0 <= b < m.len() && a != b ==> m[a].txid@ != m[b].txid@
}

/// Candidate `p` is named as a direct parent of candidate `c`.
pub open spec fn edge(m: Seq<MempoolCsvRow>, c: int, p: int) -> bool {
    &&& 0 <= c < m.len()
    &&& 0 <= p < m.len()
    &&& exists|j: int|
        0 <= j < m[c].parent_txids.len() && m[c].parent_txids[j]@.len() > 0
            && #[trigger] m[c].parent_txids[j]@ == m[p].txid@
}

/// There is a path of `d + 1` parent edges from `i` to `p`.
pub open spec fn reaches(m: Seq<MempoolCsvRow>, i: int, p: int, d: nat) -> bool
    decreases d,
{
    if d == 0 {
        edge(m, i, p)
    } else {
        exists|q: int| reaches(m, i, q, (d - 1) as nat) && #[trigger] edge(m, q, p)
    }
}

/// `p` is a (transitive) ancestor of `i`.
pub open spec fn is_ancestor(m: Seq<MempoolCsvRow>, i: int, p: int) -> bool {
    exists|d: nat| #[trigger] reaches(m, i, p, d)
}

/// A parent id of candidate `c` is non-empty and names no candidate.
pub open spec fn has_dangling_parent(m: Seq<MempoolCsvRow>, c: int) -> bool {
    exists|j: int|
        0 <= j < m[c].parent_txids.len() && #[trigger] m[c].parent_txids[j]@.len() > 0
            && forall|p: int| 0 <= p < m.len() ==> m[p].txid@ != m[c].parent_txids[j]@
}

/// The ancestors of `i` in ascending handle order.
pub open spec fn ancestors_below(m: Seq<MempoolCsvRow>, i: int, k: int) -> Seq<usize>
    decreases k,
{
    if k <= 0 {
        Seq::empty()
    } else if is_ancestor(m, i, k - 1) {
        ancestors_below(m, i, k - 1).push((k - 1) as usize)
    } else {
        ancestors_below(m, i, k - 1)
    }
}

pub open spec fn ancestors(m: Seq<MempoolCsvRow>, i: int) -> Seq<usize> {
    ancestors_below(m, i, m.len() as int)
}

/// Sum of the own fees of the candidates named in `s`.
pub open spec fn sum_fee(m: Seq<MempoolCsvRow>, s: Seq<usize>) -> int
    decreases s.len(),
{
    if s.len() == 0 {
        0
    } else {
        sum_fee(m, s.drop_last()) + m[s.last() as int].fee
    }
}

/// Sum of the own weights of the candidates named in `s`.
pub open spec fn sum_weight(m: Seq<MempoolCsvRow>, s: Seq<usize>) -> int
    decreases s.len(),
{
    if s.len() == 0 {
        0
    } else {
        sum_weight(m, s.drop_last()) + m[s.last() as int].weight
    }
}

/// No candidate is its own ancestor.
pub open spec fn acyclic(m: Seq<MempoolCsvRow>) -> bool {
    forall|c: int| 0 <= c < m.len() ==> !is_ancestor(m, c, c)
}

/// How many ancestors candidate `x` has.
pub open spec fn anc_count(m: Seq<MempoolCsvRow>, x: int) -> int {
    ancestors(m, x).len() as int
}

/// The handles below `k` with exactly `l` ancestors, ascending.
pub open spec fn level_below(m: Seq<MempoolCsvRow>, l: int, k: int) -> Seq<usize>
    decreases k,
{
    if k <= 0 {
        Seq::empty()
    } else if anc_count(m, k - 1) == l {
        level_below(m, l, k - 1).push((k - 1) as usize)
    } else {
        level_below(m, l, k - 1)
    }
}

/// All handles with fewer than `l` ancestors: by ancestor count, then by handle.
pub open spec fn topo_upto(m: Seq<MempoolCsvRow>, l: int) -> Seq<usize>
    decreases l,
{
    if l <= 0 {
        Seq::empty()
    } else {
        topo_upto(m, l - 1) + level_below(m, l - 1, m.len() as int)
    }
}

/// Every handle of an acyclic store, each ancestor before its descendants.
pub open spec fn topo(m: Seq<MempoolCsvRow>) -> Seq<usize> {
    topo_upto(m, m.len() as int)
}

/// The members of `s` that are ancestors of `i`, in the order of `s`.
pub open spec fn keep_ancestors(m: Seq<MempoolCsvRow>, i: int, s: Seq<usize>) -> Seq<usize>
    decreases s.len(),
{
    if s.len() == 0 {
        Seq::empty()
    } else if is_ancestor(m, i, s.last() as int) {
        keep_ancestors(m, i, s.drop_last()).push(s.last())
    } else {
        keep_ancestors(m, i, s.drop_last())
    }
}

/// The canonical chain of `i`: its ancestors in the order of `topo`.
pub open spec fn chain_of(m: Seq<MempoolCsvRow>, i: int) -> Seq<usize> {
    keep_ancestors(m, i, topo(m))
}

/// The members of `s` that `have` lacks, in the order of `s`.
pub open spec fn missing_from(s: Seq<usize>, have: Seq<usize>) -> Seq<usize>
    decreases s.len(),
{
    if s.len() == 0 {
        Seq::empty()
    } else if have.contains(s.last()) {
        missing_from(s.drop_last(), have)
    } else {
        missing_from(s.drop_last(), have).push(s.last())
    }
}

/// Every chain is the canonical chain of its candidate.
pub open spec fn chains_resolved(m: Seq<MempoolCsvRow>) -> bool {
    forall|i: int| 0 <= i < m.len() ==> (#[trigger] m[i]).whole_chain_indexes@ == chain_of(m, i)
}

/// Every chain fee and chain weight is the candidate's own value plus its chain's.
pub open spec fn chains_aggregated(m: Seq<MempoolCsvRow>) -> bool {
    forall|i: int|
        0 <= i < m.len() ==> {
            &&& (#[trigger] m[i]).chain_fee == m[i].fee + sum_fee(m, m[i].whole_chain_indexes@)
            &&& m[i].chain_weight == m[i].weight + sum_weight(m, m[i].whole_chain_indexes@)
        }
}

/// `a` and `b` hold the same ids and parent ids, so the same parent graph.
pub open spec fn same_graph(a: Seq<MempoolCsvRow>, b: Seq<MempoolCsvRow>) -> bool {
    &&& a.len() == b.len()
    &&& forall|i: int| 0 <= i < a.len() ==> (#[trigger] a[i]).txid@ == b[i].txid@
    &&& forall|i: int| 0 <= i < a.len() ==> (#[trigger] a[i]).parent_txids@.len() == b[i].parent_txids@.len()
    &&& forall|i: int, j: int| 0 <= i < a.len() && 0 <= j < a[i].parent_txids@.len()
        ==> (#[trigger] a[i].parent_txids@[j])@ == b[i].parent_txids@[j]@
}

/// `b` is `a` with at most `whole_chain_indexes` changed.
pub open spec fn only_chains_changed(a: Seq<MempoolCsvRow>, b: Seq<MempoolCsvRow>) -> bool {
    &&& a.len() == b.len()
    &&& forall|i: int| 0 <= i < a.len() ==> {
        &&& (#[trigger] b[i]).txid == a[i].txid
        &&& b[i].fee == a[i].fee
        &&& b[i].weight == a[i].weight
        &&& b[i].parent_txids == a[i].parent_txids
        &&& b[i].already_included == a[i].already_included
        &&& b[i].chain_fee == a[i].chain_fee
        &&& b[i].chain_weight == a[i].chain_weight
    }
}

proof fn lemma_same_graph_reaches(a: Seq<MempoolCsvRow>, b: Seq<MempoolCsvRow>, i: int, p: int, d: nat)
    requires
        same_graph(a, b),
    ensures
        reaches(a, i, p, d) == reaches(b, i, p, d),
    decreases d,
{
    assert forall|c: int, q: int| edge(a, c, q) == edge(b, c, q) by {
        if edge(a, c, q) {
            let j = choose|j: int| 0 <= j < a[c].parent_txids.len() && a[c].parent_txids[j]@.len() > 0
                && #[trigger] a[c].parent_txids[j]@ == a[q].txid@;
            assert(a[c].parent_txids@[j]@ == b[c].parent_txids@[j]@);
        }
        if edge(b, c, q) {
            let j = choose|j: int| 0 <= j < b[c].parent_txids.len() && b[c].parent_txids[j]@.len() > 0
                && #[trigger] b[c].parent_txids[j]@ == b[q].txid@;
            assert(a[c].parent_txids@[j]@ == b[c].parent_txids@[j]@);
        }
    }
    if d > 0 {
        assert forall|q: int| #[trigger] reaches(a, i, q, (d - 1) as nat) == reaches(b, i, q, (d - 1) as nat) by {
            lemma_same_graph_reaches(a, b, i, q, (d - 1) as nat);
        }
        if reaches(a, i, p, d) {
            let q = choose|q: int| reaches(a, i, q, (d - 1) as nat) && #[trigger] edge(a, q, p);
            assert(reaches(b, i, q, (d - 1) as nat) && edge(b, q, p));
        }
        if reaches(b, i, p, d) {
            let q = choose|q: int| reaches(b, i, q, (d - 1) as nat) && #[trigger] edge(b, q, p);
            assert(reaches(a, i, q, (d - 1) as nat) && edge(a, q, p));
        }
    }
}

/// Ancestry, and so the canonical chains, depend on ids and parent ids alone.
pub proof fn lemma_same_graph_ancestors(a: Seq<MempoolCsvRow>, b: Seq<MempoolCsvRow>)
    requires
        same_graph(a, b),
    ensures
        forall|i: int, p: int| is_ancestor(a, i, p) == is_ancestor(b, i, p),
        forall|i: int| ancestors(a, i) == ancestors(b, i),
{
    assert forall|i: int, p: int| is_ancestor(a, i, p) == is_ancestor(b, i, p) by {
        assert forall|d: nat| reaches(a, i, p, d) == reaches(b, i, p, d) by {
            lemma_same_graph_reaches(a, b, i, p, d);
        }
    }
    assert forall|i: int| ancestors(a, i) == ancestors(b, i) by {
        lemma_same_graph_below(a, b, i, a.len() as int);
    }
}

proof fn lemma_same_graph_below(a: Seq<MempoolCsvRow>, b: Seq<MempoolCsvRow>, i: int, k: int)
    requires
        forall|i: int, p: int| is_ancestor(a, i, p) == is_ancestor(b, i, p),
    ensures
        ancestors_below(a, i, k) == ancestors_below(b, i, k),
    decreases k,
{
    if k > 0 {
        lemma_same_graph_below(a, b, i, k - 1);
    }
}

/// Every chain names candidates of the store only.
pub open spec fn chains_in_range(m: Seq<MempoolCsvRow>) -> bool {
    forall|i: int, y: int|
        0 <= i < m.len() && 0 <= y < m[i].whole_chain_indexes@.len()
            ==> (#[trigger] m[i].whole_chain_indexes@[y]) < m.len()
}

/// `b` is `a` with at most `chain_fee` and `chain_weight` changed.
pub open spec fn only_aggregates_changed(a: Seq<MempoolCsvRow>, b: Seq<MempoolCsvRow>) -> bool {
    &&& a.len() == b.len()
    &&& forall|i: int| 0 <= i < a.len() ==> {
        &&& (#[trigger] b[i]).txid == a[i].txid
        &&& b[i].fee == a[i].fee
        &&& b[i].weight == a[i].weight
        &&& b[i].parent_txids == a[i].parent_txids
        &&& b[i].whole_chain_indexes == a[i].whole_chain_indexes
        &&& b[i].already_included == a[i].already_included
    }
}

/// The bundle of candidate `i` (itself and its chain) has fee and weight
/// totals that fit in a `u64`.
pub open spec fn bundle_fits_u64(m: Seq<MempoolCsvRow>, i: int) -> bool {
    &&& m[i].fee + sum_fee(m, m[i].whole_chain_indexes@) <= u64::MAX
    &&& m[i].weight + sum_weight(m, m[i].whole_chain_indexes@) <= u64::MAX
}

/// Sums over handles read only the own fees and weights of the named candidates.
pub proof fn lemma_sums_same_values(a: Seq<MempoolCsvRow>, b: Seq<MempoolCsvRow>, s: Seq<usize>)
    requires
        a.len() == b.len(),
        forall|i: int| 0 <= i < a.len() ==> (#[trigger] a[i]).fee == b[i].fee && a[i].weight == b[i].weight,
        forall|y: int| 0 <= y < s.len() ==> s[y] < a.len(),
    ensures
        sum_fee(a, s) == sum_fee(b, s),
        sum_weight(a, s) == sum_weight(b, s),
    decreases s.len(),
{
    if s.len() > 0 {
        lemma_sums_same_values(a, b, s.drop_last());
        assert(a[s.last() as int].fee == b[s.last() as int].fee);
    }
}

proof fn lemma_count_bound(m: Seq<MempoolCsvRow>, i: int, k: int)
    requires
        0 <= k,
    ensures
        ancestors_below(m, i, k).len() <= k,
        0 <= i < k && !is_ancestor(m, i, i) ==> ancestors_below(m, i, k).len() < k,
    decreases k,
{
    if k > 0 {
        lemma_count_bound(m, i, k - 1);
    }
}

proof fn lemma_count_monotone(m: Seq<MempoolCsvRow>, p: int, q: int, y: int, k: int)
    requires
        forall|x: int| 0 <= x < m.len() && is_ancestor(m, p, x) ==> is_ancestor(m, q, x),
        k <= m.len(),
    ensures
        ancestors_below(m, p, k).len() <= ancestors_below(m, q, k).len(),
        0 <= y < k && is_ancestor(m, q, y) && !is_ancestor(m, p, y)
            ==> ancestors_below(m, p, k).len() < ancestors_below(m, q, k).len(),
    decreases k,
{
    if k > 0 {
        lemma_count_monotone(m, p, q, y, k - 1);
    }
}

proof fn lemma_level_below(m: Seq<MempoolCsvRow>, l: int, k: int)
    requires
        k <= usize::MAX + 1,
    ensures
        level_below(m, l, k).no_duplicates(),
        forall|y: int| 0 <= y < level_below(m, l, k).len()
            ==> (#[trigger] level_below(m, l, k)[y]) < k && anc_count(m, level_below(m, l, k)[y] as int) == l,
        forall|x: usize| #[trigger] level_below(m, l, k).contains(x) <==> (x < k && anc_count(m, x as int) == l),
    decreases k,
{
    if k > 0 {
        lemma_level_below(m, l, k - 1);
        let s = level_below(m, l, k - 1);
        if anc_count(m, k - 1) == l {
            let t = s.push((k - 1) as usize);
            assert forall|x: usize| t.contains(x) <==> (x < k && anc_count(m, x as int) == l) by {
                if x == (k - 1) as usize {
                    assert(t[s.len() as int] == x);
                } else if t.contains(x) {
                    let y = choose|y: int| 0 <= y < t.len() && t[y] == x;
                    assert(s[y] == x);
                } else if x < k && anc_count(m, x as int) == l {
                    assert(s.contains(x));
                    let y = choose|y: int| 0 <= y < s.len() && s[y] == x;
                    assert(t[y] == x);
                }
            }
        }
    }
}

proof fn lemma_topo_upto(m: Seq<MempoolCsvRow>, l: int)
    requires
        m.len() <= usize::MAX,
    ensures
        topo_upto(m, l).no_duplicates(),
        forall|y: int| 0 <= y < topo_upto(m, l).len() ==> (#[trigger] topo_upto(m, l)[y]) < m.len(),
        forall|x: usize| #[trigger] topo_upto(m, l).contains(x) <==> (x < m.len() && anc_count(m, x as int) < l),
        forall|a: int, b: int| 0 <= a < b < topo_upto(m, l).len()
            ==> anc_count(m, #[trigger] topo_upto(m, l)[a] as int) <= anc_count(m, #[trigger] topo_upto(m, l)[b] as int),
    decreases l,
{
    if l > 0 {
        lemma_topo_upto(m, l - 1);
        lemma_level_below(m, l - 1, m.len() as int);
        let s = topo_upto(m, l - 1);
        let v = level_below(m, l - 1, m.len() as int);
        let t = s + v;
        assert(t == topo_upto(m, l));
        assert forall|a: int| 0 <= a < s.len() implies anc_count(m, #[trigger] s[a] as int) < l - 1 by {
            assert(s.contains(s[a]));
        }
        assert forall|x: usize| t.contains(x) <==> (x < m.len() && anc_count(m, x as int) < l) by {
            if t.contains(x) {
                let y = choose|y: int| 0 <= y < t.len() && t[y] == x;
                if y < s.len() { assert(s[y] == x); } else { assert(v[y - s.len()] == x); }
            }
            if x < m.len() && anc_count(m, x as int) < l {
                if anc_count(m, x as int) < l - 1 {
                    assert(s.contains(x));
                    let y = choose|y: int| 0 <= y < s.len() && s[y] == x;
                    assert(t[y] == x);
                } else {
                    assert(v.contains(x));
                    let y = choose|y: int| 0 <= y < v.len() && v[y] == x;
                    assert(t[s.len() + y] == x);
                }
            }
        }
        assert forall|a: int, b: int| 0 <= a < b < t.len() implies t[a] != t[b] by {
            if b < s.len() {
            } else if a >= s.len() {
                assert(v[a - s.len()] != v[b - s.len()]);
            } else {
                assert(anc_count(m, s[a] as int) < l - 1);
                assert(anc_count(m, v[b - s.len()] as int) == l - 1);
            }
        }
        assert forall|a: int, b: int| 0 <= a < b < t.len()
            implies anc_count(m, #[trigger] t[a] as int) <= anc_count(m, #[trigger] t[b] as int) by {
            if b < s.len() {
                assert(t[a] == s[a] && t[b] == s[b]);
            } else if a >= s.len() {
                assert(anc_count(m, v[a - s.len()] as int) == l - 1);
                assert(anc_count(m, v[b - s.len()] as int) == l - 1);
            } else {
                assert(anc_count(m, s[a] as int) < l - 1);
                assert(anc_count(m, v[b - s.len()] as int) == l - 1);
            }
        }
    }
}

proof fn lemma_keep(m: Seq<MempoolCsvRow>, i: int, s: Seq<usize>)
    ensures
        forall|x: usize| #[trigger] keep_ancestors(m, i, s).contains(x) <==> (s.contains(x) && is_ancestor(m, i, x as int)),
        s.no_duplicates() ==> keep_ancestors(m, i, s).no_duplicates(),
        (forall|a: int, b: int| 0 <= a < b < s.len() ==> anc_count(m, #[trigger] s[a] as int) <= anc_count(m, #[trigger] s[b] as int))
            ==> (forall|a: int, b: int| 0 <= a < b < keep_ancestors(m, i, s).len()
                ==> anc_count(m, #[trigger] keep_ancestors(m, i, s)[a] as int)
                    <= anc_count(m, #[trigger] keep_ancestors(m, i, s)[b] as int)),
    decreases s.len(),
{
    if s.len() > 0 {
        let s0 = s.drop_last();
        lemma_keep(m, i, s0);
        let r = keep_ancestors(m, i, s0);
        assert forall|x: usize| s.contains(x) <==> (s0.contains(x) || x == s.last()) by {
            if s.contains(x) {
                let y = choose|y: int| 0 <= y < s.len() && s[y] == x;
                if y < s0.len() { assert(s0[y] == x); }
            }
            if s0.contains(x) {
                let y = choose|y: int| 0 <= y < s0.len() && s0[y] == x;
                assert(s[y] == x);
            }
        }
        if is_ancestor(m, i, s.last() as int) {
            let t = r.push(s.last());
            assert forall|x: usize| t.contains(x) <==> (r.contains(x) || x == s.last()) by {
                if t.contains(x) {
                    let y = choose|y: int| 0 <= y < t.len() && t[y] == x;
                    if y < r.len() { assert(r[y] == x); }
                }
                if r.contains(x) {
                    let y = choose|y: int| 0 <= y < r.len() && r[y] == x;
                    assert(t[y] == x);
                }
                if x == s.last() { assert(t[r.len() as int] == x); }
            }
            if s.no_duplicates() {
                assert(s0.no_duplicates());
                assert(!s0.contains(s.last())) by {
                    if s0.contains(s.last()) {
                        let y = choose|y: int| 0 <= y < s0.len() && s0[y] == s.last();
                        assert(s[y] == s[s.len() - 1]);
                    }
                }
                assert forall|a: int, b: int| 0 <= a < b < t.len() implies t[a] != t[b] by {
                    if b == r.len() {
                        assert(r.contains(t[a]));
                    }
                }
            }
            if forall|a: int, b: int| 0 <= a < b < s.len() ==> anc_count(m, #[trigger] s[a] as int) <= anc_count(m, #[trigger] s[b] as int) {
                assert forall|a: int, b: int| 0 <= a < b < s0.len()
                    implies anc_count(m, #[trigger] s0[a] as int) <= anc_count(m, #[trigger] s0[b] as int) by {
                    assert(s0[a] == s[a] && s0[b] == s[b]);
                }
                assert forall|a: int, b: int| 0 <= a < b < t.len()
                    implies anc_count(m, #[trigger] t[a] as int) <= anc_count(m, #[trigger] t[b] as int) by {
                    if b == r.len() {
                        assert(r.contains(t[a]));
                        assert(s0.contains(t[a]));
                        let y = choose|y: int| 0 <= y < s0.len() && s0[y] == t[a];
                        assert(s[y] == t[a]);
                        assert(anc_count(m, s[y] as int) <= anc_count(m, s[s.len() - 1] as int));
                    } else {
                        assert(t[a] == r[a] && t[b] == r[b]);
                    }
                }
            }
        } else {
            if forall|a: int, b: int| 0 <= a < b < s.len() ==> anc_count(m, #[trigger] s[a] as int) <= anc_count(m, #[trigger] s[b] as int) {
                assert forall|a: int, b: int| 0 <= a < b < s0.len()
                    implies anc_count(m, #[trigger] s0[a] as int) <= anc_count(m, #[trigger] s0[b] as int) by {
                    assert(s0[a] == s[a] && s0[b] == s[b]);
                }
            }
        }
    }
}

/// In an acyclic store the canonical chain of `i` lists each ancestor of `i`
/// once, nothing else, and every ancestor before its own descendants.
pub proof fn lemma_chain_of(m: Seq<MempoolCsvRow>, i: int)
    requires
        m.len() <= usize::MAX,
        acyclic(m),
    ensures
        chain_of(m, i).no_duplicates(),
        forall|y: int| 0 <= y < chain_of(m, i).len()
            ==> (#[trigger] chain_of(m, i)[y]) < m.len() && is_ancestor(m, i, chain_of(m, i)[y] as int),
        forall|x: usize| #[trigger] chain_of(m, i).contains(x) <==> (x < m.len() && is_ancestor(m, i, x as int)),
        forall|a: int, b: int| 0 <= a < chain_of(m, i).len() && 0 <= b < chain_of(m, i).len()
            && is_ancestor(m, #[trigger] chain_of(m, i)[b] as int, #[trigger] chain_of(m, i)[a] as int) ==> a < b,
{
    let n = m.len() as int;
    let t = topo(m);
    let c = chain_of(m, i);
    lemma_topo_upto(m, n);
    lemma_keep(m, i, t);
    assert forall|x: usize| x < n implies anc_count(m, x as int) < n by {
        lemma_count_bound(m, x as int, n);
    }
    assert forall|y: int| 0 <= y < c.len() implies (#[trigger] c[y]) < m.len() && is_ancestor(m, i, c[y] as int) by {
        assert(c.contains(c[y]));
    }
    assert forall|a: int, b: int| 0 <= a < c.len() && 0 <= b < c.len()
        && is_ancestor(m, #[trigger] c[b] as int, #[trigger] c[a] as int) implies a < b by {
        let p = c[a] as int;
        let q = c[b] as int;
        assert(c.contains(c[a]) && c.contains(c[b]));
        assert forall|x: int| 0 <= x < m.len() && is_ancestor(m, p, x) implies is_ancestor(m, q, x) by {
            lemma_ancestor_trans(m, q, p, x);
        }
        lemma_count_monotone(m, p, q, p, n);
        if a >= b {
            if a == b {
                assert(!is_ancestor(m, p, p));
            } else {
                assert(anc_count(m, c[b] as int) <= anc_count(m, c[a] as int));
            }
        }
    }
}

/// Canonical chains depend on ids and parent ids alone.
pub proof fn lemma_same_graph_chains(a: Seq<MempoolCsvRow>, b: Seq<MempoolCsvRow>)
    requires
        same_graph(a, b),
    ensures
        forall|i: int| chain_of(a, i) == chain_of(b, i),
{
    lemma_same_graph_ancestors(a, b);
    assert forall|l: int, k: int| level_below(a, l, k) == level_below(b, l, k) by {
        lemma_same_levels(a, b, l, k);
    }
    assert forall|l: int| topo_upto(a, l) == topo_upto(b, l) by {
        lemma_same_topo(a, b, l);
    }
    assert forall|i: int| chain_of(a, i) == chain_of(b, i) by {
        lemma_same_keep(a, b, i, topo(a));
    }
}

proof fn lemma_same_levels(a: Seq<MempoolCsvRow>, b: Seq<MempoolCsvRow>, l: int, k: int)
    requires
        forall|i: int| ancestors(a, i) == ancestors(b, i),
    ensures
        level_below(a, l, k) == level_below(b, l, k),
    decreases k,
{
    if k > 0 {
        lemma_same_levels(a, b, l, k - 1);
    }
}

proof fn lemma_same_topo(a: Seq<MempoolCsvRow>, b: Seq<MempoolCsvRow>, l: int)
    requires
        a.len() == b.len(),
        forall|l: int, k: int| level_below(a, l, k) == level_below(b, l, k),
    ensures
        topo_upto(a, l) == topo_upto(b, l),
    decreases l,
{
    if l > 0 {
        lemma_same_topo(a, b, l - 1);
    }
}

proof fn lemma_same_keep(a: Seq<MempoolCsvRow>, b: Seq<MempoolCsvRow>, i: int, s: Seq<usize>)
    requires
        forall|i: int, p: int| is_ancestor(a, i, p) == is_ancestor(b, i, p),
    ensures
        keep_ancestors(a, i, s) == keep_ancestors(b, i, s),
    decreases s.len(),
{
    if s.len() > 0 {
        lemma_same_keep(a, b, i, s.drop_last());
    }
}

/// `topo` names candidates of the store only.
pub proof fn lemma_topo_in_range(m: Seq<MempoolCsvRow>)
    requires
        m.len() <= usize::MAX,
    ensures
        forall|y: int| 0 <= y < topo(m).len() ==> (#[trigger] topo(m)[y]) < m.len(),
{
    lemma_topo_upto(m, m.len() as int);
}

/// Resolved chains name candidates of the store only.
pub proof fn lemma_resolved_in_range(m: Seq<MempoolCsvRow>)
    requires
        chains_resolved(m),
        m.len() <= usize::MAX,
    ensures
        chains_in_range(m),
{
    lemma_topo_upto(m, m.len() as int);
    assert forall|i: int, y: int|
        0 <= i < m.len() && 0 <= y < m[i].whole_chain_indexes@.len()
            implies (#[trigger] m[i].whole_chain_indexes@[y]) < m.len() by {
        lemma_keep(m, i, topo(m));
        let c = chain_of(m, i);
        assert(c.contains(c[y]));
    }
}

proof fn lemma_reaches_trans(m: Seq<MempoolCsvRow>, i: int, q: int, p: int, d1: nat, d2: nat)
    requires
        reaches(m, i, q, d1),
        reaches(m, q, p, d2),
    ensures
        reaches(m, i, p, d1 + d2 + 1),
    decreases d2,
{
    if d2 == 0 {
        assert(edge(m, q, p));
    } else {
        let r = choose|r: int| reaches(m, q, r, (d2 - 1) as nat) && #[trigger] edge(m, r, p);
        lemma_reaches_trans(m, i, q, r, d1, (d2 - 1) as nat);
        assert(reaches(m, i, r, d1 + d2));
        assert(((d1 + d2 + 1) - 1) as nat == d1 + d2);
    }
}

/// An ancestor of an ancestor is an ancestor.
pub proof fn lemma_ancestor_trans(m: Seq<MempoolCsvRow>, i: int, q: int, p: int)
    requires
        is_ancestor(m, i, q),
        is_ancestor(m, q, p),
    ensures
        is_ancestor(m, i, p),
{
    let d1 = choose|d: nat| reaches(m, i, q, d);
    let d2 = choose|d: nat| reaches(m, q, p, d);
    lemma_reaches_trans(m, i, q, p, d1, d2);
}

/// Sums over a concatenation add up.
pub proof fn lemma_sums_concat(m: Seq<MempoolCsvRow>, a: Seq<usize>, b: Seq<usize>)
    ensures
        sum_fee(m, a + b) == sum_fee(m, a) + sum_fee(m, b),
        sum_weight(m, a + b) == sum_weight(m, a) + sum_weight(m, b),
    decreases b.len(),
{
    if b.len() == 0 {
        assert(a + b =~= a);
    } else {
        lemma_sums_concat(m, a, b.drop_last());
        assert((a + b).drop_last() =~= a + b.drop_last());
    }
}

/// Sums of non-negative own values are non-negative.
pub proof fn lemma_sums_nonneg(m: Seq<MempoolCsvRow>, s: Seq<usize>)
    ensures
        sum_fee(m, s) >= 0,
        sum_weight(m, s) >= 0,
    decreases s.len(),
{
    if s.len() > 0 {
        lemma_sums_nonneg(m, s.drop_last());
    }
}

/// Looks up the handle of the first candidate with id `id`.
pub fn find_txid(mempool: &Vec<MempoolCsvRow>, id: &String) -> (r: Option<usize>)
    ensures
        match r {
            Some(k) => {
                &&& k < mempool.len()
                &&& mempool@[k as int].txid@ == id@
                &&& forall|p: int| 0 <= p < k ==> mempool@[p].txid@ != id@
            },
            None => forall|p: int| 0 <= p < mempool.len() ==> mempool@[p].txid@ != id@,
        },
{
    let mut k: usize = 0;
    while k < mempool.len()
        invariant
            k <= mempool.len(),
            forall|p: int| 0 <= p < k ==> mempool@[p].txid@ != id@,
        decreases mempool.len() - k,
    {
        if mempool[k].txid == *id {
            return Some(k);
        }
        k += 1;
    }
    None
}

} // verus!
