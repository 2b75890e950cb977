use vstd::prelude::*;
use crate::store::{
    MempoolCsvRow, ids_unique, edge, reaches, is_ancestor, has_dangling_parent, ancestors,
    ancestors_below, chains_resolved, find_txid, same_graph, only_chains_changed,
    acyclic, anc_count, level_below, topo_upto, topo, keep_ancestors, chain_of, missing_from, lemma_same_graph_chains, lemma_topo_in_range, lemma_sums_same_values, sum_fee, sum_weight, chains_in_range, only_aggregates_changed,
    bundle_fits_u64, chains_aggregated,
};

verus! {

/// Why a resolution pass over the store was abandoned.
#[derive(Debug, Clone, Copy, PartialEq, Eq, Structural)]
pub enum ResolveError {
    /// The candidate at this handle is its own ancestor.
    CycleDetected(usize),
    /// The candidate at this handle names a parent id that is not in the batch.
    DanglingParentReference(usize),
}

/// Why an aggregation pass over the store was abandoned.
#[derive(Debug, Clone, Copy, PartialEq, Eq, Structural)]
pub enum AggregateError {
    /// The bundle of the candidate at this handle sums past `u64::MAX`.
    SumOverflow(usize),
}

/// What resolution does with a parent id that names no candidate.
#[derive(Debug, Clone, Copy, PartialEq, Eq, Structural)]
pub enum DanglingPolicy {
    /// The edge is dropped and the candidate behaves as if the parent were absent.
    Lenient,
    /// The whole pass fails with `DanglingParentReference`.
    Strict,
}

/// Number of `false` entries.
pub open spec fn count_false(s: Seq<bool>) -> nat
    decreases s.len(),
{
    if s.len() == 0 {
        0
    } else {
        count_false(s.drop_last()) + if s.last() { 0nat } else { 1nat }
    }
}

proof fn lemma_count_false_set(s: Seq<bool>, i: int)
    requires
        0 <= i < s.len(),
        !s[i],
    ensures
        count_false(s.update(i, true)) + 1 == count_false(s),
    decreases s.len(),
{
    let t = s.update(i, true);
    if i == s.len() - 1 {
        assert(t.drop_last() =~= s.drop_last());
    } else {
        lemma_count_false_set(s.drop_last(), i);
        assert(t.drop_last() =~= s.drop_last().update(i, true));
    }
}

proof fn lemma_count_false_all(n: nat)
    ensures
        count_false(Seq::new(n, |x: int| false)) == n,
    decreases n,
{
    if n > 0 {
        lemma_count_false_all((n - 1) as nat);
        assert(Seq::new(n, |x: int| false).drop_last() =~= Seq::new((n - 1) as nat, |x: int| false));
    }
}

/// State of the ancestor walk from candidate `i`: `mask` marks what has been
/// found, `queue` lists it once each in the order it was found.
spec fn walk_inv(m: Seq<MempoolCsvRow>, i: int, mask: Seq<bool>, queue: Seq<usize>) -> bool {
    &&& mask.len() == m.len()
    &&& queue.len() + count_false(mask) == m.len()
    &&& forall|y: int| 0 <= y < queue.len() ==> queue[y] < m.len() && mask[#[trigger] queue[y] as int]
    &&& forall|x: int|
        0 <= x < m.len() && #[trigger] mask[x] ==> exists|y: int| 0 <= y < queue.len() && queue[y] == x
    &&& forall|x: int| 0 <= x < m.len() && #[trigger] mask[x] ==> is_ancestor(m, i, x)
}

proof fn lemma_parent_of_ancestor(m: Seq<MempoolCsvRow>, i: int, c: int, p: int)
    requires
        c == i || is_ancestor(m, i, c),
        edge(m, c, p),
    ensures
        is_ancestor(m, i, p),
{
    if c == i {
        assert(reaches(m, i, p, 0));
    } else {
        let d = choose|d: nat| reaches(m, i, c, d);
        assert(reaches(m, i, p, d + 1));
    }
}

/// `table[c]` lists the handles of the direct parents of candidate `c`.
pub open spec fn parents_listed(m: Seq<MempoolCsvRow>, table: Seq<Vec<usize>>) -> bool {
    &&& table.len() == m.len()
    &&& forall|c: int, y: int| 0 <= c < m.len() && 0 <= y < table[c]@.len() ==> (#[trigger] table[c]@[y]) < m.len()
    &&& forall|c: int, p: usize| 0 <= c < m.len() && p < m.len()
        ==> (#[trigger] table[c]@.contains(p) <==> edge(m, c, p as int))
}

/// The parent handles of every candidate, each id looked up once.
fn parent_table(mempool: &Vec<MempoolCsvRow>) -> (table: Vec<Vec<usize>>)
    requires
        ids_unique(mempool@),
    ensures
        parents_listed(mempool@, table@),
{
    let n = mempool.len();
    let mut table: Vec<Vec<usize>> = Vec::new();
    let mut c: usize = 0;
    while c < n
        invariant
            n == mempool.len(),
            ids_unique(mempool@),
            c <= n,
            table@.len() == c,
            forall|x: int, y: int| 0 <= x < c && 0 <= y < table@[x]@.len() ==> (#[trigger] table@[x]@[y]) < n,
            forall|x: int, p: usize| 0 <= x < c && p < n
                ==> (#[trigger] table@[x]@.contains(p) <==> edge(mempool@, x, p as int)),
        decreases n - c,
    {
        let mut row: Vec<usize> = Vec::new();
        let mut j: usize = 0;
        while j < mempool[c].parent_txids.len()
            invariant
                n == mempool.len(),
                ids_unique(mempool@),
                c < n,
                j <= mempool@[c as int].parent_txids.len(),
                table@.len() == c,
                forall|y: int| 0 <= y < row@.len() ==> (#[trigger] row@[y]) < n,
                forall|p: usize| p < n ==> (#[trigger] row@.contains(p) <==> exists|jj: int|
                    0 <= jj < j && mempool@[c as int].parent_txids[jj]@.len() > 0
                        && #[trigger] mempool@[c as int].parent_txids[jj]@ == mempool@[p as int].txid@),
            decreases mempool[c as int].parent_txids.len() - j,
        {
            let id = &mempool[c].parent_txids[j];
            let ghost r0 = row@;
            if !id.as_str().is_empty() {
                match find_txid(mempool, id) {
                    Some(p) => {
                        row.push(p);
                        proof {
                            assert forall|q: usize| q < n implies (#[trigger] row@.contains(q) <==> exists|jj: int|
                                0 <= jj < j + 1 && mempool@[c as int].parent_txids[jj]@.len() > 0
                                    && #[trigger] mempool@[c as int].parent_txids[jj]@ == mempool@[q as int].txid@) by {
                                if row@.contains(q) {
                                    let y = choose|y: int| 0 <= y < row@.len() && row@[y] == q;
                                    if y < r0.len() {
                                        assert(r0.contains(q));
                                    } else {
                                        assert(mempool@[c as int].parent_txids[j as int]@ == mempool@[q as int].txid@);
                                    }
                                }
                                if exists|jj: int| 0 <= jj < j + 1 && mempool@[c as int].parent_txids[jj]@.len() > 0
                                    && #[trigger] mempool@[c as int].parent_txids[jj]@ == mempool@[q as int].txid@ {
                                    let jj = choose|jj: int| 0 <= jj < j + 1 && mempool@[c as int].parent_txids[jj]@.len() > 0
                                        && #[trigger] mempool@[c as int].parent_txids[jj]@ == mempool@[q as int].txid@;
                                    if jj == j {
                                        assert(q == p);
                                        assert(row@[r0.len() as int] == p);
                                    } else {
                                        assert(r0.contains(q));
                                        let y = choose|y: int| 0 <= y < r0.len() && r0[y] == q;
                                        assert(row@[y] == q);
                                    }
                                }
                            }
                        }
                    },
                    None => {
                        proof {
                            assert forall|q: usize| q < n implies (#[trigger] row@.contains(q) <==> exists|jj: int|
                                0 <= jj < j + 1 && mempool@[c as int].parent_txids[jj]@.len() > 0
                                    && #[trigger] mempool@[c as int].parent_txids[jj]@ == mempool@[q as int].txid@) by {
                                if exists|jj: int| 0 <= jj < j + 1 && mempool@[c as int].parent_txids[jj]@.len() > 0
                                    && #[trigger] mempool@[c as int].parent_txids[jj]@ == mempool@[q as int].txid@ {
                                    let jj = choose|jj: int| 0 <= jj < j + 1 && mempool@[c as int].parent_txids[jj]@.len() > 0
                                        && #[trigger] mempool@[c as int].parent_txids[jj]@ == mempool@[q as int].txid@;
                                    assert(jj != j);
                                }
                            }
                        }
                    },
                }
            } else {
                proof {
                    assert forall|q: usize| q < n implies (#[trigger] row@.contains(q) <==> exists|jj: int|
                        0 <= jj < j + 1 && mempool@[c as int].parent_txids[jj]@.len() > 0
                            && #[trigger] mempool@[c as int].parent_txids[jj]@ == mempool@[q as int].txid@) by {
                        if exists|jj: int| 0 <= jj < j + 1 && mempool@[c as int].parent_txids[jj]@.len() > 0
                            && #[trigger] mempool@[c as int].parent_txids[jj]@ == mempool@[q as int].txid@ {
                            let jj = choose|jj: int| 0 <= jj < j + 1 && mempool@[c as int].parent_txids[jj]@.len() > 0
                                && #[trigger] mempool@[c as int].parent_txids[jj]@ == mempool@[q as int].txid@;
                            assert(jj != j);
                        }
                    }
                }
            }
            j += 1;
        }
        let ghost t0 = table@;
        table.push(row);
        proof {
            assert forall|x: int, p: usize| 0 <= x < c + 1 && p < n
                implies (#[trigger] table@[x]@.contains(p) <==> edge(mempool@, x, p as int)) by {
                if x == c {
                    assert(table@[x] == row);
                    if edge(mempool@, x, p as int) {
                        let jj = choose|jj: int| 0 <= jj < mempool@[x].parent_txids.len()
                            && mempool@[x].parent_txids[jj]@.len() > 0
                            && #[trigger] mempool@[x].parent_txids[jj]@ == mempool@[p as int].txid@;
                        assert(row@.contains(p));
                    }
                    if row@.contains(p) {
                        let jj = choose|jj: int| 0 <= jj < j && mempool@[c as int].parent_txids[jj]@.len() > 0
                            && #[trigger] mempool@[c as int].parent_txids[jj]@ == mempool@[p as int].txid@;
                        assert(edge(mempool@, x, p as int));
                    }
                } else {
                    assert(table@[x] == t0[x]);
                }
            }
            assert forall|x: int, y: int| 0 <= x < c + 1 && 0 <= y < table@[x]@.len()
                implies (#[trigger] table@[x]@[y]) < n by {
                if x < c {
                    assert(table@[x] == t0[x]);
                }
            }
        }
        c += 1;
    }
    table
}

/// Marks every parent of `c` that the walk has not found yet.
fn mark_parents(
    table: &Vec<Vec<usize>>,
    m: Ghost<Seq<MempoolCsvRow>>,
    i: Ghost<int>,
    c: usize,
    mask: &mut Vec<bool>,
    queue: &mut Vec<usize>,
)
    requires
        parents_listed(m@, table@),
        c < m@.len(),
        c == i@ || is_ancestor(m@, i@, c as int),
        walk_inv(m@, i@, old(mask)@, old(queue)@),
    ensures
        walk_inv(m@, i@, final(mask)@, final(queue)@),
        final(queue)@.len() >= old(queue)@.len(),
        final(queue)@.subrange(0, old(queue)@.len() as int) == old(queue)@,
        forall|p: int| edge(m@, c as int, p) ==> final(mask)@[p],
        forall|x: int| 0 <= x < m@.len() && old(mask)@[x] ==> final(mask)@[x],
{
    let n = table.len();
    let mut y: usize = 0;
    while y < table[c].len()
        invariant
            n == m@.len(),
            parents_listed(m@, table@),
            c < n,
            c == i@ || is_ancestor(m@, i@, c as int),
            walk_inv(m@, i@, mask@, queue@),
            queue@.len() >= old(queue)@.len(),
            queue@.subrange(0, old(queue)@.len() as int) == old(queue)@,
            forall|yy: int| 0 <= yy < y ==> mask@[#[trigger] table@[c as int]@[yy] as int],
        decreases table@[c as int]@.len() - y,
    {
        let p = table[c][y];
        proof {
            assert(table@[c as int]@.contains(p));
            assert(edge(m@, c as int, p as int));
        }
        if !mask[p] {
            proof {
                lemma_parent_of_ancestor(m@, i@, c as int, p as int);
                lemma_count_false_set(mask@, p as int);
            }
            let ghost q0 = queue@;
            let ghost k0 = mask@;
            mask.set(p, true);
            queue.push(p);
            proof {
                assert(queue@.subrange(0, old(queue)@.len() as int)
                    =~= q0.subrange(0, old(queue)@.len() as int));
                assert forall|x: int| 0 <= x < n && #[trigger] mask@[x] implies exists|z: int|
                    0 <= z < queue@.len() && queue@[z] == x by {
                    if x == p {
                        assert(queue@[q0.len() as int] == x);
                    } else {
                        assert(k0[x]);
                        let z = choose|z: int| 0 <= z < q0.len() && q0[z] == x;
                        assert(queue@[z] == x);
                    }
                }
            }
        }
        y += 1;
    }
    proof {
        assert forall|p: int| edge(m@, c as int, p) implies mask@[p] by {
            assert(table@[c as int]@.contains(p as usize));
            let yy = choose|yy: int| 0 <= yy < table@[c as int]@.len() && table@[c as int]@[yy] == p as usize;
        }
        assert forall|x: int| 0 <= x < n && old(mask)@[x] implies mask@[x] by {
            let z = choose|z: int| 0 <= z < old(queue)@.len() && old(queue)@[z] == x;
            assert(queue@.subrange(0, old(queue)@.len() as int)[z] == x);
            assert(queue@[z] == x);
        }
    }
}

proof fn lemma_closed_walk(m: Seq<MempoolCsvRow>, i: int, mask: Seq<bool>, p: int, d: nat)
    requires
        mask.len() == m.len(),
        forall|q: int| edge(m, i, q) ==> mask[q],
        forall|x: int, q: int| 0 <= x < m.len() && mask[x] && #[trigger] edge(m, x, q) ==> mask[q],
        reaches(m, i, p, d),
    ensures
        mask[p],
    decreases d,
{
    if d > 0 {
        let q = choose|q: int| reaches(m, i, q, (d - 1) as nat) && #[trigger] edge(m, q, p);
        lemma_closed_walk(m, i, mask, q, (d - 1) as nat);
    }
}

/// Marks the ancestors of candidate `i`.
fn walk(table: &Vec<Vec<usize>>, mempool: Ghost<Seq<MempoolCsvRow>>, i: usize) -> (mask: Vec<bool>)
    requires
        parents_listed(mempool@, table@),
        i < mempool@.len(),
    ensures
        mask@.len() == mempool@.len(),
        forall|x: int| 0 <= x < mempool@.len() ==> mask@[x] == is_ancestor(mempool@, i as int, x),
{
    let n = table.len();
    let mut mask: Vec<bool> = vec![false; n];
    let mut queue: Vec<usize> = Vec::new();
    proof {
        assert(mask@ =~= Seq::new(n as nat, |x: int| false));
        lemma_count_false_all(n as nat);
    }
    mark_parents(table, mempool, Ghost(i as int), i, &mut mask, &mut queue);
    let mut k: usize = 0;
    while k < queue.len()
        invariant
            n == mempool@.len(),
            parents_listed(mempool@, table@),
            i < n,
            walk_inv(mempool@, i as int, mask@, queue@),
            k <= queue.len(),
            forall|q: int| edge(mempool@, i as int, q) ==> mask@[q],
            forall|y: int, q: int|
                0 <= y < k && #[trigger] edge(mempool@, queue@[y] as int, q) ==> mask@[q],
        decreases n - k,
    {
        let c = queue[k];
        let ghost q0 = queue@;
        mark_parents(table, mempool, Ghost(i as int), c, &mut mask, &mut queue);
        proof {
            assert forall|y: int, q: int|
                0 <= y < k + 1 && #[trigger] edge(mempool@, queue@[y] as int, q) implies mask@[q] by {
                assert(queue@.subrange(0, q0.len() as int)[y] == q0[y]);
            }
        }
        k += 1;
    }
    proof {
        assert forall|x: int| 0 <= x < n implies mask@[x] == is_ancestor(mempool@, i as int, x) by {
            if is_ancestor(mempool@, i as int, x) {
                assert forall|z: int, q: int|
                    0 <= z < n && mask@[z] && #[trigger] edge(mempool@, z, q) implies mask@[q] by {
                    let y = choose|y: int| 0 <= y < queue@.len() && queue@[y] == z;
                    assert(edge(mempool@, queue@[y] as int, q));
                }
                let d = choose|d: nat| reaches(mempool@, i as int, x, d);
                lemma_closed_walk(mempool@, i as int, mask@, x, d);
            }
        }
    }
    mask
}

/// The handles of the ancestors of candidate `i`, ascending and each once.
fn ancestors_ascending(table: &Vec<Vec<usize>>, mempool: Ghost<Seq<MempoolCsvRow>>, i: usize) -> (r: Vec<usize>)
    requires
        parents_listed(mempool@, table@),
        i < mempool@.len(),
    ensures
        r@ == ancestors(mempool@, i as int),
{
    let mask = walk(table, mempool, i);
    let n = table.len();
    let mut out: Vec<usize> = Vec::new();
    let mut x: usize = 0;
    while x < n
        invariant
            n == mempool@.len(),
            x <= n,
            mask@.len() == n,
            forall|y: int| 0 <= y < n ==> mask@[y] == is_ancestor(mempool@, i as int, y),
            out@ == ancestors_below(mempool@, i as int, x as int),
        decreases n - x,
    {
        if mask[x] {
            out.push(x);
        }
        x += 1;
    }
    out
}

/// Every handle, each ancestor before its descendants: by number of
/// ancestors, then by handle.
fn topo_order(table: &Vec<Vec<usize>>, mempool: Ghost<Seq<MempoolCsvRow>>) -> (r: Vec<usize>)
    requires
        parents_listed(mempool@, table@),
    ensures
        r@ == topo(mempool@),
{
    let n = table.len();
    let mut cnt: Vec<usize> = Vec::new();
    let mut x: usize = 0;
    while x < n
        invariant
            n == mempool@.len(),
            parents_listed(mempool@, table@),
            x <= n,
            cnt@.len() == x,
            forall|y: int| 0 <= y < x ==> (#[trigger] cnt@[y]) == anc_count(mempool@, y),
        decreases n - x,
    {
        let ch = ancestors_ascending(table, mempool, x);
        cnt.push(ch.len());
        x += 1;
    }
    let mut out: Vec<usize> = Vec::new();
    let mut l: usize = 0;
    while l < n
        invariant
            n == mempool@.len(),
            l <= n,
            cnt@.len() == n,
            forall|y: int| 0 <= y < n ==> (#[trigger] cnt@[y]) == anc_count(mempool@, y),
            out@ == topo_upto(mempool@, l as int),
        decreases n - l,
    {
        let mut x: usize = 0;
        while x < n
            invariant
                n == mempool@.len(),
                l < n,
                x <= n,
                cnt@.len() == n,
                forall|y: int| 0 <= y < n ==> (#[trigger] cnt@[y]) == anc_count(mempool@, y),
                out@ == topo_upto(mempool@, l as int) + level_below(mempool@, l as int, x as int),
            decreases n - x,
        {
            if cnt[x] == l {
                out.push(x);
            }
            x += 1;
            proof {
                if cnt@[x - 1] == l {
                    assert(out@ =~= topo_upto(mempool@, l as int) + level_below(mempool@, l as int, x as int));
                } else {
                    assert(out@ =~= topo_upto(mempool@, l as int) + level_below(mempool@, l as int, x as int));
                }
            }
        }
        l += 1;
    }
    out
}

/// The ancestors of candidate `i` in the order of `order`.
fn chain_in_order(
    table: &Vec<Vec<usize>>,
    mempool: Ghost<Seq<MempoolCsvRow>>,
    order: &Vec<usize>,
    i: usize,
) -> (r: Vec<usize>)
    requires
        parents_listed(mempool@, table@),
        order@ == topo(mempool@),
        i < mempool@.len(),
    ensures
        r@ == chain_of(mempool@, i as int),
{
    let mask = walk(table, mempool, i);
    proof {
        assert(table@.len() == table.len());
        lemma_topo_in_range(mempool@);
    }
    let mut out: Vec<usize> = Vec::new();
    let mut k: usize = 0;
    while k < order.len()
        invariant
            mask@.len() == mempool@.len(),
            forall|y: int| 0 <= y < mempool@.len() ==> mask@[y] == is_ancestor(mempool@, i as int, y),
            forall|y: int| 0 <= y < order@.len() ==> (#[trigger] order@[y]) < mempool@.len(),
            k <= order@.len(),
            out@ == keep_ancestors(mempool@, i as int, order@.subrange(0, k as int)),
        decreases order@.len() - k,
    {
        let t = order[k];
        proof {
            assert(order@.subrange(0, k + 1).drop_last() =~= order@.subrange(0, k as int));
        }
        if mask[t] {
            out.push(t);
        }
        k += 1;
    }
    proof {
        assert(order@.subrange(0, order@.len() as int) =~= order@);
    }
    out
}

/// The ancestors of candidate `current`, each once and each before its own
/// descendants.
pub fn get_all_parents2(mempool: &Vec<MempoolCsvRow>, current: usize) -> (r: Vec<usize>)
    requires
        ids_unique(mempool@),
        acyclic(mempool@),
        current < mempool.len(),
    ensures
        r@ == chain_of(mempool@, current as int),
{
    let table = parent_table(mempool);
    let order = topo_order(&table, Ghost(mempool@));
    chain_in_order(&table, Ghost(mempool@), &order, current)
}

/// Whether `v` holds `x`.
fn holds_handle(v: &Vec<usize>, x: usize) -> (r: bool)
    ensures
        r == v@.contains(x),
{
    let mut y: usize = 0;
    while y < v.len()
        invariant
            y <= v@.len(),
            forall|z: int| 0 <= z < y ==> v@[z] != x,
        decreases v@.len() - y,
    {
        if v[y] == x {
            return true;
        }
        y += 1;
    }
    false
}

/// Completes the chain of candidate `index`: its current entries stay, in
/// place, and every ancestor not yet among them follows, in canonical order.
/// Nothing else changes.
pub fn get_all_parents(mempool: &mut Vec<MempoolCsvRow>, index: usize)
    requires
        ids_unique(old(mempool)@),
        acyclic(old(mempool)@),
        index < old(mempool).len(),
    ensures
        only_chains_changed(old(mempool)@, final(mempool)@),
        final(mempool)@[index as int].whole_chain_indexes@ == old(mempool)@[index as int].whole_chain_indexes@
            + missing_from(chain_of(old(mempool)@, index as int), old(mempool)@[index as int].whole_chain_indexes@),
        forall|x: int| 0 <= x < old(mempool).len() && x != index
            ==> (#[trigger] final(mempool)@[x]).whole_chain_indexes == old(mempool)@[x].whole_chain_indexes,
{
    let ch = get_all_parents2(mempool, index);
    let ghost prev = mempool@[index as int].whole_chain_indexes@;
    let mut out: Vec<usize> = Vec::new();
    let mut y: usize = 0;
    while y < mempool[index].whole_chain_indexes.len()
        invariant
            index < mempool.len(),
            prev == mempool@[index as int].whole_chain_indexes@,
            y <= prev.len(),
            out@ == prev.subrange(0, y as int),
        decreases prev.len() - y,
    {
        out.push(mempool[index].whole_chain_indexes[y]);
        proof {
            assert(out@ =~= prev.subrange(0, y + 1));
        }
        y += 1;
    }
    proof {
        assert(prev.subrange(0, prev.len() as int) =~= prev);
    }
    let mut k: usize = 0;
    while k < ch.len()
        invariant
            index < mempool.len(),
            prev == mempool@[index as int].whole_chain_indexes@,
            k <= ch@.len(),
            out@ == prev + missing_from(ch@.subrange(0, k as int), prev),
        decreases ch@.len() - k,
    {
        let x = ch[k];
        proof {
            assert(ch@.subrange(0, k + 1).drop_last() =~= ch@.subrange(0, k as int));
        }
        if !holds_handle(&mempool[index].whole_chain_indexes, x) {
            out.push(x);
            proof {
                assert(out@ =~= prev + missing_from(ch@.subrange(0, k + 1), prev));
            }
        }
        k += 1;
    }
    proof {
        assert(ch@.subrange(0, ch@.len() as int) =~= ch@);
    }
    mempool[index].whole_chain_indexes = out;
}

/// Whether a non-empty parent id of candidate `c` names no candidate.
fn dangling_parent(mempool: &Vec<MempoolCsvRow>, c: usize) -> (r: bool)
    requires
        ids_unique(mempool@),
        c < mempool.len(),
    ensures
        r == has_dangling_parent(mempool@, c as int),
{
    let mut j: usize = 0;
    while j < mempool[c].parent_txids.len()
        invariant
            ids_unique(mempool@),
            c < mempool.len(),
            forall|jj: int| 0 <= jj < j ==> !(#[trigger] mempool@[c as int].parent_txids[jj]@.len() > 0
                && forall|p: int| 0 <= p < mempool.len() ==> mempool@[p].txid@ != mempool@[c as int].parent_txids[jj]@),
        decreases mempool[c as int].parent_txids.len() - j,
    {
        let id = &mempool[c].parent_txids[j];
        if !id.as_str().is_empty() {
            if find_txid(mempool, id).is_none() {
                return true;
            }
        }
        j += 1;
    }
    false
}

/// Fills every candidate's chain with its ancestors, each before its descendants.
///
/// Under `Strict`, a parent id that names no candidate fails the pass first;
/// then a candidate that is its own ancestor fails it. A failed pass leaves the
/// store as it was.
pub fn resolve(mempool: &mut Vec<MempoolCsvRow>, policy: DanglingPolicy) -> (r: Result<(), ResolveError>)
    requires
        ids_unique(old(mempool)@),
    ensures
        only_chains_changed(old(mempool)@, final(mempool)@),
        match r {
            Ok(()) => {
                &&& chains_resolved(final(mempool)@)
                &&& forall|c: int| 0 <= c < old(mempool)@.len() ==> !is_ancestor(old(mempool)@, c, c)
                &&& policy == DanglingPolicy::Strict ==> forall|c: int|
                    0 <= c < old(mempool)@.len() ==> !has_dangling_parent(old(mempool)@, c)
            },
            Err(ResolveError::DanglingParentReference(c)) => {
                &&& policy == DanglingPolicy::Strict
                &&& c < old(mempool)@.len()
                &&& has_dangling_parent(old(mempool)@, c as int)
                &&& final(mempool)@ == old(mempool)@
            },
            Err(ResolveError::CycleDetected(c)) => {
                &&& c < old(mempool)@.len()
                &&& is_ancestor(old(mempool)@, c as int, c as int)
                &&& policy == DanglingPolicy::Strict ==> forall|c: int|
                    0 <= c < old(mempool)@.len() ==> !has_dangling_parent(old(mempool)@, c)
                &&& final(mempool)@ == old(mempool)@
            },
        },
{
    let n = mempool.len();
    if let DanglingPolicy::Strict = policy {
        let mut c: usize = 0;
        while c < n
            invariant
                n == mempool.len(),
                mempool@ == old(mempool)@,
                policy == DanglingPolicy::Strict,
                ids_unique(mempool@),
                forall|x: int| 0 <= x < c ==> !has_dangling_parent(mempool@, x),
            decreases n - c,
        {
            if dangling_parent(mempool, c) {
                return Err(ResolveError::DanglingParentReference(c));
            }
            c += 1;
        }
    }
    let table = parent_table(mempool);
    let ghost m0 = mempool@;
    let mut c: usize = 0;
    while c < n
        invariant
            n == mempool.len(),
            mempool@ == old(mempool)@,
            m0 == old(mempool)@,
            parents_listed(m0, table@),
            ids_unique(mempool@),
            policy == DanglingPolicy::Strict ==> forall|x: int|
                0 <= x < n ==> !has_dangling_parent(mempool@, x),
            forall|x: int| 0 <= x < c ==> !is_ancestor(mempool@, x, x),
        decreases n - c,
    {
        let mask = walk(&table, Ghost(m0), c);
        if mask[c] {
            return Err(ResolveError::CycleDetected(c));
        }
        c += 1;
    }
    let order = topo_order(&table, Ghost(m0));
    let mut i: usize = 0;
    while i < n
        invariant
            n == mempool.len(),
            parents_listed(m0, table@),
            order@ == topo(m0),
            ids_unique(m0),
            only_chains_changed(m0, mempool@),
            forall|x: int| 0 <= x < i ==> (#[trigger] mempool@[x]).whole_chain_indexes@ == chain_of(m0, x),
        decreases n - i,
    {
        let ch = chain_in_order(&table, Ghost(m0), &order, i);
        mempool[i].whole_chain_indexes = ch;
        i += 1;
    }
    proof {
        assert(same_graph(m0, mempool@));
        lemma_same_graph_chains(m0, mempool@);
    }
    Ok(())
}

proof fn lemma_sums_prefix(m: Seq<MempoolCsvRow>, s: Seq<usize>, k: int)
    requires
        0 <= k <= s.len(),
    ensures
        sum_fee(m, s.subrange(0, k)) <= sum_fee(m, s),
        sum_weight(m, s.subrange(0, k)) <= sum_weight(m, s),
    decreases s.len(),
{
    if k < s.len() {
        lemma_sums_prefix(m, s.drop_last(), k);
        assert(s.drop_last().subrange(0, k) =~= s.subrange(0, k));
    } else {
        assert(s.subrange(0, k) =~= s);
    }
}

/// Fee and weight of the bundle of candidate `i`, or `None` where either
/// exceeds `u64::MAX`.
fn bundle_sums(mempool: &Vec<MempoolCsvRow>, i: usize) -> (r: Option<(u64, u64)>)
    requires
        i < mempool.len(),
        chains_in_range(mempool@),
    ensures
        match r {
            Some((f, w)) => {
                &&& f == mempool@[i as int].fee + sum_fee(mempool@, mempool@[i as int].whole_chain_indexes@)
                &&& w == mempool@[i as int].weight + sum_weight(mempool@, mempool@[i as int].whole_chain_indexes@)
            },
            None => !bundle_fits_u64(mempool@, i as int),
        },
{
    let ghost ch = mempool@[i as int].whole_chain_indexes@;
    let mut f: u64 = mempool[i].fee;
    let mut w: u64 = mempool[i].weight;
    let mut y: usize = 0;
    while y < mempool[i].whole_chain_indexes.len()
        invariant
            i < mempool.len(),
            chains_in_range(mempool@),
            ch == mempool@[i as int].whole_chain_indexes@,
            y <= ch.len(),
            f == mempool@[i as int].fee + sum_fee(mempool@, ch.subrange(0, y as int)),
            w == mempool@[i as int].weight + sum_weight(mempool@, ch.subrange(0, y as int)),
        decreases ch.len() - y,
    {
        let p = mempool[i].whole_chain_indexes[y];
        proof {
            assert(ch[y as int] == p);
            assert(ch.subrange(0, y + 1).drop_last() =~= ch.subrange(0, y as int));
            lemma_sums_prefix(mempool@, ch, y + 1);
        }
        if f > u64::MAX - mempool[p].fee || w > u64::MAX - mempool[p].weight {
            return None;
        }
        f = f + mempool[p].fee;
        w = w + mempool[p].weight;
        y += 1;
    }
    proof {
        assert(ch.subrange(0, ch.len() as int) =~= ch);
    }
    Some((f, w))
}

/// Sets every candidate's chain fee and chain weight to the totals of its
/// bundle. A failed pass leaves the store as it was.
pub fn aggregate(mempool: &mut Vec<MempoolCsvRow>) -> (r: Result<(), AggregateError>)
    requires
        chains_in_range(old(mempool)@),
    ensures
        only_aggregates_changed(old(mempool)@, final(mempool)@),
        match r {
            Ok(()) => chains_aggregated(final(mempool)@),
            Err(AggregateError::SumOverflow(i)) => {
                &&& i < old(mempool)@.len()
                &&& !bundle_fits_u64(old(mempool)@, i as int)
                &&& final(mempool)@ == old(mempool)@
            },
        },
{
    let n = mempool.len();
    let mut sums: Vec<(u64, u64)> = Vec::new();
    let mut i: usize = 0;
    while i < n
        invariant
            n == mempool.len(),
            mempool@ == old(mempool)@,
            chains_in_range(mempool@),
            i <= n,
            i == sums.len(),
            forall|x: int| 0 <= x < i ==> {
                &&& (#[trigger] sums@[x]).0 == mempool@[x].fee + sum_fee(mempool@, mempool@[x].whole_chain_indexes@)
                &&& sums@[x].1 == mempool@[x].weight + sum_weight(mempool@, mempool@[x].whole_chain_indexes@)
            },
        decreases n - i,
    {
        match bundle_sums(mempool, i) {
            Some(fw) => sums.push(fw),
            None => return Err(AggregateError::SumOverflow(i)),
        }
        i += 1;
    }
    let ghost m0 = mempool@;
    let mut i: usize = 0;
    while i < n
        invariant
            n == mempool.len(),
            n == sums.len(),
            m0 == old(mempool)@,
            only_aggregates_changed(m0, mempool@),
            forall|x: int| 0 <= x < n ==> {
                &&& (#[trigger] sums@[x]).0 == m0[x].fee + sum_fee(m0, m0[x].whole_chain_indexes@)
                &&& sums@[x].1 == m0[x].weight + sum_weight(m0, m0[x].whole_chain_indexes@)
            },
            forall|x: int| 0 <= x < i ==> {
                &&& (#[trigger] mempool@[x]).chain_fee == sums@[x].0
                &&& mempool@[x].chain_weight == sums@[x].1
            },
        decreases n - i,
    {
        let (f, w) = sums[i];
        mempool[i].chain_fee = f;
        mempool[i].chain_weight = w;
        i += 1;
    }
    proof {
        assert forall|x: int| 0 <= x < n implies {
            &&& (#[trigger] mempool@[x]).chain_fee == mempool@[x].fee + sum_fee(mempool@, mempool@[x].whole_chain_indexes@)
            &&& mempool@[x].chain_weight == mempool@[x].weight + sum_weight(mempool@, mempool@[x].whole_chain_indexes@)
        } by {
            assert forall|k: int| 0 <= k < n implies (#[trigger] m0[k]).fee == mempool@[k].fee
                && m0[k].weight == mempool@[k].weight by {}
            lemma_sums_same_values(m0, mempool@, m0[x].whole_chain_indexes@);
        }
    }
    Ok(())
}

} // verus!
