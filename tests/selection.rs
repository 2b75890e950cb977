use bitcoin_block_builder::chain::{
    aggregate, get_all_parents, get_all_parents2, resolve, AggregateError, DanglingPolicy, ResolveError,
};
use bitcoin_block_builder::feerate;
use bitcoin_block_builder::knapsack;
use bitcoin_block_builder::select::check_chain_not_included;
use bitcoin_block_builder::store::{find_txid, MempoolCsvRow};

fn row(id: &str, fee: u64, weight: u64, parents: &[&str]) -> MempoolCsvRow {
    let parent_txids: Vec<String> = if parents.is_empty() {
        vec![String::new()]
    } else {
        parents.iter().map(|p| p.to_string()).collect()
    };
    MempoolCsvRow {
        txid: id.to_string(),
        fee,
        weight,
        parent_txids,
        whole_chain_indexes: Vec::new(),
        already_included: false,
        chain_fee: 0,
        chain_weight: 0,
    }
}

fn prepared(mut m: Vec<MempoolCsvRow>) -> Vec<MempoolCsvRow> {
    resolve(&mut m, DanglingPolicy::Lenient).unwrap();
    aggregate(&mut m).unwrap();
    m
}

fn abc() -> Vec<MempoolCsvRow> {
    vec![row("A", 10, 100, &[]), row("B", 5, 50, &["A"]), row("C", 100, 1000, &[])]
}

#[test]
fn find_txid_locates_ids() {
    let m = abc();
    assert_eq!(find_txid(&m, &"B".to_string()), Some(1));
    assert_eq!(find_txid(&m, &"Z".to_string()), None);
}

#[test]
fn chains_are_transitive_and_deduplicated() {
    // D has two paths to A: through B and through C.
    let mut m = vec![
        row("A", 1, 10, &[]),
        row("B", 2, 20, &["A"]),
        row("C", 3, 30, &["A"]),
        row("D", 4, 40, &["B", "C"]),
    ];
    assert_eq!(get_all_parents2(&m, 3), vec![0, 1, 2]);
    assert_eq!(get_all_parents2(&m, 0), Vec::<usize>::new());
    get_all_parents(&mut m, 3);
    assert_eq!(m[3].whole_chain_indexes, vec![0, 1, 2]);
    // Existing entries stay in front; only missing ancestors are appended.
    m[2].whole_chain_indexes = vec![0];
    get_all_parents(&mut m, 2);
    assert_eq!(m[2].whole_chain_indexes, vec![0]);
    m[2].whole_chain_indexes = Vec::new();
    m[3].whole_chain_indexes = vec![2];
    get_all_parents(&mut m, 3);
    assert_eq!(m[3].whole_chain_indexes, vec![2, 0, 1]);
    m[3].whole_chain_indexes = Vec::new();
    assert!(m[1].whole_chain_indexes.is_empty());
    let m = prepared(m);
    assert_eq!(m[3].chain_fee, 10);
    assert_eq!(m[3].chain_weight, 100);
    assert_eq!(m[1].chain_fee, 3);
    assert_eq!(m[1].chain_weight, 30);
    for r in &m {
        assert!(r.chain_fee >= r.fee && r.chain_weight >= r.weight);
    }
    for (i, r) in m.iter().enumerate() {
        assert!(!r.whole_chain_indexes.contains(&i));
    }
}

#[test]
fn resolve_twice_gives_same_store() {
    let mut m = prepared(vec![row("A", 1, 10, &[]), row("B", 2, 20, &["A"]), row("C", 3, 30, &["B"])]);
    let before: Vec<(Vec<usize>, u64, u64)> =
        m.iter().map(|r| (r.whole_chain_indexes.clone(), r.chain_fee, r.chain_weight)).collect();
    resolve(&mut m, DanglingPolicy::Lenient).unwrap();
    aggregate(&mut m).unwrap();
    let after: Vec<(Vec<usize>, u64, u64)> =
        m.iter().map(|r| (r.whole_chain_indexes.clone(), r.chain_fee, r.chain_weight)).collect();
    assert_eq!(before, after);
    assert_eq!(after[2], (vec![0, 1], 6, 60));
}

#[test]
fn cycle_is_detected() {
    let mut m = vec![row("A", 1, 10, &["B"]), row("B", 2, 20, &["A"])];
    assert_eq!(resolve(&mut m, DanglingPolicy::Lenient), Err(ResolveError::CycleDetected(0)));
    assert!(m[0].whole_chain_indexes.is_empty());
}

#[test]
fn dangling_parent_lenient_is_a_root() {
    let mut m = vec![row("D", 7, 20, &["Z"])];
    assert_eq!(resolve(&mut m, DanglingPolicy::Lenient), Ok(()));
    assert!(m[0].whole_chain_indexes.is_empty());
    aggregate(&mut m).unwrap();
    assert_eq!(m[0].chain_fee, 7);
    assert_eq!(m[0].chain_weight, 20);
    let r = feerate::choose_txs_to_inlcude_in_block(&mut m, 20);
    assert_eq!(r.included, vec![0]);
    assert_eq!(r.total_fee, 7);
}

#[test]
fn dangling_parent_strict_fails() {
    let mut m = vec![row("A", 1, 1, &[]), row("D", 7, 20, &["A", "Z"])];
    assert_eq!(resolve(&mut m, DanglingPolicy::Strict), Err(ResolveError::DanglingParentReference(1)));
    let mut ok = vec![row("A", 1, 1, &[]), row("D", 7, 20, &["A"])];
    assert_eq!(resolve(&mut ok, DanglingPolicy::Strict), Ok(()));
    assert_eq!(ok[1].whole_chain_indexes, vec![0]);
}

#[test]
fn aggregate_reports_overflow() {
    let mut m = vec![row("A", u64::MAX, 1, &[]), row("B", 1, 1, &["A"])];
    resolve(&mut m, DanglingPolicy::Lenient).unwrap();
    assert_eq!(aggregate(&mut m), Err(AggregateError::SumOverflow(1)));
    assert_eq!(m[0].chain_fee, 0);
}

#[test]
fn greedy_packs_parent_with_child() {
    let mut m = prepared(abc());
    let r = feerate::choose_txs_to_inlcude_in_block(&mut m, 150);
    assert_eq!(r.included, vec![0, 1]);
    assert_eq!(r.included_ids(&m), vec!["A".to_string(), "B".to_string()]);
    assert_eq!(r.total_fee, 15);
    assert_eq!(r.remaining_weight, 0);
    assert!(m[0].already_included && m[1].already_included && !m[2].already_included);
}

#[test]
fn knapsack_packs_parent_with_child() {
    let mut m = prepared(abc());
    let r = knapsack::choose_txs_to_inlcude_in_block(&mut m, 150, 1);
    assert_eq!(r.included, vec![0, 1]);
    assert_eq!(r.total_fee, 15);
    assert_eq!(r.remaining_weight, 0);
    assert!(!m[2].already_included);
}

#[test]
fn greedy_prefers_heavier_bundle_at_equal_rate() {
    let m = prepared(abc());
    // All three bundles have rate 1/10: C (1000) before B (150) before A (100).
    assert_eq!(feerate::rate_order(&m), vec![2, 1, 0]);
}

#[test]
fn greedy_orders_by_fee_rate() {
    // rates: A 1, B 3, C 2; capacity fits two of them.
    let mut m = prepared(vec![row("A", 10, 10, &[]), row("B", 30, 10, &[]), row("C", 20, 10, &[])]);
    assert_eq!(feerate::rate_order(&m), vec![1, 2, 0]);
    let r = feerate::choose_txs_to_inlcude_in_block(&mut m, 25);
    assert_eq!(r.included, vec![1, 2]);
    assert_eq!(r.total_fee, 50);
    assert_eq!(r.remaining_weight, 5);
}

#[test]
fn greedy_skips_bundle_sharing_included_ancestor() {
    // A (rate 2) goes first; B's bundle (rate 1.5) then shares A and is skipped.
    let mut m = prepared(vec![row("A", 20, 10, &[]), row("B", 10, 10, &["A"])]);
    let r = feerate::choose_txs_to_inlcude_in_block(&mut m, 100);
    assert_eq!(r.included, vec![0]);
    assert_eq!(r.total_fee, 20);
    assert_eq!(r.remaining_weight, 90);
    assert!(!check_chain_not_included(&m, 1));
}

#[test]
fn knapsack_beats_greedy_on_classic_instance() {
    // Greedy by rate takes A (rate 6) and B (rate 5), then C no longer fits;
    // the knapsack takes B and C.
    let items = vec![row("A", 60, 10, &[]), row("B", 100, 20, &[]), row("C", 120, 30, &[])];
    let mut g = prepared(items.clone());
    let gr = feerate::choose_txs_to_inlcude_in_block(&mut g, 50);
    assert_eq!(gr.total_fee, 160);
    assert_eq!(gr.included, vec![0, 1]);
    let mut k = prepared(items);
    let kr = knapsack::choose_txs_to_inlcude_in_block(&mut k, 50, 1);
    assert_eq!(kr.total_fee, 220);
    assert_eq!(kr.included, vec![2, 1]);
    assert!(kr.total_fee >= gr.total_fee);
}

#[test]
fn knapsack_rounds_capacity_down_and_weights_up() {
    // Scale 100: capacity 150 gives one unit, weight 101 two units, weight 100 one.
    // The pass takes B (fee 4); greedy takes A (fee 5), so greedy's selection is kept.
    let mut m = prepared(vec![row("A", 5, 101, &[]), row("B", 4, 100, &[])]);
    let r = knapsack::choose_txs_to_inlcude_in_block(&mut m, 150, 100);
    assert_eq!(r.total_fee, 5);
    assert_eq!(r.included, vec![0]);
    assert_eq!(r.remaining_weight, 49);
    assert!(m[0].already_included && !m[1].already_included);
}

#[test]
fn knapsack_never_pays_less_than_greedy_under_rounding() {
    let items = vec![row("A", 10, 50, &[]), row("B", 10, 50, &[])];
    let mut k = prepared(items);
    let r = knapsack::choose_txs_to_inlcude_in_block(&mut k, 100, 100);
    assert_eq!(r.total_fee, 20);
    assert_eq!(r.remaining_weight, 0);
}

#[test]
fn knapsack_keeps_its_own_pick_when_it_pays_more() {
    let mut m = prepared(vec![row("A", 60, 10, &[]), row("B", 100, 20, &[]), row("C", 120, 30, &[])]);
    let r = knapsack::choose_txs_to_inlcude_in_block(&mut m, 50, 10);
    assert_eq!(r.included, vec![2, 1]);
    assert_eq!(r.total_fee, 220);
    assert_eq!(r.remaining_weight, 0);
}

#[test]
fn empty_store_selects_nothing() {
    let mut m: Vec<MempoolCsvRow> = Vec::new();
    assert_eq!(resolve(&mut m, DanglingPolicy::Strict), Ok(()));
    assert_eq!(aggregate(&mut m), Ok(()));
    let r = feerate::choose_txs_to_inlcude_in_block(&mut m, 10);
    assert!(r.included.is_empty());
    assert_eq!(r.remaining_weight, 10);
    let r = knapsack::choose_txs_to_inlcude_in_block(&mut m, 10, 1);
    assert!(r.included.is_empty());
    assert_eq!(r.total_fee, 0);
    assert_eq!(r.remaining_weight, 10);
}

#[test]
fn closure_and_capacity_hold_after_selection() {
    let items = vec![
        row("A", 3, 40, &[]),
        row("B", 9, 30, &["A"]),
        row("C", 8, 25, &[]),
        row("D", 1, 10, &["B", "C"]),
        row("E", 6, 20, &[]),
    ];
    let mut g = prepared(items.clone());
    let gr = feerate::choose_txs_to_inlcude_in_block(&mut g, 100);
    let mut k = prepared(items);
    let kr = knapsack::choose_txs_to_inlcude_in_block(&mut k, 100, 1);
    for m in [&g, &k] {
        for r in m.iter() {
            if r.already_included {
                for p in &r.whole_chain_indexes {
                    assert!(m[*p].already_included);
                }
            }
        }
    }
    let gw: u64 = gr.included.iter().map(|i| g[*i].weight).sum();
    assert_eq!(gw + gr.remaining_weight, 100);
    let kw: u64 = kr.included.iter().map(|i| k[*i].weight).sum();
    assert_eq!(kw + kr.remaining_weight, 100);
    assert!(kr.total_fee >= gr.total_fee);
}

#[test]
fn knapsack_falls_back_to_greedy_when_bundles_share_an_ancestor() {
    // The program counts A inside both A's and B's bundle, prefers that pair,
    // and then commits only B's bundle (fee 22); greedy packs B's bundle and C.
    let items = vec![row("A", 20, 10, &[]), row("B", 2, 1, &["A"]), row("C", 19, 10, &[])];
    let mut g = prepared(items.clone());
    let gr = feerate::choose_txs_to_inlcude_in_block(&mut g, 21);
    assert_eq!(gr.included, vec![0, 1, 2]);
    assert_eq!(gr.total_fee, 41);
    let mut k = prepared(items);
    let kr = knapsack::choose_txs_to_inlcude_in_block(&mut k, 21, 1);
    assert_eq!(kr.included, vec![0, 1, 2]);
    assert_eq!(kr.total_fee, 41);
    assert_eq!(kr.remaining_weight, 0);
}

#[test]
fn chain_lists_ancestors_before_descendants() {
    // B (parent A) at 0, A at 1, D (parent B) at 2.
    let items = vec![row("B", 5, 10, &["A"]), row("A", 5, 10, &[]), row("D", 50, 10, &["B"])];
    let m = items.clone();
    assert_eq!(get_all_parents2(&m, 2), vec![1, 0]);
    let mut g = prepared(items.clone());
    assert_eq!(g[2].whole_chain_indexes, vec![1, 0]);
    assert_eq!(g[0].whole_chain_indexes, vec![1]);
    let gr = feerate::choose_txs_to_inlcude_in_block(&mut g, 30);
    assert_eq!(gr.included, vec![1, 0, 2]);
    assert_eq!(gr.total_fee, 60);
    let mut k = prepared(items);
    let kr = knapsack::choose_txs_to_inlcude_in_block(&mut k, 30, 1);
    assert_eq!(kr.included, vec![1, 0, 2]);
    assert_eq!(kr.included_ids(&k), vec!["A".to_string(), "B".to_string(), "D".to_string()]);
}
