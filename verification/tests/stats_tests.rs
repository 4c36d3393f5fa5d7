use tangle_ledger::ledger::Ledger;
use tangle_ledger::ledger::Node;
use tangle_ledger::stats::Stats;

fn avg_dag_depth(s: &Stats) -> f64 {
    s.dag_depth_num as f64 / s.dag_depth_den as f64
}

fn avg_txs_per_depth(s: &Stats) -> f64 {
    if s.txs_per_depth_den > 0 {
        s.txs_per_depth_num as f64 / s.txs_per_depth_den as f64
    } else {
        0.0
    }
}

fn avg_refs(s: &Stats) -> f64 {
    s.refs_num as f64 / s.refs_den as f64
}

fn pct_valid(s: &Stats) -> f64 {
    if s.node_count > 0 {
        100.0 * s.valid_count as f64 / s.node_count as f64
    } else {
        100.0
    }
}

fn avg_tx_rate(s: &Stats) -> f64 {
    s.rate_num as f64 / s.rate_den as f64
}

#[test]
fn test_compute_stats() {
    let database_txt = "5
        1 1 0
        1 2 0
        2 2 1
        3 3 2
        3 4 3";

    let stats = Ledger::parse(database_txt.as_bytes()).unwrap().compute_stats();
    assert_eq!(avg_dag_depth(&stats), 4.0 / 3.0);
    assert_eq!(avg_txs_per_depth(&stats), 2.5);
    assert_eq!(avg_refs(&stats), 5.0 / 3.0);
    assert_eq!(pct_valid(&stats), 100.0);
    assert_eq!(avg_tx_rate(&stats), 1.25);
}

#[test]
fn test_compute_stats_invalid_nodes() {
    let database_txt = "5
        1 1 1
        1 2 0
        2 2 1
        3 3 2
        3 4 3";

    let stats = Ledger::parse(database_txt.as_bytes()).unwrap().compute_stats();
    assert_eq!(avg_dag_depth(&stats), 1.5);
    assert_eq!(avg_txs_per_depth(&stats), 1.0);
    assert_eq!(avg_refs(&stats), 1.25);
    assert_eq!(pct_valid(&stats), 60.0);
    assert_eq!(avg_tx_rate(&stats), 1.0);
}

#[test]
fn test_compute_stats_high_rate() {
    let database_txt = "5
        1 1 1
        2 1 1
        3 1 1
        4 1 1
        5 1 1";

    let stats = Ledger::parse(database_txt.as_bytes()).unwrap().compute_stats();
    assert_eq!(avg_dag_depth(&stats), 5.0 / 6.0);
    assert_eq!(avg_txs_per_depth(&stats), 5.0);
    assert_eq!(avg_refs(&stats), 5.0 / 3.0);
    assert_eq!(pct_valid(&stats), 100.0);
    assert_eq!(avg_tx_rate(&stats), 5.0);
}

#[test]
fn test_compute_stats_cycle() {
    let database_txt = "3
        1 4 1
        1 2 2
        1 3 3";

    let stats = Ledger::parse(database_txt.as_bytes()).unwrap().compute_stats();
    assert_eq!(avg_dag_depth(&stats), 2.0 / 3.0);
    assert_eq!(avg_txs_per_depth(&stats), 2.0);
    assert_eq!(avg_refs(&stats), 1.0);
    assert_eq!(pct_valid(&stats), 100.0 * 2.0 / 3.0);
    assert_eq!(avg_tx_rate(&stats), 1.0);
}

#[test]
fn test_compute_stats_empty() {
    let stats = Ledger::default().compute_stats();
    assert_eq!(avg_dag_depth(&stats), 0.0);
    assert_eq!(avg_txs_per_depth(&stats), 0.0);
    assert_eq!(avg_refs(&stats), 0.0);
    assert_eq!(pct_valid(&stats), 100.0);
    assert_eq!(avg_tx_rate(&stats), 0.0);
}

#[test]
fn test_compute_stats_none_valid() {
    let stats = Ledger(vec![Node::Invalid]).compute_stats();
    assert_eq!(avg_dag_depth(&stats), 0.0);
    assert_eq!(avg_txs_per_depth(&stats), 0.0);
    assert_eq!(avg_refs(&stats), 0.0);
    assert_eq!(pct_valid(&stats), 0.0);
    assert_eq!(avg_tx_rate(&stats), 0.0);
}

#[test]
fn test_compute_stats_idempotent() {
    let database_txt = "5
        1 1 1
        1 2 0
        2 2 1
        3 3 2
        3 4 3";

    let ledger = Ledger::parse(database_txt.as_bytes()).unwrap();
    let first = ledger.compute_stats();
    let second = ledger.compute_stats();
    assert_eq!(first, second);
}

#[test]
fn test_compute_stats_single_valid_node_rate_zero() {
    let stats = Ledger::parse("1\n1 1 9".as_bytes()).unwrap().compute_stats();
    assert_eq!(stats.valid_count, 1);
    assert_eq!(avg_tx_rate(&stats), 0.0);
}

#[test]
fn test_compute_stats_exact_fields() {
    let database_txt = "5
        1 1 0
        1 2 0
        2 2 1
        3 3 2
        3 4 3";

    let stats = Ledger::parse(database_txt.as_bytes()).unwrap().compute_stats();
    assert_eq!(stats.dag_depth_num, 8);
    assert_eq!(stats.dag_depth_den, 6);
    assert_eq!(stats.txs_per_depth_num, 5);
    assert_eq!(stats.txs_per_depth_den, 2);
    assert_eq!(stats.refs_num, 10);
    assert_eq!(stats.refs_den, 6);
    assert_eq!(stats.valid_count, 5);
    assert_eq!(stats.node_count, 5);
    assert_eq!(stats.rate_num, 5);
    assert_eq!(stats.rate_den, 4);
}

#[test]
fn test_compute_stats_counts_dangling_refs() {
    // Both references of the sole valid record resolve to the slack
    // position past the sequence; they still count toward avg_refs.
    let stats = Ledger::parse("1\n2 2 5".as_bytes()).unwrap().compute_stats();
    assert_eq!(stats.refs_num, 2);
    assert_eq!(stats.refs_den, 2);
    assert_eq!(avg_refs(&stats), 1.0);
    assert_eq!(pct_valid(&stats), 100.0);
    // Neither reference reaches the origin, so no record has a depth.
    assert_eq!(avg_dag_depth(&stats), 0.0);
}

#[test]
fn test_valid_nodes_and_depths() {
    let database_txt = "3
        1 4 1
        1 2 2
        1 3 3";

    let ledger = Ledger::parse(database_txt.as_bytes()).unwrap();
    assert_eq!(ledger.valid_nodes().len(), 2);
    assert_eq!(ledger.compute_depths(), vec![1, 1]);
    assert_eq!(ledger.count_refs(), 3);
}
