use kaspa_client::mem::{
    assess_congestion_level, cal_recommended_fee, cal_total_fee, cal_total_size, categorize_fee,
    detect_cpfp_candidates, estimate_confirmation_times, get_top_addresses, get_transaction_id,
    have_common_inputs, is_dust_spam, is_high_value_sudden_movement, is_mixing_pattern,
    is_possible_wallet_sweep, median_parts, mock_block_confirmation, summarize_entries,
    AnomalyBehaviorType, CongestionLevel, MemPoolSnapshot, MempoolHistory,
};
use kaspa_client::collections::StrMap;
use kaspa_client::types::{
    KaspaError, MempoolEntry, Outpoint, ScriptPublicKey, Transaction, TransactionInput,
    TransactionOutput, TransactionOutputVerboseData, TransactionVerboseData,
};
use std::time::Instant;

fn output(value: u64, address: Option<&str>) -> TransactionOutput {
    TransactionOutput {
        value,
        script_public_key: ScriptPublicKey { version: 0, script_public_key: String::new() },
        verbose_data: address.map(|a| TransactionOutputVerboseData {
            script_public_key_type: String::new(),
            script_public_key_address: a.to_string(),
        }),
    }
}

fn input(spent_tx: &str) -> TransactionInput {
    TransactionInput {
        previous_outpoint: Outpoint { transaction_id: spent_tx.to_string(), index: 0 },
        signature_script: String::new(),
        sequence: 0,
        sig_op_count: 1,
    }
}

fn tx(id: &str, inputs: Vec<TransactionInput>, outputs: Vec<TransactionOutput>) -> Transaction {
    Transaction {
        version: 0,
        inputs,
        outputs,
        lock_time: 0,
        subnetwork_id: String::new(),
        gas: 0,
        payload: String::new(),
        verbose_data: if id.is_empty() {
            None
        } else {
            Some(TransactionVerboseData {
                transaction_id: id.to_string(),
                hash: String::new(),
                mass: 0,
                block_hash: String::new(),
                block_time: 0,
            })
        },
    }
}

fn entry(id: &str, fee: u64) -> MempoolEntry {
    MempoolEntry { fee, transaction: tx(id, vec![], vec![]), is_orphan: false }
}

fn snapshot(entries: Vec<MempoolEntry>) -> MemPoolSnapshot {
    MemPoolSnapshot {
        timestamp: Instant::now(),
        total_transactions: entries.len(),
        total_size: cal_total_size(&entries),
        total_fee: cal_total_fee(&entries),
        entries,
    }
}

#[test]
fn reported_transaction_id_is_used() {
    assert_eq!(get_transaction_id(&entry("abc", 1)), "abc");
}

#[test]
fn missing_transaction_id_is_hashed_from_fingerprint() {
    let e = entry("", 1);
    let expected = format!("tx_{:x}", seahash::hash(b"0-0-0-0-0"));
    assert_eq!(get_transaction_id(&e), expected);
    let mut t = tx("", vec![input("p")], vec![output(5, None), output(6, None)]);
    t.version = 1;
    t.lock_time = 7;
    t.gas = 9;
    let e2 = MempoolEntry { fee: 1, transaction: t, is_orphan: false };
    assert_eq!(get_transaction_id(&e2), format!("tx_{:x}", seahash::hash(b"1-1-2-7-9")));
}

#[test]
fn fee_brackets() {
    assert_eq!(categorize_fee(0), "0-100");
    assert_eq!(categorize_fee(100), "0-100");
    assert_eq!(categorize_fee(101), "101-1,000");
    assert_eq!(categorize_fee(1000), "101-1,000");
    assert_eq!(categorize_fee(1001), "1,001-10,000");
    assert_eq!(categorize_fee(100000), "10,001-100,000");
    assert_eq!(categorize_fee(100001), "100,000+");
}

#[test]
fn congestion_levels() {
    let few: Vec<MempoolEntry> = (0..1000).map(|_| entry("x", 1)).collect();
    assert_eq!(assess_congestion_level(&few), CongestionLevel::Idle);
    let more: Vec<MempoolEntry> = (0..1001).map(|_| entry("x", 1)).collect();
    assert_eq!(assess_congestion_level(&more), CongestionLevel::Normal);
}

#[test]
fn transaction_patterns() {
    let big = tx("a", vec![], vec![output(600_000_000, None), output(400_000_001, None)]);
    assert!(is_high_value_sudden_movement(&big));
    let exact = tx("a", vec![], vec![output(1_000_000_000, None)]);
    assert!(!is_high_value_sudden_movement(&exact));

    let sweep = tx("s", (0..11).map(|i| input(&format!("p{}", i))).collect(), vec![output(1, None)]);
    assert!(is_possible_wallet_sweep(&sweep));
    let not_sweep = tx("s", (0..10).map(|i| input(&format!("p{}", i))).collect(), vec![output(1, None)]);
    assert!(!is_possible_wallet_sweep(&not_sweep));

    let mix = tx("m", vec![], (0..5).map(|_| output(7, None)).collect());
    assert!(is_mixing_pattern(&mix));
    let zero_mix = tx("m", vec![], (0..5).map(|_| output(0, None)).collect());
    assert!(!is_mixing_pattern(&zero_mix));

    let dust = tx("d", vec![], (0..11).map(|_| output(999, None)).collect());
    assert!(is_dust_spam(&dust));
    let mut not_dust_outputs: Vec<TransactionOutput> = (0..11).map(|_| output(999, None)).collect();
    not_dust_outputs.push(output(1000, None));
    assert!(!is_dust_spam(&tx("d", vec![], not_dust_outputs)));
}

#[test]
fn common_inputs() {
    let a = tx("a", vec![input("p"), input("q")], vec![]);
    let b = tx("b", vec![input("q")], vec![]);
    let c = tx("c", vec![input("r")], vec![]);
    assert!(have_common_inputs(&a, &b));
    assert!(!have_common_inputs(&a, &c));
}

#[test]
fn median_of_values() {
    assert_eq!(median_parts(&[]), None);
    assert_eq!(median_parts(&[5, 1, 3]), Some((3, 1)));
    assert_eq!(median_parts(&[4, 1, 3, 2]), Some((5, 2)));
}

#[test]
fn recommended_fee_is_three_quarters_up() {
    let s = snapshot(vec![]);
    assert_eq!(cal_recommended_fee(&s), 1000);
    let s = snapshot((1..=8).rev().map(|f| entry("x", f * 10)).collect());
    assert_eq!(cal_recommended_fee(&s), 70);
}

#[test]
fn confirmation_time_estimates() {
    assert_eq!(estimate_confirmation_times(&[]).len(), 0);
    let m = estimate_confirmation_times(&[entry("x", 1)]);
    assert_eq!(m.get("low"), Some(&3600));
    assert_eq!(m.get("medium"), Some(&600));
    assert_eq!(m.get("high"), Some(&120));
    assert_eq!(m.get("very_high"), Some(&30));
}

#[test]
fn summary_statistics() {
    let mut orphan = entry("o", 50);
    orphan.is_orphan = true;
    let mut paying = entry("p", 2000);
    paying.transaction.outputs = vec![output(10, Some("addr1")), output(5, Some("addr2")), output(1, Some("addr1"))];
    let entries = vec![orphan, paying, entry("q", 70)];
    let s = summarize_entries(&entries);
    assert_eq!(s.total_transactions, 3);
    assert_eq!(s.total_fee, 2120);
    assert_eq!(s.all_fees, vec![50, 2000, 70]);
    assert_eq!(s.orphan_count, 1);
    assert_eq!(s.fee_distribution.get("0-100"), Some(&2));
    assert_eq!(s.fee_distribution.get("1,001-10,000"), Some(&1));
    assert_eq!(s.address_volumes.get("addr1"), Some(&11));
    assert_eq!(s.address_volumes.get("addr2"), Some(&5));
}

#[test]
fn totals_of_entries() {
    let mut e = entry("a", 3);
    e.transaction.outputs = vec![output(1, None), output(2, None)];
    let entries = vec![e, entry("b", 4)];
    assert_eq!(cal_total_size(&entries), 200);
    assert_eq!(cal_total_fee(&entries), 7);
}

#[test]
fn top_addresses_largest_first() {
    let mut volumes: StrMap<u64> = StrMap::new();
    volumes.insert("a", 5);
    volumes.insert("b", 9);
    volumes.insert("c", 5);
    volumes.insert("d", 1);
    let top = get_top_addresses(&volumes, 3);
    assert_eq!(top, vec![("b".to_string(), 9), ("a".to_string(), 5), ("c".to_string(), 5)]);
    assert_eq!(get_top_addresses(&volumes, 10).len(), 4);
}

#[test]
fn block_confirmation_takes_highest_fees() {
    let entries: Vec<MempoolEntry> = (0..1002u64).map(|i| entry(&format!("t{}", i), i)).collect();
    let confirmed = mock_block_confirmation(&entries);
    assert_eq!(confirmed.len(), 1000);
    assert!(confirmed.contains("t1001"));
    assert!(confirmed.contains("t2"));
    assert!(!confirmed.contains("t1"));
    assert!(!confirmed.contains("t0"));
}

#[test]
fn cpfp_candidates_need_a_high_child_fee() {
    let parent = entry("parent", 100);
    let mut child = entry("child", 1500);
    child.transaction.inputs = vec![input("parent")];
    let mut cheap = entry("cheap", 1000);
    cheap.transaction.inputs = vec![input("parent")];
    let candidates = detect_cpfp_candidates(&[parent, child, cheap]);
    assert_eq!(candidates.len(), 1);
    assert_eq!(candidates[0].parent_tx_id, "parent");
    assert_eq!(candidates[0].child_tx_id, "child");
    assert_eq!(candidates[0].combined_fee, 1600);
    assert_eq!(candidates[0].fee_increase, 1500);
}

#[test]
fn history_keeps_at_most_its_limit() {
    let mut h = MempoolHistory::new();
    for i in 0..105u64 {
        h.add_snapshot(snapshot(vec![entry("x", i)]));
    }
    assert_eq!(h.len(), 100);
    assert_eq!(h.snapshot_at(0).entries[0].fee, 5);
}

#[test]
fn prediction_needs_five_snapshots() {
    let mut h = MempoolHistory::new();
    for _ in 0..4 {
        h.add_snapshot(snapshot(vec![]));
    }
    match h.prediction_basis() {
        Err(KaspaError::Custom(m)) => assert_eq!(m, "Not enough data"),
        _ => panic!("expected an error"),
    }
    h.add_snapshot(snapshot(vec![entry("x", 3)]));
    assert_eq!(h.prediction_basis().unwrap().entries[0].fee, 3);
}

#[test]
fn fee_spike_against_median() {
    let mut h = MempoolHistory::new();
    assert!(!h.is_fee_spike(&entry("x", 1_000_000)));
    h.add_snapshot(snapshot(vec![entry("a", 10), entry("b", 20)]));
    assert!(h.is_fee_spike(&entry("x", 151)));
    assert!(!h.is_fee_spike(&entry("x", 150)));
}

#[test]
fn rbf_signals_between_snapshots() {
    let mut h = MempoolHistory::new();
    let mut old_tx = entry("old", 100);
    old_tx.transaction.inputs = vec![input("funding")];
    h.add_snapshot(snapshot(vec![old_tx]));
    let mut new_tx = entry("new", 250);
    new_tx.transaction.inputs = vec![input("funding")];
    h.add_snapshot(snapshot(vec![entry("other", 1), new_tx]));
    let signals = h.detect_rbf_signals();
    assert_eq!(signals.len(), 1);
    assert_eq!(signals[0].current_index, 1);
    assert_eq!(signals[0].previous_index, 0);
    assert_eq!(signals[0].fee_increase, 150);
    let named = h.replace_by_fee_signals();
    assert_eq!(named.len(), 1);
    assert_eq!(named[0].original_tx_id, "old");
    assert_eq!(named[0].replacement_tx_id, "new");
    assert_eq!(named[0].fee_increase, 150);
    assert_eq!(named[0].original_fee, 100);
}

#[test]
fn anomalies_of_entries() {
    let mut h = MempoolHistory::new();
    h.add_snapshot(snapshot(vec![entry("a", 10)]));
    let dusty = MempoolEntry {
        fee: 500,
        transaction: tx("dusty", vec![], (1..=11).map(|v| output(v, None)).collect()),
        is_orphan: false,
    };
    let kinds = h.analyze_transaction_anomalies(&dusty);
    assert_eq!(kinds, vec![AnomalyBehaviorType::DustSpam, AnomalyBehaviorType::FeeSpike]);
    let rows = h.detect_transaction_anomalies(&[entry("calm", 5), dusty]);
    assert_eq!(rows.len(), 2);
    assert_eq!(rows[0], ("dusty".to_string(), AnomalyBehaviorType::DustSpam));
    assert_eq!(rows[1], ("dusty".to_string(), AnomalyBehaviorType::FeeSpike));
    assert_eq!(AnomalyBehaviorType::DustSpam.description(), "Dust attack detected");
}

#[test]
fn stress_simulation_counts() {
    let mut h = MempoolHistory::new();
    h.add_snapshot(snapshot((0..10u64).map(|i| entry(&format!("t{}", i), i)).collect()));
    let r = h.mock_mempool_stress(5, 3);
    assert_eq!(r.initial_size, 10);
    // The first block confirms all ten entries; later blocks the arrivals, which share an id.
    assert_eq!(r.final_size, 5);
    assert_eq!(r.total_added, 15);
    assert_eq!(r.total_dropped, 0);
    assert_eq!(r.average_confirmation_secs, 10);
    assert_eq!(r.congestion_level, CongestionLevel::Idle);
}

#[test]
fn stress_simulation_drops_for_room() {
    // 2001 entries: the block confirms the 1000 highest fees, 1001 stay, and with
    // 49,000 arrivals one more than the limit would be held.
    let mut h = MempoolHistory::new();
    h.add_snapshot(snapshot((0..2001u64).map(|i| entry(&format!("t{}", i), i)).collect()));
    let r = h.mock_mempool_stress(49_000, 1);
    assert_eq!(r.final_size, 50_000);
    assert_eq!(r.total_dropped, 1);
    assert_eq!(r.total_added, 49_000);
    assert_eq!(r.congestion_level, CongestionLevel::SHigh);
}

#[test]
fn stress_simulation_without_rounds_keeps_the_pool() {
    let mut h = MempoolHistory::new();
    h.add_snapshot(snapshot((0..7u64).map(|i| entry(&format!("t{}", i), i)).collect()));
    let r = h.mock_mempool_stress(60_000, 0);
    assert_eq!(r.final_size, 7);
    assert_eq!(r.total_added, 0);
    assert_eq!(r.total_dropped, 0);
}
