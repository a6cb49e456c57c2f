use kaspa_client::dag::{DAGAnalysis, DAGHandler};
use kaspa_client::types::{Block, BlockHeader, BlockVerboseData, KaspaError};

fn block(hash: &str, parents: &[&str], blue_score: u64) -> Block {
    Block {
        header: BlockHeader {
            version: 1,
            parents: parents.iter().map(|p| p.to_string()).collect(),
            hash_merkle_root: String::new(),
            timestamp: 0,
            bits: 0,
            nonce: 0,
            daa_score: 0,
            blue_score,
        },
        transactions: Vec::new(),
        verbose_data: Some(BlockVerboseData {
            hash: hash.to_string(),
            blue_score,
            selected_parent_hash: String::new(),
            is_chain_block: false,
        }),
    }
}

fn documented_dag() -> DAGHandler {
    // The DAG of the handler's documentation, oldest blocks first.
    let mut dag = DAGHandler::new();
    dag.add_block(block("G", &[], 1)).unwrap();
    dag.add_block(block("H", &[], 1)).unwrap();
    dag.add_block(block("D", &["G"], 2)).unwrap();
    dag.add_block(block("E", &["D", "G"], 3)).unwrap();
    dag.add_block(block("F", &["H"], 2)).unwrap();
    dag.add_block(block("B", &["D"], 3)).unwrap();
    dag.add_block(block("C", &["E", "F"], 4)).unwrap();
    dag.add_block(block("A", &["B", "C"], 5)).unwrap();
    dag
}

#[test]
fn blue_scores_follow_the_documented_example() {
    let dag = documented_dag();
    assert_eq!(dag.calculate_blue_score("A"), 5);
    assert_eq!(dag.calculate_blue_score("B"), 3);
    assert_eq!(dag.calculate_blue_score("C"), 4);
    assert_eq!(dag.calculate_blue_score("D"), 2);
    assert_eq!(dag.calculate_blue_score("E"), 3);
    assert_eq!(dag.calculate_blue_score("F"), 2);
    assert_eq!(dag.calculate_blue_score("G"), 1);
    assert_eq!(dag.calculate_blue_score("H"), 1);
}

#[test]
fn blue_score_of_unknown_block_is_zero() {
    let dag = documented_dag();
    assert_eq!(dag.calculate_blue_score("Z"), 0);
}

#[test]
fn block_without_hash_is_refused() {
    let mut dag = DAGHandler::new();
    let mut b = block("X", &[], 0);
    b.verbose_data = None;
    match dag.add_block(b) {
        Err(KaspaError::Custom(m)) => assert_eq!(m, "Block missing hash"),
        other => panic!("unexpected {:?}", other),
    }
    assert!(dag.get_virtual_block().is_none());
}

#[test]
fn a_child_replaces_its_parent_as_tip() {
    let mut dag = DAGHandler::new();
    dag.add_block(block("A", &[], 1)).unwrap();
    dag.add_block(block("B", &["A"], 2)).unwrap();
    let tip = dag.get_virtual_block().unwrap();
    assert_eq!(tip.verbose_data.as_ref().unwrap().hash, "B");
}

#[test]
fn a_tip_named_as_parent_later_is_reported() {
    // C names B as parent before B arrives; B then becomes a tip with a child.
    let mut dag = DAGHandler::new();
    dag.add_block(block("A", &[], 1)).unwrap();
    dag.add_block(block("C", &["B"], 3)).unwrap();
    match dag.add_block(block("B", &["A"], 2)) {
        Err(KaspaError::Custom(m)) => assert_eq!(m, "Tip B has children, inconsistent state"),
        other => panic!("unexpected {:?}", other),
    }
}

#[test]
fn virtual_block_is_the_tip_of_highest_score() {
    let mut dag = DAGHandler::new();
    dag.add_block(block("G", &[], 1)).unwrap();
    dag.add_block(block("X", &["G"], 2)).unwrap();
    dag.add_block(block("Y", &[], 1)).unwrap();
    let v = dag.get_virtual_block().unwrap();
    assert_eq!(v.verbose_data.as_ref().unwrap().hash, "X");
}

#[test]
fn orphan_check_needs_every_parent() {
    let mut dag = DAGHandler::new();
    dag.add_block(block("A", &[], 1)).unwrap();
    dag.add_block(block("C", &["A", "B"], 3)).unwrap();
    assert!(!dag.is_block_no_longer_orphan("C"));
    assert!(dag.is_block_no_longer_orphan("A"));
    assert!(!dag.is_block_no_longer_orphan("B"));
}

#[test]
fn structure_analysis_counts_and_averages() {
    let dag = documented_dag();
    let a = dag.analyze_structure();
    assert_eq!(a.total_blocks, 8);
    assert_eq!(a.max_parents, 2);
    assert_eq!(a.total_blue_score, 1 + 1 + 2 + 3 + 2 + 3 + 4 + 5);
    assert_eq!(a.average_blue_score, 21 / 8);
    assert_eq!(a.tips_count, 0);
}

#[test]
fn empty_analysis_is_zero() {
    let a = DAGHandler::new().analyze_structure();
    assert_eq!(a.total_blocks, 0);
    assert_eq!(a.average_blue_score, 0);
    let n = DAGAnalysis::new();
    assert_eq!(n.total_blue_score, 0);
}

#[test]
fn documented_insertion_example() {
    // A with children B and C; then D and E under C: the tips become B, D and E.
    let mut dag = DAGHandler::new();
    dag.add_block(block("A", &[], 1)).unwrap();
    dag.add_block(block("B", &["A"], 2)).unwrap();
    dag.add_block(block("C", &["A"], 2)).unwrap();
    dag.add_block(block("D", &["C"], 3)).unwrap();
    dag.add_block(block("E", &["C"], 3)).unwrap();
    let v = dag.get_virtual_block().unwrap();
    let hash = v.verbose_data.as_ref().unwrap().hash.clone();
    assert!(hash == "D" || hash == "E");
    assert_eq!(dag.calculate_blue_score("E"), 3);
    assert_eq!(dag.calculate_blue_score("B"), 2);
    // A later block naming B, D and E as parents leaves a single tip.
    dag.add_block(block("F", &["B", "D", "E"], 4)).unwrap();
    assert_eq!(dag.get_virtual_block().unwrap().verbose_data.as_ref().unwrap().hash, "F");
    assert_eq!(dag.calculate_blue_score("F"), 4);
}

#[test]
fn analysis_after_two_blocks() {
    let mut dag = DAGHandler::new();
    dag.add_block(block("A", &[], 3)).unwrap();
    dag.add_block(block("B", &["A"], 4)).unwrap();
    let a = dag.analyze_structure();
    assert_eq!(a.total_blocks, 2);
    assert_eq!(a.max_parents, 1);
    assert_eq!(a.total_blue_score, 7);
    assert_eq!(a.average_blue_score, 3);
}
