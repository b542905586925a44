use boltzr::chain::{ChainClient, ChainType, Config, Outpoint, Transaction};
use boltzr::scan::{
    collect_relevant, plan_scan, worker_step, BatchOutcome, ItemError, ParseError, worker_count,
};

fn sample_config() -> Config {
    Config {
        host: "127.0.0.1".to_string(),
        port: 18_443,
        cookie: Some("cookie".to_string()),
        user: None,
        password: None,
    }
}

fn sample_tx() -> Transaction {
    Transaction {
        id: vec![0xaa, 0xbb],
        inputs: vec![
            Outpoint { txid: vec![1, 2, 3], vout: 0 },
            Outpoint { txid: vec![4, 5, 6], vout: 2 },
        ],
        output_scripts: vec![vec![0x51], vec![0x00, 0x14, 0x42]],
    }
}

#[test]
fn chain_client_fields() {
    let client = ChainClient::new(ChainType::Bitcoin, "BTC".to_string(), sample_config());
    assert_eq!(client.symbol(), "BTC");
    assert_eq!(client.kind(), "Chain client");
}

#[test]
fn scan_mempool_empty() {
    let plan = plan_scan(&Vec::new(), 8);
    assert_eq!(plan.len(), 0);
    let collected = collect_relevant(Vec::new(), &Vec::new(), &Vec::new()).unwrap();
    assert_eq!(collected.len(), 0);
}

#[test]
fn scan_mempool_relevant_input() {
    let tx = sample_tx();
    let inputs = vec![tx.input_outpoints()[0].clone()];
    let transactions = collect_relevant(vec![Ok(tx)], &inputs, &Vec::new()).unwrap();
    assert_eq!(transactions.len(), 1);
    assert_eq!(transactions[0], sample_tx());
}

#[test]
fn scan_mempool_relevant_output() {
    let tx = sample_tx();
    let outputs = vec![tx.output_script_pubkeys()[0].clone()];
    let transactions = collect_relevant(vec![Ok(tx)], &Vec::new(), &outputs).unwrap();
    assert_eq!(transactions.len(), 1);
    assert_eq!(transactions[0], sample_tx());
}

#[test]
fn nothing_watched_nothing_relevant() {
    let tx = sample_tx();
    assert!(!ChainClient::is_relevant_tx(&Vec::new(), &Vec::new(), &tx));
    let transactions = collect_relevant(vec![Ok(tx)], &Vec::new(), &Vec::new()).unwrap();
    assert!(transactions.is_empty());
}

#[test]
fn unwatched_transaction_filtered_out() {
    let tx = sample_tx();
    let inputs = vec![Outpoint { txid: vec![9, 9, 9], vout: 0 }];
    let outputs = vec![vec![0x6a]];
    let transactions = collect_relevant(vec![Ok(tx)], &inputs, &outputs).unwrap();
    assert!(transactions.is_empty());
}

#[test]
fn parse_failure_is_fatal() {
    let tx = sample_tx();
    let inputs = vec![tx.input_outpoints()[0].clone()];
    let r = collect_relevant(
        vec![
            Ok(tx),
            Err(ParseError { message: "bad hex".to_string() }),
            Err(ParseError { message: "later".to_string() }),
        ],
        &inputs,
        &Vec::new(),
    );
    assert_eq!(r.unwrap_err().message, "bad hex");
}

#[test]
fn worker_count_bounds() {
    assert_eq!(worker_count(0), 1);
    assert_eq!(worker_count(1), 1);
    assert_eq!(worker_count(8), 4);
    assert_eq!(worker_count(64), 16);
    assert_eq!(worker_count(1000), 16);
}

#[test]
fn plan_batches_per_worker() {
    let ids: Vec<String> = (0..130).map(|i| format!("tx{i}")).collect();
    // 4 cores: 2 workers, chunks of 65 ids, ceil(65 / 64) = 2 batches each.
    let plan = plan_scan(&ids, 4);
    assert_eq!(plan.len(), 2);
    for worker in &plan {
        assert_eq!(worker.len(), 2);
        assert_eq!(worker[0].len(), 64);
        assert_eq!(worker[1].len(), 1);
    }
    let flattened: Vec<String> = plan
        .into_iter()
        .flat_map(|w| w.into_iter().flat_map(|b| b.into_iter()))
        .collect();
    assert_eq!(flattened, ids);
}

#[test]
fn chunk_count_matches_worker_count() {
    // 10 ids over 3 workers: exactly 3 chunks, sizes as equal as possible.
    let ids: Vec<String> = (0..10).map(|i| format!("t{i}")).collect();
    let plan = plan_scan(&ids, 6);
    assert_eq!(plan.len(), 3);
    let sizes: Vec<usize> = plan
        .iter()
        .map(|w| w.iter().map(|b| b.len()).sum())
        .collect();
    assert_eq!(sizes, vec![4, 3, 3]);

    // A large mempool never exceeds the worker pool bound.
    let ids: Vec<String> = (0..1000).map(|i| format!("t{i}")).collect();
    let plan = plan_scan(&ids, 64);
    assert_eq!(plan.len(), 16);

    // Fewer ids than workers: one chunk per id.
    let ids: Vec<String> = (0..3).map(|i| format!("t{i}")).collect();
    let plan = plan_scan(&ids, 40);
    assert_eq!(plan.len(), 3);
}

#[test]
fn worker_stops_on_transport_failure() {
    let (forwarded, keep_going) = worker_step(BatchOutcome::TransportFailed);
    assert!(forwarded.is_empty());
    assert!(!keep_going);
}

#[test]
fn worker_skips_failed_items() {
    let (forwarded, keep_going) = worker_step(BatchOutcome::Fetched(vec![
        Ok("aa".to_string()),
        Err(ItemError { message: "evicted".to_string() }),
        Ok("bb".to_string()),
    ]));
    assert_eq!(forwarded, vec!["aa".to_string(), "bb".to_string()]);
    assert!(keep_going);
}

#[test]
fn hex_encoding_exact() {
    assert_eq!(boltzr::hex::hex_encode(&[]), "");
    assert_eq!(boltzr::hex::hex_encode(&[0x00, 0xff, 0x1a]), "00ff1a");
}
