use mysticeti_vote::crypto_config::crypto_config;
use mysticeti_vote::datagen::{
    after_connection, after_upload, checked_merkle_height, choose_host, download_results,
    instance_ready, leaf_count, merkle_height, pad_leaves, plan_common_inputs, progress_report,
    remote_address, run_directory, run_remote_worker, upload_worker_files_for_range, voter_ranges,
    worker_ranges, Attempt, RemoteStep, WorkerArgs,
};
use mysticeti_vote::dkg::run_dkg_simulation_for_data_generator;
use mysticeti_vote::field::FieldElement;
use mysticeti_vote::pairing::{G1, G2};
use mysticeti_vote::transactions_generator::{
    is_reported, transactions_per_block_interval, GeneratorStep, TransactionGenerator,
};
use mysticeti_vote::types::Transaction;
use mysticeti_vote::zkp::{key_bytes, VerifyingKey};
use ark_bls12_381::{G1Affine, G2Affine};
use ark_ec::AffineRepr;
use ark_serialize::CanonicalSerialize;
use base64::engine::general_purpose::STANDARD;
use base64::Engine;

#[test]
fn trees_have_room() {
    assert_eq!(
        (1..=9).map(merkle_height).collect::<Vec<_>>(),
        vec![1, 1, 2, 2, 3, 3, 3, 3, 4]
    );
    assert_eq!(merkle_height(1000), 10);
    assert_eq!(checked_merkle_height(0), None);
    assert_eq!(checked_merkle_height(5), Some(3));
    assert_eq!(leaf_count(10), 1024);
    let padded = pad_leaves(vec![FieldElement::one()], 4);
    assert_eq!(padded.len(), 4);
    assert_eq!(padded[0], FieldElement::one());
    assert_eq!(padded[3], FieldElement::zero());
}

#[test]
fn every_voter_has_one_validator() {
    assert_eq!(voter_ranges(10, 4), vec![(0, 3), (3, 6), (6, 9), (9, 10)]);
    assert_eq!(voter_ranges(4, 3), vec![(0, 2), (2, 4)]);
    for (k, n) in [(1000, 7), (1, 1), (13, 4)] {
        let ranges = voter_ranges(k, n);
        for v in 0..k {
            assert_eq!(ranges.iter().filter(|r| r.0 <= v && v < r.1).count(), 1);
        }
    }
}

#[test]
fn common_inputs_are_planned() {
    let plan = plan_common_inputs("out", 4, 3, 10).unwrap();
    assert_eq!(plan.output_dir, "out/n4_t3_k10");
    assert_eq!(plan.merkle_height, 4);
    assert_eq!(plan.num_leaves, 16);
    assert_eq!(plan.ranges, vec![(0, 3), (3, 6), (6, 9), (9, 10)]);
    assert_eq!(plan.master_pk, run_dkg_simulation_for_data_generator(4, 3, 1234567890));
    assert!(plan_common_inputs("out", 4, 3, 0).is_none());
    assert_eq!(run_directory(4, 3, 10), "n4_t3_k10");
}

#[test]
fn workers_share_validators() {
    let (a, b) = worker_ranges(5);
    let mut covered: Vec<usize> = (a.0..=a.1).chain(b.0..=b.1).collect();
    covered.sort();
    assert_eq!(covered, vec![0, 1, 2, 3, 4]);
    assert_eq!(progress_report(10, 100), Some(10));
    assert_eq!(progress_report(11, 100), None);
}

fn text(step: &RemoteStep) -> String {
    match step {
        RemoteStep::Upload { local, remote } => format!("put {local} {remote}"),
        RemoteStep::Execute { command } => format!("run {command}"),
        RemoteStep::Compress { local } => format!("zip {local}"),
        RemoteStep::Download { remote, local } => format!("get {remote} {local}"),
    }
}

#[test]
fn workers_are_driven() {
    let steps: Vec<String> =
        upload_worker_files_for_range("d", 2, 3, "w.gz", "k.gz").iter().map(text).collect();
    assert_eq!(steps.len(), 12);
    assert_eq!(steps[0], "put w.gz zk_worker.gz");
    assert_eq!(steps[1], "run gzip -d -f zk_worker.gz && chmod +x zk_worker");
    assert_eq!(steps[5], "put d/crypto-config.yaml crypto-config.yaml");
    assert!(steps[6].starts_with("zip d/"));
    let args = WorkerArgs {
        committee_size: 4,
        threshold: 3,
        num_voters: 10,
        num_candidates: 2,
        election_id: "e".into(),
    };
    let run: Vec<String> = run_remote_worker(&args, 0, 1).iter().map(text).collect();
    assert_eq!(run[0], "run mkdir -p worker_out");
    assert_eq!(
        run[1],
        "run ./zk_worker --mode worker --committee-size 4 --threshold 3 --num-voters 10 \
         --num-candidates 2 --election-id e --input-dir . --worker-output-dir worker_out \
         --validator-start 0 --validator-end 1"
    );
    let back: Vec<String> = download_results("d", 0, 1).iter().map(text).collect();
    assert_eq!(back[1], "get worker_out/validator_1_txs.bin d/validator_1_txs.bin");
    assert!(download_results("d", 3, 2).is_empty());
    let nothing: Vec<String> =
        upload_worker_files_for_range("d", 3, 2, "w.gz", "k.gz").iter().map(text).collect();
    assert_eq!(nothing, steps[..6].to_vec());
    assert_eq!(remote_address("u", "h", "p"), "u@h:p");
    assert_eq!(choose_host("", "b"), "b");
    assert_eq!(choose_host("a", "b"), "a");
    assert!(instance_ready("Running", "dns"));
    assert!(!instance_ready("Running", "") && !instance_ready("Pending", "dns"));
}

#[test]
fn attempts_are_repeated() {
    assert_eq!(after_upload(1, false), Attempt::RetryAfterSeconds(5));
    assert_eq!(after_upload(9, false), Attempt::RetryAfterSeconds(45));
    assert_eq!(after_upload(10, false), Attempt::GiveUp);
    assert_eq!(after_upload(10, true), Attempt::Done);
    assert_eq!(after_connection(0, false), Attempt::RetryAfterSeconds(5));
    assert_eq!(after_connection(60, true), Attempt::GiveUp);
    assert_eq!(after_connection(59, true), Attempt::Done);
}

#[test]
fn transactions_are_sent_in_portions() {
    assert_eq!(transactions_per_block_interval(100), 10);
    assert_eq!(transactions_per_block_interval(101), 11);
    let transactions = (0..5u8).map(|i| Transaction::new(vec![i], 0)).collect();
    let mut generator = TransactionGenerator { transactions, per_interval: 3 };
    let GeneratorStep::Submit(first) = generator.next_step() else { panic!("no transactions") };
    assert_eq!(first.iter().map(|t| t.data[0]).collect::<Vec<_>>(), vec![0, 1, 2]);
    let GeneratorStep::Submit(second) = generator.next_step() else { panic!("no transactions") };
    assert_eq!(second.len(), 2);
    assert!(matches!(generator.next_step(), GeneratorStep::Finished));
    assert!(is_reported(10_000) && !is_reported(9_999));
}

fn compressed<T: CanonicalSerialize>(x: &T) -> Vec<u8> {
    let mut bytes = Vec::new();
    x.serialize_compressed(&mut bytes).unwrap();
    bytes
}

#[test]
fn keys_are_written_in_symbols() {
    let g1 = || G1::from_bytes(&compressed(&G1Affine::generator())).unwrap();
    let g2 = || G2::from_bytes(&compressed(&G2Affine::generator())).unwrap();
    for n in 0..3 {
        let vk = VerifyingKey {
            alpha_g1: g1(),
            beta_g2: g2(),
            gamma_g2: g2(),
            delta_g2: g2(),
            gamma_abc_g1: (0..n).map(|_| g1()).collect(),
        };
        let config = crypto_config(2, &FieldElement::from_u64(42), &vk, 7).unwrap();
        assert_eq!(config.merkle_root, "42");
        assert_eq!(config.verifying_key, STANDARD.encode(key_bytes(&vk)));
        assert_eq!(STANDARD.decode(&config.verifying_key).unwrap(), key_bytes(&vk));
    }
    assert!(G1::from_bytes(&[1, 2, 3]).is_none());
    assert_eq!(g1().to_bytes(), compressed(&G1Affine::generator()));
    assert_eq!(g2().to_bytes(), compressed(&G2Affine::generator()));
}
