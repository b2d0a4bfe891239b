use mysticeti_vote::ballot::{encrypt_ballot, nullifier_of, one_hot};
use mysticeti_vote::curve::Point;
use mysticeti_vote::dkg::{
    get_dkg_rng_for_participant, rng_at_seed, run_dkg_simulation_for_data_generator, verify_all,
    ShareMessage,
};
use mysticeti_vote::dkg_manager::{CollectStep, DkgManager, ShortCommitments};
use mysticeti_vote::elgamal::{
    aggregate_pk_from_individual_pks, combine_shares_threshold, ct_sum, decode_vote,
    elgamal_encrypt, encode_vote, eval_poly, feldman_commitments, lagrange_at_zero,
    partial_decrypt_share, pk_from_commitments, reconstruct_secret, shamir_split_with_commitments,
    split_polynomial, verify_share_with_commitments, Share,
};
use mysticeti_vote::field::{FieldElement, Scalar};
use mysticeti_vote::net_sync::{
    all_peers_connected, block_verdict, on_block, request_is_allowed, BlockRejection, TimeAction,
    TimeEvent, TimeKeeper, LEADER_TIMEOUT, MAXIMUM_BLOCK_REQUEST,
};
use mysticeti_vote::nullifier::{stored_key, NullifierDB};
use mysticeti_vote::orchestrator::settings::Ipv4;
use mysticeti_vote::pairing::{G1, G2};
use mysticeti_vote::poseidon::setup_poseidon_params;
use mysticeti_vote::tally::{
    combine_parts, decode_points, encode_points, partial_decryptions, perform_full_decryption,
    perform_he_aggregation, perform_partial_decryption,
};
use mysticeti_vote::test_util::committee;
use mysticeti_vote::validator::{
    listening_addresses, Endpoint, PublicAddresses, StartAction, Startup,
};
use mysticeti_vote::zkp::{Proof, VoteTransaction, ZkError};
use ark_bls12_381::{Fr, G1Affine, G2Affine};
use ark_crypto_primitives::crh::poseidon::CRH;
use ark_crypto_primitives::crh::CRHScheme;
use ark_crypto_primitives::sponge::poseidon::{find_poseidon_ark_and_mds, PoseidonConfig};
use ark_ec::AffineRepr;
use ark_ff::{PrimeField, UniformRand};
use ark_serialize::CanonicalSerialize;
use ark_std::rand::rngs::StdRng;
use ark_std::rand::SeedableRng;

fn scalar(v: u64) -> Scalar {
    Scalar::from_u64(v)
}

#[test]
fn polynomials_are_evaluated() {
    let coeffs = [scalar(5), scalar(3), scalar(2)];
    assert_eq!(eval_poly(&coeffs, scalar(4)), scalar(5 + 12 + 32));
    assert_eq!(eval_poly(&[], scalar(4)), scalar(0));
}

#[test]
fn shares_are_checked_and_put_together() {
    let g = Point::generator();
    let coeffs = [scalar(42), scalar(7), scalar(9)];
    let (shares, commits) = split_polynomial(&coeffs, 5, g);
    assert_eq!(commits, feldman_commitments(&coeffs, g));
    assert_eq!(shares.len(), 5);
    assert_eq!(shares[1].value, scalar(42 + 14 + 36));
    for share in &shares {
        assert!(verify_share_with_commitments(share, &commits, g));
    }
    let forged = Share { index: shares[0].index, value: scalar(1) };
    assert!(!verify_share_with_commitments(&forged, &commits, g));
    let misplaced = Share { index: 2, value: shares[0].value };
    assert!(!verify_share_with_commitments(&misplaced, &commits, g));
    let chosen = [shares[4], shares[0], shares[2]];
    assert_eq!(reconstruct_secret(&chosen), scalar(42));
    assert_ne!(reconstruct_secret(&chosen[..2]), scalar(42));
    assert_eq!(pk_from_commitments(&commits), encode_vote(42, &g));
    assert_eq!(lagrange_at_zero(1, &[1]), scalar(1));
    assert_eq!(lagrange_at_zero(1, &[1, 2]), scalar(2));
}

#[test]
fn votes_are_encrypted_summed_and_decrypted() {
    let g = Point::generator();
    let mut rng = rng_at_seed(3);
    let (shares, _, commits) = shamir_split_with_commitments(scalar(99), 3, 5, g, &mut rng);
    let pk = pk_from_commitments(&commits);
    assert_eq!(pk, encode_vote(99, &g));
    let votes = [1u64, 0, 1, 1];
    let cts: Vec<(Point, Point)> = votes
        .iter()
        .enumerate()
        .map(|(i, v)| elgamal_encrypt(&encode_vote(*v, &g), &pk, &g, scalar(i as u64 + 5)))
        .collect();
    assert_eq!(cts[0].0, encode_vote(5, &g));
    let (c1, c2) = ct_sum(&cts);
    let parts: Vec<(u64, Point)> = shares[1..4]
        .iter()
        .map(|s| (s.index, partial_decrypt_share(&c1, s.value)))
        .collect();
    let chosen: Vec<u64> = parts.iter().map(|p| p.0).collect();
    let message = combine_shares_threshold(&c2, &parts, &chosen);
    assert_eq!(decode_vote(&message, &g, 10), Some(3));
    assert_eq!(decode_vote(&message, &g, 2), None);
    let mut other: Vec<(u64, Point)> = parts.iter().rev().copied().collect();
    other.insert(1, (9, g));
    assert_eq!(combine_shares_threshold(&c2, &other, &chosen), message);
    let h = encode_vote(7, &g);
    assert_eq!(decode_vote(&encode_vote(4, &h), &h, 5), Some(4));
    assert_eq!(decode_vote(&encode_vote(4, &h), &h, 3), None);
    assert_eq!(decode_vote(&Point::identity(), &g, 0), Some(0));
    assert!(ct_sum(&[]).0.is_zero());
    let double = aggregate_pk_from_individual_pks(&[pk, pk]);
    assert_eq!(double, encode_vote(198, &g));
}

#[test]
fn seeds_determine_what_is_drawn() {
    let g = Point::generator();
    let mut a = get_dkg_rng_for_participant(7, 1);
    let mut b = rng_at_seed(8);
    let x = shamir_split_with_commitments(scalar(1), 2, 3, g, &mut a);
    let y = shamir_split_with_commitments(scalar(1), 2, 3, g, &mut b);
    assert_eq!(x.2, y.2);
    let mut c = rng_at_seed(9);
    let z = shamir_split_with_commitments(scalar(1), 2, 3, g, &mut c);
    assert_ne!(x.2, z.2);
}

#[test]
fn messages_with_shares_are_checked() {
    let g = Point::generator();
    let (shares, commits) = split_polynomial(&[scalar(4), scalar(6)], 2, g);
    let message = |to: usize, value| ShareMessage { from: 1, to: to as u64, value };
    let good = [message(1, shares[0].value), message(2, shares[1].value)];
    let all = [commits];
    assert!(verify_all(&good, &all, g));
    let bad = [message(1, shares[0].value), message(2, shares[0].value)];
    assert!(!verify_all(&bad, &all, g));
}

fn generate_keys(n: u64) -> Vec<DkgManager> {
    let members = committee(n as usize);
    let mut all: Vec<DkgManager> = (0..n).map(|i| DkgManager::new(i, &members, 1234567890)).collect();
    for i in 0..n {
        for j in 0..n {
            assert!(!all[i as usize].register_peer(j));
        }
        assert_eq!(all[i as usize].get_connected_peer_count(), n as usize - 1);
    }
    let mut shares: Vec<(u64, u64, Share)> = Vec::new();
    for m in all.iter_mut() {
        let (peers, sends) = m.begin().unwrap().unwrap();
        assert_eq!(peers.len(), n as usize - 1);
        assert!(sends.is_empty());
        assert_eq!(m.begin(), Ok(None));
        assert!(m.get_keys().is_none());
    }
    for i in 0..n {
        for j in 0..n {
            if i != j {
                let commits = all[j as usize].commitments().clone();
                for (to, share) in all[i as usize].accept_commitment(j, commits).unwrap() {
                    shares.push((i, to, share));
                }
            }
        }
    }
    assert_eq!(shares.len(), (n * (n - 1)) as usize);
    for (from, to, share) in shares {
        all[to as usize].accept_share(from, share).unwrap();
    }
    all
}

#[test]
fn messages_of_the_key_generation_come_in_any_order() {
    let members = committee(3);
    let seed = 1234567890;
    let fresh = |i| DkgManager::new(i, &members, seed);
    let mut all: Vec<DkgManager> = (0..3).map(fresh).collect();
    for m in all.iter_mut() {
        m.register_peer(1);
        m.begin().unwrap().unwrap();
    }
    let commits: Vec<Vec<Point>> = all.iter().map(|m| m.commitments().clone()).collect();
    let mut sent = vec![Vec::new(); 3];
    for i in [0, 2] {
        for j in (0..3).filter(|j| *j != i) {
            sent[i].extend(all[i].accept_commitment(j as u64, commits[j].clone()).unwrap());
        }
    }
    let share = |j: usize| {
        assert_eq!((sent[j].len(), sent[j][0].0), (1, 1));
        sent[j][0].1
    };
    let mut m = fresh(1);
    m.accept_share(2, share(2)).unwrap();
    m.accept_commitment(0, commits[0].clone()).unwrap();
    m.accept_share(2, share(2)).unwrap();
    m.accept_commitment(2, commits[2].clone()).unwrap();
    m.accept_commitment(2, commits[2].clone()).unwrap();
    assert!(m.get_keys().is_none());
    assert!(m.begin().unwrap().is_some());
    assert_eq!(m.commitments(), &commits[1]);
    assert!(m.get_keys().is_none());
    m.accept_share(0, share(0)).unwrap();
    let keys = m.get_keys().unwrap();
    assert_eq!(keys.0, run_dkg_simulation_for_data_generator(3, 3, seed));
    m.accept_share(0, share(0)).unwrap();
    assert_eq!(m.get_keys(), Some(keys));
}

#[test]
fn participants_agree_on_the_key() {
    let all = generate_keys(4);
    let keys: Vec<(Point, Scalar)> = all.iter().map(|m| m.get_keys().unwrap()).collect();
    assert!(keys.iter().all(|k| k.0 == keys[0].0));
    assert_eq!(keys[0].0, run_dkg_simulation_for_data_generator(4, 3, 1234567890));
    let shares: Vec<Share> = keys
        .iter()
        .enumerate()
        .map(|(i, k)| Share { index: i as u64 + 1, value: k.1 })
        .collect();
    let secret = reconstruct_secret(&shares[..3]);
    assert_eq!(secret, reconstruct_secret(&shares[1..]));
    let g = Point::generator();
    assert_eq!(elgamal_encrypt(&Point::identity(), &keys[0].0, &g, scalar(1)).1, keys[0].0);
    let of_secret = elgamal_encrypt(&Point::identity(), &g, &g, secret).0;
    assert_eq!(of_secret, keys[0].0);
}

#[test]
fn early_shares_wait_and_short_commitments_are_refused() {
    let members = committee(4);
    let mut m = DkgManager::new(0, &members, 5);
    let other = Share { index: 1, value: scalar(3) };
    m.accept_share(1, other).unwrap();
    m.begin().unwrap();
    m.accept_commitment(1, vec![Point::generator()]).unwrap();
    m.accept_commitment(2, vec![Point::generator()]).unwrap();
    assert_eq!(m.accept_commitment(3, vec![Point::generator()]), Err(ShortCommitments));
    assert!(m.get_keys().is_none());
    m.register_peer(2);
    m.unregister_peer(2);
    assert_eq!(m.get_connected_peer_count(), 0);
    assert!(m.register_peer(3));
}

fn unproved(choice: usize, pk: &Point, r: u64, nullifier: u64) -> VoteTransaction {
    let compressed = |x: &dyn Fn(&mut Vec<u8>)| {
        let mut bytes = Vec::new();
        x(&mut bytes);
        bytes
    };
    let g1 = || {
        G1::from_bytes(&compressed(&|b| G1Affine::generator().serialize_compressed(b).unwrap()))
            .unwrap()
    };
    let g2 =
        G2::from_bytes(&compressed(&|b| G2Affine::generator().serialize_compressed(b).unwrap()))
            .unwrap();
    VoteTransaction {
        proof: Proof { a: g1(), b: g2, c: g1() },
        nullifier: FieldElement::from_u64(nullifier),
        enc_vote_vec: encrypt_ballot(&one_hot(3, choice), pk, &Point::generator(), scalar(r)),
    }
}

#[test]
fn the_tally_counts_votes() {
    let mut all = generate_keys(4);
    let keys: Vec<(Point, Scalar)> = all.iter().map(|m| m.get_keys().unwrap()).collect();
    let pk = keys[0].0;
    let votes: Vec<Option<VoteTransaction>> = [0usize, 2, 2, 1, 2]
        .iter()
        .enumerate()
        .map(|(i, c)| Some(unproved(*c, &pk, 100 + i as u64, i as u64)))
        .chain([None])
        .collect();
    let tallies = perform_he_aggregation(&votes);
    assert_eq!(tallies.len(), 3);
    let parts: Vec<(u64, Vec<u8>)> = keys[1..]
        .iter()
        .enumerate()
        .map(|(i, k)| (i as u64 + 1, perform_partial_decryption(&tallies, k.1)))
        .collect();
    assert_eq!(perform_full_decryption(&tallies, &parts), Some(vec![1, 1, 3]));
    let read: Vec<(u64, Vec<Point>)> =
        parts.iter().map(|p| (p.0 + 1, decode_points(&p.1).unwrap())).collect();
    assert_eq!(read[0].1, partial_decryptions(&tallies, keys[1].1));
    assert_eq!(combine_parts(&tallies, &read), vec![1, 1, 3]);
    let members: Vec<(u64, Vec<u8>)> = keys[..3]
        .iter()
        .enumerate()
        .map(|(i, k)| (i as u64, perform_partial_decryption(&tallies, k.1)))
        .collect();
    assert_eq!(perform_full_decryption(&tallies, &members), Some(vec![1, 1, 3]));
    assert_eq!(perform_full_decryption(&tallies, &vec![(1, vec![1, 2])]), None);
    assert_eq!(perform_full_decryption(&Vec::new(), &vec![(1, vec![1, 2])]), Some(vec![]));
    assert!(perform_he_aggregation(&vec![None]).is_empty());

    let m = &mut all[0];
    assert!(matches!(m.begin_collect(), CollectStep::Wait));
    assert!(!m.handle_partial_decryption(1, vec![1]));
    assert!(!m.handle_partial_decryption(2, vec![2]));
    assert!(!m.handle_partial_decryption(2, vec![2]));
    assert!(m.handle_partial_decryption(3, vec![3]));
    let collected = m.finish_collect();
    assert_eq!(collected.len(), 3);
    assert!(m.get_keys().is_some());
    let (peers, enough) = all[1].broadcast_partial_decryption(vec![9]).unwrap();
    assert_eq!((peers.len(), enough), (3, false));
    let members = committee(4);
    let mut idle = DkgManager::new(0, &members, 5);
    assert!(matches!(idle.begin_collect(), CollectStep::NotComplete));
    assert!(idle.broadcast_partial_decryption(vec![]).is_none());
}

#[test]
fn points_are_written_and_read() {
    let g = Point::generator();
    let points = vec![g, Point::identity(), encode_vote(12, &g)];
    let bytes = encode_points(&points);
    assert_eq!(bytes.len(), 8 + 3 * 32);
    assert_eq!(decode_points(&bytes), Some(points));
    assert_eq!(decode_points(&bytes[..50].to_vec()), None);
    assert_eq!(decode_points(&encode_points(&Vec::new())), Some(Vec::new()));
}

#[test]
fn nullifiers_are_taken_once() {
    let one = FieldElement::from_u64(1);
    let two = FieldElement::from_u64(2);
    let mut db = NullifierDB::new();
    assert!(db.verify(&one));
    assert!(!db.verify(&one));
    assert!(!db.commit(&one));
    db.unlock_batch(&vec![one]);
    assert!(db.verify(&one));
    assert!(db.commit(&two));
    assert!(!db.commit(&two));
    db.commit_batch(&vec![one, two]);
    assert!(!db.verify(&one) && !db.verify(&two));
    let mut expected = vec![0u8; 32];
    expected[0] = 2;
    assert_eq!(stored_key(&two), expected);
    assert_ne!(stored_key(&one), stored_key(&two));
}

fn reference_config(skip: u64) -> PoseidonConfig<Fr> {
    let (ark, mds) = find_poseidon_ark_and_mds::<Fr>(255, 2, 8, 31, skip);
    PoseidonConfig::new(8, 31, 17, mds, ark, 2, 1)
}

#[test]
fn a_voter_has_one_nullifier() {
    let params = setup_poseidon_params();
    let cred = FieldElement::from_u64(1000);
    let expected = CRH::evaluate(
        &reference_config(1),
        [Fr::from_le_bytes_mod_order(b"NF"), Fr::from(1000u64)],
    )
    .unwrap();
    assert_eq!(nullifier_of(&params.2, &cred).limbs(), expected.into_bigint().0);
    assert_ne!(nullifier_of(&params.2, &cred), nullifier_of(&params.2, &FieldElement::one()));
    let mut rng = StdRng::seed_from_u64(1);
    let x = Fr::rand(&mut rng).into_bigint().0;
    assert_eq!(FieldElement::from_limbs(x).unwrap().limbs(), x);
    assert!(FieldElement::from_limbs([u64::MAX; 4]).is_none());
    assert!(Scalar::from_limbs([u64::MAX; 4]).is_none());
}

#[test]
fn blocks_are_judged() {
    assert_eq!(block_verdict(Ok(true), Some(true)), Ok(()));
    assert_eq!(block_verdict(Ok(true), Some(false)), Err(BlockRejection::NullifierDuplicate));
    assert_eq!(block_verdict(Ok(true), None), Err(BlockRejection::NullifierDbError));
    assert_eq!(block_verdict(Ok(false), None), Err(BlockRejection::ZkInvalidBatchProof));
    assert_eq!(
        block_verdict(Err(ZkError::Unsatisfiable), None),
        Err(BlockRejection::ZkVerificationError)
    );
    assert_eq!(on_block(true, true, true), Some(vec![false]));
    assert_eq!(on_block(true, false, false), Some(vec![true, false]));
    assert_eq!(on_block(true, false, true), None);
    assert_eq!(on_block(false, true, false), None);
    assert!(request_is_allowed(MAXIMUM_BLOCK_REQUEST));
    assert!(!request_is_allowed(MAXIMUM_BLOCK_REQUEST + 1));
    assert!(all_peers_connected(3, 4) && !all_peers_connected(2, 4));
}

#[test]
fn time_is_kept() {
    let mut keeper = TimeKeeper::new();
    assert_eq!(keeper.leader_timeout(), Some(LEADER_TIMEOUT));
    assert_eq!(keeper.on_event(TimeEvent::LeaderTimeout), TimeAction::ForceBlock);
    assert_eq!(keeper.on_event(TimeEvent::NewBlock), TimeAction::Wait);
    assert_eq!(keeper.on_event(TimeEvent::EpochOver), TimeAction::StartTally);
    assert_eq!(keeper.on_event(TimeEvent::EpochOver), TimeAction::Wait);
    assert_eq!(keeper.leader_timeout(), None);
    assert_eq!(keeper.on_event(TimeEvent::TallyDone), TimeAction::Stop);
    assert_eq!(keeper.on_event(TimeEvent::Stopped), TimeAction::Stop);
    assert_eq!(TimeKeeper::shutdown_delay(0, 50, 10), None);
    assert_eq!(TimeKeeper::shutdown_delay(45, 50, 10), Some(5));
    assert_eq!(TimeKeeper::shutdown_delay(10, 50, 10), Some(0));
    assert_eq!(TimeKeeper::shutdown_delay(60, 50, 10), Some(10));
}

#[test]
fn a_node_starts() {
    let e = |d, port| Endpoint { ip: Ipv4 { a: 10, b: 0, c: 0, d }, port };
    let config = PublicAddresses { network: vec![e(1, 1500), e(2, 1501)], metrics: vec![e(1, 1600)] };
    let any = Ipv4 { a: 0, b: 0, c: 0, d: 0 };
    assert_eq!(
        listening_addresses(&config, 0),
        Ok((Endpoint { ip: any, port: 1500 }, Endpoint { ip: any, port: 1600 }))
    );
    assert_eq!(
        listening_addresses(&config, 1),
        Err("No metrics address for authority 1".to_string())
    );
    assert_eq!(
        listening_addresses(&config, 2),
        Err("No network address for authority 2".to_string())
    );
    let mut start = Startup::new(4);
    let keys = (Point::generator(), scalar(5));
    assert_eq!(start.on_peers(2), StartAction::Wait);
    assert_eq!(start.on_keys(keys), StartAction::Wait);
    assert_eq!(start.on_peers(3), StartAction::StartKeyGeneration);
    assert_eq!(start.on_peers(3), StartAction::Wait);
    assert_eq!(start.on_keys(keys), StartAction::StartGenerator);
    assert_eq!(start.share, Some(scalar(5)));
}
