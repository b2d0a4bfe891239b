use mysticeti_vote::dkg::run_dkg_simulation_for_data_generator;

#[test]
fn test_deterministic_dkg_simulation() {
    let n = 40;
    let t = (n * 2 / 3) + 1;
    let global_seed_1 = 12345_u64;
    let global_seed_2 = 67890_u64;

    let pk1 = run_dkg_simulation_for_data_generator(n, t, global_seed_1);
    let pk2 = run_dkg_simulation_for_data_generator(n, t, global_seed_1);
    let pk3 = run_dkg_simulation_for_data_generator(n, t, global_seed_2);

    assert_eq!(pk1, pk2);
    assert_ne!(pk1, pk3);
}
