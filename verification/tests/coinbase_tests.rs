use subtensor_coinbase::hotkeys::ParentStake;
use subtensor_coinbase::pallet::Pallet;
use subtensor_coinbase::types::AccountId;

fn acct(id: u64) -> AccountId {
    AccountId { id, hash: id }
}

#[test]
fn accumulate_hotkey_emission_sums_per_key() {
    let mut p = Pallet::new();
    let (a, b) = (acct(1), acct(2));
    p.pending_hotkey_emission.insert((a, 1), 5);
    let mut tuples = vec![(a, 1, 10), (b, 1, 7), (a, 1, 3), (a, 2, 4)];
    p.accumulate_hotkey_emission(&mut tuples);
    assert_eq!(p.get_pending_hotkey_emission_on_netuid(&a, 1), 18);
    assert_eq!(p.get_pending_hotkey_emission_on_netuid(&b, 1), 7);
    assert_eq!(p.get_pending_hotkey_emission_on_netuid(&a, 2), 4);
    assert_eq!(p.get_pending_hotkey_emission_on_netuid(&b, 2), 0);
    assert_eq!(tuples.len(), 4);
}

#[test]
fn accumulate_hotkey_emission_saturates_in_any_order() {
    let a = acct(1);
    let mut p1 = Pallet::new();
    let mut t1 = vec![(a, 1, u64::MAX - 1), (a, 1, 5), (a, 1, 1)];
    p1.accumulate_hotkey_emission(&mut t1);
    let mut p2 = Pallet::new();
    let mut t2 = vec![(a, 1, 1), (a, 1, 5), (a, 1, u64::MAX - 1)];
    p2.accumulate_hotkey_emission(&mut t2);
    assert_eq!(p1.get_pending_hotkey_emission_on_netuid(&a, 1), u64::MAX);
    assert_eq!(p2.get_pending_hotkey_emission_on_netuid(&a, 1), u64::MAX);
}

#[test]
fn accumulate_nominator_emission_updates_alpha() {
    let mut p = Pallet::new();
    let (h, c1, c2) = (acct(1), acct(2), acct(3));
    p.alpha.insert((h, c1, 4), 10);
    let mut tuples = vec![(h, c1, 4, 5), (h, c2, 4, 6), (h, c1, 5, 7)];
    p.accumulate_nominator_emission(&mut tuples);
    assert_eq!(p.alpha.get(&(h, c1, 4)), Some(&15));
    assert_eq!(p.alpha.get(&(h, c2, 4)), Some(&6));
    assert_eq!(p.alpha.get(&(h, c1, 5)), Some(&7));
    assert_eq!(p.total_hotkey_alpha.get(&(h, 4)), Some(&11));
    assert_eq!(p.total_hotkey_alpha.get(&(h, 5)), Some(&7));
}

#[test]
fn block_emission_reaches_subnets() {
    let mut p = Pallet::new();
    p.total_issuance = 1000;
    p.total_stake = 50;
    p.subnet_tao.insert(0, 600);
    p.subnet_tao.insert(1, 100);
    p.subnet_tao.insert(2, 300);
    p.subnet_mechanism.insert(1, 1);
    p.pending_emission.insert(2, 1);
    let be = 1_000_000_000u64;
    assert_eq!(p.distribute_block_emission(&vec![0, 1, 2], be), Ok(()));
    // Root gets nothing.
    assert_eq!(p.subnet_tao.get(&0), Some(&600));
    assert_eq!(p.get_subnet_emission_value(0), 0);
    assert_eq!(p.pending_emission.get(&0), None);
    // Dynamic subnet 1: its TAO share into TAO, the whole block into alpha and pending.
    assert_eq!(p.get_subnet_emission_value(1), 99_999_999);
    assert_eq!(p.subnet_tao.get(&1), Some(&(100 + 99_999_999)));
    assert_eq!(p.subnet_alpha_in.get(&1), Some(&be));
    assert_eq!(p.pending_emission.get(&1), Some(&be));
    // Stable subnet 2: its TAO share into TAO and pending, proportion from the issuance read once.
    assert_eq!(p.get_subnet_emission_value(2), 299_999_999);
    assert_eq!(p.subnet_tao.get(&2), Some(&(300 + 299_999_999)));
    assert_eq!(p.subnet_alpha_in.get(&2), None);
    assert_eq!(p.pending_emission.get(&2), Some(&(1 + 299_999_999)));
    assert_eq!(p.total_issuance, 1000 + 99_999_999 + 299_999_999);
    assert_eq!(p.total_stake, 50 + 99_999_999 + 299_999_999);
}

#[test]
fn block_emission_without_issuance() {
    let mut p = Pallet::new();
    p.subnet_tao.insert(1, 5);
    assert_eq!(p.distribute_block_emission(&vec![1], 5), Ok(()));
    assert_eq!(p.get_subnet_emission_value(1), 0);
    assert_eq!(p.subnet_tao.get(&1), Some(&5));
    assert_eq!(p.pending_emission.get(&1), Some(&0));
}

#[test]
fn block_emission_too_large_for_u64() {
    let mut p = Pallet::new();
    p.total_issuance = 1;
    p.subnet_tao.insert(1, 1);
    p.subnet_tao.insert(2, 1 << 40);
    p.subnet_tao.insert(3, 1);
    assert_eq!(p.distribute_block_emission(&vec![1, 2, 3], 1 << 40), Err(2));
    // The subnet before the failing one was served.
    assert_eq!(p.get_subnet_emission_value(1), 1 << 40);
    assert_eq!(p.get_subnet_emission_value(3), 0);
}

#[test]
fn subnet_drains_on_its_epoch() {
    let mut p = Pallet::new();
    p.tempo.insert(1, 2);
    p.pending_emission.insert(1, 1000);
    p.subnet_owner_cut = 11796;
    p.blocks_since_last_step.insert(1, 9);
    // Runs at block 3: (3 + 1 + 1) % 3 == 2, the tempo.
    assert_eq!(p.drain_subnet_emission(1, 2), None);
    assert_eq!(p.pending_emission.get(&1), Some(&1000));
    assert_eq!(p.drain_subnet_emission(1, 3), Some((179, 821)));
    assert_eq!(p.pending_emission.get(&1), Some(&0));
    assert_eq!(p.blocks_since_last_step.get(&1), Some(&0));
    assert_eq!(p.last_mechanism_step_block.get(&1), Some(&3));
}

#[test]
fn subnet_with_zero_tempo_never_drains() {
    let mut p = Pallet::new();
    p.pending_emission.insert(4, 10);
    for b in 0..20u64 {
        assert_eq!(p.drain_subnet_emission(4, b), None);
    }
    assert_eq!(p.pending_emission.get(&4), Some(&10));
}

#[test]
fn epoch_emission_stays_within_limit() {
    let p = Pallet::new();
    let outputs = vec![(acct(1), 500, 1000), (acct(2), 0, 7)];
    let parents = vec![
        vec![ParentStake { proportion: u64::MAX, parent: acct(3), global: 10, alpha: 10 }],
        vec![],
    ];
    let mut tuples = Vec::new();
    let mut limit = 0u64;
    p.source_epoch_emission(1, &outputs, &parents, 1 << 31, &mut tuples, &mut limit);
    assert_eq!(limit, 1507);
    let total: u64 = tuples.iter().map(|t| t.2).sum();
    assert_eq!(total, 1507);
    assert_eq!(tuples, vec![(acct(3), 1, 1000), (acct(1), 1, 500), (acct(2), 1, 7)]);
}

#[test]
fn hotkeys_drain_and_their_drain_block_is_recorded() {
    let mut p = Pallet::new();
    // Tempo 1: period 2; even hashes drain at even blocks.
    let (even, odd) = (AccountId { id: 1, hash: 4 }, AccountId { id: 2, hash: 5 });
    p.pending_hotkey_emission.insert((odd, 1), 30);
    p.pending_hotkey_emission.insert((even, 1), 10);
    p.pending_hotkey_emission.insert((even, 2), 20);
    p.last_hotkey_emission_drain.insert(odd, 77);
    let drained = p.drain_hotkey_emission(6, 1);
    assert_eq!(drained, vec![(even, 1, 10), (even, 2, 20)]);
    assert_eq!(p.get_pending_hotkey_emission_on_netuid(&even, 1), 0);
    assert_eq!(p.get_pending_hotkey_emission_on_netuid(&odd, 1), 30);
    // Drained plus kept is what was pending.
    let drained_total: u64 = drained.iter().map(|d| d.2).sum();
    assert_eq!(drained_total + p.get_pending_hotkey_emission_on_netuid(&odd, 1), 60);
    // The drained hotkey's drain block is recorded; the other keeps its own.
    assert_eq!(p.last_hotkey_emission_drain.get(&even), Some(&6));
    assert_eq!(p.last_hotkey_emission_drain.get(&odd), Some(&77));
}

#[test]
fn nothing_to_drain_records_nothing() {
    let mut p = Pallet::new();
    let odd = AccountId { id: 2, hash: 5 };
    p.pending_hotkey_emission.insert((odd, 1), 10);
    assert_eq!(p.drain_hotkey_emission(8, 1), vec![]);
    assert_eq!(p.last_hotkey_emission_drain.get(&odd), None);
    assert_eq!(p.get_pending_hotkey_emission_on_netuid(&odd, 1), 10);
}

#[test]
fn drained_emission_reaches_nominators() {
    let mut p = Pallet::new();
    let (h, c, owner) = (acct(1), acct(2), acct(3));
    p.owner.insert(h, owner);
    p.alpha.insert((h, c, 1), 10);
    let drained = vec![(h, 1, 100), (h, 2, 50)];
    let nominators = vec![vec![(c, 0)], vec![]];
    let mut tuples = Vec::new();
    let mut limit = 0u64;
    p.source_drained_emission(&drained, &nominators, 0, 9, &mut tuples, &mut limit);
    assert_eq!(limit, 150);
    assert_eq!(tuples, vec![(h, c, 1, 100), (h, owner, 1, 0), (h, owner, 2, 50)]);
}

#[test]
fn accumulate_in_two_calls_or_one() {
    let (a, b) = (acct(1), acct(2));
    let first = vec![(a, 1, 10), (b, 1, 7)];
    let second = vec![(a, 1, 3), (b, 2, 4)];
    let mut p1 = Pallet::new();
    p1.accumulate_hotkey_emission(&mut first.clone());
    p1.accumulate_hotkey_emission(&mut second.clone());
    let mut p2 = Pallet::new();
    let mut both: Vec<_> = first.iter().chain(second.iter()).cloned().collect();
    p2.accumulate_hotkey_emission(&mut both);
    for key in [(a, 1), (b, 1), (b, 2), (a, 2)] {
        assert_eq!(
            p1.get_pending_hotkey_emission_on_netuid(&key.0, key.1),
            p2.get_pending_hotkey_emission_on_netuid(&key.0, key.1)
        );
    }
    assert_eq!(p1.get_pending_hotkey_emission_on_netuid(&a, 1), 13);
    let mut p3 = Pallet::new();
    p3.accumulate_hotkey_emission(&mut vec![]);
    assert_eq!(p3.pending_hotkey_emission.len(), 0);
}

#[test]
fn one_drain_in_each_window() {
    let hotkey = AccountId { id: 3, hash: 1234567 };
    let tempo = 6u64;
    for start in 0..30u64 {
        let n = (start..=start + tempo).filter(|b| Pallet::should_drain_hotkey(&hotkey, *b, tempo)).count();
        assert_eq!(n, 1);
    }
}
