use subtensor_coinbase::pallet::Pallet;
use subtensor_coinbase::types::{AccountId, TensorBytes};

fn acct(id: u64) -> AccountId {
    AccountId { id, hash: id }
}

#[test]
fn missing_subnet_has_no_state() {
    let mut p = Pallet::new();
    assert!(p.get_subnet_state(1).is_none());
    p.networks_added.insert(1, false);
    assert!(p.get_subnet_state(1).is_none());
}

#[test]
fn subnet_state_collects_storage() {
    let mut p = Pallet::new();
    p.networks_added.insert(0, true);
    p.networks_added.insert(3, true);
    p.subnetwork_n.insert(3, 2);
    p.keys.insert((3, 0), acct(10));
    p.keys.insert((3, 1), acct(11));
    p.owner.insert(acct(10), acct(20));
    p.block_at_registration.insert((3, 1), 42);
    p.active.insert(3, vec![true, false]);
    p.rank.insert(3, vec![7, 8]);
    p.local_stake.insert(3, vec![5, 6]);
    p.last_hotkey_emission_on_netuid.insert((acct(11), 3), 99);
    p.last_hotkey_emission_on_netuid.insert((acct(10), 0), 1);
    let st = p.get_subnet_state(3).unwrap();
    assert_eq!(st.netuid, 3);
    assert_eq!(st.hotkeys, vec![acct(10), acct(11)]);
    assert_eq!(st.coldkeys, vec![acct(20), AccountId { id: 0, hash: 0 }]);
    assert_eq!(st.block_at_registration, vec![0, 42]);
    assert_eq!(st.active, vec![true, false]);
    assert_eq!(st.validator_permit, Vec::<bool>::new());
    assert_eq!(st.rank, vec![7, 8]);
    assert_eq!(st.trust, Vec::<u16>::new());
    assert_eq!(st.local_stake, vec![5, 6]);
    assert_eq!(st.global_stake, vec![0, 0]);
    assert_eq!(st.stake_weight, vec![0, 0]);
    assert_eq!(st.emission_history, vec![vec![1, 0], vec![0, 99]]);
}

#[test]
fn emissions_history_per_subnet_and_hotkey() {
    let mut p = Pallet::new();
    p.networks_added.insert(2, true);
    p.networks_added.insert(1, true);
    p.last_hotkey_emission_on_netuid.insert((acct(5), 1), 11);
    p.last_hotkey_emission_on_netuid.insert((acct(6), 2), 22);
    assert_eq!(p.get_all_subnet_netuids(), vec![2, 1]);
    let h = p.get_emissions_history(&vec![acct(5), acct(6)]);
    assert_eq!(h, vec![vec![0, 22], vec![11, 0]]);
    assert_eq!(p.get_emissions_history(&vec![]), vec![Vec::<u64>::new(), Vec::new()]);
}

#[test]
fn tensor_bytes_round_trip() {
    let t = TensorBytes::from(vec![1u8, 2, 3]);
    assert_eq!(t.as_ref(), &[1u8, 2, 3][..]);
    assert_eq!(t.as_bytes_ref(), &[1u8, 2, 3][..]);
    assert_eq!(t.0, vec![1, 2, 3]);
}
