use subtensor_coinbase::pallet::Pallet;
use subtensor_coinbase::types::AccountId;

#[test]
fn first_epoch_block_table() {
    // tempo | netuid | first epoch block
    assert_eq!(Pallet::blocks_until_next_epoch(0, 1, 0), 0);
    assert_eq!(Pallet::blocks_until_next_epoch(1, 1, 0), 1);
    assert_eq!(Pallet::blocks_until_next_epoch(0, 2, 0), 1);
    assert_eq!(Pallet::blocks_until_next_epoch(1, 2, 0), 0);
    assert_eq!(Pallet::blocks_until_next_epoch(0, 100, 0), 99);
    assert_eq!(Pallet::blocks_until_next_epoch(1, 100, 0), 98);
}

#[test]
fn zero_tempo_never_runs() {
    assert_eq!(Pallet::blocks_until_next_epoch(0, 0, 0), u64::MAX);
    assert_eq!(Pallet::blocks_until_next_epoch(7, 0, 12345), u64::MAX);
    let p = Pallet::new();
    for block in 0..50u64 {
        assert!(!p.should_run_epoch(3, block));
    }
}

#[test]
fn countdown_steps_down_to_the_epoch() {
    let netuid = 3u16;
    let tempo = 10u16;
    let mut block = 100u64;
    let mut r = Pallet::blocks_until_next_epoch(netuid, tempo, block);
    assert!(r <= tempo as u64);
    while r > 0 {
        block += 1;
        let next = Pallet::blocks_until_next_epoch(netuid, tempo, block);
        assert_eq!(next, r - 1);
        r = next;
    }
    // Runs again one period later.
    assert_eq!(Pallet::blocks_until_next_epoch(netuid, tempo, block + tempo as u64 + 1), 0);
}

#[test]
fn block_number_wraps_around() {
    // (u64::MAX + 0 + 1) wraps to 0, a multiple of every period.
    assert_eq!(Pallet::blocks_until_next_epoch(0, 5, u64::MAX), 5);
    assert_eq!(Pallet::blocks_until_next_epoch(1, 5, u64::MAX), 4);
}

#[test]
fn should_run_epoch_reads_stored_tempo() {
    let mut p = Pallet::new();
    p.tempo.insert(1, 2);
    assert!(p.should_run_epoch(1, 0));
    assert!(!p.should_run_epoch(1, 1));
    assert!(!p.should_run_epoch(1, 2));
    assert!(p.should_run_epoch(1, 3));
}

#[test]
fn drain_once_per_period() {
    let hotkey = AccountId { id: 9, hash: 17 };
    let tempo = 4u64;
    let drained: Vec<u64> = (0..20u64).filter(|b| Pallet::should_drain_hotkey(&hotkey, *b, tempo)).collect();
    assert_eq!(drained, vec![2, 7, 12, 17]);
}

#[test]
fn drain_with_zero_and_max_tempo() {
    let hotkey = AccountId { id: 1, hash: 5 };
    for b in 0..10u64 {
        assert!(Pallet::should_drain_hotkey(&hotkey, b, 0));
    }
    assert!(Pallet::should_drain_hotkey(&hotkey, 5, u64::MAX));
    assert!(!Pallet::should_drain_hotkey(&hotkey, 6, u64::MAX));
}
