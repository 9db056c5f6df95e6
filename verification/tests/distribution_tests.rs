use subtensor_coinbase::hotkeys::ParentStake;
use subtensor_coinbase::pallet::Pallet;
use subtensor_coinbase::types::AccountId;

fn acct(id: u64) -> AccountId {
    AccountId { id, hash: id * 7 }
}

const HALF: i128 = 1 << 31;
const QUARTER: i128 = 1 << 30;

#[test]
fn nominators_share_by_alpha() {
    let hk = acct(1);
    let (c1, c2, owner) = (acct(2), acct(3), acct(4));
    let mut p = Pallet::new();
    p.alpha.insert((hk, c1, 5), 100);
    p.alpha.insert((hk, c2, 5), 300);
    p.owner.insert(hk, owner);
    let mut tuples = Vec::new();
    p.source_nominator_emission(&hk, 5, 1000, 0, &vec![(c1, 0), (c2, 0)], 0, &mut tuples);
    assert_eq!(tuples, vec![(hk, c1, 5, 250), (hk, c2, 5, 750), (hk, owner, 5, 0)]);
}

#[test]
fn nominators_with_take_and_global_weight() {
    let hk = acct(1);
    let (c1, c2, owner) = (acct(2), acct(3), acct(4));
    let mut p = Pallet::new();
    p.alpha.insert((hk, c1, 5), 100);
    p.alpha.insert((hk, c2, 5), 300);
    p.owner.insert(hk, owner);
    p.delegates.insert(hk, 6553);
    let mut tuples = Vec::new();
    p.source_nominator_emission(&hk, 5, 1000, 0, &vec![(c1, 50), (c2, 150)], HALF, &mut tuples);
    assert_eq!(tuples, vec![(hk, c1, 5, 225), (hk, c2, 5, 675), (hk, owner, 5, 100)]);
    let total: u64 = tuples.iter().map(|t| t.3).sum();
    assert_eq!(total, 1000);
}

#[test]
fn full_take_leaves_nothing_to_nominators() {
    let hk = acct(1);
    let c1 = acct(2);
    let mut p = Pallet::new();
    p.alpha.insert((hk, c1, 0), 1);
    p.delegates.insert(hk, u16::MAX);
    let mut tuples = Vec::new();
    p.source_nominator_emission(&hk, 0, 777, 0, &vec![(c1, 1)], QUARTER, &mut tuples);
    // No owner stored: the default account receives the take.
    assert_eq!(tuples, vec![(hk, AccountId { id: 0, hash: 0 }, 0, 777)]);
}

#[test]
fn no_nominators_all_to_owner() {
    let hk = acct(1);
    let owner = acct(9);
    let mut p = Pallet::new();
    p.owner.insert(hk, owner);
    let mut tuples = vec![(acct(50), acct(51), 1, 3)];
    p.source_nominator_emission(&hk, 2, 1000, 0, &vec![], 0, &mut tuples);
    assert_eq!(tuples, vec![(acct(50), acct(51), 1, 3), (hk, owner, 2, 1000)]);
    // Nominators without any stake get nothing either.
    let mut tuples = Vec::new();
    p.source_nominator_emission(&hk, 2, 1000, 0, &vec![(acct(3), 0)], 0, &mut tuples);
    assert_eq!(tuples, vec![(hk, owner, 2, 1000)]);
}

#[test]
fn rounding_dust_goes_to_owner() {
    let hk = acct(1);
    let owner = acct(9);
    let mut p = Pallet::new();
    p.owner.insert(hk, owner);
    for c in 2..5u64 {
        p.alpha.insert((hk, acct(c), 1), 1);
    }
    let noms = vec![(acct(2), 0), (acct(3), 0), (acct(4), 0)];
    let mut tuples = Vec::new();
    p.source_nominator_emission(&hk, 1, 10, 0, &noms, 0, &mut tuples);
    assert_eq!(
        tuples,
        vec![(hk, acct(2), 1, 3), (hk, acct(3), 1, 3), (hk, acct(4), 1, 3), (hk, owner, 1, 1)]
    );
}

#[test]
fn hotkey_without_parents_keeps_everything() {
    let hk = acct(1);
    let p = Pallet::new();
    let mut tuples = Vec::new();
    p.source_hotkey_emission(&hk, 3, 1000, 500, &vec![], 0, &mut tuples);
    assert_eq!(tuples, vec![(hk, 3, 1500)]);
}

#[test]
fn hotkey_shares_with_parents() {
    let hk = acct(1);
    let (p1, p2) = (acct(2), acct(3));
    let mut p = Pallet::new();
    p.delegates.insert(hk, 6553);
    let parents = vec![
        ParentStake { proportion: u64::MAX, parent: p1, global: 100, alpha: 300 },
        ParentStake { proportion: u64::MAX / 2, parent: p2, global: 100, alpha: 300 },
    ];
    let mut tuples = Vec::new();
    p.source_hotkey_emission(&hk, 3, 1000, 500, &parents, HALF, &mut tuples);
    assert_eq!(tuples, vec![(p1, 3, 600), (p2, 3, 300), (hk, 3, 600)]);
    let total: u64 = tuples.iter().map(|t| t.2).sum();
    assert_eq!(total, 1500);
}

#[test]
fn hotkey_emission_saturates() {
    let hk = acct(1);
    let p = Pallet::new();
    let mut tuples = Vec::new();
    p.source_hotkey_emission(&hk, 3, u64::MAX, u64::MAX, &vec![], 0, &mut tuples);
    assert_eq!(tuples, vec![(hk, 3, u64::MAX)]);
}

#[test]
fn full_take_gives_parents_nothing() {
    let hk = acct(1);
    let mut p = Pallet::new();
    p.delegates.insert(hk, u16::MAX);
    let parents = vec![ParentStake { proportion: u64::MAX, parent: acct(2), global: 1, alpha: 1 }];
    let mut tuples = Vec::new();
    p.source_hotkey_emission(&hk, 0, 1000, 0, &parents, 0, &mut tuples);
    assert_eq!(tuples, vec![(acct(2), 0, 0), (hk, 0, 1000)]);
}
