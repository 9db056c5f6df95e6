//! The pallet's storage, as the coinbase and the subnet views read and write it.
use crate::table::{Table, TableKey};
use crate::types::AccountId;
use vstd::prelude::*;

verus! {

/// What a `ValueQuery` storage item answers for key `k`: the stored value, or the default.
pub open spec fn get_or<K, V>(m: Map<K, V>, k: K, d: V) -> V {
    if m.contains_key(k) {
        m[k]
    } else {
        d
    }
}

/// Reads a `u64` item whose default is zero.
pub fn read_u64<K: TableKey>(t: &Table<K, u64>, k: &K) -> (r: u64)
    ensures
        r == get_or(t@, *k, 0u64),
{
    match t.get(k) {
        Some(v) => *v,
        None => 0,
    }
}

/// Reads a `u16` item whose default is zero.
pub fn read_u16<K: TableKey>(t: &Table<K, u16>, k: &K) -> (r: u16)
    ensures
        r == get_or(t@, *k, 0u16),
{
    match t.get(k) {
        Some(v) => *v,
        None => 0,
    }
}

/// The storage of the subtensor pallet that this library reads and writes.
/// Each field is one storage item; a `Table` field is a storage map whose
/// absent keys read as the item's default.
pub struct Pallet {
    /// `SubnetMechanism`: the mechanism of each subnet (1 is dynamic).
    pub subnet_mechanism: Table<u16, u16>,
    /// `SubnetTAO`: the TAO held in each subnet.
    pub subnet_tao: Table<u16, u64>,
    /// `EmissionValues`: the TAO emission of each subnet in the last block.
    pub emission_values: Table<u16, u64>,
    /// `TotalStake`.
    pub total_stake: u64,
    /// `TotalIssuance`.
    pub total_issuance: u64,
    /// `SubnetAlphaIn`: the alpha in each subnet's pool.
    pub subnet_alpha_in: Table<u16, u64>,
    /// `PendingEmission`: the emission each subnet has accumulated since its last epoch.
    pub pending_emission: Table<u16, u64>,
    /// `Tempo`: the tempo of each subnet.
    pub tempo: Table<u16, u16>,
    /// `BlocksSinceLastStep`.
    pub blocks_since_last_step: Table<u16, u64>,
    /// `LastMechansimStepBlock`: the block of each subnet's last epoch.
    pub last_mechanism_step_block: Table<u16, u64>,
    /// `SubnetOwnerCut`: the owners' share of a subnet's emission, out of `u16::MAX`.
    pub subnet_owner_cut: u16,
    /// `HotkeyEmissionTempo`.
    pub hotkey_emission_tempo: u64,
    /// `Delegates`: the take of each hotkey, out of `u16::MAX`.
    pub delegates: Table<AccountId, u16>,
    /// `Owner`: the coldkey that owns each hotkey.
    pub owner: Table<AccountId, AccountId>,
    /// `PendingdHotkeyEmissionOnNetuid`: emission waiting on each (hotkey, subnet).
    pub pending_hotkey_emission: Table<(AccountId, u16), u64>,
    /// `LastHotkeyEmissionDrain`: the block of each hotkey's last drain.
    pub last_hotkey_emission_drain: Table<AccountId, u64>,
    /// `Alpha`: the alpha of each (hotkey, coldkey, subnet).
    pub alpha: Table<(AccountId, AccountId, u16), u64>,
    /// `TotalHotkeyAlpha`: the alpha of each (hotkey, subnet).
    pub total_hotkey_alpha: Table<(AccountId, u16), u64>,
    /// `LastHotkeyEmissionOnNetuid`: the last emission of each (hotkey, subnet).
    pub last_hotkey_emission_on_netuid: Table<(AccountId, u16), u64>,
    /// `NetworksAdded`: the subnets that exist.
    pub networks_added: Table<u16, bool>,
    /// `SubnetworkN`: the number of neurons of each subnet.
    pub subnetwork_n: Table<u16, u16>,
    /// `Keys`: the hotkey of each (subnet, uid).
    pub keys: Table<(u16, u16), AccountId>,
    /// `BlockAtRegistration`: the registration block of each (subnet, uid).
    pub block_at_registration: Table<(u16, u16), u64>,
    /// `Active`.
    pub active: Table<u16, Vec<bool>>,
    /// `ValidatorPermit`.
    pub validator_permit: Table<u16, Vec<bool>>,
    /// `PruningScores`.
    pub pruning_scores: Table<u16, Vec<u16>>,
    /// `LastUpdate`.
    pub last_update: Table<u16, Vec<u64>>,
    /// `Emission`.
    pub emission: Table<u16, Vec<u64>>,
    /// `Dividends`.
    pub dividends: Table<u16, Vec<u16>>,
    /// `Incentive`.
    pub incentive: Table<u16, Vec<u16>>,
    /// `Consensus`.
    pub consensus: Table<u16, Vec<u16>>,
    /// `Trust`.
    pub trust: Table<u16, Vec<u16>>,
    /// `Rank`.
    pub rank: Table<u16, Vec<u16>>,
    /// `LocalStake`.
    pub local_stake: Table<u16, Vec<u64>>,
    /// `GlobalStake`.
    pub global_stake: Table<u16, Vec<u64>>,
    /// `StakeWeight`.
    pub stake_weight: Table<u16, Vec<u16>>,
}

impl Pallet {
    /// Storage in which every item holds its default.
    pub fn new() -> (p: Pallet)
        ensures
            p.subnet_mechanism@ == Map::<u16, u16>::empty(),
            p.subnet_tao@ == Map::<u16, u64>::empty(),
            p.emission_values@ == Map::<u16, u64>::empty(),
            p.total_stake == 0,
            p.total_issuance == 0,
            p.subnet_alpha_in@ == Map::<u16, u64>::empty(),
            p.pending_emission@ == Map::<u16, u64>::empty(),
            p.tempo@ == Map::<u16, u16>::empty(),
            p.blocks_since_last_step@ == Map::<u16, u64>::empty(),
            p.last_mechanism_step_block@ == Map::<u16, u64>::empty(),
            p.subnet_owner_cut == 0,
            p.hotkey_emission_tempo == 0,
            p.delegates@ == Map::<AccountId, u16>::empty(),
            p.owner@ == Map::<AccountId, AccountId>::empty(),
            p.pending_hotkey_emission@ == Map::<(AccountId, u16), u64>::empty(),
            p.last_hotkey_emission_drain@ == Map::<AccountId, u64>::empty(),
            p.alpha@ == Map::<(AccountId, AccountId, u16), u64>::empty(),
            p.total_hotkey_alpha@ == Map::<(AccountId, u16), u64>::empty(),
            p.last_hotkey_emission_on_netuid@ == Map::<(AccountId, u16), u64>::empty(),
            p.networks_added@ == Map::<u16, bool>::empty(),
            p.subnetwork_n@ == Map::<u16, u16>::empty(),
            p.keys@ == Map::<(u16, u16), AccountId>::empty(),
            p.block_at_registration@ == Map::<(u16, u16), u64>::empty(),
            p.active@ == Map::<u16, Vec<bool>>::empty(),
            p.validator_permit@ == Map::<u16, Vec<bool>>::empty(),
            p.pruning_scores@ == Map::<u16, Vec<u16>>::empty(),
            p.last_update@ == Map::<u16, Vec<u64>>::empty(),
            p.emission@ == Map::<u16, Vec<u64>>::empty(),
            p.dividends@ == Map::<u16, Vec<u16>>::empty(),
            p.incentive@ == Map::<u16, Vec<u16>>::empty(),
            p.consensus@ == Map::<u16, Vec<u16>>::empty(),
            p.trust@ == Map::<u16, Vec<u16>>::empty(),
            p.rank@ == Map::<u16, Vec<u16>>::empty(),
            p.local_stake@ == Map::<u16, Vec<u64>>::empty(),
            p.global_stake@ == Map::<u16, Vec<u64>>::empty(),
            p.stake_weight@ == Map::<u16, Vec<u16>>::empty(),
    {
        Pallet {
            subnet_mechanism: Table::new(),
            subnet_tao: Table::new(),
            emission_values: Table::new(),
            total_stake: 0,
            total_issuance: 0,
            subnet_alpha_in: Table::new(),
            pending_emission: Table::new(),
            tempo: Table::new(),
            blocks_since_last_step: Table::new(),
            last_mechanism_step_block: Table::new(),
            subnet_owner_cut: 0,
            hotkey_emission_tempo: 0,
            delegates: Table::new(),
            owner: Table::new(),
            pending_hotkey_emission: Table::new(),
            last_hotkey_emission_drain: Table::new(),
            alpha: Table::new(),
            total_hotkey_alpha: Table::new(),
            last_hotkey_emission_on_netuid: Table::new(),
            networks_added: Table::new(),
            subnetwork_n: Table::new(),
            keys: Table::new(),
            block_at_registration: Table::new(),
            active: Table::new(),
            validator_permit: Table::new(),
            pruning_scores: Table::new(),
            last_update: Table::new(),
            emission: Table::new(),
            dividends: Table::new(),
            incentive: Table::new(),
            consensus: Table::new(),
            trust: Table::new(),
            rank: Table::new(),
            local_stake: Table::new(),
            global_stake: Table::new(),
            stake_weight: Table::new(),
        }
    }
}

} // verus!
