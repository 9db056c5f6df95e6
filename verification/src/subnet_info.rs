//! Views of a subnet for the node's RPC: its state and its emission history.
use crate::pallet::{get_or, read_u16, read_u64, Pallet};
use crate::table::Table;
use crate::types::AccountId;
use vstd::prelude::*;

verus! {

/// The state of a subnet as the RPC reports it.
#[derive(Clone, PartialEq, Eq, Debug)]
pub struct SubnetState {
    pub netuid: u16,
    pub hotkeys: Vec<AccountId>,
    pub coldkeys: Vec<AccountId>,
    pub active: Vec<bool>,
    pub validator_permit: Vec<bool>,
    pub pruning_score: Vec<u16>,
    pub last_update: Vec<u64>,
    pub emission: Vec<u64>,
    pub dividends: Vec<u16>,
    pub incentives: Vec<u16>,
    pub consensus: Vec<u16>,
    pub trust: Vec<u16>,
    pub rank: Vec<u16>,
    pub block_at_registration: Vec<u64>,
    pub local_stake: Vec<u64>,
    pub global_stake: Vec<u64>,
    pub stake_weight: Vec<u16>,
    pub emission_history: Vec<Vec<u64>>,
}

/// The subnets, in the order of `NetworksAdded`.
pub open spec fn subnet_netuids(added: Seq<(u16, bool)>) -> Seq<u16> {
    added.map_values(|e: (u16, bool)| e.0)
}

/// The account that an absent `Keys` or `Owner` entry reads as.
pub open spec fn zero_account() -> AccountId {
    AccountId { id: 0, hash: 0 }
}

/// The hotkeys of the first `n` uids of subnet `netuid`.
pub open spec fn subnet_hotkeys(keys: Map<(u16, u16), AccountId>, netuid: u16, n: u16) -> Seq<AccountId> {
    Seq::new(n as nat, |uid: int| get_or(keys, (netuid, uid as u16), zero_account()))
}

/// A vector item of a subnet: the stored vector, or the empty one.
pub open spec fn vec_item<T>(m: Map<u16, Vec<T>>, netuid: u16) -> Seq<T> {
    if m.contains_key(netuid) {
        m[netuid]@
    } else {
        Seq::empty()
    }
}

/// A stake vector of a subnet: the stored vector, or `n` zeros.
pub open spec fn stake_item<T>(m: Map<u16, Vec<T>>, netuid: u16, n: u16, zero: T) -> Seq<T> {
    if m.contains_key(netuid) {
        m[netuid]@
    } else {
        Seq::new(n as nat, |i: int| zero)
    }
}

fn copy_vec<T: Copy>(v: &Vec<T>) -> (r: Vec<T>)
    ensures
        r@ == v@,
{
    let mut r: Vec<T> = Vec::new();
    let mut i: usize = 0;
    while i < v.len()
        invariant
            i <= v@.len(),
            r@ == v@.take(i as int),
        decreases v@.len() - i,
    {
        r.push(v[i]);
        proof {
            assert(v@.take(i + 1) =~= v@.take(i as int).push(v@[i as int]));
        }
        i = i + 1;
    }
    proof {
        assert(v@.take(v@.len() as int) =~= v@);
    }
    r
}

fn vec_item_copy<T: Copy>(t: &Table<u16, Vec<T>>, netuid: u16) -> (r: Vec<T>)
    ensures
        r@ == vec_item(t@, netuid),
{
    match t.get(&netuid) {
        Some(v) => copy_vec(v),
        None => Vec::new(),
    }
}

fn stake_item_copy<T: Copy>(t: &Table<u16, Vec<T>>, netuid: u16, n: u16, zero: T) -> (r: Vec<T>)
    ensures
        r@ == stake_item(t@, netuid, n, zero),
{
    match t.get(&netuid) {
        Some(v) => copy_vec(v),
        None => {
            let mut r: Vec<T> = Vec::new();
            let mut i: u16 = 0;
            while i < n
                invariant
                    i <= n,
                    r@ == Seq::new(i as nat, |j: int| zero),
                decreases n - i,
            {
                r.push(zero);
                proof {
                    assert(r@ =~= Seq::new((i + 1) as nat, |j: int| zero));
                }
                i = i + 1;
            }
            r
        },
    }
}

impl Pallet {
    /// The subnets, in the order of `NetworksAdded`.
    pub fn get_all_subnet_netuids(&self) -> (r: Vec<u16>)
        ensures
            r@ == subnet_netuids(self.networks_added.entries()),
    {
        let mut r: Vec<u16> = Vec::new();
        let n = self.networks_added.len();
        let mut i: usize = 0;
        while i < n
            invariant
                n == self.networks_added.entries().len(),
                i <= n,
                r@ == subnet_netuids(self.networks_added.entries().take(i as int)),
            decreases n - i,
        {
            let e = self.networks_added.entry(i);
            r.push(e.0);
            proof {
                let s = self.networks_added.entries();
                assert(subnet_netuids(s.take(i + 1)) =~= subnet_netuids(s.take(i as int)).push(s[i as int].0));
            }
            i = i + 1;
        }
        proof {
            let s = self.networks_added.entries();
            assert(s.take(n as int) =~= s);
        }
        r
    }

    /// Whether subnet `netuid` exists (`NetworksAdded`).
    pub fn if_subnet_exist(&self, netuid: u16) -> (r: bool)
        ensures
            r == get_or(self.networks_added@, netuid, false),
    {
        match self.networks_added.get(&netuid) {
            Some(b) => *b,
            None => false,
        }
    }

    /// The last emission of each of `hotkeys` on each subnet: one vector per
    /// subnet, in the order of `NetworksAdded`, with one value per hotkey from
    /// `LastHotkeyEmissionOnNetuid`.
    pub fn get_emissions_history(&self, hotkeys: &Vec<AccountId>) -> (r: Vec<Vec<u64>>)
        ensures
            r@.len() == subnet_netuids(self.networks_added.entries()).len(),
            forall|i: int|
                0 <= i < r@.len() ==> (#[trigger] r@[i])@.len() == hotkeys@.len() && forall|j: int|
                    0 <= j < hotkeys@.len() ==> r@[i]@[j] == get_or(
                        self.last_hotkey_emission_on_netuid@,
                        (hotkeys@[j], subnet_netuids(self.networks_added.entries())[i]),
                        0u64,
                    ),
    {
        let netuids = self.get_all_subnet_netuids();
        let mut result: Vec<Vec<u64>> = Vec::new();
        let mut i: usize = 0;
        while i < netuids.len()
            invariant
                netuids@ == subnet_netuids(self.networks_added.entries()),
                i <= netuids@.len(),
                result@.len() == i,
                forall|a: int|
                    0 <= a < i ==> (#[trigger] result@[a])@.len() == hotkeys@.len() && forall|j: int|
                        0 <= j < hotkeys@.len() ==> result@[a]@[j] == get_or(
                            self.last_hotkey_emission_on_netuid@,
                            (hotkeys@[j], netuids@[a]),
                            0u64,
                        ),
            decreases netuids@.len() - i,
        {
            let netuid = netuids[i];
            let mut hotkeys_emissions: Vec<u64> = Vec::new();
            let mut j: usize = 0;
            while j < hotkeys.len()
                invariant
                    j <= hotkeys@.len(),
                    hotkeys_emissions@.len() == j,
                    forall|b: int|
                        0 <= b < j ==> #[trigger] hotkeys_emissions@[b] == get_or(
                            self.last_hotkey_emission_on_netuid@,
                            (hotkeys@[b], netuid),
                            0u64,
                        ),
                decreases hotkeys@.len() - j,
            {
                let hotkey = hotkeys[j];
                let last_emission = read_u64(&self.last_hotkey_emission_on_netuid, &(hotkey, netuid));
                hotkeys_emissions.push(last_emission);
                j = j + 1;
            }
            result.push(hotkeys_emissions);
            i = i + 1;
        }
        result
    }

    /// The state of subnet `netuid`, or `None` where the subnet does not exist.
    /// For each uid below `SubnetworkN`, its hotkey (`Keys`), that hotkey's
    /// owner and its registration block; the subnet's vectors as stored (empty
    /// where absent), the stake vectors as stored or zeros for each uid; and the
    /// emission history of its hotkeys.
    pub fn get_subnet_state(&self, netuid: u16) -> (r: Option<SubnetState>)
        ensures
            !get_or(self.networks_added@, netuid, false) ==> r is None,
            get_or(self.networks_added@, netuid, false) ==> r is Some,
            r matches Some(st) ==> {
                let n = get_or(self.subnetwork_n@, netuid, 0u16);
                let hks = subnet_hotkeys(self.keys@, netuid, n);
                &&& st.netuid == netuid
                &&& st.hotkeys@ == hks
                &&& st.coldkeys@ == Seq::new(n as nat, |uid: int| get_or(self.owner@, hks[uid], zero_account()))
                &&& st.block_at_registration@ == Seq::new(
                    n as nat,
                    |uid: int| get_or(self.block_at_registration@, (netuid, uid as u16), 0u64),
                )
                &&& st.active@ == vec_item(self.active@, netuid)
                &&& st.validator_permit@ == vec_item(self.validator_permit@, netuid)
                &&& st.pruning_score@ == vec_item(self.pruning_scores@, netuid)
                &&& st.last_update@ == vec_item(self.last_update@, netuid)
                &&& st.emission@ == vec_item(self.emission@, netuid)
                &&& st.dividends@ == vec_item(self.dividends@, netuid)
                &&& st.incentives@ == vec_item(self.incentive@, netuid)
                &&& st.consensus@ == vec_item(self.consensus@, netuid)
                &&& st.trust@ == vec_item(self.trust@, netuid)
                &&& st.rank@ == vec_item(self.rank@, netuid)
                &&& st.local_stake@ == stake_item(self.local_stake@, netuid, n, 0u64)
                &&& st.global_stake@ == stake_item(self.global_stake@, netuid, n, 0u64)
                &&& st.stake_weight@ == stake_item(self.stake_weight@, netuid, n, 0u16)
                &&& st.emission_history@.len() == subnet_netuids(self.networks_added.entries()).len()
                &&& forall|i: int|
                    0 <= i < st.emission_history@.len() ==> (#[trigger] st.emission_history@[i])@.len()
                        == n && forall|j: int|
                        0 <= j < n ==> st.emission_history@[i]@[j] == get_or(
                            self.last_hotkey_emission_on_netuid@,
                            (hks[j], subnet_netuids(self.networks_added.entries())[i]),
                            0u64,
                        )
            },
    {
        if !self.if_subnet_exist(netuid) {
            return None;
        }
        let n: u16 = read_u16(&self.subnetwork_n, &netuid);
        let ghost hks = subnet_hotkeys(self.keys@, netuid, n);
        let mut hotkeys: Vec<AccountId> = Vec::new();
        let mut coldkeys: Vec<AccountId> = Vec::new();
        let mut block_at_registration: Vec<u64> = Vec::new();
        let mut uid: u16 = 0;
        while uid < n
            invariant
                uid <= n,
                hks == subnet_hotkeys(self.keys@, netuid, n),
                hotkeys@ == hks.take(uid as int),
                coldkeys@ == Seq::new(uid as nat, |u: int| get_or(self.owner@, hks[u], zero_account())),
                block_at_registration@ == Seq::new(
                    uid as nat,
                    |u: int| get_or(self.block_at_registration@, (netuid, u as u16), 0u64),
                ),
            decreases n - uid,
        {
            let hotkey: AccountId = match self.keys.get(&(netuid, uid)) {
                Some(h) => *h,
                None => AccountId::zero(),
            };
            let coldkey: AccountId = match self.owner.get(&hotkey) {
                Some(c) => *c,
                None => AccountId::zero(),
            };
            hotkeys.push(hotkey);
            coldkeys.push(coldkey);
            block_at_registration.push(read_u64(&self.block_at_registration, &(netuid, uid)));
            proof {
                assert(hks[uid as int] == hotkey);
                assert(hotkeys@ =~= hks.take(uid + 1));
                assert(coldkeys@ =~= Seq::new((uid + 1) as nat, |u: int| get_or(self.owner@, hks[u], zero_account())));
                assert(block_at_registration@ =~= Seq::new(
                    (uid + 1) as nat,
                    |u: int| get_or(self.block_at_registration@, (netuid, u as u16), 0u64),
                ));
            }
            uid = uid + 1;
        }
        proof {
            assert(hks.take(n as int) =~= hks);
        }
        let emission_history = self.get_emissions_history(&hotkeys);
        Some(
            SubnetState {
                netuid,
                hotkeys,
                coldkeys,
                active: vec_item_copy(&self.active, netuid),
                validator_permit: vec_item_copy(&self.validator_permit, netuid),
                pruning_score: vec_item_copy(&self.pruning_scores, netuid),
                last_update: vec_item_copy(&self.last_update, netuid),
                emission: vec_item_copy(&self.emission, netuid),
                dividends: vec_item_copy(&self.dividends, netuid),
                incentives: vec_item_copy(&self.incentive, netuid),
                consensus: vec_item_copy(&self.consensus, netuid),
                trust: vec_item_copy(&self.trust, netuid),
                rank: vec_item_copy(&self.rank, netuid),
                block_at_registration,
                local_stake: stake_item_copy(&self.local_stake, netuid, n, 0u64),
                global_stake: stake_item_copy(&self.global_stake, netuid, n, 0u64),
                stake_weight: stake_item_copy(&self.stake_weight, netuid, n, 0u16),
                emission_history,
            },
        )
    }
}

} // verus!
