# subtensor_coinbase

The coinbase of the subtensor pallet, verified with Verus: how each block's
TAO emission reaches the subnets, how a subnet's emission passes through its
epoch to hotkeys and their parents, and how a hotkey's emission is drained to
its nominators; together with the subnet views that the node's RPC serves.

Layout:

- `src/fixed.rs`: I96F32 fixed-point values, carried by their raw bits; every
  operation is done by `substrate_fixed`, behind small trusted wrappers whose
  contracts state the exact result (floor or truncation, saturation).
- `src/table.rs`: the keyed table that models a storage map.
- `src/pallet.rs`: the storage items that the coinbase and the views read and write.
- `src/schedule.rs`: when a subnet runs its epoch and when a hotkey is drained.
- `src/shares.rs`: shares of a pool in proportion to contributions, and the
  bounds that keep their sum within the pool.
- `src/hotkeys.rs`, `src/nominators.rs`: sourcing a hotkey's emission to its
  parents, and draining it to its nominators and owner; both conserve the emission.
- `src/coinbase.rs`: the steps of the coinbase on the storage.
- `src/subnet_info.rs`: the subnet state and emission history views.
- `app/`: the SCALE encodings, and the per-block driver that calls the steps
  between the runtime's own functions (clock, epoch, owner payout, stake lookups).
