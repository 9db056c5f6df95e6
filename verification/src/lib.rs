pub mod fixed;
pub mod table;
pub mod types;
pub mod pallet;
pub mod schedule;
pub mod shares;
pub mod nominators;
pub mod hotkeys;
pub mod coinbase;
pub mod subnet_info;
