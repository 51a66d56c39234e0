//! Verified core logic of the Arena DAO smart contracts: fixed-point
//! arithmetic, the fundraise state machine, the escrow balance algebra and
//! ledger, the competition enrollment rules and contract salts, the arena core
//! registries and rating leaderboard, the discord identity faucet rule and the
//! agon rulesets and escrow.
pub mod agon;
pub mod agon_core;
pub mod amount_map;
pub mod balance;
pub mod balance_manager;
pub mod chain;
pub mod arena_core;
pub mod discord;
pub mod distribution;
pub mod enrollment;
pub mod escrow;
pub mod fundraise;
pub mod id_map;
pub mod leaderboard;
pub mod math;
pub mod member_balances;
pub mod nft_set;
pub mod order;
pub mod str_map;
