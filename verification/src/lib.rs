//! Staking on decentralised applications.
//!
//! A stash account locks funds and names a controller, which nominates contracts. In every era the
//! operators of the contracts and their nominators share a reward by what was staked.
//!
//! `module::Module` holds what is stored and has the calls. Its view is a `state::State`, and every
//! call is stated there as a step from one state to the next, with the actions that the runtime
//! around the module then takes. What each call, payment and election brings about, by what goes in
//! and what comes out, is stated in `effects`, `payments` and `counting`. What holds of all steps is
//! proved in `calls`, `lifecycle`, `soundness`, `fairness`, `eras` and `independence`.
pub mod calls;
pub mod counting;
pub mod effects;
pub mod election;
pub mod eras;
pub mod fairness;
pub mod independence;
pub mod ledger;
pub mod lifecycle;
pub mod module;
pub mod order;
pub mod payments;
pub mod payout;
pub mod share;
pub mod soundness;
pub mod state;
pub mod sums;
pub mod types;
