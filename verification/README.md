# dapps-staking

Staking on decentralised applications, verified with Verus.

A stash account locks funds and names a controller. The controller nominates contracts. In every
era the operators of the nominated contracts and the nominators behind them share a reward by what
was staked.

- `src/` is the library. `module.rs` has the calls, `state.rs` states what each of them does as a
  step from one state to the next, `election.rs`, `payout.rs` and `share.rs` count stakes and divide
  rewards. What holds of all steps is proved in `calls.rs`, `lifecycle.rs`, `soundness.rs`,
  `fairness.rs`, `eras.rs` and `independence.rs`.
- `app/` is a pallet around the library: storage, currency, lookups and events.
- `tests/` runs the library on concrete values.

A call returns the steps that the runtime takes for it (locks, references, deposits, events), in
their order. Only the arithmetic of `Perbill` is trusted: two functions in `share.rs`.

`Cargo.toml` pins `syn` and `substrate-bip39`, which nothing here calls: it holds these indirect
dependencies to releases with which the `frame` and `sp` crates of this line compile.
