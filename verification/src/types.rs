//! What the staking module stores, reports and asks of the runtime around it.
use std::collections::BTreeMap;
use vstd::prelude::*;

verus! {

/// An account, by the number under which the runtime lists it.
pub type AccountId = u64;

/// An amount of the currency.
pub type Balance = u128;

/// The index of an era.
pub type EraIndex = u32;

/// The most targets that one nomination keeps.
pub const MAX_NOMINATIONS: usize = 128;

/// The most chunks that a ledger can have unlocking at one time.
pub const MAX_UNLOCKING_CHUNKS: usize = 32;

/// Where the reward of a staker is paid.
#[derive(Clone, Copy, Debug, PartialEq, Eq, Structural)]
pub enum RewardDestination {
    /// Pay into the stash account and put the amount at stake.
    Staked,
    /// Pay into the stash account and leave the stake as it is.
    Stash,
    /// Pay into the controller account.
    Controller,
}

/// A record of the nominations made by a specific account.
#[derive(Clone, Debug, PartialEq, Eq)]
pub struct Nominations<AccountId, Balance> {
    /// The targets of nomination and amounts of staking.
    pub targets: Vec<(AccountId, Balance)>,
    /// The era the nominations were submitted.
    ///
    /// Except for initial nominations which are considered submitted at era 0.
    pub submitted_in: EraIndex,
    /// Whether the nominations have been suppressed.
    pub suppressed: bool,
}

/// Staking points of one contract in one era. Used to split the payout of the era.
///
/// The points reward the operator of the contract and the nominators behind it.
#[derive(Debug, PartialEq)]
pub struct EraStakingPoints<AccountId: Ord, Balance> {
    /// All that is staked on the contract. Equals the sum of what each nominator staked on it.
    pub total: Balance,
    /// What each nominator staked on the contract in all, by its stash.
    pub individual: BTreeMap<AccountId, Balance>,
}

/// Just a Balance/era tuple to encode when a chunk of funds will be unlocked.
#[derive(Clone, Copy, Debug, PartialEq, Eq)]
pub struct UnlockChunk<Balance> {
    /// Amount of funds to be unlocked.
    pub value: Balance,
    /// Era number at which point it'll be unlocked.
    pub era: EraIndex,
}

/// The ledger of a (bonded) stash.
#[derive(Clone, Debug, PartialEq, Eq)]
pub struct StakingLedger<AccountId, Balance> {
    /// The stash account whose balance is actually locked and at stake.
    pub stash: AccountId,
    /// The total amount of the stash's balance that is accounted for: `active` plus all the
    /// `unlocking` balances.
    pub total: Balance,
    /// The amount of the stash's balance that will be at stake in any forthcoming rounds.
    pub active: Balance,
    /// Any balance that is becoming free, which may eventually be transferred out of the stash.
    pub unlocking: Vec<UnlockChunk<Balance>>,
    /// The latest and highest era which the staker has claimed reward for.
    pub last_reward: Option<EraIndex>,
}

/// What a runtime tells the module about itself at the time of a call.
#[derive(Clone, Copy, Debug, PartialEq, Eq)]
pub struct Environment {
    /// The least balance that an account may hold.
    pub minimum_balance: Balance,
    /// Number of eras that staked funds must remain bonded for.
    pub bonding_duration: EraIndex,
    /// The era that is being planned, if one is.
    pub current_era: Option<EraIndex>,
}

/// One target of a nomination, with what the runtime says of it.
#[derive(Clone, Copy, Debug, PartialEq, Eq)]
pub struct NominationTarget {
    /// The account that the given address stands for; `None` where it stands for none.
    pub contract: Option<AccountId>,
    /// Whether the account is a contract with an operator.
    pub operated: bool,
    /// The amount to stake on it.
    pub value: Balance,
}

/// A refusal of the staking module.
#[derive(Clone, Copy, Debug, PartialEq, Eq, Structural)]
pub enum Error {
    /// Not a controller account.
    NotController,
    /// Not a stash account.
    NotStash,
    /// Stash is already bonded.
    AlreadyBonded,
    /// Controller is already paired.
    AlreadyPaired,
    /// Targets cannot be empty.
    EmptyTargets,
    /// Duplicate index.
    DuplicateIndex,
    /// Slash record index out of bounds.
    InvalidSlashIndex,
    /// Can not bond with value less than minimum balance.
    InsufficientValue,
    /// Can not schedule more unlock chunks.
    NoMoreChunks,
    /// Can not rebond without unlocking chunks.
    NoUnlockChunk,
    /// Attempting to target a stash that still has funds.
    FundedTarget,
    /// Invalid era to reward.
    InvalidEraToReward,
    /// Invalid number of nominations.
    InvalidNumberOfNominations,
    /// Items are not sorted and unique.
    NotSortedAndUnique,
    /// There must be at least one target.
    EmptyNominateTargets,
    /// Targets must be operated contracts.
    NotOperatedContracts,
    /// The nominations amount to more than the active stake.
    NotEnoughStaking,
}

/// Why a call was refused.
#[derive(Clone, Copy, Debug, PartialEq, Eq)]
pub enum DispatchError {
    /// A refusal that has only a message.
    Other(&'static str),
    /// An address stands for no account.
    CannotLookup,
    /// A refusal of the staking module.
    Module(Error),
}

/// What the module reports to the outside.
#[derive(Clone, Copy, Debug, PartialEq, Eq, Structural)]
pub enum Event {
    /// The amount of minted rewards (for dapps with nominators).
    Reward(Balance, Balance),
    /// An account has bonded this amount.
    ///
    /// Only a call that bonds funds reports this. Rewards that are added to the stake do not.
    Bonded(AccountId, Balance),
    /// An account has unbonded this amount.
    Unbonded(AccountId, Balance),
    /// Chunks worth this amount have left the unlocking queue of an account.
    Withdrawn(AccountId, Balance),
    /// The total amount of minted rewards for dapps in an era.
    TotalDappsRewards(EraIndex, Balance),
    /// A stash has nominated.
    Nominate(AccountId),
}

/// A reason to move funds out of an account.
#[derive(Clone, Copy, Debug, PartialEq, Eq, Structural)]
pub enum WithdrawReason {
    /// In order to pay for transaction costs.
    TransactionPayment,
    /// In order to transfer ownership.
    Transfer,
    /// In order to reserve some funds for a later return or repatriation.
    Reserve,
    /// In order to pay some other (higher-level) fees.
    Fee,
    /// In order to tip a validator for transaction inclusion.
    Tip,
}

/// The reasons that a lock holds against.
#[derive(Clone, Copy, Debug, PartialEq, Eq, Structural)]
pub struct WithdrawReasons {
    pub transaction_payment: bool,
    pub transfer: bool,
    pub reserve: bool,
    pub fee: bool,
    pub tip: bool,
}

impl WithdrawReasons {
    /// `reason` is among the reasons.
    pub open spec fn holds_against(self, reason: WithdrawReason) -> bool {
        match reason {
            WithdrawReason::TransactionPayment => self.transaction_payment,
            WithdrawReason::Transfer => self.transfer,
            WithdrawReason::Reserve => self.reserve,
            WithdrawReason::Fee => self.fee,
            WithdrawReason::Tip => self.tip,
        }
    }

    /// All reasons except the payment for transactions.
    pub fn except_transaction_payment() -> (r: WithdrawReasons)
        ensures
            r == staking_reasons(),
            forall|reason: WithdrawReason| #[trigger]
                r.holds_against(reason) <==> reason != WithdrawReason::TransactionPayment,
    {
        WithdrawReasons {
            transaction_payment: false,
            transfer: true,
            reserve: true,
            fee: true,
            tip: true,
        }
    }
}

/// What a staking lock holds against: everything except the payment for further transactions.
pub open spec fn staking_reasons() -> WithdrawReasons {
    WithdrawReasons {
        transaction_payment: false,
        transfer: true,
        reserve: true,
        fee: true,
        tip: true,
    }
}

/// A step that the runtime takes for the module, in the order in which the module lists them.
#[derive(Clone, Copy, Debug, PartialEq, Eq, Structural)]
pub enum Action {
    /// Add one reference to the account, so that it is not removed.
    IncRef(AccountId),
    /// Drop one reference to the account.
    DecRef(AccountId),
    /// Set the staking lock of the account to the amount, against withdrawals for the reasons.
    SetLock(AccountId, Balance, WithdrawReasons),
    /// Remove the staking lock of the account.
    RemoveLock(AccountId),
    /// Mint the amount into the account, if the account exists.
    DepositIntoExisting(AccountId, Balance),
    /// Report the event.
    DepositEvent(Event),
}

/// A ledger as a value.
#[verifier::ext_equal]
pub struct LedgerView {
    pub stash: AccountId,
    pub total: Balance,
    pub active: Balance,
    pub unlocking: Seq<UnlockChunk<Balance>>,
    pub last_reward: Option<EraIndex>,
}

impl View for StakingLedger<AccountId, Balance> {
    type V = LedgerView;

    open spec fn view(&self) -> LedgerView {
        LedgerView {
            stash: self.stash,
            total: self.total,
            active: self.active,
            unlocking: self.unlocking@,
            last_reward: self.last_reward,
        }
    }
}

/// Nominations as a value.
#[verifier::ext_equal]
pub struct NominationsView {
    pub targets: Seq<(AccountId, Balance)>,
    pub submitted_in: EraIndex,
    pub suppressed: bool,
}

impl View for Nominations<AccountId, Balance> {
    type V = NominationsView;

    open spec fn view(&self) -> NominationsView {
        NominationsView {
            targets: self.targets@,
            submitted_in: self.submitted_in,
            suppressed: self.suppressed,
        }
    }
}

/// The staking points of a contract as a value.
#[verifier::ext_equal]
pub struct PointsView {
    pub total: Balance,
    pub individual: Map<AccountId, Balance>,
}

impl View for EraStakingPoints<AccountId, Balance> {
    type V = PointsView;

    open spec fn view(&self) -> PointsView {
        PointsView { total: self.total, individual: self.individual@ }
    }
}

} // verus!
