//! From nominations to the staking points of each contract.
use crate::order::{in_order, keys_in_order, lemma_in_order};
use crate::sums::{lemma_map_sum_insert, lemma_map_sum_listing, map_sum, sum_over};
use crate::types::{AccountId, Balance, EraStakingPoints, Nominations, NominationsView, PointsView};
use std::collections::BTreeMap;
use vstd::prelude::*;

verus! {

/// An amount that a stash puts on a contract.
pub struct Stake {
    pub stash: AccountId,
    pub contract: AccountId,
    pub value: Balance,
}

/// The stakes that the targets of one stash are.
pub open spec fn stakes_of(stash: AccountId, targets: Seq<(AccountId, Balance)>) -> Seq<Stake> {
    targets.map_values(
        |t: (AccountId, Balance)| Stake { stash: stash, contract: t.0, value: t.1 },
    )
}

/// All stakes of the nominations that are not suppressed, in the order of the nominations.
pub open spec fn stakes(nominations: Seq<(AccountId, NominationsView)>) -> Seq<Stake>
    decreases nominations.len(),
{
    if nominations.len() == 0 {
        Seq::empty()
    } else {
        let (stash, nomination) = nominations.last();
        let before = stakes(nominations.drop_last());
        if nomination.suppressed {
            before
        } else {
            before + stakes_of(stash, nomination.targets)
        }
    }
}

/// What all stakes amount to.
pub open spec fn stakes_sum(all: Seq<Stake>) -> nat
    decreases all.len(),
{
    if all.len() == 0 {
        0
    } else {
        stakes_sum(all.drop_last()) + all.last().value as nat
    }
}

/// What the stakes on `contract` amount to.
pub open spec fn staked_on(all: Seq<Stake>, contract: AccountId) -> nat
    decreases all.len(),
{
    if all.len() == 0 {
        0
    } else {
        let before = staked_on(all.drop_last(), contract);
        if all.last().contract == contract {
            before + all.last().value as nat
        } else {
            before
        }
    }
}

/// What `stash` staked on `contract`, all its stakes there added up.
pub open spec fn staked_by(all: Seq<Stake>, stash: AccountId, contract: AccountId) -> nat
    decreases all.len(),
{
    if all.len() == 0 {
        0
    } else {
        let before = staked_by(all.drop_last(), stash, contract);
        if all.last().stash == stash && all.last().contract == contract {
            before + all.last().value as nat
        } else {
            before
        }
    }
}

/// `stash` has a stake on `contract`.
pub open spec fn backs(all: Seq<Stake>, stash: AccountId, contract: AccountId) -> bool {
    exists|i: int|
        0 <= i < all.len() && (#[trigger] all[i]).stash == stash && all[i].contract == contract
}

/// Some stake is on `contract`.
pub open spec fn backed(all: Seq<Stake>, contract: AccountId) -> bool {
    exists|i: int| 0 <= i < all.len() && (#[trigger] all[i]).contract == contract
}

/// What each stash that backs `contract` has on it.
pub open spec fn individual_on(all: Seq<Stake>, contract: AccountId) -> Map<AccountId, Balance> {
    Map::new(
        |stash: AccountId| backs(all, stash, contract),
        |stash: AccountId| staked_by(all, stash, contract) as Balance,
    )
}

/// The staking points of every contract that some stake is on.
pub open spec fn points_of(all: Seq<Stake>) -> Map<AccountId, PointsView> {
    Map::new(
        |contract: AccountId| backed(all, contract),
        |contract: AccountId|
            PointsView {
                total: staked_on(all, contract) as Balance,
                individual: individual_on(all, contract),
            },
    )
}

/// What is staked on each contract is an amount that a balance can hold.
pub open spec fn stakes_fit(all: Seq<Stake>) -> bool {
    forall|contract: AccountId| #[trigger] staked_on(all, contract) <= Balance::MAX
}

impl PointsView {
    /// The total is the sum of what the nominators have on the contract.
    pub open spec fn wf(self) -> bool {
        &&& self.individual.dom().finite()
        &&& map_sum(self.individual) == self.total
    }
}

/// The points of finitely many contracts, each of which adds up.
pub open spec fn points_sound(points: Map<AccountId, PointsView>) -> bool {
    &&& points.dom().finite()
    &&& forall|contract: AccountId| #[trigger]
        points.contains_key(contract) ==> points[contract].wf()
}

/// The points that a map of them holds, as values.
pub open spec fn points_view(
    points: Map<AccountId, EraStakingPoints<AccountId, Balance>>,
) -> Map<AccountId, PointsView> {
    points.map_values(|p: EraStakingPoints<AccountId, Balance>| p@)
}

/// The nominations that a map of them holds, as values.
pub open spec fn nominations_view(
    nominations: Map<AccountId, Nominations<AccountId, Balance>>,
) -> Map<AccountId, NominationsView> {
    nominations.map_values(|n: Nominations<AccountId, Balance>| n@)
}

/// The nominations of the listed stashes, each with its stash.
pub open spec fn listed(nominations: Map<AccountId, NominationsView>, stashes: Seq<AccountId>) -> Seq<
    (AccountId, NominationsView),
> {
    stashes.map_values(|stash: AccountId| (stash, nominations[stash]))
}

/// No stash has more on a contract than all stashes together. A stash that does not back it has
/// nothing on it.
pub proof fn lemma_staked_by(all: Seq<Stake>, stash: AccountId, contract: AccountId)
    ensures
        staked_by(all, stash, contract) <= staked_on(all, contract),
        !backs(all, stash, contract) ==> staked_by(all, stash, contract) == 0,
    decreases all.len(),
{
    if all.len() > 0 {
        let rest = all.drop_last();
        lemma_staked_by(rest, stash, contract);
        if !backs(all, stash, contract) {
            assert(!backs(rest, stash, contract)) by {
                if backs(rest, stash, contract) {
                    let i = choose|i: int|
                        0 <= i < rest.len() && (#[trigger] rest[i]).stash == stash && rest[i].contract
                            == contract;
                    assert(all[i] == rest[i]);
                }
            }
            let last = all[all.len() - 1];
            assert(!(last.stash == stash && last.contract == contract));
        }
    }
}

/// One stake more makes its stash back its contract, and no other.
proof fn lemma_backs_push(all: Seq<Stake>, s: Stake, stash: AccountId, contract: AccountId)
    ensures
        backs(all.push(s), stash, contract) <==> backs(all, stash, contract) || (s.stash == stash
            && s.contract == contract),
{
    let more = all.push(s);
    if backs(all, stash, contract) {
        let i = choose|i: int|
            0 <= i < all.len() && (#[trigger] all[i]).stash == stash && all[i].contract == contract;
        assert(more[i] == all[i]);
    }
    if s.stash == stash && s.contract == contract {
        assert(more[all.len() as int] == s);
    }
    if backs(more, stash, contract) && !(s.stash == stash && s.contract == contract) {
        let i = choose|i: int|
            0 <= i < more.len() && (#[trigger] more[i]).stash == stash && more[i].contract == contract;
        assert(all[i] == more[i]);
    }
}

/// One stake more changes what is on its contract only, and there what its stash has.
proof fn lemma_individual_push(all: Seq<Stake>, s: Stake, contract: AccountId)
    ensures
        individual_on(all.push(s), contract) == if s.contract == contract {
            individual_on(all, contract).insert(
                s.stash,
                (staked_by(all, s.stash, contract) + s.value) as Balance,
            )
        } else {
            individual_on(all, contract)
        },
{
    let more = all.push(s);
    assert(more.drop_last() =~= all);
    assert forall|stash: AccountId|
        backs(more, stash, contract) <==> backs(all, stash, contract) || (s.stash == stash
            && s.contract == contract) by {
        lemma_backs_push(all, s, stash, contract);
    }
    if s.contract == contract {
        assert(individual_on(more, contract) =~= individual_on(all, contract).insert(
            s.stash,
            (staked_by(all, s.stash, contract) + s.value) as Balance,
        ));
    } else {
        assert(individual_on(more, contract) =~= individual_on(all, contract));
    }
}

/// One stake more changes the points of its contract only.
proof fn lemma_points_push(all: Seq<Stake>, s: Stake)
    requires
        stakes_fit(all.push(s)),
    ensures
        stakes_fit(all),
        points_of(all.push(s)) == points_of(all).insert(
            s.contract,
            PointsView {
                total: (staked_on(all, s.contract) + s.value) as Balance,
                individual: individual_on(all.push(s), s.contract),
            },
        ),
{
    let more = all.push(s);
    assert(more.drop_last() =~= all);
    assert forall|c: AccountId| #[trigger] staked_on(all, c) <= Balance::MAX by {
        assert(staked_on(more, c) <= Balance::MAX);
    }
    let next = points_of(all).insert(
        s.contract,
        PointsView {
            total: (staked_on(all, s.contract) + s.value) as Balance,
            individual: individual_on(more, s.contract),
        },
    );
    assert forall|c: AccountId| backed(more, c) <==> (backed(all, c) || c == s.contract) by {
        if backed(all, c) {
            let i = choose|i: int| 0 <= i < all.len() && (#[trigger] all[i]).contract == c;
            assert(more[i].contract == c);
        }
        if c == s.contract {
            assert(more[all.len() as int].contract == c);
        }
        if backed(more, c) && c != s.contract {
            let i = choose|i: int| 0 <= i < more.len() && (#[trigger] more[i]).contract == c;
            assert(all[i].contract == c);
        }
    }
    assert forall|c: AccountId| c != s.contract implies #[trigger] individual_on(more, c)
        == individual_on(all, c) by {
        lemma_individual_push(all, s, c);
    }
    assert(points_of(more) =~= next);
}

/// A contract without a stake has nothing on it.
pub proof fn lemma_not_backed(all: Seq<Stake>, contract: AccountId)
    requires
        !backed(all, contract),
    ensures
        staked_on(all, contract) == 0,
        individual_on(all, contract) == Map::<AccountId, Balance>::empty(),
    decreases all.len(),
{
    if all.len() > 0 {
        let rest = all.drop_last();
        assert(!backed(rest, contract)) by {
            if backed(rest, contract) {
                let i = choose|i: int| 0 <= i < rest.len() && (#[trigger] rest[i]).contract == contract;
                assert(all[i].contract == contract);
            }
        }
        assert(all[all.len() - 1].contract != contract);
        lemma_not_backed(rest, contract);
        assert(rest.push(all.last()) =~= all);
        lemma_individual_push(rest, all.last(), contract);
    } else {
        assert(individual_on(all, contract) =~= Map::<AccountId, Balance>::empty());
    }
}

/// Stakes in two goes put on a contract what they put on it in one.
pub proof fn lemma_staked_on_concat(a: Seq<Stake>, b: Seq<Stake>, contract: AccountId)
    ensures
        staked_on(a + b, contract) == staked_on(a, contract) + staked_on(b, contract),
    decreases b.len(),
{
    if b.len() == 0 {
        assert(a + b =~= a);
    } else {
        assert((a + b).drop_last() =~= a + b.drop_last());
        lemma_staked_on_concat(a, b.drop_last(), contract);
    }
}

/// Puts one more stake on its contract. Returns false where the contract would then have more than
/// a balance can hold; the points are of no more use then.
fn add_stake(
    points: &mut BTreeMap<AccountId, EraStakingPoints<AccountId, Balance>>,
    stash: AccountId,
    contract: AccountId,
    value: Balance,
    Ghost(all): Ghost<Seq<Stake>>,
) -> (fits: bool)
    requires
        stakes_fit(all),
        points_view(old(points)@) == points_of(all),
    ensures
        fits == (staked_on(all, contract) + value <= Balance::MAX),
        fits ==> stakes_fit(all.push(Stake { stash, contract, value })) && points_view(
            final(points)@,
        ) == points_of(all.push(Stake { stash, contract, value })),
{
    let ghost before = points@;
    let ghost s = Stake { stash, contract, value };
    let ghost more = all.push(s);
    proof {
        assert(more.drop_last() =~= all);
        assert forall|c: AccountId| c != contract implies #[trigger] staked_on(more, c) <= Balance::MAX by {
            assert(staked_on(all, c) <= Balance::MAX);
        }
        assert(points_view(before).dom() =~= before.dom());
        assert(staked_on(all, contract) <= Balance::MAX);
    }
    match points.remove(&contract) {
        Some(mut there) => {
            assert(before.contains_key(contract));
            assert(points_view(before)[contract] == there@);
            match there.total.checked_add(value) {
                Some(total) => {
                    let had: Balance = match there.individual.get(&stash) {
                        Some(amount) => *amount,
                        None => 0,
                    };
                    proof {
                        lemma_staked_by(all, stash, contract);
                        assert(had == staked_by(all, stash, contract));
                        lemma_individual_push(all, s, contract);
                    }
                    there.total = total;
                    there.individual.insert(stash, had + value);
                    points.insert(contract, there);
                    proof {
                        lemma_points_push(all, s);
                        assert(points_view(points@) =~= points_of(more));
                    }
                    true
                },
                None => false,
            }
        },
        None => {
            proof {
                assert(!points_view(before).contains_key(contract));
                lemma_not_backed(all, contract);
            }
            let mut individual: BTreeMap<AccountId, Balance> = BTreeMap::new();
            individual.insert(stash, value);
            points.insert(contract, EraStakingPoints { total: value, individual });
            proof {
                lemma_staked_by(all, stash, contract);
                lemma_individual_push(all, s, contract);
                lemma_points_push(all, s);
                assert(points_view(points@) =~= points_of(more));
            }
            true
        },
    }
}

/// The staking points that the nominations of the listed stashes give, each contract with what is
/// staked on it. `None` where a contract would have more than a balance can hold.
pub fn staked_contracts(
    nominations: &BTreeMap<AccountId, Nominations<AccountId, Balance>>,
    stashes: &Vec<AccountId>,
) -> (r: Option<BTreeMap<AccountId, EraStakingPoints<AccountId, Balance>>>)
    requires
        forall|i: int| 0 <= i < stashes@.len() ==> nominations@.contains_key(#[trigger] stashes@[i]),
    ensures
        ({
            let all = stakes(listed(nominations_view(nominations@), stashes@));
            match r {
                Some(points) => stakes_fit(all) && points_view(points@) == points_of(all),
                None => !stakes_fit(all),
            }
        }),
{
    let mut points: BTreeMap<AccountId, EraStakingPoints<AccountId, Balance>> = BTreeMap::new();
    let ghost views = listed(nominations_view(nominations@), stashes@);
    let ghost whole = stakes(views);
    let ghost mut done: Seq<Stake> = Seq::empty();
    proof {
        assert(views.take(0) =~= Seq::empty());
        assert(points_view(points@) =~= points_of(done));
    }
    for i in 0..stashes.len()
        invariant
            forall|k: int|
                0 <= k < stashes@.len() ==> nominations@.contains_key(#[trigger] stashes@[k]),
            views == listed(nominations_view(nominations@), stashes@),
            whole == stakes(views),
            done == stakes(views.take(i as int)),
            stakes_fit(done),
            points_view(points@) == points_of(done),
    {
        let stash = stashes[i];
        let ghost start = done;
        assert(nominations@.contains_key(stashes@[i as int]));
        if let Some(nomination) = nominations.get(&stash) {
            let ghost targets = nomination.targets@;
            proof {
                assert(views.take(i + 1).drop_last() =~= views.take(i as int));
                assert(views.take(i + 1).last() == views[i as int]);
                assert(views[i as int] == (stash, nomination@));
                assert(start + stakes_of(stash, targets.take(0)) =~= start);
            }
            if !nomination.suppressed {
                for j in 0..nomination.targets.len()
                    invariant
                        i < stashes@.len(),
                        views == listed(nominations_view(nominations@), stashes@),
                        whole == stakes(views),
                        views[i as int] == (stash, nomination@),
                        targets == nomination.targets@,
                        !nomination.suppressed,
                        start == stakes(views.take(i as int)),
                        done == start + stakes_of(stash, targets.take(j as int)),
                        stakes_fit(done),
                        points_view(points@) == points_of(done),
                {
                    let (contract, value) = nomination.targets[j];
                    let ghost s = Stake { stash, contract, value };
                    proof {
                        assert(stakes_of(stash, targets.take(j + 1)) =~= stakes_of(
                            stash,
                            targets.take(j as int),
                        ).push(s));
                        assert(start + stakes_of(stash, targets.take(j + 1)) =~= done.push(s));
                    }
                    let fits = add_stake(&mut points, stash, contract, value, Ghost(done));
                    if !fits {
                        proof {
                            assert(done.push(s).drop_last() =~= done);
                            let now = stakes_of(stash, targets);
                            let rest = now.skip(j + 1);
                            assert(start + now =~= done.push(s) + rest);
                            lemma_staked_on_concat(done.push(s), rest, contract);
                            assert(views.take(i + 1).drop_last() =~= views.take(i as int));
                            assert(stakes(views.take(i + 1)) == start + now);
                            lemma_stakes_prefix(views, i + 1, contract);
                            assert(staked_on(whole, contract) > Balance::MAX);
                        }
                        return None;
                    }
                    proof {
                        done = done.push(s);
                    }
                }
                assert(targets.take(targets.len() as int) =~= targets);
            }
        }
    }
    assert(views.take(views.len() as int) =~= views);
    Some(points)
}

/// The first nominations put no more on a contract than all of them.
proof fn lemma_stakes_prefix(nominations: Seq<(AccountId, NominationsView)>, n: int, contract: AccountId)
    requires
        0 <= n <= nominations.len(),
    ensures
        staked_on(stakes(nominations.take(n)), contract) <= staked_on(stakes(nominations), contract),
    decreases nominations.len() - n,
{
    if n == nominations.len() {
        assert(nominations.take(n) =~= nominations);
    } else {
        lemma_stakes_prefix(nominations, n + 1, contract);
        let next = nominations.take(n + 1);
        assert(next.drop_last() =~= nominations.take(n));
        let (stash, nomination) = next.last();
        if !nomination.suppressed {
            lemma_staked_on_concat(
                stakes(nominations.take(n)),
                stakes_of(stash, nomination.targets),
                contract,
            );
        }
    }
}

/// The totals of the listed contracts, added up.
pub open spec fn totals_sum(points: Map<AccountId, PointsView>, contracts: Seq<AccountId>) -> nat
    decreases contracts.len(),
{
    if contracts.len() == 0 {
        0
    } else {
        totals_sum(points, contracts.drop_last()) + points[contracts.last()].total as nat
    }
}

/// An amount, or the most that a balance can hold where it is less.
pub open spec fn saturated(amount: nat) -> Balance {
    if amount <= Balance::MAX {
        amount as Balance
    } else {
        Balance::MAX
    }
}

/// What is staked on the listed contracts, added up.
spec fn staked_on_each(all: Seq<Stake>, contracts: Seq<AccountId>) -> nat
    decreases contracts.len(),
{
    if contracts.len() == 0 {
        0
    } else {
        staked_on_each(all, contracts.drop_last()) + staked_on(all, contracts.last())
    }
}

/// One stake more counts once on a list that has its contract, and not on one that lacks it.
proof fn lemma_staked_on_each_last(all: Seq<Stake>, contracts: Seq<AccountId>)
    requires
        all.len() > 0,
        contracts.no_duplicates(),
    ensures
        staked_on_each(all, contracts) == staked_on_each(all.drop_last(), contracts) + if contracts.contains(
            all.last().contract,
        ) {
            all.last().value as nat
        } else {
            0
        },
    decreases contracts.len(),
{
    if contracts.len() > 0 {
        let rest = contracts.drop_last();
        lemma_staked_on_each_last(all, rest);
        let c = all.last().contract;
        if contracts.last() == c {
            assert(contracts[contracts.len() - 1] == c);
            assert(!rest.contains(c)) by {
                if rest.contains(c) {
                    let i = choose|i: int| 0 <= i < rest.len() && rest[i] == c;
                    assert(contracts[i] == c);
                }
            }
        } else if contracts.contains(c) {
            let i = choose|i: int| 0 <= i < contracts.len() && contracts[i] == c;
            assert(rest[i] == c);
        } else {
            assert(!rest.contains(c)) by {
                if rest.contains(c) {
                    let i = choose|i: int| 0 <= i < rest.len() && rest[i] == c;
                    assert(contracts[i] == c);
                }
            }
        }
    }
}

/// Contract by contract or stake by stake, the sum is the same.
proof fn lemma_staked_on_each_sum(all: Seq<Stake>, contracts: Seq<AccountId>)
    requires
        contracts.no_duplicates(),
        forall|i: int| 0 <= i < all.len() ==> contracts.contains((#[trigger] all[i]).contract),
    ensures
        staked_on_each(all, contracts) == stakes_sum(all),
    decreases all.len(),
{
    if all.len() > 0 {
        let rest = all.drop_last();
        assert forall|i: int| 0 <= i < rest.len() implies contracts.contains((#[trigger] rest[i]).contract) by {
            assert(rest[i] == all[i]);
        }
        assert(contracts.contains(all[all.len() - 1].contract));
        lemma_staked_on_each_sum(rest, contracts);
        lemma_staked_on_each_last(all, contracts);
    } else {
        lemma_nothing_staked(all, contracts);
    }
}

/// Without stakes nothing is staked.
proof fn lemma_nothing_staked(all: Seq<Stake>, contracts: Seq<AccountId>)
    requires
        all.len() == 0,
    ensures
        staked_on_each(all, contracts) == 0,
    decreases contracts.len(),
{
    if contracts.len() > 0 {
        lemma_nothing_staked(all, contracts.drop_last());
    }
}

/// The totals of the contracts make up all that is staked.
pub proof fn lemma_totals_are_stakes(all: Seq<Stake>, contracts: Seq<AccountId>)
    requires
        stakes_fit(all),
        contracts.no_duplicates(),
        contracts.to_set() == points_of(all).dom(),
    ensures
        totals_sum(points_of(all), contracts) == stakes_sum(all),
{
    assert forall|i: int| 0 <= i < all.len() implies contracts.contains((#[trigger] all[i]).contract) by {
        assert(backed(all, all[i].contract));
        assert(points_of(all).dom().contains(all[i].contract));
        assert(contracts.to_set().contains(all[i].contract));
    }
    lemma_staked_on_each_sum(all, contracts);
    assert forall|i: int| 0 <= i < contracts.len() implies backed(all, #[trigger] contracts[i]) by {
        assert(contracts.to_set().contains(contracts[i]));
    }
    lemma_totals_are_staked_on(all, contracts);
}

proof fn lemma_totals_are_staked_on(all: Seq<Stake>, contracts: Seq<AccountId>)
    requires
        stakes_fit(all),
        forall|i: int| 0 <= i < contracts.len() ==> backed(all, #[trigger] contracts[i]),
    ensures
        totals_sum(points_of(all), contracts) == staked_on_each(all, contracts),
    decreases contracts.len(),
{
    if contracts.len() > 0 {
        let rest = contracts.drop_last();
        assert forall|i: int| 0 <= i < rest.len() implies backed(all, #[trigger] rest[i]) by {
            assert(rest[i] == contracts[i]);
        }
        lemma_totals_are_staked_on(all, rest);
        let c = contracts[contracts.len() - 1];
        assert(backed(all, c));
        assert(staked_on(all, c) <= Balance::MAX);
    }
}

/// All that is staked on the contracts, or the most that a balance can hold.
pub fn total_stake(points: &BTreeMap<AccountId, EraStakingPoints<AccountId, Balance>>) -> (r: Balance)
    ensures
        r == saturated(totals_sum(points_view(points@), in_order(points@.dom()))),
{
    let contracts = keys_in_order(points);
    let ghost views = points_view(points@);
    let mut total: Balance = 0;
    for i in 0..contracts.len()
        invariant
            views == points_view(points@),
            contracts@.to_set() == points@.dom(),
            total == saturated(totals_sum(views, contracts@.take(i as int))),
    {
        let contract = contracts[i];
        proof {
            assert(contracts@.take(i + 1).drop_last() =~= contracts@.take(i as int));
            assert(contracts@.contains(contract));
            assert(contracts@.to_set().contains(contract));
            assert(points@.contains_key(contract));
        }
        if let Some(there) = points.get(&contract) {
            total = total.saturating_add(there.total);
        }
    }
    assert(contracts@.take(contracts@.len() as int) =~= contracts@);
    total
}

/// The points that stakes give add up: the total of each contract is the sum of what its nominators
/// have on it.
pub proof fn law_election_gives_sound_points(all: Seq<Stake>)
    requires
        stakes_fit(all),
    ensures
        points_sound(points_of(all)),
    decreases all.len(),
{
    if all.len() == 0 {
        assert(points_of(all) =~= Map::<AccountId, PointsView>::empty());
    } else {
        let rest = all.drop_last();
        let s = all.last();
        assert(rest.push(s) =~= all);
        lemma_points_push(rest, s);
        law_election_gives_sound_points(rest);
        let before = individual_on(rest, s.contract);
        if backed(rest, s.contract) {
            assert(points_of(rest).contains_key(s.contract));
        } else {
            lemma_not_backed(rest, s.contract);
            lemma_in_order(before.dom());
            lemma_empty_sum();
        }
        assert(staked_on(all, s.contract) <= Balance::MAX);
        assert(before.dom().finite());
        assert(staked_on(rest, s.contract) <= Balance::MAX);
        assert(map_sum(before) == staked_on(rest, s.contract));
        lemma_staked_by(rest, s.stash, s.contract);
        lemma_individual_push(rest, s, s.contract);
        lemma_map_sum_insert(
            before,
            s.stash,
            (staked_by(rest, s.stash, s.contract) + s.value) as Balance,
        );
    }
}

/// Nothing adds up to nothing.
proof fn lemma_empty_sum()
    ensures
        map_sum(Map::<AccountId, Balance>::empty()) == 0,
{
    let none = Map::<AccountId, Balance>::empty();
    let list = Seq::<AccountId>::empty();
    lemma_map_sum_listing(none, list);
}

/// The total of a contract is the sum of what each nominator has on it, also where a nomination
/// names the contract more than once.
pub proof fn law_total_is_sum_of_individual(all: Seq<Stake>, contract: AccountId)
    requires
        stakes_fit(all),
        points_of(all).contains_key(contract),
    ensures
        points_of(all)[contract].total == map_sum(points_of(all)[contract].individual),
{
    law_election_gives_sound_points(all);
}

/// What the targets name for `contract`, added up.
pub open spec fn named_for(targets: Seq<(AccountId, Balance)>, contract: AccountId) -> nat
    decreases targets.len(),
{
    if targets.len() == 0 {
        0
    } else {
        let before = named_for(targets.drop_last(), contract);
        if targets.last().0 == contract {
            before + targets.last().1 as nat
        } else {
            before
        }
    }
}

/// `contract` is among the targets.
pub open spec fn names(targets: Seq<(AccountId, Balance)>, contract: AccountId) -> bool {
    exists|i: int| 0 <= i < targets.len() && (#[trigger] targets[i]).0 == contract
}

/// The nomination of `stash` is listed and not suppressed.
pub open spec fn counts(
    nominations: Map<AccountId, NominationsView>,
    stashes: Seq<AccountId>,
    stash: AccountId,
) -> bool {
    stashes.contains(stash) && !nominations[stash].suppressed
}

/// A stash stakes on a contract what its targets name for it, and on it only for itself.
pub proof fn lemma_stakes_of(
    stash: AccountId,
    targets: Seq<(AccountId, Balance)>,
    other: AccountId,
    contract: AccountId,
)
    ensures
        staked_on(stakes_of(stash, targets), contract) == named_for(targets, contract),
        staked_by(stakes_of(stash, targets), other, contract) == if other == stash {
            named_for(targets, contract)
        } else {
            0
        },
        backs(stakes_of(stash, targets), other, contract) <==> other == stash && names(
            targets,
            contract,
        ),
    decreases targets.len(),
{
    let all = stakes_of(stash, targets);
    if targets.len() > 0 {
        lemma_stakes_of(stash, targets.drop_last(), other, contract);
        assert(all.drop_last() =~= stakes_of(stash, targets.drop_last()));
    }
    if backs(all, other, contract) {
        let i = choose|i: int|
            0 <= i < all.len() && (#[trigger] all[i]).stash == other && all[i].contract == contract;
        assert(targets[i].0 == contract);
    }
    if other == stash && names(targets, contract) {
        let i = choose|i: int| 0 <= i < targets.len() && (#[trigger] targets[i]).0 == contract;
        assert(all[i].stash == other && all[i].contract == contract);
    }
}

/// Stakes in two goes are those of one, for a stash too.
pub proof fn lemma_staked_by_concat(a: Seq<Stake>, b: Seq<Stake>, stash: AccountId, contract: AccountId)
    ensures
        staked_by(a + b, stash, contract) == staked_by(a, stash, contract) + staked_by(
            b,
            stash,
            contract,
        ),
        backs(a + b, stash, contract) <==> backs(a, stash, contract) || backs(b, stash, contract),
    decreases b.len(),
{
    if b.len() == 0 {
        assert(a + b =~= a);
        assert(!backs(b, stash, contract));
    } else {
        let rest = b.drop_last();
        let s = b.last();
        assert((a + b).drop_last() =~= a + rest);
        assert((a + rest).push(s) =~= a + b);
        assert(rest.push(s) =~= b);
        lemma_staked_by_concat(a, rest, stash, contract);
        lemma_backs_push(a + rest, s, stash, contract);
        lemma_backs_push(rest, s, stash, contract);
    }
}

/// What a stash has on a contract depends on its own nomination only: it is what its targets name
/// for the contract, if the nomination counts.
pub proof fn lemma_stakes_by_stash(
    nominations: Map<AccountId, NominationsView>,
    stashes: Seq<AccountId>,
    stash: AccountId,
    contract: AccountId,
)
    requires
        stashes.no_duplicates(),
    ensures
        staked_by(stakes(listed(nominations, stashes)), stash, contract) == if counts(
            nominations,
            stashes,
            stash,
        ) {
            named_for(nominations[stash].targets, contract)
        } else {
            0
        },
        backs(stakes(listed(nominations, stashes)), stash, contract) <==> counts(
            nominations,
            stashes,
            stash,
        ) && names(nominations[stash].targets, contract),
    decreases stashes.len(),
{
    let list = listed(nominations, stashes);
    if stashes.len() > 0 {
        let rest = stashes.drop_last();
        let last = stashes[stashes.len() - 1];
        lemma_stakes_by_stash(nominations, rest, stash, contract);
        assert(list.drop_last() =~= listed(nominations, rest));
        assert(list.last() == (last, nominations[last]));
        let before = stakes(listed(nominations, rest));
        let now = stakes_of(last, nominations[last].targets);
        lemma_staked_by_concat(before, now, stash, contract);
        lemma_stakes_of(last, nominations[last].targets, stash, contract);
        if last == stash {
            assert(!rest.contains(stash));
        } else {
            if stashes.contains(stash) {
                let i = choose|i: int| 0 <= i < stashes.len() && stashes[i] == stash;
                assert(rest[i] == stash);
            }
            if rest.contains(stash) {
                let i = choose|i: int| 0 <= i < rest.len() && rest[i] == stash;
                assert(stashes[i] == stash);
            }
        }
    } else {
        assert(!backs(stakes(list), stash, contract));
    }
}

/// What one nomination puts on `contract`.
pub open spec fn put_on(nominations: Map<AccountId, NominationsView>, contract: AccountId) -> spec_fn(
    AccountId,
) -> nat {
    |stash: AccountId|
        if nominations[stash].suppressed {
            0
        } else {
            named_for(nominations[stash].targets, contract)
        }
}

/// What all listed nominations put on a contract, as a sum.
pub proof fn lemma_staked_on_as_sum(
    nominations: Map<AccountId, NominationsView>,
    stashes: Seq<AccountId>,
    contract: AccountId,
)
    ensures
        staked_on(stakes(listed(nominations, stashes)), contract) == sum_over(
            put_on(nominations, contract),
            stashes,
        ),
    decreases stashes.len(),
{
    let list = listed(nominations, stashes);
    if stashes.len() > 0 {
        let rest = stashes.drop_last();
        let stash = stashes.last();
        lemma_staked_on_as_sum(nominations, rest, contract);
        assert(list.drop_last() =~= listed(nominations, rest));
        assert(list.last() == (stash, nominations[stash]));
        let before = stakes(listed(nominations, rest));
        let now = stakes_of(stash, nominations[stash].targets);
        lemma_staked_on_concat(before, now, contract);
        lemma_stakes_of(stash, nominations[stash].targets, stash, contract);
    }
}

/// A contract is backed if and only if some stash backs it.
pub proof fn lemma_backed_by_someone(all: Seq<Stake>, contract: AccountId)
    ensures
        backed(all, contract) <==> exists|stash: AccountId| #[trigger] backs(all, stash, contract),
{
    if backed(all, contract) {
        let i = choose|i: int| 0 <= i < all.len() && (#[trigger] all[i]).contract == contract;
        assert(backs(all, all[i].stash, contract));
    }
    if exists|stash: AccountId| #[trigger] backs(all, stash, contract) {
        let stash = choose|stash: AccountId| #[trigger] backs(all, stash, contract);
        let i = choose|i: int|
            0 <= i < all.len() && (#[trigger] all[i]).stash == stash && all[i].contract == contract;
        assert(all[i].contract == contract);
    }
}

} // verus!
