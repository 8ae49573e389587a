//! The ledger of one stash: what is at stake and what is on its way out.
use crate::types::{AccountId, Balance, EraIndex, LedgerView, StakingLedger, UnlockChunk};
use crate::types::MAX_UNLOCKING_CHUNKS;
use vstd::prelude::*;

verus! {

/// What the chunks are worth together.
pub open spec fn chunks_sum(chunks: Seq<UnlockChunk<Balance>>) -> nat
    decreases chunks.len(),
{
    if chunks.len() == 0 {
        0
    } else {
        chunks_sum(chunks.drop_last()) + chunks.last().value as nat
    }
}

/// The chunks that are still locked in `era`.
pub open spec fn still_locked(chunks: Seq<UnlockChunk<Balance>>, era: EraIndex) -> Seq<
    UnlockChunk<Balance>,
> {
    chunks.filter(|chunk: UnlockChunk<Balance>| chunk.era > era)
}

/// The chunks that are free in `era`.
pub open spec fn matured(chunks: Seq<UnlockChunk<Balance>>, era: EraIndex) -> Seq<
    UnlockChunk<Balance>,
> {
    chunks.filter(|chunk: UnlockChunk<Balance>| chunk.era <= era)
}

impl LedgerView {
    /// The total is what is active plus what is unlocking.
    pub open spec fn adds_up(self) -> bool {
        self.total == self.active + chunks_sum(self.unlocking)
    }

    /// The total is what is active plus what is unlocking, in chunks that each hold something and
    /// are no more than the limit.
    pub open spec fn wf(self) -> bool {
        &&& self.adds_up()
        &&& self.unlocking.len() <= MAX_UNLOCKING_CHUNKS
        &&& forall|i: int| 0 <= i < self.unlocking.len() ==> (#[trigger] self.unlocking[i]).value > 0
    }

    /// The ledger without the chunks that are free in `era`, and without what they are worth in the
    /// total.
    pub open spec fn consolidated(self, era: EraIndex) -> LedgerView {
        let freed = chunks_sum(matured(self.unlocking, era));
        LedgerView {
            total: if freed <= self.total { (self.total - freed) as Balance } else { 0 },
            unlocking: still_locked(self.unlocking, era),
            ..self
        }
    }
}

/// A chunk more is its value more.
pub proof fn lemma_chunks_sum_push(chunks: Seq<UnlockChunk<Balance>>, chunk: UnlockChunk<Balance>)
    ensures
        chunks_sum(chunks.push(chunk)) == chunks_sum(chunks) + chunk.value,
{
    assert(chunks.push(chunk).drop_last() =~= chunks);
}

/// Every chunk is either still locked or free, and the two kinds make up the whole.
pub proof fn lemma_chunks_split(chunks: Seq<UnlockChunk<Balance>>, era: EraIndex)
    ensures
        chunks_sum(still_locked(chunks, era)) + chunks_sum(matured(chunks, era)) == chunks_sum(chunks),
    decreases chunks.len(),
{
    reveal(Seq::filter);
    if chunks.len() > 0 {
        let rest = chunks.drop_last();
        lemma_chunks_split(rest, era);
        if chunks.last().era > era {
            lemma_chunks_sum_push(still_locked(rest, era), chunks.last());
        } else {
            lemma_chunks_sum_push(matured(rest, era), chunks.last());
        }
    }
}

/// What is still locked was there before, and is no more than was there.
pub proof fn lemma_still_locked(chunks: Seq<UnlockChunk<Balance>>, era: EraIndex)
    ensures
        still_locked(chunks, era).len() <= chunks.len(),
        forall|i: int|
            0 <= i < still_locked(chunks, era).len() ==> {
                let chunk = #[trigger] still_locked(chunks, era)[i];
                chunk.era > era && chunks.contains(chunk)
            },
    decreases chunks.len(),
{
    reveal(Seq::filter);
    if chunks.len() > 0 {
        let rest = chunks.drop_last();
        lemma_still_locked(rest, era);
        let kept = still_locked(chunks, era);
        assert forall|i: int| 0 <= i < kept.len() implies (#[trigger] kept[i]).era > era
            && chunks.contains(kept[i]) by {
            if i < still_locked(rest, era).len() {
                let chunk = still_locked(rest, era)[i];
                assert(kept[i] == chunk);
                let j = choose|j: int| 0 <= j < rest.len() && rest[j] == chunk;
                assert(chunks[j] == chunk);
            } else {
                assert(chunks[chunks.len() - 1] == kept[i]);
            }
        }
    }
}

impl StakingLedger<AccountId, Balance> {
    /// Remove entries from `unlocking` that are sufficiently old and reduce the total by the sum of
    /// their balances.
    pub fn consolidate_unlocked(self, current_era: EraIndex) -> (r: Self)
        ensures
            r@ == self@.consolidated(current_era),
    {
        let mut total: Balance = self.total;
        let mut unlocking: Vec<UnlockChunk<Balance>> = Vec::new();
        let ghost all = self.unlocking@;
        for i in 0..self.unlocking.len()
            invariant
                all == self.unlocking@,
                unlocking@ == still_locked(all.take(i as int), current_era),
                ({
                    let freed = chunks_sum(matured(all.take(i as int), current_era));
                    total == if freed <= self.total { self.total - freed } else { 0 }
                }),
        {
            reveal(Seq::filter);
            let chunk = self.unlocking[i];
            proof {
                assert(all.take(i + 1).drop_last() =~= all.take(i as int));
                assert(all.take(i + 1).last() == chunk);
                lemma_chunks_sum_push(matured(all.take(i as int), current_era), chunk);
            }
            if chunk.era > current_era {
                unlocking.push(chunk);
            } else {
                total = total.saturating_sub(chunk.value);
            }
        }
        assert(all.take(all.len() as int) =~= all);
        StakingLedger {
            total,
            active: self.active,
            stash: self.stash,
            unlocking,
            last_reward: self.last_reward,
        }
    }
}

} // verus!
