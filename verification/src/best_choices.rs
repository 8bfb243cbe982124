//! The accumulator of one decision round: the greatest guarantee met so
//! far and the candidates that reach it.

use crate::decision::{is_optimal, is_preferred};
use crate::guarantee::{fewest_eliminations, is_pruned_guarantee};
use crate::subset::Subset;
use vstd::prelude::*;

verus! {

/// The best candidates met so far in one round, and what they guarantee.
pub struct BestChoices {
    pub candidates: Vec<u32>,
    pub fewest_eliminations: u32,
}

impl BestChoices {
    /// Whether `self` is `before` after it was shown `candidate` with the
    /// guarantee `value`: a greater guarantee replaces the list, an equal
    /// one joins it, a smaller one changes nothing.
    pub open spec fn follows(&self, before: &BestChoices, candidate: u32, value: u32) -> bool {
        if before.fewest_eliminations < value {
            &&& self.fewest_eliminations == value
            &&& self.candidates@ == seq![candidate]
        } else if before.fewest_eliminations == value {
            &&& self.fewest_eliminations == value
            &&& self.candidates@ == before.candidates@.push(candidate)
        } else {
            &&& self.fewest_eliminations == before.fewest_eliminations
            &&& self.candidates@ == before.candidates@
        }
    }

    /// Whether `self` sums up the candidates `0..seen` with the guarantees
    /// `guaranteed`: it holds their greatest guarantee and, in rising order,
    /// exactly the candidates that reach it.
    pub open spec fn tracks(&self, guaranteed: Seq<nat>, seen: nat) -> bool {
        &&& seen <= guaranteed.len()
        &&& forall|c: int| 0 <= c < seen ==> guaranteed[c] <= self.fewest_eliminations
        &&& forall|k: int|
            0 <= k < self.candidates.len() ==> {
                &&& (#[trigger] self.candidates[k]) < seen
                &&& guaranteed[self.candidates[k] as int] == self.fewest_eliminations
            }
        &&& forall|c: int|
            0 <= c < seen && #[trigger] guaranteed[c] == self.fewest_eliminations ==> exists|k: int|
                0 <= k < self.candidates.len() && self.candidates[k] == c
        &&& forall|j: int, k: int|
            0 <= j < k < self.candidates.len() ==> self.candidates[j] < self.candidates[k]
        &&& self.candidates.len() == 0 ==> seen == 0 && self.fewest_eliminations == 0
    }

    /// Shows the accumulator one candidate and what it guarantees.
    pub fn evaluate(&mut self, candidate: u32, candidate_fewest_eliminations: u32)
        ensures
            final(self).follows(old(self), candidate, candidate_fewest_eliminations),
    {
        if self.fewest_eliminations < candidate_fewest_eliminations {
            self.fewest_eliminations = candidate_fewest_eliminations;
            self.candidates.clear();
            self.candidates.push(candidate);
        } else if self.fewest_eliminations == candidate_fewest_eliminations {
            self.candidates.push(candidate);
        }
    }

    /// Whether the list holds, in rising order, exactly the optimal
    /// candidates, of which there is at least one, and
    /// `fewest_eliminations` is what each of them guarantees.
    pub open spec fn lists_optimal(&self, universe: Seq<Seq<u8>>, members: Set<u32>) -> bool {
        &&& self.candidates.len() > 0
        &&& forall|j: int, k: int|
            0 <= j < k < self.candidates.len() ==> self.candidates[j] < self.candidates[k]
        &&& forall|k: int|
            0 <= k < self.candidates.len() ==> {
                &&& is_optimal(universe, members, #[trigger] self.candidates[k])
                &&& fewest_eliminations(universe[self.candidates[k] as int], universe, members)
                    == self.fewest_eliminations
            }
        &&& forall|other: u32| #[trigger]
            is_optimal(universe, members, other) ==> exists|k: int|
                0 <= k < self.candidates.len() && self.candidates[k] == other
    }

    /// Whether the candidate at `position` in the list is the one that the
    /// tie-break picks: the first that is a member, or, where none is, the
    /// last.
    pub open spec fn picks(&self, members: Set<u32>, position: int) -> bool {
        &&& 0 <= position < self.candidates.len()
        &&& forall|k: int| 0 <= k < position ==> !members.contains(#[trigger] self.candidates[k])
        &&& !members.contains(self.candidates[position]) ==> position == self.candidates.len() - 1
    }

    /// Breaks the tie between the listed candidates: picks the first one
    /// that is itself a remaining member, or, where none is, the last one.
    /// An empty list offers nothing to pick.
    pub fn pick(&self, remaining_subset: &Subset) -> (choice: Option<u32>)
        ensures
            choice is None <==> self.candidates.len() == 0,
            choice matches Some(guess) ==> exists|position: int|
                self.picks(remaining_subset@, position) && #[trigger] self.candidates[position]
                    == guess,
    {
        let tied: usize = self.candidates.len();
        if tied == 0 {
            return None;
        }
        let mut position: usize = 0;
        while position < tied
            invariant
                position <= tied,
                tied == self.candidates.len(),
                forall|k: int|
                    0 <= k < position ==> !remaining_subset@.contains(
                        #[trigger] self.candidates[k],
                    ),
            decreases tied - position,
        {
            let tied_candidate: u32 = self.candidates[position];
            if remaining_subset.members.contains(&tied_candidate) {
                return Some(tied_candidate);
            }
            position += 1;
        }
        Some(self.candidates[tied - 1])
    }

    /// What the tie-break picks from the list of the optimal candidates is
    /// the preferred candidate.
    pub proof fn lemma_pick_is_preferred(
        &self,
        universe: Seq<Seq<u8>>,
        members: Set<u32>,
        guess: u32,
    )
        requires
            self.lists_optimal(universe, members),
            exists|position: int|
                self.picks(members, position) && #[trigger] self.candidates[position] == guess,
        ensures
            is_preferred(universe, members, guess),
    {
        let position = choose|position: int|
            self.picks(members, position) && #[trigger] self.candidates[position] == guess;
        assert forall|other: u32| #[trigger]
            is_optimal(universe, members, other) implies if members.contains(guess) {
            members.contains(other) ==> guess <= other
        } else {
            !members.contains(other) && other <= guess
        } by {
            let k = choose|k: int| 0 <= k < self.candidates.len() && self.candidates[k] == other;
            if k < position {
                assert(!members.contains(self.candidates[k]));
            }
        }
    }

    /// An accumulator that has seen the candidates `0..seen` keeps, after
    /// the next one, every candidate on its list at the tracked greatest
    /// guarantee, and never tracks less than before.
    ///
    /// The next candidate may have been evaluated against an older, lower
    /// `best_so_far` than the accumulator holds by now: what is then
    /// reported too high for it is still too low to be taken up.
    pub proof fn lemma_evaluate_keeps_track(
        &self,
        before: &BestChoices,
        guaranteed: Seq<nat>,
        seen: nat,
        best_so_far: nat,
        reported: u32,
    )
        requires
            before.tracks(guaranteed, seen),
            seen < guaranteed.len(),
            seen <= u32::MAX,
            best_so_far <= before.fewest_eliminations,
            is_pruned_guarantee(guaranteed[seen as int], best_so_far, reported as nat),
            self.follows(before, seen as u32, reported),
        ensures
            self.tracks(guaranteed, seen + 1),
            before.fewest_eliminations <= self.fewest_eliminations,
    {
        if before.fewest_eliminations < reported {
            assert(self.candidates[0] == seen);
        } else if before.fewest_eliminations == reported {
            let last = before.candidates.len() as int;
            assert(self.candidates[last] == seen);
            assert forall|k: int| 0 <= k < before.candidates.len() implies self.candidates[k]
                == before.candidates[k] by {}
            assert forall|c: int|
                0 <= c < seen + 1 && #[trigger] guaranteed[c]
                    == self.fewest_eliminations implies exists|k: int|
                0 <= k < self.candidates.len() && self.candidates[k] == c by {
                if c < seen {
                    let k = choose|k: int|
                        0 <= k < before.candidates.len() && before.candidates[k] == c;
                    assert(self.candidates[k] == c);
                }
            }
        }
    }
}

} // verus!
