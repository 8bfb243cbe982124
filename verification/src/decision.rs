//! The decision engine: which guess guarantees the most eliminations,
//! whatever the answer turns out to be.

use crate::best_choices::BestChoices;
use crate::guarantee::{
    eliminated, eliminations, fewest_eliminations, guaranteed_eliminations_above,
    is_pruned_guarantee, lemma_fewest_eliminations_is_least,
    lemma_kept_and_eliminated_part_the_members,
};
use crate::parallel::map_indices;
use crate::score::{
    lemma_all_black_means_equal, lemma_score_of_self, lemma_score_within_spaces, score_of,
};
use crate::subset::{kept_members, member_list, ScoreFilter, Subset};
use crate::universe::{rows, Universe};
use vstd::prelude::*;
use vstd::set_lib::{lemma_len_subset, lemma_set_empty_equivalency_len};

verus! {

/// Whether no combination of the universe guarantees more eliminations than
/// the one at `candidate`.
pub open spec fn is_optimal(universe: Seq<Seq<u8>>, members: Set<u32>, candidate: u32) -> bool {
    &&& candidate < universe.len()
    &&& forall|other: u32|
        other < universe.len() ==> fewest_eliminations(universe[other as int], universe, members)
            <= fewest_eliminations(universe[candidate as int], universe, members)
}

/// Whether `choice` is the optimal candidate that the tie-break picks: the
/// first optimal candidate that is itself a member, or, where no optimal
/// candidate is a member, the last optimal candidate.
pub open spec fn is_preferred(universe: Seq<Seq<u8>>, members: Set<u32>, choice: u32) -> bool {
    &&& is_optimal(universe, members, choice)
    &&& forall|other: u32| #[trigger]
        is_optimal(universe, members, other) ==> if members.contains(choice) {
            members.contains(other) ==> choice <= other
        } else {
            !members.contains(other) && other <= choice
        }
}

/// Why no guess could be chosen.
#[derive(Clone, Copy, Debug, PartialEq, Eq, Structural)]
pub enum DecideError {
    /// No combination fits the feedback seen so far.
    NoConsistentAnswer,
}

/// How many candidates are evaluated side by side before the best guarantee
/// so far is looked up again.
pub const BATCH: usize = 128;

/// Evaluates every combination of the universe as the next guess and
/// gathers the ones that guarantee the most eliminations among the
/// remaining members, in rising order of their indices.
///
/// The candidates are evaluated in parallel, batch by batch. Within a batch
/// each evaluation gives up once it falls short of the best guarantee of the
/// batches before; the results are then taken up one by one, in order. What
/// is gathered depends neither on the order in which the evaluations finish
/// nor on how much of them was skipped.
pub fn evaluate_candidates(remaining_subset: &Subset) -> (best_choices: BestChoices)
    requires
        remaining_subset.wf(),
    ensures
        best_choices.lists_optimal(remaining_subset.original@, remaining_subset@),
{
    let all_combinations = &remaining_subset.original.combinations;
    let members = member_list(&remaining_subset.members);
    let ghost universe = rows(all_combinations@);
    let ghost answers = remaining_subset.members@;
    let ghost guaranteed = Seq::new(
        all_combinations.len() as nat,
        |c: int| fewest_eliminations(universe[c], universe, answers),
    );
    let total: usize = all_combinations.len();
    proof {
        vstd::arithmetic::power::lemma_pow_positive(
            remaining_subset.original.num_colors as int,
            remaining_subset.original.num_spaces as nat,
        );
        assert forall|j: int| 0 <= j < members.len() implies members[j]
            < all_combinations.len() by {
            assert(members@.to_set().contains(members[j]));
        }
    }

    let mut best_choices = BestChoices { candidates: Vec::new(), fewest_eliminations: 0 };
    let mut start: usize = 0;
    while start < total
        invariant
            start <= total,
            total == all_combinations.len(),
            total <= u32::MAX,
            remaining_subset.wf(),
            all_combinations == &remaining_subset.original.combinations,
            universe == rows(all_combinations@),
            answers == members@.to_set(),
            members@.no_duplicates(),
            forall|j: int| 0 <= j < members.len() ==> members[j] < all_combinations.len(),
            guaranteed.len() == total,
            forall|c: int|
                0 <= c < total ==> guaranteed[c] == fewest_eliminations(
                    universe[c],
                    universe,
                    answers,
                ),
            best_choices.tracks(guaranteed, start as nat),
        decreases total - start,
    {
        let batch: usize = if total - start < BATCH {
            total - start
        } else {
            BATCH
        };
        let best_so_far: u32 = best_choices.fewest_eliminations;
        let evaluate_candidate = |offset: usize| -> (reported: u32)
            requires
                offset < batch,
            ensures
                is_pruned_guarantee(
                    fewest_eliminations(
                        rows(all_combinations@)[start + offset],
                        rows(all_combinations@),
                        members@.to_set(),
                    ),
                    best_so_far as nat,
                    reported as nat,
                ),
            {
                guaranteed_eliminations_above(
                    &all_combinations[start + offset],
                    all_combinations,
                    &members,
                    best_so_far,
                )
            };
        let reported: Vec<u32> = map_indices(batch, evaluate_candidate);

        let mut offset: usize = 0;
        while offset < batch
            invariant
                offset <= batch,
                start + batch <= total,
                total <= u32::MAX,
                guaranteed.len() == total,
                reported.len() == batch,
                forall|i: int|
                    0 <= i < batch ==> is_pruned_guarantee(
                        guaranteed[start + i],
                        best_so_far as nat,
                        #[trigger] reported[i] as nat,
                    ),
                best_so_far <= best_choices.fewest_eliminations,
                best_choices.tracks(guaranteed, (start + offset) as nat),
            decreases batch - offset,
        {
            let ghost before = best_choices;
            best_choices.evaluate((start + offset) as u32, reported[offset]);
            proof {
                best_choices.lemma_evaluate_keeps_track(
                    &before,
                    guaranteed,
                    (start + offset) as nat,
                    best_so_far as nat,
                    reported[offset as int],
                );
            }
            offset += 1;
        }
        start += batch;
    }

    proof {
        assert forall|other: u32| is_optimal(universe, answers, other) implies exists|k: int|
            0 <= k < best_choices.candidates.len() && best_choices.candidates[k] == other by {
            let first = best_choices.candidates[0];
            assert(guaranteed[first as int] == best_choices.fewest_eliminations);
            assert(guaranteed[other as int] == best_choices.fewest_eliminations);
        }
        assert forall|k: int| 0 <= k < best_choices.candidates.len() implies {
            &&& is_optimal(universe, answers, #[trigger] best_choices.candidates[k])
            &&& fewest_eliminations(
                universe[best_choices.candidates[k] as int],
                universe,
                answers,
            ) == best_choices.fewest_eliminations
        } by {
            let tied_candidate = best_choices.candidates[k];
            assert forall|other: u32| other < universe.len() implies fewest_eliminations(
                universe[other as int],
                universe,
                answers,
            ) <= fewest_eliminations(universe[tied_candidate as int], universe, answers) by {
                assert(guaranteed[other as int] <= best_choices.fewest_eliminations);
            }
        }
    }
    best_choices
}

/// Chooses the next guess: a combination of the universe that guarantees
/// the most eliminations among the remaining members, whichever of them is
/// the answer.
///
/// Among the combinations that guarantee the most, the first one that is
/// itself a remaining member is chosen; where none is, the last one. With
/// no member left there is nothing to choose, which is an error.
pub fn decide(remaining_subset: &Subset) -> (choice: Result<u32, DecideError>)
    requires
        remaining_subset.wf(),
    ensures
        choice is Err <==> remaining_subset@.is_empty(),
        choice matches Ok(guess) ==> is_preferred(
            remaining_subset.original@,
            remaining_subset@,
            guess,
        ),
{
    if remaining_subset.members.len() == 0 {
        return Err(DecideError::NoConsistentAnswer);
    }
    let best_choices = evaluate_candidates(remaining_subset);
    match best_choices.pick(remaining_subset) {
        Some(guess) => {
            proof {
                best_choices.lemma_pick_is_preferred(
                    remaining_subset.original@,
                    remaining_subset@,
                    guess,
                );
            }
            Ok(guess)
        },
        None => Err(DecideError::NoConsistentAnswer),
    }
}

/// Whatever order the evaluations finish in, what the chosen guess
/// guarantees is the same: two optimal candidates guarantee the same number
/// of eliminations.
pub proof fn lemma_optimal_guarantee_is_unique(
    universe: Seq<Seq<u8>>,
    members: Set<u32>,
    one: u32,
    other: u32,
)
    requires
        is_optimal(universe, members, one),
        is_optimal(universe, members, other),
    ensures
        fewest_eliminations(universe[one as int], universe, members) == fewest_eliminations(
            universe[other as int],
            universe,
            members,
        ),
{
}

/// The tie-break leaves no choice open: at most one candidate is the
/// preferred one.
pub proof fn lemma_preferred_is_unique(
    universe: Seq<Seq<u8>>,
    members: Set<u32>,
    one: u32,
    other: u32,
)
    requires
        is_preferred(universe, members, one),
        is_preferred(universe, members, other),
    ensures
        one == other,
{
}

/// A guess that is itself a member tells itself apart from every other
/// member: whichever member is the answer, it eliminates at least one of
/// two or more members.
proof fn lemma_member_guess_eliminates(
    universe: &Universe,
    members: Set<u32>,
    guess: u32,
    answer: u32,
)
    requires
        universe.wf(),
        members.finite(),
        forall|member: u32| members.contains(member) ==> member < universe@.len(),
        members.len() >= 2,
        members.contains(guess),
        members.contains(answer),
    ensures
        eliminations(universe@[guess as int], universe@[answer as int], universe@, members) >= 1,
{
    let combination = universe@[guess as int];
    let gone = eliminated(combination, universe@[answer as int], universe@, members);
    lemma_len_subset(gone, members);
    let other = if answer == guess {
        lemma_set_empty_equivalency_len(members.remove(guess));
        choose|other: u32| members.remove(guess).contains(other)
    } else {
        answer
    };
    lemma_score_of_self(combination);
    lemma_score_within_spaces(combination, universe@[other as int]);
    if score_of(combination, universe@[other as int]) == score_of(combination, combination) {
        lemma_all_black_means_equal(combination, universe@[other as int]);
    }
    if answer == guess {
        assert(gone.contains(other));
    } else {
        assert(gone.contains(guess));
    }
}

/// While two or more members remain, an optimal guess is sure to eliminate
/// at least one of them.
pub proof fn lemma_optimal_guess_eliminates(universe: &Universe, members: Set<u32>, guess: u32)
    requires
        universe.wf(),
        members.finite(),
        forall|member: u32| members.contains(member) ==> member < universe@.len(),
        members.len() >= 2,
        is_optimal(universe@, members, guess),
    ensures
        fewest_eliminations(universe@[guess as int], universe@, members) >= 1,
{
    let member = choose|member: u32| members.contains(member);
    lemma_fewest_eliminations_is_least(universe@[member as int], universe@, members);
    let guarantee = fewest_eliminations(universe@[member as int], universe@, members);
    let answer = choose|answer: u32|
        members.contains(answer) && guarantee == #[trigger] eliminations(
            universe@[member as int],
            universe@[answer as int],
            universe@,
            members,
        );
    lemma_member_guess_eliminates(universe, members, member, answer);
}

/// Every turn makes progress: while two or more members remain, filtering
/// them by the score that an optimal guess earns against the answer, itself
/// a member, leaves fewer members, the answer among them.
pub proof fn lemma_optimal_guess_narrows(
    universe: &Universe,
    members: Set<u32>,
    guess: u32,
    answer: u32,
    filter: ScoreFilter,
)
    requires
        universe.wf(),
        members.finite(),
        forall|member: u32| members.contains(member) ==> member < universe@.len(),
        members.len() >= 2,
        members.contains(answer),
        is_optimal(universe@, members, guess),
        filter.guess@ == universe@[guess as int],
        *filter.score == score_of(filter.guess@, universe@[answer as int]),
    ensures
        kept_members(&filter, universe@, members).contains(answer),
        kept_members(&filter, universe@, members).len() < members.len(),
{
    lemma_optimal_guess_eliminates(universe, members, guess);
    lemma_fewest_eliminations_is_least(universe@[guess as int], universe@, members);
    lemma_kept_and_eliminated_part_the_members(
        filter,
        universe@[answer as int],
        universe@,
        members,
    );
}

/// With one member left, that member is the choice.
pub proof fn lemma_lone_member_is_preferred(
    universe: Seq<Seq<u8>>,
    members: Set<u32>,
    member: u32,
    choice: u32,
)
    requires
        universe.len() <= u32::MAX,
        member < universe.len(),
        members == set![member],
        is_preferred(universe, members, choice),
    ensures
        choice == member,
{
    assert forall|candidate: u32| candidate < universe.len() implies fewest_eliminations(
        universe[candidate as int],
        universe,
        members,
    ) == 0 by {
        let guess = universe[candidate as int];
        lemma_fewest_eliminations_is_least(guess, universe, members);
        assert(eliminated(guess, universe[member as int], universe, members) =~= Set::empty());
    }
    assert(is_optimal(universe, members, member));
}

} // verus!
