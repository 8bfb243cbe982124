//! What a guess is sure to eliminate, whichever member is the answer.

use crate::score::{score_of, Score, MAX_SPACES};
use crate::subset::{kept_members, ScoreFilter};
use crate::universe::rows;
use vstd::prelude::*;
use vstd::set_lib::{lemma_len_subset, lemma_set_disjoint_lens};

verus! {

/// The members that `guess` tells apart from `answer`: those against which
/// it earns another score than against `answer`.
pub open spec fn eliminated(
    guess: Seq<u8>,
    answer: Seq<u8>,
    universe: Seq<Seq<u8>>,
    members: Set<u32>,
) -> Set<u32> {
    Set::new(
        |member: u32|
            members.contains(member) && score_of(guess, universe[member as int]) != score_of(
                guess,
                answer,
            ),
    )
}

/// How many members `guess` rules out when the answer is `answer`.
pub open spec fn eliminations(
    guess: Seq<u8>,
    answer: Seq<u8>,
    universe: Seq<Seq<u8>>,
    members: Set<u32>,
) -> nat {
    eliminated(guess, answer, universe, members).len()
}

/// The least number of eliminations of `guess` over the answers that are
/// members with an index below `bound`; the number of members if there is
/// no such answer.
pub open spec fn fewest_eliminations_below(
    guess: Seq<u8>,
    universe: Seq<Seq<u8>>,
    members: Set<u32>,
    bound: nat,
) -> nat
    decreases bound,
{
    if bound == 0 {
        members.len()
    } else {
        let rest = fewest_eliminations_below(guess, universe, members, (bound - 1) as nat);
        let here = eliminations(guess, universe[bound - 1], universe, members);
        if members.contains((bound - 1) as u32) && here < rest {
            here
        } else {
            rest
        }
    }
}

/// What `guess` is guaranteed to eliminate: the least number of
/// eliminations over every member as the answer.
pub open spec fn fewest_eliminations(
    guess: Seq<u8>,
    universe: Seq<Seq<u8>>,
    members: Set<u32>,
) -> nat {
    fewest_eliminations_below(guess, universe, members, universe.len())
}

/// Whether `reported` may stand for the guarantee `exact` of a candidate
/// that was evaluated while `best_so_far` was already guaranteed by another:
/// a candidate that reaches `best_so_far` is reported exactly; one that
/// falls short may be reported too high, yet still short of `best_so_far`.
pub open spec fn is_pruned_guarantee(exact: nat, best_so_far: nat, reported: nat) -> bool {
    if exact >= best_so_far {
        reported == exact
    } else {
        exact <= reported < best_so_far
    }
}

/// A finite set of indices below `bound` has at most `bound` elements.
proof fn lemma_bounded_set_len(indices: Set<u32>, bound: nat)
    requires
        indices.finite(),
        forall|index: u32| indices.contains(index) ==> index < bound,
    ensures
        indices.len() <= bound,
    decreases bound,
{
    if bound == 0 {
        assert(indices =~= Set::empty());
    } else if bound - 1 > u32::MAX {
        lemma_bounded_set_len(indices, (bound - 1) as nat);
    } else {
        let top = (bound - 1) as u32;
        lemma_bounded_set_len(indices.remove(top), (bound - 1) as nat);
    }
}

/// One more member adds one elimination exactly when the guess scores it
/// otherwise than the answer.
proof fn lemma_eliminated_insert(
    guess: Seq<u8>,
    answer: Seq<u8>,
    universe: Seq<Seq<u8>>,
    members: Set<u32>,
    next: u32,
)
    requires
        members.finite(),
        !members.contains(next),
    ensures
        eliminated(guess, answer, universe, members).finite(),
        eliminations(guess, answer, universe, members) <= members.len(),
        eliminations(guess, answer, universe, members.insert(next)) == eliminations(
            guess,
            answer,
            universe,
            members,
        ) + if score_of(guess, universe[next as int]) != score_of(guess, answer) {
            1nat
        } else {
            0nat
        },
{
    let before = eliminated(guess, answer, universe, members);
    let after = eliminated(guess, answer, universe, members.insert(next));
    lemma_len_subset(before, members);
    if score_of(guess, universe[next as int]) != score_of(guess, answer) {
        assert(after =~= before.insert(next));
    } else {
        assert(after =~= before);
    }
}

/// The first `count + 1` entries of a list without repeats are its first
/// `count` entries and one new entry.
proof fn lemma_prefix_grows(list: Seq<u32>, count: int)
    requires
        list.no_duplicates(),
        0 <= count < list.len(),
    ensures
        list.take(count).to_set().finite(),
        !list.take(count).to_set().contains(list[count]),
        list.take(count + 1).to_set() == list.take(count).to_set().insert(list[count]),
{
    let shorter = list.take(count);
    let longer = list.take(count + 1);
    assert forall|index: u32| longer.to_set().contains(index) <==> shorter.to_set().insert(
        list[count],
    ).contains(index) by {
        if shorter.contains(index) {
            let k = choose|k: int| 0 <= k < shorter.len() && shorter[k] == index;
            assert(longer[k] == index);
        }
        if index == list[count] {
            assert(longer[count] == index);
        }
    }
}

/// The least below a bound is no more than the number of members and than
/// the eliminations for any member below the bound, and is one of these.
proof fn lemma_fewest_below_is_least(
    guess: Seq<u8>,
    universe: Seq<Seq<u8>>,
    members: Set<u32>,
    bound: nat,
)
    requires
        bound <= u32::MAX + 1,
    ensures
        fewest_eliminations_below(guess, universe, members, bound) <= members.len(),
        forall|answer: u32|
            answer < bound && members.contains(answer) ==> fewest_eliminations_below(
                guess,
                universe,
                members,
                bound,
            ) <= #[trigger] eliminations(guess, universe[answer as int], universe, members),
        fewest_eliminations_below(guess, universe, members, bound) == members.len() || exists|
            answer: u32,
        |
            answer < bound && members.contains(answer) && fewest_eliminations_below(
                guess,
                universe,
                members,
                bound,
            ) == #[trigger] eliminations(guess, universe[answer as int], universe, members),
    decreases bound,
{
    if bound > 0 {
        lemma_fewest_below_is_least(guess, universe, members, (bound - 1) as nat);
        let rest = fewest_eliminations_below(guess, universe, members, (bound - 1) as nat);
        let top = (bound - 1) as u32;
        let here = eliminations(guess, universe[top as int], universe, members);
        if members.contains(top) && here < rest {
        } else if rest != members.len() {
            let answer = choose|answer: u32|
                answer < bound - 1 && members.contains(answer) && rest == #[trigger] eliminations(
                    guess,
                    universe[answer as int],
                    universe,
                    members,
                );
            assert(answer < bound);
        }
    }
}

/// What a guess guarantees is the least of its eliminations over the
/// members: no member as the answer gives fewer, and, unless there is no
/// member, some member gives exactly as many.
pub proof fn lemma_fewest_eliminations_is_least(
    guess: Seq<u8>,
    universe: Seq<Seq<u8>>,
    members: Set<u32>,
)
    requires
        universe.len() <= u32::MAX,
        members.finite(),
        forall|member: u32| members.contains(member) ==> member < universe.len(),
    ensures
        fewest_eliminations(guess, universe, members) <= members.len(),
        forall|answer: u32|
            members.contains(answer) ==> fewest_eliminations(guess, universe, members)
                <= #[trigger] eliminations(guess, universe[answer as int], universe, members),
        !members.is_empty() ==> exists|answer: u32|
            members.contains(answer) && fewest_eliminations(guess, universe, members)
                == #[trigger] eliminations(guess, universe[answer as int], universe, members),
{
    lemma_fewest_below_is_least(guess, universe, members, universe.len());
    let fewest = fewest_eliminations(guess, universe, members);
    if !members.is_empty() && fewest == members.len() {
        let answer = choose|answer: u32| members.contains(answer);
        lemma_len_subset(eliminated(guess, universe[answer as int], universe, members), members);
        assert(fewest == eliminations(guess, universe[answer as int], universe, members));
    }
}

/// The least of the eliminations over the members is what the guess
/// guarantees: a bound that some member attains is the guarantee.
proof fn lemma_least_is_fewest_eliminations(
    guess: Seq<u8>,
    universe: Seq<Seq<u8>>,
    members: Set<u32>,
    least: nat,
)
    requires
        universe.len() <= u32::MAX,
        members.finite(),
        forall|member: u32| members.contains(member) ==> member < universe.len(),
        least <= members.len(),
        forall|answer: u32|
            members.contains(answer) ==> least <= #[trigger] eliminations(
                guess,
                universe[answer as int],
                universe,
                members,
            ),
        least == members.len() || exists|answer: u32|
            members.contains(answer) && least == #[trigger] eliminations(
                guess,
                universe[answer as int],
                universe,
                members,
            ),
    ensures
        least == fewest_eliminations(guess, universe, members),
{
    lemma_fewest_below_is_least(guess, universe, members, universe.len());
}

/// Filtering by the score that the guess earns against the answer keeps
/// exactly the members that the guess does not eliminate: what is kept and
/// what is eliminated add up to the members.
pub proof fn lemma_kept_and_eliminated_part_the_members(
    filter: ScoreFilter,
    answer: Seq<u8>,
    universe: Seq<Seq<u8>>,
    members: Set<u32>,
)
    requires
        members.finite(),
        *filter.score == score_of(filter.guess@, answer),
    ensures
        kept_members(&filter, universe, members).len() + eliminations(
            filter.guess@,
            answer,
            universe,
            members,
        ) == members.len(),
{
    let kept = kept_members(&filter, universe, members);
    let gone = eliminated(filter.guess@, answer, universe, members);
    lemma_len_subset(kept, members);
    lemma_len_subset(gone, members);
    lemma_set_disjoint_lens(kept, gone);
    assert(kept + gone =~= members);
}

/// What the combination `candidate` guarantees to eliminate from the
/// members listed in `members`, whichever of them is the answer.
pub fn guaranteed_eliminations(
    candidate: &Vec<u8>,
    full_set: &Vec<Vec<u8>>,
    members: &Vec<u32>,
) -> (fewest: u32)
    requires
        candidate.len() <= MAX_SPACES,
        full_set.len() <= u32::MAX,
        forall|i: int|
            0 <= i < full_set.len() ==> (#[trigger] full_set[i]).len() == candidate.len(),
        members@.no_duplicates(),
        forall|j: int| 0 <= j < members.len() ==> members[j] < full_set.len(),
    ensures
        fewest == fewest_eliminations(candidate@, rows(full_set@), members@.to_set()),
{
    guaranteed_eliminations_above(candidate, full_set, members, 0)
}

/// What `candidate` guarantees to eliminate, as far as it matters to a
/// round in which another candidate already guarantees `best_so_far`.
///
/// The answers are tried one by one, and the least number of eliminations
/// seen can only fall: once it is below `best_so_far` the candidate cannot
/// win any more, and the rest of the answers is skipped.
pub(crate) fn guaranteed_eliminations_above(
    candidate: &Vec<u8>,
    full_set: &Vec<Vec<u8>>,
    members: &Vec<u32>,
    best_so_far: u32,
) -> (fewest: u32)
    requires
        candidate.len() <= MAX_SPACES,
        full_set.len() <= u32::MAX,
        forall|i: int|
            0 <= i < full_set.len() ==> (#[trigger] full_set[i]).len() == candidate.len(),
        members@.no_duplicates(),
        forall|j: int| 0 <= j < members.len() ==> members[j] < full_set.len(),
    ensures
        is_pruned_guarantee(
            fewest_eliminations(candidate@, rows(full_set@), members@.to_set()),
            best_so_far as nat,
            fewest as nat,
        ),
{
    let ghost universe = rows(full_set@);
    let ghost answers = members@.to_set();
    let count: usize = members.len();
    proof {
        members@.unique_seq_to_set();
        lemma_bounded_set_len(answers, full_set.len() as nat);
    }

    let mut scores: Vec<Score> = Vec::new();
    let mut j: usize = 0;
    while j < count
        invariant
            j <= count,
            count == members.len(),
            candidate.len() <= MAX_SPACES,
            universe == rows(full_set@),
            forall|i: int|
                0 <= i < full_set.len() ==> (#[trigger] full_set[i]).len() == candidate.len(),
            forall|j: int| 0 <= j < members.len() ==> members[j] < full_set.len(),
            scores.len() == j,
            forall|k: int|
                0 <= k < j ==> scores[k] == score_of(candidate@, universe[members[k] as int]),
        decreases count - j,
    {
        let score = Score::compute(candidate, &full_set[members[j] as usize]);
        scores.push(score);
        j += 1;
    }

    let mut fewest: u32 = count as u32;
    let mut a: usize = 0;
    while a < count && fewest >= best_so_far
        invariant
            a <= count,
            count == members.len(),
            count <= u32::MAX,
            count == answers.len(),
            answers == members@.to_set(),
            answers.finite(),
            members@.no_duplicates(),
            scores.len() == count,
            forall|k: int|
                0 <= k < count ==> scores[k] == score_of(candidate@, universe[members[k] as int]),
            fewest <= count,
            forall|k: int|
                0 <= k < a ==> fewest <= eliminations(
                    candidate@,
                    universe[members[k] as int],
                    universe,
                    answers,
                ),
            fewest == count || exists|k: int|
                0 <= k < a && fewest == eliminations(
                    candidate@,
                    universe[members[k] as int],
                    universe,
                    answers,
                ),
        decreases count - a,
    {
        let ghost answer = universe[members[a as int] as int];
        let mut eliminated_here: u32 = 0;
        let mut r: usize = 0;
        proof {
            assert(members@.take(0).to_set() =~= Set::empty());
            assert(eliminated(candidate@, answer, universe, Set::empty()) =~= Set::empty());
        }
        while r < count
            invariant
                r <= count,
                a < count,
                count == members.len(),
                count <= u32::MAX,
                members@.no_duplicates(),
                scores.len() == count,
                forall|k: int|
                    0 <= k < count ==> scores[k] == score_of(
                        candidate@,
                        universe[members[k] as int],
                    ),
                answer == universe[members[a as int] as int],
                eliminated_here <= r,
                eliminated_here == eliminations(
                    candidate@,
                    answer,
                    universe,
                    members@.take(r as int).to_set(),
                ),
            decreases count - r,
        {
            proof {
                lemma_prefix_grows(members@, r as int);
                lemma_eliminated_insert(
                    candidate@,
                    answer,
                    universe,
                    members@.take(r as int).to_set(),
                    members[r as int],
                );
            }
            if scores[a] != scores[r] {
                eliminated_here += 1;
            }
            r += 1;
        }
        proof {
            assert(members@.take(count as int) =~= members@);
        }
        if eliminated_here < fewest {
            fewest = eliminated_here;
        }
        a += 1;
    }
    proof {
        if a == count {
            assert forall|answer: u32| answers.contains(answer) implies fewest
                <= #[trigger] eliminations(candidate@, universe[answer as int], universe, answers) by {
                let k = choose|k: int| 0 <= k < members.len() && members[k] == answer;
                assert(members[k] == answer);
            }
            if fewest != count {
                let k = choose|k: int|
                    0 <= k < count && fewest == eliminations(
                        candidate@,
                        universe[members[k] as int],
                        universe,
                        answers,
                    );
                assert(answers.contains(members[k]));
            }
            lemma_least_is_fewest_eliminations(candidate@, universe, answers, fewest as nat);
        } else {
            lemma_fewest_eliminations_is_least(candidate@, universe, answers);
            if fewest != count {
                let k = choose|k: int|
                    0 <= k < a && fewest == eliminations(
                        candidate@,
                        universe[members[k] as int],
                        universe,
                        answers,
                    );
                assert(answers.contains(members[k]));
            }
        }
    }
    fewest
}

} // verus!
