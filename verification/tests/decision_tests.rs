use codebreaker::best_choices::BestChoices;
use codebreaker::decision::{decide, evaluate_candidates, DecideError};
use codebreaker::guarantee::guaranteed_eliminations;
use codebreaker::score::Score;
use codebreaker::subset::{ScoreFilter, Subset};
use codebreaker::universe::Universe;
use std::collections::HashSet;

fn eliminations_by_the_book(universe: &Universe, members: &HashSet<u32>, candidate: usize) -> u32 {
    let guess = &universe.combinations[candidate];
    let mut fewest = u32::MAX;
    for answer in members.iter() {
        let mut eliminated = 0;
        for other in members.iter() {
            if Score::compute(guess, &universe.combinations[*answer as usize])
                != Score::compute(guess, &universe.combinations[*other as usize])
            {
                eliminated += 1;
            }
        }
        fewest = fewest.min(eliminated);
    }
    fewest
}

fn choice_by_the_book(universe: &Universe, members: &HashSet<u32>) -> (u32, u32) {
    let guarantees: Vec<u32> = (0..universe.combinations.len())
        .map(|candidate| eliminations_by_the_book(universe, members, candidate))
        .collect();
    let most = *guarantees.iter().max().unwrap();
    let tied: Vec<u32> = (0..guarantees.len() as u32)
        .filter(|candidate| guarantees[*candidate as usize] == most)
        .collect();
    for candidate in tied.iter() {
        if members.contains(candidate) {
            return (*candidate, most);
        }
    }
    (*tied.last().unwrap(), most)
}

#[test]
fn evaluate_replaces_the_list_on_a_greater_guarantee() {
    let mut best = BestChoices { candidates: vec![4, 7], fewest_eliminations: 3 };
    best.evaluate(9, 5);
    assert_eq!(best.candidates, vec![9]);
    assert_eq!(best.fewest_eliminations, 5);
}

#[test]
fn evaluate_appends_on_an_equal_guarantee() {
    let mut best = BestChoices { candidates: vec![4, 7], fewest_eliminations: 3 };
    best.evaluate(9, 3);
    assert_eq!(best.candidates, vec![4, 7, 9]);
    assert_eq!(best.fewest_eliminations, 3);
}

#[test]
fn evaluate_passes_over_a_smaller_guarantee() {
    let mut best = BestChoices { candidates: vec![4, 7], fewest_eliminations: 3 };
    best.evaluate(9, 2);
    assert_eq!(best.candidates, vec![4, 7]);
    assert_eq!(best.fewest_eliminations, 3);
}

#[test]
fn evaluate_takes_the_first_candidate_at_zero() {
    let mut best = BestChoices { candidates: Vec::new(), fewest_eliminations: 0 };
    best.evaluate(0, 0);
    assert_eq!(best.candidates, vec![0]);
    assert_eq!(best.fewest_eliminations, 0);
}

#[test]
fn pick_prefers_the_first_member() {
    let universe = Universe::new(2, 3);
    let members: HashSet<u32> = [5u32, 6].into_iter().collect();
    let remaining = Subset { original: &universe, members };
    let best = BestChoices { candidates: vec![1, 5, 6, 7], fewest_eliminations: 1 };
    assert_eq!(best.pick(&remaining), Some(5));
}

#[test]
fn pick_falls_back_on_the_last_candidate() {
    let universe = Universe::new(2, 3);
    let members: HashSet<u32> = [0u32, 2].into_iter().collect();
    let remaining = Subset { original: &universe, members };
    let best = BestChoices { candidates: vec![1, 5, 6], fewest_eliminations: 1 };
    assert_eq!(best.pick(&remaining), Some(6));
}

#[test]
fn pick_from_an_empty_list_is_nothing() {
    let universe = Universe::new(2, 3);
    let remaining = universe.as_subset();
    let best = BestChoices { candidates: Vec::new(), fewest_eliminations: 0 };
    assert_eq!(best.pick(&remaining), None);
}

#[test]
fn guaranteed_eliminations_is_the_least_over_the_answers() {
    let universe = Universe::new(2, 2);
    // Members [0, 0], [1, 0], [0, 1], [1, 1]; the guess [0, 0] scores them
    // two, one, one and no black pegs: the answers with one black peg leave
    // each other standing, so only two members are sure to go.
    let members: Vec<u32> = vec![0, 1, 2, 3];
    let table = &universe.combinations;
    let fewest = guaranteed_eliminations(&table[0], table, &members);
    assert_eq!(fewest, 2);
    // The guess [1, 0] scores them (0, 1), (0, 2), (2, 0), (0, 1).
    let fewest = guaranteed_eliminations(&table[1], table, &members);
    assert_eq!(fewest, 2);
}

#[test]
fn guaranteed_eliminations_of_a_lone_member_is_zero() {
    let universe = Universe::new(3, 2);
    let members: Vec<u32> = vec![4];
    for candidate in universe.combinations.iter() {
        assert_eq!(guaranteed_eliminations(candidate, &universe.combinations, &members), 0);
    }
}

#[test]
fn guaranteed_eliminations_agrees_with_the_double_loop() {
    let universe = Universe::new(4, 3);
    let members: HashSet<u32> = [0u32, 3, 5, 17, 21, 22, 40, 41, 63].into_iter().collect();
    let listed: Vec<u32> = members.iter().copied().collect();
    let table = &universe.combinations;
    for candidate in 0..table.len() {
        assert_eq!(
            guaranteed_eliminations(&table[candidate], table, &listed),
            eliminations_by_the_book(&universe, &members, candidate)
        );
    }
}

#[test]
fn evaluate_candidates_takes_up_results_across_batches() {
    // 1296 candidates are more than one batch: the best guarantee of the
    // first batches prunes the later ones.
    let universe = Universe::new(6, 4);
    let guess: Vec<u8> = vec![0, 1, 2, 3];
    let observed = Score { white: 2, black: 1 };
    let remaining = universe
        .as_subset()
        .make_subset(&ScoreFilter { score: &observed, guess: &guess });
    let best = evaluate_candidates(&remaining);
    let guarantees: Vec<u32> = (0..1296)
        .map(|candidate| eliminations_by_the_book(&universe, &remaining.members, candidate))
        .collect();
    let most = *guarantees.iter().max().unwrap();
    let expected: Vec<u32> = (0..1296u32).filter(|c| guarantees[*c as usize] == most).collect();
    assert_eq!(best.fewest_eliminations, most);
    assert_eq!(best.candidates, expected);
}

#[test]
fn evaluate_candidates_lists_every_optimal_candidate_in_rising_order() {
    let universe = Universe::new(3, 3);
    let members: HashSet<u32> = [1u32, 2, 8, 13, 20, 26].into_iter().collect();
    let remaining = Subset { original: &universe, members: members.clone() };
    let best = evaluate_candidates(&remaining);
    let guarantees: Vec<u32> = (0..27)
        .map(|candidate| eliminations_by_the_book(&universe, &members, candidate))
        .collect();
    let most = *guarantees.iter().max().unwrap();
    let expected: Vec<u32> = (0..27u32).filter(|c| guarantees[*c as usize] == most).collect();
    assert_eq!(best.fewest_eliminations, most);
    assert_eq!(best.candidates, expected);
}

#[test]
fn decide_reports_an_empty_subset() {
    let universe = Universe::new(3, 2);
    let remaining = Subset { original: &universe, members: HashSet::new() };
    assert_eq!(decide(&remaining), Err(DecideError::NoConsistentAnswer));
}

#[test]
fn decide_returns_a_lone_member() {
    let universe = Universe::new(3, 3);
    for member in [0u32, 13, 26] {
        let members: HashSet<u32> = [member].into_iter().collect();
        let remaining = Subset { original: &universe, members };
        assert_eq!(decide(&remaining), Ok(member));
    }
}

#[test]
fn decide_on_the_whole_small_universe() {
    let universe = Universe::new(2, 2);
    let remaining = universe.as_subset();
    // Every guess guarantees two eliminations; the first one is a member.
    let best = evaluate_candidates(&remaining);
    assert_eq!(best.fewest_eliminations, 2);
    assert_eq!(best.candidates, vec![0, 1, 2, 3]);
    assert_eq!(decide(&remaining), Ok(0));
}

#[test]
fn decide_agrees_with_the_double_loop() {
    let universe = Universe::new(4, 3);
    let member_sets: Vec<Vec<u32>> = vec![
        vec![0, 3, 5, 17, 21, 22, 40, 41, 63],
        vec![7, 9],
        vec![1, 2, 4, 8, 16, 32],
        (0..64).collect(),
    ];
    for listed in member_sets {
        let members: HashSet<u32> = listed.into_iter().collect();
        let remaining = Subset { original: &universe, members: members.clone() };
        let (expected, most) = choice_by_the_book(&universe, &members);
        let choice = decide(&remaining).unwrap();
        assert_eq!(choice, expected);
        assert_eq!(eliminations_by_the_book(&universe, &members, choice as usize), most);
    }
}

#[test]
fn decide_agrees_with_the_double_loop_around_a_full_batch() {
    // 127, 128 and 129 candidates would sit on either side of one batch; the
    // universes nearest to that have 125, 128 and 243 combinations.
    for (colors, spaces) in [(5u8, 3u8), (2, 7), (3, 5)] {
        let universe = Universe::new(colors, spaces);
        let count = universe.len() as u32;
        let members: HashSet<u32> = (0..count).filter(|index| index % 7 < 3).collect();
        let remaining = Subset { original: &universe, members: members.clone() };
        let (expected, most) = choice_by_the_book(&universe, &members);
        assert_eq!(decide(&remaining), Ok(expected));
        assert_eq!(evaluate_candidates(&remaining).fewest_eliminations, most);
    }
}

#[test]
fn decide_may_choose_a_guess_that_cannot_be_the_answer() {
    let universe = Universe::new(4, 3);
    let members: HashSet<u32> = [14u32, 19, 35, 56].into_iter().collect();
    let remaining = Subset { original: &universe, members: members.clone() };
    // No member tells the other three apart; twelve other combinations do,
    // and the last of them is chosen.
    let best = evaluate_candidates(&remaining);
    assert_eq!(best.fewest_eliminations, 3);
    assert_eq!(best.candidates, vec![2, 8, 10, 32, 34, 40, 43, 46, 47, 58, 59, 62]);
    assert_eq!(decide(&remaining), Ok(62));
    assert_eq!(choice_by_the_book(&universe, &members), (62, 3));
}

#[test]
fn decide_opens_the_classic_game_with_two_pairs() {
    let universe = Universe::new(6, 4);
    let remaining = universe.as_subset();
    let choice = decide(&remaining).unwrap();
    assert_eq!(choice, 7);
    assert_eq!(universe.combinations[7], vec![1, 1, 0, 0]);
    // The largest class of answers that the opening cannot tell apart has
    // 256 members.
    assert_eq!(evaluate_candidates(&remaining).fewest_eliminations, 1296 - 256);
}

#[test]
fn decide_gives_the_same_guarantee_on_every_run() {
    let universe = Universe::new(5, 3);
    let guess: Vec<u8> = vec![0, 1, 1];
    let observed = Score { white: 1, black: 0 };
    let remaining = universe
        .as_subset()
        .make_subset(&ScoreFilter { score: &observed, guess: &guess });
    let first = evaluate_candidates(&remaining);
    let first_choice = decide(&remaining);
    for _ in 0..5 {
        let again = evaluate_candidates(&remaining);
        assert_eq!(again.fewest_eliminations, first.fewest_eliminations);
        assert_eq!(again.candidates, first.candidates);
        assert_eq!(decide(&remaining), first_choice);
    }
}

#[test]
fn game_of_six_colours_and_four_spaces_closes_in_on_the_answer() {
    let universe = Universe::new(6, 4);
    let answer: Vec<u8> = vec![3, 1, 4, 1];
    let initial_guess: Vec<u8> = vec![0, 0, 1, 1];
    let initial_score = Score::compute(&initial_guess, &answer);
    let all = universe.as_subset();
    let mut remaining =
        all.make_subset(&ScoreFilter { score: &initial_score, guess: &initial_guess });
    assert!(remaining.len() < 1296);

    let mut turns = 0;
    while remaining.len() > 1 {
        let before = remaining.len();
        let guess_index = decide(&remaining).unwrap();
        let guess = &universe.combinations[guess_index as usize];
        let score = Score::compute(guess, &answer);
        remaining = remaining.make_subset(&ScoreFilter { score: &score, guess });
        assert!(remaining.len() < before);
        assert!(remaining.len() >= 1);
        turns += 1;
        assert!(turns <= 6);
    }
    let left: Vec<u32> = remaining.members.iter().copied().collect();
    assert_eq!(universe.combinations[left[0] as usize], answer);

    // With one member left the size holds, and the guess is that member.
    let guess_index = decide(&remaining).unwrap();
    assert_eq!(universe.combinations[guess_index as usize], answer);
    let score = Score::compute(&universe.combinations[guess_index as usize], &answer);
    assert_eq!(score, Score { white: 0, black: 4 });
    let held = remaining.make_subset(&ScoreFilter {
        score: &score,
        guess: &universe.combinations[guess_index as usize],
    });
    assert_eq!(held.len(), 1);
}
