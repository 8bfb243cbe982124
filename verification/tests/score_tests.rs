use codebreaker::score::Score;
use codebreaker::universe::Universe;

#[test]
fn compute_reversed_combination_is_all_white() {
    let score = Score::compute(&vec![0, 1, 2, 3], &vec![3, 2, 1, 0]);
    assert_eq!(score, Score { white: 4, black: 0 });
}

#[test]
fn compute_mixes_white_and_black() {
    let score = Score::compute(&vec![0, 0, 1, 1], &vec![0, 1, 0, 1]);
    assert_eq!(score, Score { white: 2, black: 2 });
}

#[test]
fn compute_counts_a_repeated_colour_no_more_often_than_the_answer_holds_it() {
    let score = Score::compute(&vec![1, 1, 1, 2], &vec![3, 1, 4, 1]);
    assert_eq!(score, Score { white: 1, black: 1 });
}

#[test]
fn compute_of_disjoint_combinations_is_empty() {
    let score = Score::compute(&vec![0, 0, 1, 1], &vec![2, 3, 4, 5]);
    assert_eq!(score, Score { white: 0, black: 0 });
}

#[test]
fn compute_of_empty_combinations_is_empty() {
    let score = Score::compute(&vec![], &vec![]);
    assert_eq!(score, Score { white: 0, black: 0 });
}

#[test]
fn compute_takes_the_highest_colour() {
    let score = Score::compute(&vec![255, 0, 254], &vec![0, 255, 254]);
    assert_eq!(score, Score { white: 2, black: 1 });
}

#[test]
fn compute_takes_the_longest_combination() {
    let guess: Vec<u8> = vec![7; 255];
    let mut answer: Vec<u8> = vec![7; 255];
    answer[0] = 9;
    assert_eq!(Score::compute(&guess, &guess), Score { white: 0, black: 255 });
    assert_eq!(Score::compute(&guess, &answer), Score { white: 0, black: 254 });
}

#[test]
fn compute_against_itself_is_all_black() {
    let universe = Universe::new(4, 3);
    for combination in universe.combinations.iter() {
        assert_eq!(Score::compute(combination, combination), Score { white: 0, black: 3 });
    }
}

#[test]
fn compute_never_counts_more_pegs_than_spaces() {
    let universe = Universe::new(3, 4);
    for guess in universe.combinations.iter() {
        for answer in universe.combinations.iter() {
            let score = Score::compute(guess, answer);
            assert!(score.white as usize + score.black as usize <= 4);
        }
    }
}

#[test]
fn compute_is_symmetric_in_guess_and_answer() {
    let universe = Universe::new(3, 3);
    for guess in universe.combinations.iter() {
        for answer in universe.combinations.iter() {
            assert_eq!(Score::compute(guess, answer), Score::compute(answer, guess));
        }
    }
}

#[test]
fn compute_ignores_a_renaming_of_the_colours() {
    let renamed: [u8; 4] = [2, 0, 3, 1];
    let universe = Universe::new(4, 3);
    for guess in universe.combinations.iter() {
        for answer in universe.combinations.iter() {
            let renamed_guess: Vec<u8> = guess.iter().map(|c| renamed[*c as usize]).collect();
            let renamed_answer: Vec<u8> = answer.iter().map(|c| renamed[*c as usize]).collect();
            assert_eq!(
                Score::compute(&renamed_guess, &renamed_answer),
                Score::compute(guess, answer)
            );
        }
    }
}
