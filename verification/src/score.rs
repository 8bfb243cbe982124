//! Feedback scoring: exact-position matches and colour-only matches between a
//! guess and an answer.

use vstd::prelude::*;

verus! {

/// The longest combination that a [`Score`] can describe: both of its fields
/// are bytes.
pub const MAX_SPACES: usize = 255;

/// Feedback for one guess against one answer.
///
/// `black` counts the positions at which guess and answer hold the same
/// colour; `white` counts the further colour matches that ignore position.
#[derive(Clone, Copy, Debug, PartialEq, Eq, Structural)]
pub struct Score {
    pub white: u8,
    pub black: u8,
}

/// How many positions of `combination` hold `color`.
pub open spec fn occurrences(combination: Seq<u8>, color: int) -> nat
    decreases combination.len(),
{
    if combination.len() == 0 {
        0
    } else {
        occurrences(combination.drop_last(), color) + if combination.last() == color {
            1nat
        } else {
            0nat
        }
    }
}

/// How many positions hold the same colour in `guess` and in `answer`.
pub open spec fn exact_matches(guess: Seq<u8>, answer: Seq<u8>) -> nat
    recommends
        guess.len() == answer.len(),
    decreases guess.len(),
{
    if guess.len() == 0 || answer.len() == 0 {
        0
    } else {
        exact_matches(guess.drop_last(), answer.drop_last()) + if guess.last() == answer.last() {
            1nat
        } else {
            0nat
        }
    }
}

/// The smaller of two counts.
pub open spec fn smaller(a: nat, b: nat) -> nat {
    if a <= b {
        a
    } else {
        b
    }
}

/// The sum, over every colour below `colors`, of the smaller of the colour's
/// occurrences in `guess` and in `answer`: the size of what the two have in
/// common as multisets, restricted to those colours.
pub open spec fn shared_colors(guess: Seq<u8>, answer: Seq<u8>, colors: nat) -> nat
    decreases colors,
{
    if colors == 0 {
        0
    } else {
        shared_colors(guess, answer, (colors - 1) as nat) + smaller(
            occurrences(guess, colors - 1),
            occurrences(answer, colors - 1),
        )
    }
}

/// The number of colour matches that are not exact matches.
pub open spec fn color_only_matches(guess: Seq<u8>, answer: Seq<u8>) -> int {
    shared_colors(guess, answer, 256) - exact_matches(guess, answer)
}

/// The feedback that `guess` earns against `answer`.
pub open spec fn score_of(guess: Seq<u8>, answer: Seq<u8>) -> Score
    recommends
        guess.len() == answer.len(),
        guess.len() <= MAX_SPACES,
{
    Score {
        white: color_only_matches(guess, answer) as u8,
        black: exact_matches(guess, answer) as u8,
    }
}

/// Whether `relabel` sends no two colours that occur in `a` or in `b` to the
/// same colour.
pub open spec fn distinct_on(relabel: spec_fn(u8) -> u8, a: Seq<u8>, b: Seq<u8>) -> bool {
    forall|x: u8, y: u8|
        (a.contains(x) || b.contains(x)) && (a.contains(y) || b.contains(y)) && relabel(x)
            == relabel(y) ==> x == y
}

/// One more position adds one occurrence of the colour it holds.
proof fn lemma_occurrences_push(combination: Seq<u8>, last: u8, color: int)
    ensures
        occurrences(combination.push(last), color) == occurrences(combination, color) + if last
            == color {
            1nat
        } else {
            0nat
        },
{
    assert(combination.push(last).drop_last() =~= combination);
}

/// No colour occurs more often than there are positions.
proof fn lemma_occurrences_at_most_len(combination: Seq<u8>, color: int)
    ensures
        occurrences(combination, color) <= combination.len(),
    decreases combination.len(),
{
    if combination.len() > 0 {
        lemma_occurrences_at_most_len(combination.drop_last(), color);
    }
}

/// A colour that no position holds does not occur.
proof fn lemma_occurrences_absent(combination: Seq<u8>, color: int)
    requires
        forall|i: int| 0 <= i < combination.len() ==> combination[i] != color,
    ensures
        occurrences(combination, color) == 0,
    decreases combination.len(),
{
    if combination.len() > 0 {
        lemma_occurrences_absent(combination.drop_last(), color);
    }
}

/// No more positions match than there are.
proof fn lemma_exact_at_most_len(guess: Seq<u8>, answer: Seq<u8>)
    ensures
        exact_matches(guess, answer) <= guess.len(),
    decreases guess.len(),
{
    if guess.len() > 0 && answer.len() > 0 {
        lemma_exact_at_most_len(guess.drop_last(), answer.drop_last());
    }
}

/// Guess and answer share as many colours as answer and guess.
proof fn lemma_shared_symmetric(guess: Seq<u8>, answer: Seq<u8>, colors: nat)
    ensures
        shared_colors(guess, answer, colors) == shared_colors(answer, guess, colors),
    decreases colors,
{
    if colors > 0 {
        lemma_shared_symmetric(guess, answer, (colors - 1) as nat);
    }
}

/// One more peg in the guess adds one shared colour exactly when the answer
/// still has an unmatched peg of that colour.
proof fn lemma_shared_push(guess: Seq<u8>, last: u8, answer: Seq<u8>, colors: nat)
    ensures
        shared_colors(guess.push(last), answer, colors) == shared_colors(guess, answer, colors)
            + if last < colors && occurrences(guess, last as int) < occurrences(
            answer,
            last as int,
        ) {
            1nat
        } else {
            0nat
        },
    decreases colors,
{
    if colors > 0 {
        lemma_shared_push(guess, last, answer, (colors - 1) as nat);
        lemma_occurrences_push(guess, last, colors - 1);
    }
}

/// No more colours are shared than the guess has positions.
proof fn lemma_shared_at_most_len(guess: Seq<u8>, answer: Seq<u8>, colors: nat)
    ensures
        shared_colors(guess, answer, colors) <= guess.len(),
    decreases guess.len(), colors,
{
    if guess.len() == 0 {
        if colors > 0 {
            lemma_shared_at_most_len(guess, answer, (colors - 1) as nat);
        }
    } else {
        lemma_shared_at_most_len(guess.drop_last(), answer, colors);
        lemma_shared_push(guess.drop_last(), guess.last(), answer, colors);
        assert(guess.drop_last().push(guess.last()) =~= guess);
    }
}

/// Colours above every colour of the guess contribute nothing.
pub proof fn lemma_shared_beyond(guess: Seq<u8>, answer: Seq<u8>, width: nat, colors: nat)
    requires
        width <= colors,
        forall|i: int| 0 <= i < guess.len() ==> guess[i] < width,
    ensures
        shared_colors(guess, answer, colors) == shared_colors(guess, answer, width),
    decreases colors,
{
    if colors > width {
        lemma_shared_beyond(guess, answer, width, (colors - 1) as nat);
        lemma_occurrences_absent(guess, colors - 1);
    }
}

/// One more position in both combinations adds exactly one shared colour when
/// the two new pegs agree, and takes none away when they differ.
proof fn lemma_shared_push_both(guess: Seq<u8>, g: u8, answer: Seq<u8>, a: u8)
    ensures
        g == a ==> shared_colors(guess.push(g), answer.push(a), 256) == shared_colors(
            guess,
            answer,
            256,
        ) + 1,
        shared_colors(guess.push(g), answer.push(a), 256) >= shared_colors(guess, answer, 256),
{
    lemma_shared_push(guess, g, answer.push(a), 256);
    lemma_shared_symmetric(guess, answer.push(a), 256);
    lemma_shared_push(answer, a, guess, 256);
    lemma_shared_symmetric(answer, guess, 256);
    lemma_occurrences_push(answer, a, g as int);
}

/// Every exact match is also a shared colour.
proof fn lemma_exact_at_most_shared(guess: Seq<u8>, answer: Seq<u8>)
    requires
        guess.len() == answer.len(),
    ensures
        exact_matches(guess, answer) <= shared_colors(guess, answer, 256),
    decreases guess.len(),
{
    if guess.len() > 0 {
        lemma_exact_at_most_shared(guess.drop_last(), answer.drop_last());
        lemma_shared_push_both(guess.drop_last(), guess.last(), answer.drop_last(), answer.last());
        assert(guess.drop_last().push(guess.last()) =~= guess);
        assert(answer.drop_last().push(answer.last()) =~= answer);
    }
}

/// A score never counts more pegs than the combinations have positions, and
/// its fields hold the two counts without loss.
pub proof fn lemma_score_within_spaces(guess: Seq<u8>, answer: Seq<u8>)
    requires
        guess.len() == answer.len(),
    ensures
        0 <= color_only_matches(guess, answer),
        color_only_matches(guess, answer) + exact_matches(guess, answer) <= guess.len(),
        guess.len() <= MAX_SPACES ==> {
            &&& score_of(guess, answer).white == color_only_matches(guess, answer)
            &&& score_of(guess, answer).black == exact_matches(guess, answer)
            &&& score_of(guess, answer).white + score_of(guess, answer).black <= guess.len()
        },
{
    lemma_exact_at_most_shared(guess, answer);
    lemma_shared_at_most_len(guess, answer, 256);
}

/// A combination scored against itself earns a black peg at every position
/// and no white peg.
pub proof fn lemma_score_of_self(combination: Seq<u8>)
    ensures
        exact_matches(combination, combination) == combination.len(),
        color_only_matches(combination, combination) == 0,
        combination.len() <= MAX_SPACES ==> score_of(combination, combination) == (Score {
            white: 0,
            black: combination.len() as u8,
        }),
    decreases combination.len(),
{
    if combination.len() > 0 {
        let front = combination.drop_last();
        lemma_score_of_self(front);
        lemma_shared_push_both(front, combination.last(), front, combination.last());
        assert(front.push(combination.last()) =~= combination);
    } else {
        lemma_shared_at_most_len(combination, combination, 256);
    }
}

/// Only an answer equal to the guess earns a black peg at every position.
pub proof fn lemma_all_black_means_equal(guess: Seq<u8>, answer: Seq<u8>)
    requires
        guess.len() == answer.len(),
        exact_matches(guess, answer) == guess.len(),
    ensures
        guess == answer,
    decreases guess.len(),
{
    if guess.len() > 0 {
        lemma_exact_at_most_len(guess.drop_last(), answer.drop_last());
        lemma_all_black_means_equal(guess.drop_last(), answer.drop_last());
        assert(guess.drop_last().push(guess.last()) =~= guess);
        assert(answer.drop_last().push(answer.last()) =~= answer);
    }
}

/// A colour that is merged with no other colour of the combination occurs
/// as often after the renaming as before.
proof fn lemma_occurrences_relabel(relabel: spec_fn(u8) -> u8, combination: Seq<u8>, color: u8)
    requires
        forall|i: int|
            0 <= i < combination.len() && relabel(combination[i]) == relabel(color)
                ==> combination[i] == color,
    ensures
        occurrences(combination.map_values(relabel), relabel(color) as int) == occurrences(
            combination,
            color as int,
        ),
    decreases combination.len(),
{
    if combination.len() > 0 {
        lemma_occurrences_relabel(relabel, combination.drop_last(), color);
        assert(combination.map_values(relabel).drop_last() =~= combination.drop_last().map_values(
            relabel,
        ));
    }
}

/// A renaming that merges no two facing colours keeps the exact matches.
proof fn lemma_exact_relabel(relabel: spec_fn(u8) -> u8, guess: Seq<u8>, answer: Seq<u8>)
    requires
        guess.len() == answer.len(),
        forall|i: int|
            0 <= i < guess.len() && relabel(guess[i]) == relabel(answer[i]) ==> guess[i]
                == answer[i],
    ensures
        exact_matches(guess.map_values(relabel), answer.map_values(relabel)) == exact_matches(
            guess,
            answer,
        ),
    decreases guess.len(),
{
    if guess.len() > 0 {
        lemma_exact_relabel(relabel, guess.drop_last(), answer.drop_last());
        assert(guess.map_values(relabel).drop_last() =~= guess.drop_last().map_values(relabel));
        assert(answer.map_values(relabel).drop_last() =~= answer.drop_last().map_values(relabel));
    }
}

/// A renaming that merges no two colours keeps what a prefix of the guess
/// shares with the answer.
proof fn lemma_shared_relabel(
    relabel: spec_fn(u8) -> u8,
    guess: Seq<u8>,
    answer: Seq<u8>,
    prefix: nat,
)
    requires
        prefix <= guess.len(),
        distinct_on(relabel, guess, answer),
    ensures
        shared_colors(
            guess.take(prefix as int).map_values(relabel),
            answer.map_values(relabel),
            256,
        ) == shared_colors(guess.take(prefix as int), answer, 256),
    decreases prefix,
{
    let relabelled_answer = answer.map_values(relabel);
    if prefix == 0 {
        let nothing = guess.take(0);
        assert(nothing.map_values(relabel) =~= nothing);
        lemma_shared_at_most_len(nothing, relabelled_answer, 256);
        lemma_shared_at_most_len(nothing, answer, 256);
    } else {
        let front = guess.take(prefix - 1);
        let last = guess[prefix - 1];
        lemma_shared_relabel(relabel, guess, answer, (prefix - 1) as nat);
        assert(front.push(last) =~= guess.take(prefix as int));
        assert(front.map_values(relabel).push(relabel(last)) =~= guess.take(
            prefix as int,
        ).map_values(relabel));
        lemma_shared_push(front, last, answer, 256);
        lemma_shared_push(front.map_values(relabel), relabel(last), relabelled_answer, 256);
        assert(guess.contains(last));
        assert forall|i: int|
            0 <= i < front.len() && relabel(front[i]) == relabel(last) implies front[i]
            == last by {
            assert(guess.contains(guess[i]));
        }
        assert forall|i: int|
            0 <= i < answer.len() && relabel(answer[i]) == relabel(last) implies answer[i]
            == last by {
            assert(answer.contains(answer[i]));
        }
        lemma_occurrences_relabel(relabel, front, last);
        lemma_occurrences_relabel(relabel, answer, last);
    }
}

/// Renaming the colours, the same way in guess and answer and without merging
/// two colours that occur in them, leaves every count of the score unchanged.
pub proof fn lemma_score_relabel_invariant(
    relabel: spec_fn(u8) -> u8,
    guess: Seq<u8>,
    answer: Seq<u8>,
)
    requires
        guess.len() == answer.len(),
        distinct_on(relabel, guess, answer),
    ensures
        exact_matches(guess.map_values(relabel), answer.map_values(relabel)) == exact_matches(
            guess,
            answer,
        ),
        color_only_matches(guess.map_values(relabel), answer.map_values(relabel))
            == color_only_matches(guess, answer),
        score_of(guess.map_values(relabel), answer.map_values(relabel)) == score_of(guess, answer),
{
    assert forall|i: int|
        0 <= i < guess.len() && relabel(guess[i]) == relabel(answer[i]) implies guess[i]
        == answer[i] by {
        assert(guess.contains(guess[i]));
        assert(answer.contains(answer[i]));
    }
    lemma_exact_relabel(relabel, guess, answer);
    lemma_shared_relabel(relabel, guess, answer, guess.len());
    assert(guess.take(guess.len() as int) =~= guess);
}

impl Score {
    /// Scores `guess` against `answer`.
    ///
    /// The two must have the same number of positions, and no more than a
    /// score can count.
    pub fn compute(guess: &Vec<u8>, answer: &Vec<u8>) -> (score: Score)
        requires
            guess.len() == answer.len(),
            guess.len() <= MAX_SPACES,
        ensures
            score == score_of(guess@, answer@),
            score.black == exact_matches(guess@, answer@),
            score.white == color_only_matches(guess@, answer@),
            score.white + score.black <= guess.len(),
    {
        let spaces: usize = guess.len();
        let mut black: u8 = 0;
        let mut highest_color: u8 = 0;
        let mut i: usize = 0;
        while i < spaces
            invariant
                i <= spaces,
                spaces == guess.len(),
                spaces == answer.len(),
                spaces <= MAX_SPACES,
                black == exact_matches(guess@.take(i as int), answer@.take(i as int)),
                black <= i,
                forall|j: int|
                    0 <= j < i ==> guess[j] <= highest_color && answer[j] <= highest_color,
            decreases spaces - i,
        {
            proof {
                assert(guess@.take(i + 1).drop_last() =~= guess@.take(i as int));
                assert(answer@.take(i + 1).drop_last() =~= answer@.take(i as int));
            }
            if guess[i] == answer[i] {
                black += 1;
            }
            if answer[i] > highest_color {
                highest_color = answer[i];
            }
            if guess[i] > highest_color {
                highest_color = guess[i];
            }
            i += 1;
        }
        proof {
            assert(guess@.take(spaces as int) =~= guess@);
            assert(answer@.take(spaces as int) =~= answer@);
        }

        let width: usize = highest_color as usize + 1;
        let mut guess_color_count: Vec<u8> = vec![0u8; width];
        let mut answer_color_count: Vec<u8> = vec![0u8; width];
        i = 0;
        while i < spaces
            invariant
                i <= spaces,
                spaces == guess.len(),
                spaces == answer.len(),
                spaces <= MAX_SPACES,
                width == highest_color + 1,
                guess_color_count.len() == width,
                answer_color_count.len() == width,
                forall|j: int|
                    0 <= j < spaces ==> guess[j] <= highest_color && answer[j] <= highest_color,
                forall|c: int|
                    0 <= c < width ==> guess_color_count[c] == occurrences(
                        guess@.take(i as int),
                        c,
                    ),
                forall|c: int|
                    0 <= c < width ==> answer_color_count[c] == occurrences(
                        answer@.take(i as int),
                        c,
                    ),
            decreases spaces - i,
        {
            let g: usize = guess[i] as usize;
            let a: usize = answer[i] as usize;
            proof {
                assert(guess@.take(i + 1).drop_last() =~= guess@.take(i as int));
                assert(answer@.take(i + 1).drop_last() =~= answer@.take(i as int));
                lemma_occurrences_at_most_len(guess@.take(i as int), g as int);
                lemma_occurrences_at_most_len(answer@.take(i as int), a as int);
            }
            let seen_in_guess: u8 = guess_color_count[g];
            guess_color_count.set(g, seen_in_guess + 1);
            let seen_in_answer: u8 = answer_color_count[a];
            answer_color_count.set(a, seen_in_answer + 1);
            i += 1;
        }

        let mut shared: u8 = 0;
        let mut color: usize = 0;
        while color < width
            invariant
                color <= width,
                spaces == guess.len(),
                spaces <= MAX_SPACES,
                guess_color_count.len() == width,
                answer_color_count.len() == width,
                forall|c: int| 0 <= c < width ==> guess_color_count[c] == occurrences(guess@, c),
                forall|c: int| 0 <= c < width ==> answer_color_count[c] == occurrences(answer@, c),
                shared == shared_colors(guess@, answer@, color as nat),
            decreases width - color,
        {
            proof {
                lemma_shared_at_most_len(guess@, answer@, (color + 1) as nat);
            }
            let in_guess: u8 = guess_color_count[color];
            let in_answer: u8 = answer_color_count[color];
            shared += if in_guess <= in_answer {
                in_guess
            } else {
                in_answer
            };
            color += 1;
        }
        proof {
            lemma_shared_beyond(guess@, answer@, width as nat, 256);
            lemma_exact_at_most_shared(guess@, answer@);
            lemma_shared_at_most_len(guess@, answer@, 256);
        }
        Score { white: shared - black, black }
    }
}

} // verus!
