use codebreaker::universe::Universe;
use std::collections::HashSet;

#[test]
fn universe_of_two_colours_and_two_spaces_counts_upwards() {
    let universe = Universe::new(2, 2);
    assert_eq!(
        universe.combinations,
        vec![vec![0, 0], vec![1, 0], vec![0, 1], vec![1, 1]]
    );
    assert_eq!(universe.num_colors, 2);
    assert_eq!(universe.num_spaces, 2);
}

#[test]
fn universe_first_position_counts_fastest() {
    let universe = Universe::new(3, 2);
    assert_eq!(
        universe.combinations,
        vec![
            vec![0, 0],
            vec![1, 0],
            vec![2, 0],
            vec![0, 1],
            vec![1, 1],
            vec![2, 1],
            vec![0, 2],
            vec![1, 2],
            vec![2, 2]
        ]
    );
}

#[test]
fn universe_holds_every_combination_once() {
    let universe = Universe::new(6, 4);
    assert_eq!(universe.len(), 1296);
    let distinct: HashSet<Vec<u8>> = universe.combinations.iter().cloned().collect();
    assert_eq!(distinct.len(), 1296);
    for combination in universe.combinations.iter() {
        assert_eq!(combination.len(), 4);
        assert!(combination.iter().all(|color| *color < 6));
    }
    assert!(distinct.contains(&vec![0, 0, 1, 1]));
    assert!(distinct.contains(&vec![5, 5, 5, 5]));
    assert!(distinct.contains(&vec![3, 1, 4, 1]));
}

#[test]
fn universe_combination_stands_at_the_index_it_writes() {
    let universe = Universe::new(6, 4);
    assert_eq!(universe.combinations[0], vec![0, 0, 0, 0]);
    assert_eq!(universe.combinations[1295], vec![5, 5, 5, 5]);
    assert_eq!(universe.combinations[3 + 6 + 4 * 36 + 216], vec![3, 1, 4, 1]);
    for (index, combination) in universe.combinations.iter().enumerate() {
        let mut value: usize = 0;
        for digit in combination.iter().rev() {
            value = value * 6 + *digit as usize;
        }
        assert_eq!(value, index);
    }
}

#[test]
fn universe_without_spaces_holds_the_empty_combination() {
    let universe = Universe::new(6, 0);
    assert_eq!(universe.combinations, vec![Vec::<u8>::new()]);
}

#[test]
fn universe_of_one_colour_holds_one_combination() {
    let universe = Universe::new(1, 5);
    assert_eq!(universe.combinations, vec![vec![0, 0, 0, 0, 0]]);
}

#[test]
fn size_is_the_power() {
    assert_eq!(Universe::size(6, 4), Some(1296));
    assert_eq!(Universe::size(2, 2), Some(4));
    assert_eq!(Universe::size(7, 0), Some(1));
    assert_eq!(Universe::size(1, 255), Some(1));
    assert_eq!(Universe::size(2, 31), Some(2147483648));
    assert_eq!(Universe::size(255, 4), Some(4228250625));
}

#[test]
fn size_refuses_what_no_index_can_reach() {
    assert_eq!(Universe::size(2, 32), None);
    assert_eq!(Universe::size(16, 8), None);
    assert_eq!(Universe::size(255, 5), None);
    assert_eq!(Universe::size(255, 255), None);
}

#[test]
fn size_refuses_an_empty_alphabet() {
    assert_eq!(Universe::size(0, 0), None);
    assert_eq!(Universe::size(0, 3), None);
}

#[test]
fn as_subset_holds_every_index() {
    let universe = Universe::new(3, 3);
    let subset = universe.as_subset();
    assert_eq!(subset.len(), 27);
    for index in 0..27u32 {
        assert!(subset.contains(index));
    }
    assert!(!subset.contains(27));
}
