use std::collections::HashSet;

use bingo_on_chain_backend::card::{create_random_card, fill_grid, number_domain, PlayerId};
use bingo_on_chain_backend::error::GameError;
use bingo_on_chain_backend::shuffle::shuffle_with_entropy;

fn player(b: u8) -> PlayerId {
    PlayerId::new(vec![b, 1, 2])
}

fn assert_valid_card(numbers: &Vec<Vec<u32>>) {
    assert_eq!(numbers.len(), 5);
    let mut seen = HashSet::new();
    for (r, row) in numbers.iter().enumerate() {
        assert_eq!(row.len(), 5);
        for (c, &v) in row.iter().enumerate() {
            if r == 2 && c == 2 {
                assert_eq!(v, 0);
            } else {
                assert!((1..=99).contains(&v));
                assert!(seen.insert(v));
            }
        }
    }
    assert_eq!(seen.len(), 24);
}

#[test]
fn shuffle_follows_fisher_yates_from_last_index() {
    let mut s = vec![1, 2, 3];
    shuffle_with_entropy(&mut s, &vec![1, 0]);
    assert_eq!(s, vec![3, 1, 2]);
}

#[test]
fn shuffle_of_single_value_is_unchanged() {
    let mut s = vec![42];
    shuffle_with_entropy(&mut s, &vec![9]);
    assert_eq!(s, vec![42]);
}

#[test]
fn shuffle_keeps_every_value() {
    let mut s = number_domain();
    let entropy: Vec<u8> = (0..32).map(|i| (i * 37 + 11) as u8).collect();
    shuffle_with_entropy(&mut s, &entropy);
    let mut sorted = s.clone();
    sorted.sort();
    assert_eq!(sorted, (1..=99).collect::<Vec<u32>>());
    assert_ne!(s, number_domain());
}

#[test]
fn domain_is_one_to_ninety_nine() {
    assert_eq!(number_domain(), (1..=99).collect::<Vec<u32>>());
}

#[test]
fn fill_grid_skips_the_free_cell() {
    let seq: Vec<u32> = (1..=24).collect();
    let g = fill_grid(&seq);
    assert_eq!(
        g,
        vec![
            vec![1, 2, 3, 4, 5],
            vec![6, 7, 8, 9, 10],
            vec![11, 12, 0, 13, 14],
            vec![15, 16, 17, 18, 19],
            vec![20, 21, 22, 23, 24],
        ]
    );
}

#[test]
fn card_from_zero_entropy() {
    let card = create_random_card(player(1), &vec![0u8; 32]).unwrap();
    assert_eq!(
        card.numbers,
        vec![
            vec![2, 3, 4, 5, 6],
            vec![7, 8, 9, 10, 11],
            vec![12, 13, 0, 14, 15],
            vec![16, 17, 18, 19, 20],
            vec![21, 22, 23, 24, 25],
        ]
    );
    assert_eq!(card.owner.as_bytes(), &vec![1, 1, 2]);
}

#[test]
fn card_from_counting_entropy() {
    let entropy: Vec<u8> = (0..32).collect();
    let card = create_random_card(player(2), &entropy).unwrap();
    assert_eq!(
        card.numbers,
        vec![
            vec![43, 49, 37, 46, 39],
            vec![45, 35, 48, 41, 47],
            vec![33, 44, 0, 42, 40],
            vec![38, 36, 34, 50, 51],
            vec![52, 53, 54, 55, 56],
        ]
    );
}

#[test]
fn generated_cards_are_valid() {
    for seed in 0u8..20 {
        let entropy: Vec<u8> = (0..32).map(|i: u8| i.wrapping_mul(seed).wrapping_add(seed ^ 0x5a)).collect();
        let card = create_random_card(player(seed), &entropy).unwrap();
        assert_valid_card(&card.numbers);
    }
}

#[test]
fn card_without_entropy_is_refused() {
    let r = create_random_card(player(3), &vec![]);
    assert!(matches!(r, Err(GameError::EntropyUnavailable)));
}

#[test]
fn player_ids_compare_by_bytes() {
    assert!(player(4).same_as(&player(4)));
    assert!(!player(4).same_as(&player(5)));
    assert!(!player(4).same_as(&PlayerId::new(vec![4, 1])));
    assert!(player(6).duplicate().same_as(&player(6)));
}
