use quad_search::engine::{record_min, search, search_inner, search_inner_multi, search_multi};
use quad_search::tracker::count_quads;

fn all_hands(deck: usize, size: usize) -> Vec<u128> {
    fn go(start: usize, deck: usize, left: usize, hand: u128, out: &mut Vec<u128>) {
        if left == 0 {
            out.push(hand);
            return;
        }
        for c in start..deck {
            if deck - c < left {
                break;
            }
            go(c + 1, deck, left - 1, hand | (1u128 << c), out);
        }
    }
    let mut out = Vec::new();
    go(0, deck, size, 0, &mut out);
    out
}

fn top(hand: u128) -> u64 {
    127 - hand.leading_zeros() as u64
}

fn brute_max(deck: usize, size: usize) -> u64 {
    all_hands(deck, size).into_iter().map(count_quads).max().unwrap()
}

fn brute_min_top(deck: usize, size: usize, target: u64) -> Option<u64> {
    all_hands(deck, size)
        .into_iter()
        .filter(|&h| count_quads(h) == target)
        .map(top)
        .min()
}

#[test]
fn four_cards_of_eight_have_one_quad() {
    let (hand, score) = search(8, 4, None);
    assert_eq!(score, 1);
    assert_eq!(count_quads(hand), 1);
    assert_eq!(hand.count_ones(), 4);
    assert_eq!(hand, 0b1111);
}

#[test]
fn maximum_matches_brute_force() {
    for deck in [8usize, 16] {
        for size in 0..=8usize {
            let (hand, score) = search(deck, size, None);
            assert_eq!(hand.count_ones() as usize, size);
            assert!(hand >> deck == 0);
            assert_eq!(score, count_quads(hand));
            assert_eq!(score, brute_max(deck, size), "deck {deck}, size {size}");
        }
    }
}

#[test]
fn no_quad_free_five_card_hand_in_eight() {
    assert_eq!(brute_min_top(8, 5, 0), None);
    let (_, score) = search(8, 5, Some(0));
    assert_eq!(score, 8);
}

#[test]
fn quad_free_five_card_hand_in_sixteen() {
    let (hand, score) = search(16, 5, Some(0));
    assert_eq!(Some(score), brute_min_top(16, 5, 0));
    assert_eq!(score, 8);
    assert_eq!(count_quads(hand), 0);
    assert_eq!(top(hand), score);
    assert_eq!(hand.count_ones(), 5);
}

fn exists_hand(deck: usize, size: usize, quads: u64, top_card: u64) -> bool {
    all_hands(deck, size).into_iter().any(|h| count_quads(h) == quads && top(h) == top_card)
}

#[test]
fn target_search_reports_a_real_hand() {
    for (deck, size, target) in [(16usize, 6usize, 0u64), (16, 6, 1), (16, 6, 3), (8, 6, 3), (16, 7, 7)] {
        let (hand, score) = search(deck, size, Some(target));
        let lowest = brute_min_top(deck, size, target).unwrap();
        assert!(score < deck as u64, "deck {deck}, size {size}, target {target}");
        assert!(lowest <= score);
        assert_eq!(count_quads(hand), target);
        assert_eq!(top(hand), score);
        assert_eq!(hand.count_ones() as usize, size);
    }
    // The symmetry rules force cards 0 and 1 into a quad-free hand, which
    // costs a higher top card than the lowest possible here.
    assert_eq!(search(16, 6, Some(0)).1, 15);
    assert_eq!(brute_min_top(16, 6, 0), Some(9));
    assert_eq!(search(8, 6, Some(3)).1, 5);
}

#[test]
fn unreachable_target_reports_deck_size() {
    let (hand, score) = search(16, 4, Some(2));
    assert_eq!(score, 16);
    assert_eq!(hand, 0b1111);
    assert_eq!(search(8, 5, Some(0)), (0b11111, 8));
}

#[test]
fn ties_keep_the_first_hand_met() {
    // {0, 1, 2, 4} and {0, 1, 3, 4} are both quad-free with top card 4; the
    // search meets {0, 1, 2, 4} first, including card 2 before skipping it.
    assert_eq!(search(8, 4, Some(0)), (0b10111, 4));
    assert_eq!(count_quads(0b11011), 0);
}

#[test]
fn sweep_tables_end_at_a_found_count() {
    assert_eq!(search_multi(16, 4), vec![4, 3]);
    assert_eq!(search_multi(16, 5), vec![8, 4]);
    assert_eq!(search_multi(8, 9), Vec::<u64>::new());
    assert_eq!(search_multi(0, 0), Vec::<u64>::new());
    for size in 4..=8usize {
        let res = search_multi(16, size);
        assert_eq!(res.len() as u64, search(16, size, None).1 + 1);
        assert!(*res.last().unwrap() < 16);
    }
}

#[test]
fn forced_inclusion_never_loses_the_maximum() {
    for deck in [8usize, 16] {
        for size in 0..=8usize {
            let (_, pruned) = search(deck, size, None);
            let mut best_hand = (1u128 << size) - 1;
            let mut best_score = count_quads(best_hand);
            search_inner(
                0, [0; 128], 0, deck / 2, 0, deck, size, size, 0, None, &mut best_score, &mut best_hand,
            );
            assert!(best_score <= pruned, "deck {deck}, size {size}");
        }
    }
}

#[test]
fn accumulator_never_gets_worse() {
    // A maximizing accumulator is only replaced by a strictly better hand:
    // no four cards hold two quads, so {0, 1, 6, 7} with its one quad stays.
    let mut best_hand = 0b1100_0011u128;
    let mut best_score = count_quads(best_hand);
    assert_eq!(best_score, 1);
    search_inner(0, [0; 128], 3, 4, 0, 8, 4, 4, 0, None, &mut best_score, &mut best_hand);
    assert_eq!((best_hand, best_score), (0b1100_0011, 1));
    // A target accumulator already at the lowest top card stays.
    let mut best_hand = 0b10111u128;
    let mut best_score = 4u64;
    search_inner(0, [0; 128], 1, 1, 0, 16, 4, 4, 0, Some(0), &mut best_score, &mut best_hand);
    assert_eq!((best_hand, best_score), (0b10111, 4));
    // From the "none found" value, the search lowers it.
    let mut best_hand = 0b1111u128;
    let mut best_score = 16u64;
    search_inner(0, [0; 128], 1, 1, 0, 16, 4, 4, 0, Some(0), &mut best_score, &mut best_hand);
    assert_eq!(best_score, 4);
    assert_eq!(count_quads(best_hand), 0);
}

#[test]
fn sweep_best_counts_grow_with_hand_size() {
    let mut last = 0u64;
    for size in 4..=6usize {
        let res = search_multi(16, size);
        let best = res.iter().enumerate().filter(|(_, &m)| m < 16).map(|(q, _)| q as u64).max().unwrap();
        assert!(best >= last, "size {size}");
        last = best;
    }
}

#[test]
fn sweep_matches_brute_force() {
    for deck in [8usize, 16] {
        for size in 4..=7usize {
            let res = search_multi(deck, size);
            for (q, &m) in res.iter().enumerate() {
                assert!(m <= deck as u64);
                if m < deck as u64 {
                    assert!(exists_hand(deck, size, q as u64, m), "deck {deck}, size {size}, q {q}");
                    assert!(brute_min_top(deck, size, q as u64).unwrap() <= m);
                }
            }
            let best = brute_max(deck, size) as usize;
            assert!(best < res.len());
            assert!(res[best] < deck as u64);
        }
    }
}

#[test]
fn sweep_from_one_frame() {
    let mut scores = Vec::new();
    search_inner_multi(0, [0; 128], 3, 4, 0, 8, 0, 4, 0, &mut scores);
    assert_eq!(scores, vec![4, 3]);
    let mut scores = vec![1, 1];
    search_inner_multi(0, [0; 128], 3, 4, 0, 8, 0, 4, 0, &mut scores);
    assert_eq!(scores, vec![1, 1]);
}

#[test]
fn record_min_grows_and_lowers() {
    let mut v = vec![5u64];
    record_min(&mut v, 3, 2, 9);
    assert_eq!(v, vec![5, 9, 9, 2]);
    record_min(&mut v, 0, 7, 9);
    assert_eq!(v, vec![5, 9, 9, 2]);
    record_min(&mut v, 0, 1, 9);
    assert_eq!(v, vec![1, 9, 9, 2]);
}

#[test]
fn empty_and_full_hands() {
    assert_eq!(search(0, 0, None), (0, 0));
    assert_eq!(search(8, 8, None), (0xff, 14));
    let (hand, score) = search(128, 128, None);
    assert_eq!(hand, u128::MAX);
    assert_eq!(score, count_quads(u128::MAX));
}
