use quad_search::hand::{first_cards, has_card, with_card};
use quad_search::policy::{dimension_ceiling, highest_card, may_skip};
use quad_search::tracker::{count_quads, gain_at, insert_card};

fn brute_quads(hand: u128) -> u64 {
    let cards: Vec<usize> = (0..128).filter(|&i| (hand >> i) & 1 == 1).collect();
    let n = cards.len();
    let mut count = 0;
    for a in 0..n {
        for b in a + 1..n {
            for c in b + 1..n {
                for d in c + 1..n {
                    if cards[a] ^ cards[b] == cards[c] ^ cards[d] {
                        count += 1;
                    }
                }
            }
        }
    }
    count
}

fn hand_of(cards: &[usize]) -> u128 {
    let mut h = 0u128;
    for &c in cards {
        h = with_card(h, c);
    }
    h
}

fn next_random(state: &mut u64) -> u64 {
    *state = state.wrapping_mul(6364136223846793005).wrapping_add(1442695040888963407);
    *state >> 33
}

#[test]
fn count_quads_of_small_hands() {
    assert_eq!(count_quads(0), 0);
    assert_eq!(count_quads(hand_of(&[0, 1, 2, 3])), 1);
    assert_eq!(count_quads(hand_of(&[0, 1, 2, 4])), 0);
    // The eight points of a three-dimensional space hold 14 planes.
    assert_eq!(count_quads(first_cards(8)), 14);
    assert_eq!(count_quads(first_cards(16)), 140);
}

#[test]
fn count_quads_matches_brute_force() {
    let mut state = 12345u64;
    for size in 0..=8usize {
        for deck in [8usize, 16, 32, 128] {
            if size > deck {
                continue;
            }
            for _ in 0..40 {
                let mut hand = 0u128;
                while (hand.count_ones() as usize) < size {
                    let c = (next_random(&mut state) % deck as u64) as usize;
                    hand = with_card(hand, c);
                }
                assert_eq!(count_quads(hand), brute_quads(hand), "hand {hand:#x}");
            }
        }
    }
}

#[test]
fn count_quads_of_full_deck() {
    assert_eq!(count_quads(u128::MAX), brute_quads(u128::MAX));
}

#[test]
fn table_total_after_each_insertion() {
    let cards = [0usize, 1, 2, 4, 7, 9, 12, 30, 64, 100, 127];
    let mut hand = 0u128;
    let mut table = [0u8; 128];
    for (k, &c) in cards.iter().enumerate() {
        let total: usize = table.iter().map(|&x| x as usize).sum();
        assert_eq!(total, k * k.saturating_sub(1) / 2);
        let (t, _, fits) = insert_card(hand, &table, c, 128);
        assert!(fits);
        table = t;
        hand = with_card(hand, c);
    }
    let k = cards.len();
    let total: usize = table.iter().map(|&x| x as usize).sum();
    assert_eq!(total, k * (k - 1) / 2);
}

#[test]
fn insert_card_counts_pairs_and_gain() {
    // {0, 1, 2}: differences 1, 2, 3 once each.
    let mut table = [0u8; 128];
    let mut hand = 0u128;
    for c in [0usize, 1, 2] {
        let (t, _, fits) = insert_card(hand, &table, c, 128);
        assert!(fits);
        table = t;
        hand = with_card(hand, c);
    }
    assert_eq!((table[1], table[2], table[3], table[0]), (1, 1, 1, 0));
    // Adding 3 closes the quad {0, 1, 2, 3}, counted three times.
    let (t, gain, fits) = insert_card(hand, &table, 3, 128);
    assert!(fits);
    assert_eq!(gain, 3);
    assert_eq!((t[1], t[2], t[3]), (2, 2, 2));
    // The input table is left as it was.
    assert_eq!(table[1], 1);
    // A bound of one pair per difference refuses card 3.
    let (_, _, fits) = insert_card(hand, &table, 3, 1);
    assert!(!fits);
    // Card 4 forms differences 4, 5, 6, which no pair has yet.
    let (_, gain, fits) = insert_card(hand, &table, 4, 1);
    assert!(fits);
    assert_eq!(gain, 0);
}

#[test]
fn raw_count_at_last_card_is_divisible_by_three() {
    let mut state = 99u64;
    for _ in 0..200 {
        let size = (next_random(&mut state) % 8) as usize;
        let mut hand = 0u128;
        let mut table = [0u8; 128];
        let mut raw = 0u64;
        let mut next = 0usize;
        while (hand.count_ones() as usize) < size && next < 24 {
            if next_random(&mut state) % 2 == 0 {
                let (t, g, _) = insert_card(hand, &table, next, 128);
                table = t;
                raw += g;
                hand = with_card(hand, next);
            }
            next += 1;
        }
        for j in next..32 {
            let total = raw + gain_at(hand, &table, next, j);
            assert_eq!(total % 3, 0);
            assert_eq!(total / 3, brute_quads(with_card(hand, j)));
        }
    }
}

#[test]
fn hand_masks() {
    assert_eq!(first_cards(0), 0);
    assert_eq!(first_cards(4), 0b1111);
    assert_eq!(first_cards(128), u128::MAX);
    assert!(has_card(0b100, 2));
    assert!(!has_card(0b100, 1));
    assert_eq!(with_card(0b1, 127), 1 | (1u128 << 127));
}

#[test]
fn policy_bounds() {
    assert_eq!(highest_card(0, 10), 0);
    assert_eq!(highest_card(0b1011, 4), 3);
    assert_eq!(highest_card(0b1011, 128), 3);
    assert_eq!(highest_card(1u128 << 127, 128), 127);
    assert_eq!(dimension_ceiling(0), 2);
    assert_eq!(dimension_ceiling(1), 2);
    assert_eq!(dimension_ceiling(2), 4);
    assert_eq!(dimension_ceiling(3), 4);
    assert_eq!(dimension_ceiling(4), 8);
    assert_eq!(dimension_ceiling(100), 128);
    assert_eq!(dimension_ceiling(127), 128);
    assert!(!may_skip(5, 3));
    assert!(may_skip(6, 3));
    assert!(may_skip(0, 0));
    assert!(!may_skip(1, 1));
}
