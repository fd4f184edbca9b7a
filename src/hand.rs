use vstd::prelude::*;

use crate::counting::{agree, below, card_count, in_hand, ind, range_sum};

verus! {

/// The hand `h` with card `e` added.
pub open spec fn add_card(h: u128, e: int) -> u128 {
    h | (1u128 << (e as u128))
}

proof fn lemma_bit_add(h: u128, e: u128, a: u128)
    by (bit_vector)
    requires
        e < 128,
        a < 128,
    ensures
        ((h | (1u128 << e)) >> a) & 1u128 == 1u128 <==> (a == e || (h >> a) & 1u128 == 1u128),
{
}

proof fn lemma_bit_empty(a: u128)
    by (bit_vector)
    requires
        a < 128,
    ensures
        (0u128 >> a) & 1u128 != 1u128,
{
}

proof fn lemma_bit_low(n: u128, a: u128)
    by (bit_vector)
    requires
        n < 128,
        a < 128,
    ensures
        (((1u128 << n) - 1u128) as u128 >> a) & 1u128 == 1u128 <==> a < n,
{
}

proof fn lemma_bit_full(a: u128)
    by (bit_vector)
    requires
        a < 128,
    ensures
        (0xffff_ffff_ffff_ffff_ffff_ffff_ffff_ffffu128 >> a) & 1u128 == 1u128,
{
}

/// Adding card `e` adds exactly that card.
pub proof fn lemma_add_card(h: u128, e: int)
    requires
        0 <= e < 128,
    ensures
        forall|a: int| #[trigger] in_hand(add_card(h, e), a) == (a == e || in_hand(h, a)),
{
    assert forall|a: int| #[trigger] in_hand(add_card(h, e), a) == (a == e || in_hand(h, a)) by {
        if 0 <= a < 128 {
            lemma_bit_add(h, e as u128, a as u128);
        }
    }
}

/// Adding a card `e` above a hand below `e` gives a hand below `e + 1`
/// that agrees with the old one below `e` and has one card more.
pub proof fn lemma_add_top(h: u128, e: int)
    requires
        0 <= e < 128,
        below(h, e),
    ensures
        below(add_card(h, e), e + 1),
        agree(add_card(h, e), h, e),
        in_hand(add_card(h, e), e),
        card_count(add_card(h, e), e + 1) == card_count(h, e) + 1,
{
    lemma_add_card(h, e);
    let h2 = add_card(h, e);
    crate::counting::lemma_agree_cards(h2, h, e);
    assert(card_count(h2, e + 1) == card_count(h2, e) + ind(in_hand(h2, e)));
}

/// Card `a` is in `hand`.
pub fn has_card(hand: u128, a: usize) -> (r: bool)
    requires
        a < 128,
    ensures
        r == in_hand(hand, a as int),
{
    (hand >> (a as u128)) & 1u128 == 1u128
}

/// `hand` with card `e` added.
pub fn with_card(hand: u128, e: usize) -> (r: u128)
    requires
        e < 128,
    ensures
        r == add_card(hand, e as int),
        forall|a: int| #[trigger] in_hand(r, a) == (a == e || in_hand(hand, a)),
{
    let r = hand | (1u128 << (e as u128));
    proof {
        assert(r == add_card(hand, e as int));
        lemma_add_card(hand, e as int);
    }
    r
}

/// The mask of the `n` lowest cards `0, 1, ..., n - 1`, for `n <= 128`.
pub open spec fn lowest_hand(n: int) -> u128 {
    if n >= 128 {
        0xffff_ffff_ffff_ffff_ffff_ffff_ffff_ffffu128
    } else {
        ((1u128 << (n as u128)) - 1u128) as u128
    }
}

/// The hand of the `n` lowest cards `0, 1, ..., n - 1`.
pub fn first_cards(n: usize) -> (r: u128)
    requires
        n <= 128,
    ensures
        r == lowest_hand(n as int),
        forall|a: int| #[trigger] in_hand(r, a) == (0 <= a < n),
{
    if n == 128 {
        proof {
            assert forall|a: int| #[trigger] in_hand(0xffff_ffff_ffff_ffff_ffff_ffff_ffff_ffffu128, a) == (0 <= a < n) by {
                if 0 <= a < 128 {
                    lemma_bit_full(a as u128);
                }
            }
        }
        0xffff_ffff_ffff_ffff_ffff_ffff_ffff_ffffu128
    } else {
        let s: u128 = n as u128;
        assert(1u128 << s >= 1u128) by (bit_vector)
            requires
                s < 128,
        ;
        let r: u128 = (1u128 << s) - 1u128;
        proof {
            assert forall|a: int| #[trigger] in_hand(r, a) == (0 <= a < n) by {
                if 0 <= a < 128 {
                    lemma_bit_low(n as u128, a as u128);
                }
            }
        }
        r
    }
}

/// The empty hand has no card.
pub proof fn lemma_empty_hand()
    ensures
        forall|a: int| !#[trigger] in_hand(0u128, a),
{
    assert forall|a: int| !#[trigger] in_hand(0u128, a) by {
        if 0 <= a < 128 {
            lemma_bit_empty(a as u128);
        }
    }
}

/// The hand of the `n` lowest cards holds `n` cards.
pub proof fn lemma_first_cards_count(h: u128, n: int, m: int)
    requires
        0 <= m <= n <= 128,
        forall|a: int| #[trigger] in_hand(h, a) == (0 <= a < n),
    ensures
        card_count(h, m) == m,
    decreases m,
{
    if m > 0 {
        lemma_first_cards_count(h, n, m - 1);
        assert(in_hand(h, m - 1));
    }
}

} // verus!
