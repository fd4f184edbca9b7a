use vstd::prelude::*;

use crate::counting::{below, in_hand, top_card};
use crate::hand::has_card;

verus! {

/// The highest card of `h` below `n`, or 0 when there is none.
pub open spec fn highest(h: u128, n: int) -> int
    decreases n,
{
    if n <= 0 {
        0
    } else if in_hand(h, n - 1) {
        n - 1
    } else {
        highest(h, n - 1)
    }
}

/// The dimension ceiling of a hand whose highest card is `top`: the
/// smallest power of two above `top`, and at least 2. A card above it would
/// open a new dimension that a smaller card opens as well.
pub open spec fn ceiling(top: int) -> int {
    if top < 2 {
        2
    } else if top < 4 {
        4
    } else if top < 8 {
        8
    } else if top < 16 {
        16
    } else if top < 32 {
        32
    } else if top < 64 {
        64
    } else if top < 128 {
        128
    } else {
        256
    }
}

/// Below any bound above it, the highest card is the top card.
pub proof fn lemma_highest_top(h: u128, t: int, n: int)
    requires
        top_card(h, t),
        t < n,
    ensures
        highest(h, n) == t,
    decreases n,
{
    if n - 1 > t {
        assert(!in_hand(h, n - 1));
        lemma_highest_top(h, t, n - 1);
    }
}

/// The highest card of `hand` below `n`, or 0 for a hand with none.
pub fn highest_card(hand: u128, n: usize) -> (r: usize)
    requires
        n <= 128,
    ensures
        r == highest(hand, n as int),
        r < 128,
        below(hand, n as int) ==> below(hand, r + 1),
{
    let mut k: usize = n;
    while k > 0 && !has_card(hand, k - 1)
        invariant
            k <= n <= 128,
            highest(hand, n as int) == highest(hand, k as int),
            below(hand, n as int) ==> below(hand, k as int),
        decreases k,
    {
        k = k - 1;
    }
    if k == 0 {
        0
    } else {
        k - 1
    }
}

/// The dimension ceiling above the card `top`, found by doubling.
pub fn dimension_ceiling(top: usize) -> (r: usize)
    requires
        top < 128,
    ensures
        r == ceiling(top as int),
        top < r <= 128,
{
    let mut c: usize = 2;
    while c <= top
        invariant
            top < 128,
            c == 2 || c == 4 || c == 8 || c == 16 || c == 32 || c == 64 || c == 128,
            c == 2 || c / 2 <= top,
        decreases 256 - c,
    {
        c = c * 2;
    }
    c
}

/// Whether the search may skip card `next_index` in the window whose least
/// shared difference count is `min_diff_count`: below `2 * min_diff_count`
/// every card must be included, since any hand of the window is equivalent
/// under a change of basis to one holding those cards.
pub fn may_skip(next_index: usize, min_diff_count: usize) -> (r: bool)
    ensures
        r == (next_index >= 2 * min_diff_count),
{
    next_index / 2 >= min_diff_count
}

} // verus!
