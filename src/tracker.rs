use vstd::prelude::*;

use crate::counting::{
    agree, below, card_count, hand_quads, in_hand, ind, insert_gain, match_count, pair_count,
    range_sum, raw_quads, xor,
};
use crate::hand::{add_card, has_card, with_card};

verus! {

/// `t` is the difference table of the cards of `h` below `n`: entry `d`
/// counts the pairs of those cards whose difference is `d`.
pub open spec fn table_of(h: u128, t: Seq<u8>, n: int) -> bool {
    t.len() == 128 && forall|d: int| 0 <= d < 128 ==> #[trigger] t[d] as int == pair_count(h, d, n)
}

proof fn lemma_xor_index(i: usize, e: usize)
    by (bit_vector)
    requires
        i < 128,
        e < 128,
    ensures
        i ^ e < 128,
        i ^ e == ((i as u8) ^ (e as u8)) as usize,
{
}

/// Inserting a card `e` above a hand below `e` adds its gain to the raw count.
pub proof fn lemma_insert_raw(h: u128, e: int)
    requires
        0 <= e < 128,
        below(h, e),
    ensures
        raw_quads(add_card(h, e), e + 1) == raw_quads(h, e) + insert_gain(h, e, e, e),
{
    let h2 = add_card(h, e);
    crate::hand::lemma_add_top(h, e);
    crate::counting::lemma_agree_raw(h2, h, e);
    crate::counting::lemma_agree_gain(h2, h, e, e);
}

/// Skipping card `n` of a hand below `n` keeps its table and raw count.
pub proof fn lemma_skip(h: u128, t: Seq<u8>, n: int)
    requires
        0 <= n < 128,
        below(h, n),
        table_of(h, t, n),
    ensures
        table_of(h, t, n + 1),
        raw_quads(h, n + 1) == raw_quads(h, n),
        card_count(h, n + 1) == card_count(h, n),
{
    assert forall|d: int| 0 <= d < 128 implies #[trigger] t[d] as int == pair_count(h, d, n + 1) by {
        crate::counting::lemma_below_pair(h, d, n, n + 1);
    }
    crate::counting::lemma_below_raw(h, n, n + 1);
    crate::counting::lemma_below_cards(h, n, n + 1);
}

/// Inserts card `e` into a hand below `e` whose difference table is
/// `differences`. Returns the table of the new hand, the raw count that the
/// new card adds, and whether every pair that the new card forms has a
/// difference now shared by at most `max_diff_count` pairs. The table and
/// the count are meaningful only where it does; `differences` is left as it
/// was.
pub fn insert_card(hand: u128, differences: &[u8; 128], e: usize, max_diff_count: usize) -> (r: (
    [u8; 128],
    u64,
    bool,
))
    requires
        e < 128,
        below(hand, e as int),
        table_of(hand, differences@, e as int),
    ensures
        r.2 == (forall|x: int|
            0 <= x < e && #[trigger] in_hand(hand, x) ==> pair_count(hand, xor(x, e as int), e as int)
                < max_diff_count),
        r.2 ==> table_of(add_card(hand, e as int), r.0@, e + 1),
        r.2 ==> r.1 == insert_gain(hand, e as int, e as int, e as int),
{
    let mut table = *differences;
    let mut gain: u64 = 0;
    let mut fits = true;
    let mut i: usize = 0;
    while i < e && fits
        invariant
            e < 128,
            i <= e,
            below(hand, e as int),
            table_of(hand, differences@, e as int),
            table@.len() == 128,
            fits ==> forall|d: int|
                0 <= d < 128 ==> #[trigger] table@[d] as int == pair_count(hand, d, e as int)
                    + match_count(hand, e as int, d, i as int),
            fits ==> gain == insert_gain(hand, e as int, i as int, e as int),
            gain <= i * 128,
            fits ==> forall|x: int|
                0 <= x < i && #[trigger] in_hand(hand, x) ==> pair_count(hand, xor(x, e as int), e as int)
                    < max_diff_count,
            !fits ==> exists|x: int|
                0 <= x < e && #[trigger] in_hand(hand, x) && pair_count(hand, xor(x, e as int), e as int)
                    >= max_diff_count,
        decreases e - i,
    {
        let ghost old_table = table@;
        if has_card(hand, i) {
            proof {
                lemma_xor_index(i, e);
            }
            let d = i ^ e;
            proof {
                crate::counting::lemma_xor(i as int, e as int, 0, 0);
                crate::counting::lemma_match_exact(hand, e as int, d as int, i as int);
                crate::counting::lemma_pair_bound(hand, d as int, e as int);
            }
            let c = table[d];
            gain = gain + c as u64;
            table[d] = c + 1;
            if (c + 1) as usize > max_diff_count {
                fits = false;
            }
            proof {
                assert forall|d2: int| 0 <= d2 < 128 implies match_count(hand, e as int, d2, i + 1)
                    == match_count(hand, e as int, d2, i as int) + ind(in_hand(hand, i as int) && xor(
                    i as int,
                    e as int,
                ) == d2) by {}
            }
        } else {
            proof {
                assert forall|d2: int| 0 <= d2 < 128 implies match_count(hand, e as int, d2, i + 1)
                    == match_count(hand, e as int, d2, i as int) by {}
            }
        }
        i = i + 1;
    }
    proof {
        if fits {
            let h2 = add_card(hand, e as int);
            crate::hand::lemma_add_top(hand, e as int);
            assert forall|d: int| 0 <= d < 128 implies #[trigger] table@[d] as int == pair_count(
                h2,
                d,
                e + 1,
            ) by {
                crate::counting::lemma_agree_pair(h2, hand, d, e as int);
                crate::counting::lemma_agree_match(h2, hand, e as int, d, e as int);
                assert(pair_count(h2, d, e + 1) == pair_count(h2, d, e as int) + (if in_hand(h2, e as int) {
                    match_count(h2, e as int, d, e as int)
                } else {
                    0
                }));
            }
        }
    }
    (table, gain, fits)
}

/// The raw count that adding card `j` to a hand below `n <= j` brings,
/// read from the hand's difference table.
pub fn gain_at(hand: u128, differences: &[u8; 128], n: usize, j: usize) -> (r: u64)
    requires
        n <= j < 128,
        below(hand, n as int),
        table_of(hand, differences@, n as int),
    ensures
        r == insert_gain(hand, j as int, j as int, j as int),
        r <= 128 * 128,
{
    let mut gain: u64 = 0;
    let mut i: usize = 0;
    while i < n
        invariant
            i <= n <= j < 128,
            table_of(hand, differences@, n as int),
            gain == insert_gain(hand, j as int, i as int, n as int),
            gain <= i * 128,
        decreases n - i,
    {
        if has_card(hand, i) {
            proof {
                lemma_xor_index(i, j);
                crate::counting::lemma_pair_bound(hand, (i ^ j) as int, n as int);
            }
            gain = gain + differences[i ^ j] as u64;
        }
        i = i + 1;
    }
    proof {
        crate::counting::lemma_below_gain(hand, j as int, n as int, j as int);
    }
    gain
}

/// The number of quads in `hand`, counted by inserting its cards one at a
/// time into a difference table.
pub fn count_quads(hand: u128) -> (r: u64)
    ensures
        r == hand_quads(hand),
{
    let mut table: [u8; 128] = [0u8; 128];
    let mut part: u128 = 0;
    let mut raw: u64 = 0;
    let mut e: usize = 0;
    proof {
        crate::hand::lemma_empty_hand();
        assert forall|d: int| 0 <= d < 128 implies #[trigger] table@[d] as int == pair_count(part, d, 0) by {}
    }
    while e < 128
        invariant
            e <= 128,
            below(part, e as int),
            agree(part, hand, e as int),
            table_of(part, table@, e as int),
            raw == raw_quads(part, e as int),
        decreases 128 - e,
    {
        proof {
            crate::counting::lemma_raw_bound(part, e as int);
        }
        if has_card(hand, e) {
            let (t, g, fits) = insert_card(part, &table, e, 128);
            proof {
                assert forall|x: int|
                    0 <= x < e && #[trigger] in_hand(part, x) implies pair_count(part, xor(x, e as int), e as int)
                    < 128 by {
                    crate::counting::lemma_xor(x, e as int, 0, 0);
                    crate::counting::lemma_pair_bound(part, xor(x, e as int), e as int);
                }
                lemma_insert_raw(part, e as int);
                crate::counting::lemma_gain_bound(part, e as int, e as int, e as int);
                crate::hand::lemma_add_top(part, e as int);
            }
            table = t;
            raw = raw + g;
            part = with_card(part, e);
        } else {
            proof {
                lemma_skip(part, table@, e as int);
            }
        }
        e = e + 1;
    }
    proof {
        crate::counting::lemma_agree_raw(part, hand, 128);
        crate::counting::lemma_raw_quads(hand, 128);
    }
    raw / 3
}

// ---------------------------------------------------------------------------
// The total of a difference table.
proof fn lemma_sum_single(k: int, v: int)
    requires
        0 <= v,
        0 <= k,
    ensures
        range_sum(k, |d: int| ind(d == v)) == ind(v < k),
    decreases k,
{
    if k > 0 {
        lemma_sum_single(k - 1, v);
    }
}

proof fn lemma_match_total(h: u128, x: int, m: int)
    requires
        0 <= x < 128,
        0 <= m <= 128,
    ensures
        range_sum(128, |d: int| match_count(h, x, d, m)) == card_count(h, m),
    decreases m,
{
    if m > 0 {
        let k = m - 1;
        lemma_match_total(h, x, k);
        let f_m = |d: int| match_count(h, x, d, m);
        let f_k = |d: int| match_count(h, x, d, k);
        let extra = |d: int| ind(in_hand(h, k) && xor(k, x) == d);
        assert forall|d: int| 0 <= d < 128 implies #[trigger] f_m(d) == f_k(d) + extra(d) by {}
        crate::counting::lemma_sum_add(128, f_m, f_k, extra);
        crate::counting::lemma_xor(k, x, 0, 0);
        if in_hand(h, k) {
            let g = |d: int| ind(d == xor(k, x));
            assert forall|d: int| 0 <= d < 128 implies #[trigger] extra(d) == g(d) by {}
            crate::counting::lemma_sum_ext(128, extra, g);
            lemma_sum_single(128, xor(k, x));
        } else {
            crate::counting::lemma_sum_zero_tail(0, 128, extra);
        }
    } else {
        let f = |d: int| match_count(h, x, d, m);
        assert forall|d: int| 0 <= d < 128 implies #[trigger] f(d) == 0 by {}
        crate::counting::lemma_sum_zero_tail(0, 128, f);
    }
}

/// The pairs of the `c` cards below `n` number `c * (c - 1) / 2` in all,
/// whatever their differences.
pub proof fn lemma_pair_total(h: u128, n: int)
    requires
        0 <= n <= 128,
    ensures
        2 * range_sum(128, |d: int| pair_count(h, d, n)) == card_count(h, n) * (card_count(h, n) - 1),
    decreases n,
{
    if n > 0 {
        let k = n - 1;
        lemma_pair_total(h, k);
        let f_n = |d: int| pair_count(h, d, n);
        let f_k = |d: int| pair_count(h, d, k);
        let extra = |d: int| if in_hand(h, k) { match_count(h, k, d, k) } else { 0 };
        assert forall|d: int| 0 <= d < 128 implies #[trigger] f_n(d) == f_k(d) + extra(d) by {}
        crate::counting::lemma_sum_add(128, f_n, f_k, extra);
        let c = card_count(h, k);
        assert(card_count(h, n) == c + ind(in_hand(h, k)));
        if in_hand(h, k) {
            let g = |d: int| match_count(h, k, d, k);
            assert forall|d: int| 0 <= d < 128 implies #[trigger] extra(d) == g(d) by {}
            crate::counting::lemma_sum_ext(128, extra, g);
            lemma_match_total(h, k, k);
            assert((c + 1) * c == c * (c - 1) + 2 * c) by (nonlinear_arith);
        } else {
            crate::counting::lemma_sum_zero_tail(0, 128, extra);
        }
    } else {
        let f = |d: int| pair_count(h, d, n);
        assert forall|d: int| 0 <= d < 128 implies #[trigger] f(d) == 0 by {}
        crate::counting::lemma_sum_zero_tail(0, 128, f);
    }
}

/// After its cards have been inserted one at a time, the entries of a
/// difference table add up to `k * (k - 1) / 2`, where `k` is the number of
/// cards inserted.
pub proof fn lemma_table_total(h: u128, t: Seq<u8>, n: int)
    requires
        0 <= n <= 128,
        table_of(h, t, n),
    ensures
        range_sum(128, |d: int| t[d] as int) == card_count(h, n) * (card_count(h, n) - 1) / 2,
{
    let f = |d: int| t[d] as int;
    let g = |d: int| pair_count(h, d, n);
    crate::counting::lemma_sum_ext(128, f, g);
    lemma_pair_total(h, n);
}

} // verus!
