use vstd::prelude::*;

verus! {

/// The sum `f(0) + f(1) + ... + f(k - 1)`, zero when `k <= 0`.
pub open spec fn range_sum(k: int, f: spec_fn(int) -> int) -> int
    decreases k,
{
    if k <= 0 {
        0
    } else {
        range_sum(k - 1, f) + f(k - 1)
    }
}

/// One for a true condition, zero for a false one.
pub open spec fn ind(b: bool) -> int {
    if b {
        1
    } else {
        0
    }
}

/// Card `a` is in the hand `h`: bit `a` of the mask is set.
pub open spec fn in_hand(h: u128, a: int) -> bool {
    0 <= a < 128 && (h >> (a as u128)) & 1u128 == 1u128
}

/// Every card of `h` lies below `n`.
pub open spec fn below(h: u128, n: int) -> bool {
    forall|a: int| #[trigger] in_hand(h, a) ==> a < n
}

/// The difference of two cards: their bitwise XOR.
pub open spec fn xor(a: int, b: int) -> int {
    ((a as u8) ^ (b as u8)) as int
}

/// Number of cards of `h` below `n`.
pub open spec fn card_count(h: u128, n: int) -> int {
    range_sum(n, |a: int| ind(in_hand(h, a)))
}

/// Number of cards `a < m` of `h` whose difference with `x` is `d`.
pub open spec fn match_count(h: u128, x: int, d: int, m: int) -> int {
    range_sum(m, |a: int| ind(in_hand(h, a) && xor(a, x) == d))
}

/// Number of pairs `a < b < m` of cards of `h` with difference `d`.
pub open spec fn pair_count(h: u128, d: int, m: int) -> int {
    range_sum(m, |b: int| if in_hand(h, b) { match_count(h, b, d, b) } else { 0 })
}

/// Number of triples `a < b < c < m` of cards of `h` with `a ^ b == c ^ e`.
pub open spec fn triple_count(h: u128, e: int, m: int) -> int {
    range_sum(m, |c: int| if in_hand(h, c) { pair_count(h, xor(c, e), c) } else { 0 })
}

/// Number of quads among the cards of `h` below `n`: sets `a < b < c < d`
/// of cards with `a ^ b == c ^ d`.
pub open spec fn quad_count(h: u128, n: int) -> int {
    range_sum(n, |d: int| if in_hand(h, d) { triple_count(h, d, d) } else { 0 })
}

/// Number of quads of the whole hand `h`.
pub open spec fn hand_quads(h: u128) -> int {
    quad_count(h, 128)
}

/// What inserting card `e` adds to the raw count: for each card `x < k` of
/// `h`, the number of pairs below `m` whose difference is `x ^ e`.
pub open spec fn insert_gain(h: u128, e: int, k: int, m: int) -> int {
    range_sum(k, |x: int| if in_hand(h, x) { pair_count(h, xor(x, e), m) } else { 0 })
}

/// The raw quad count of the cards of `h` below `n`, as accumulated by
/// inserting them one at a time in increasing order.
pub open spec fn raw_quads(h: u128, n: int) -> int {
    range_sum(n, |e: int| if in_hand(h, e) { insert_gain(h, e, e, e) } else { 0 })
}

/// The highest card of a non-empty hand `h` is `t`.
pub open spec fn top_card(h: u128, t: int) -> bool {
    in_hand(h, t) && below(h, t + 1)
}

// ---------------------------------------------------------------------------
// Sums over a range.
/// Sums of terms that agree on the range are equal.
pub proof fn lemma_sum_ext(k: int, f: spec_fn(int) -> int, g: spec_fn(int) -> int)
    requires
        forall|i: int| 0 <= i < k ==> #[trigger] f(i) == g(i),
    ensures
        range_sum(k, f) == range_sum(k, g),
    decreases k,
{
    if k > 0 {
        lemma_sum_ext(k - 1, f, g);
    }
}

/// A sum of termwise sums splits in two.
pub proof fn lemma_sum_add(
    k: int,
    f: spec_fn(int) -> int,
    g: spec_fn(int) -> int,
    h: spec_fn(int) -> int,
)
    requires
        forall|i: int| 0 <= i < k ==> #[trigger] f(i) == g(i) + h(i),
    ensures
        range_sum(k, f) == range_sum(k, g) + range_sum(k, h),
    decreases k,
{
    if k > 0 {
        lemma_sum_add(k - 1, f, g, h);
    }
}

/// A constant factor of every term comes out of the sum.
pub proof fn lemma_sum_scale(k: int, f: spec_fn(int) -> int, g: spec_fn(int) -> int, c: int)
    requires
        forall|i: int| 0 <= i < k ==> #[trigger] f(i) == c * g(i),
    ensures
        range_sum(k, f) == c * range_sum(k, g),
    decreases k,
{
    if k > 0 {
        lemma_sum_scale(k - 1, f, g, c);
        let a = range_sum(k - 1, g);
        let b = g(k - 1);
        assert(c * a + c * b == c * (a + b)) by (nonlinear_arith);
    }
}

/// Terms at or above `k` that are zero do not change the sum.
pub proof fn lemma_sum_zero_tail(k: int, m: int, f: spec_fn(int) -> int)
    requires
        0 <= k <= m,
        forall|i: int| k <= i < m ==> #[trigger] f(i) == 0,
    ensures
        range_sum(m, f) == range_sum(k, f),
    decreases m - k,
{
    if m > k {
        lemma_sum_zero_tail(k, m - 1, f);
    }
}

/// A sum of terms each at most `c` is at most `k * c`.
pub proof fn lemma_sum_bound(k: int, f: spec_fn(int) -> int, c: int)
    requires
        0 <= k,
        forall|i: int| 0 <= i < k ==> 0 <= #[trigger] f(i) <= c,
    ensures
        0 <= range_sum(k, f) <= k * c,
    decreases k,
{
    if k > 0 {
        lemma_sum_bound(k - 1, f, c);
        assert(0 <= f(k - 1) <= c);
        assert((k - 1) * c + c == k * c) by (nonlinear_arith);
    } else {
        assert(k * c == 0) by (nonlinear_arith)
            requires
                k == 0,
        ;
    }
}

// ---------------------------------------------------------------------------
// Differences of cards.
proof fn lemma_xor_u8(a: u8, b: u8, c: u8, d: u8)
    by (bit_vector)
    requires
        a < 128,
        b < 128,
        c < 128,
        d < 128,
    ensures
        a ^ b == b ^ a,
        a ^ b < 128,
        a ^ a == 0,
        (a ^ b == 0) == (a == b),
        (a ^ b == c ^ d) == (a ^ c == b ^ d),
        (a ^ b == a ^ c) == (b == c),
        (a ^ b == c) == (a == c ^ b),
        (a ^ b) ^ b == a,
{
}

/// Facts on differences of cards below 128.
pub proof fn lemma_xor(a: int, b: int, c: int, d: int)
    requires
        0 <= a < 128,
        0 <= b < 128,
        0 <= c < 128,
        0 <= d < 128,
    ensures
        xor(a, b) == xor(b, a),
        0 <= xor(a, b) < 128,
        xor(a, a) == 0,
        (xor(a, b) == 0) == (a == b),
        (xor(a, b) == xor(c, d)) == (xor(a, c) == xor(b, d)),
        (xor(a, b) == xor(a, c)) == (b == c),
        (xor(a, b) == c) == (a == xor(c, b)),
        xor(xor(a, b), b) == a,
{
    lemma_xor_u8(a as u8, b as u8, c as u8, d as u8);
}

/// Below 128 a card has at most one partner with a given difference.
pub proof fn lemma_match_exact(h: u128, x: int, d: int, m: int)
    requires
        0 <= x < 128,
        0 <= d < 128,
        0 <= m,
    ensures
        match_count(h, x, d, m) == ind(xor(d, x) < m && in_hand(h, xor(d, x))),
    decreases m,
{
    lemma_xor(d, x, 0, 0);
    if m > 0 {
        lemma_match_exact(h, x, d, m - 1);
        if 0 <= m - 1 < 128 {
            lemma_xor(m - 1, x, d, 0);
        }
    }
}

/// A pair count below `m` is at most `m`.
pub proof fn lemma_pair_bound(h: u128, d: int, m: int)
    requires
        0 <= d < 128,
        0 <= m <= 128,
    ensures
        0 <= pair_count(h, d, m) <= m,
{
    let f = |b: int| if in_hand(h, b) { match_count(h, b, d, b) } else { 0 };
    assert forall|b: int| 0 <= b < m implies 0 <= #[trigger] f(b) <= 1 by {
        lemma_match_exact(h, b, d, b);
    }
    lemma_sum_bound(m, f, 1);
}

/// What inserting card `e` adds is at most `128 * 128`.
pub proof fn lemma_gain_bound(h: u128, e: int, k: int, m: int)
    requires
        0 <= e < 128,
        0 <= k <= 128,
        0 <= m <= 128,
    ensures
        0 <= insert_gain(h, e, k, m) <= 128 * k,
{
    let f = |x: int| if in_hand(h, x) { pair_count(h, xor(x, e), m) } else { 0 };
    assert forall|x: int| 0 <= x < k implies 0 <= #[trigger] f(x) <= 128 by {
        if in_hand(h, x) {
            lemma_xor(x, e, 0, 0);
            lemma_pair_bound(h, xor(x, e), m);
        }
    }
    lemma_sum_bound(k, f, 128);
}

/// The raw count of the cards below `n` is at most `n * 128 * 128`.
pub proof fn lemma_raw_bound(h: u128, n: int)
    requires
        0 <= n <= 128,
    ensures
        0 <= raw_quads(h, n) <= n * 16384,
{
    let f = |e: int| if in_hand(h, e) { insert_gain(h, e, e, e) } else { 0 };
    assert forall|e: int| 0 <= e < n implies 0 <= #[trigger] f(e) <= 16384 by {
        lemma_gain_bound(h, e, e, e);
    }
    lemma_sum_bound(n, f, 16384);
}

/// A hand has a non-negative number of quads.
pub proof fn lemma_quads_nonneg(h: u128)
    ensures
        0 <= hand_quads(h),
{
    lemma_raw_bound(h, 128);
    lemma_raw_quads(h, 128);
}

// ---------------------------------------------------------------------------
// Hands that agree below a bound.
/// `h1` and `h2` hold the same cards below `m`.
pub open spec fn agree(h1: u128, h2: u128, m: int) -> bool {
    forall|a: int| 0 <= a < m ==> #[trigger] in_hand(h1, a) == in_hand(h2, a)
}

pub proof fn lemma_agree_match(h1: u128, h2: u128, x: int, d: int, m: int)
    requires
        agree(h1, h2, m),
    ensures
        match_count(h1, x, d, m) == match_count(h2, x, d, m),
{
    let f = |a: int| ind(in_hand(h1, a) && xor(a, x) == d);
    let g = |a: int| ind(in_hand(h2, a) && xor(a, x) == d);
    assert forall|a: int| 0 <= a < m implies #[trigger] f(a) == g(a) by {
        assert(in_hand(h1, a) == in_hand(h2, a));
    }
    lemma_sum_ext(m, f, g);
}

pub proof fn lemma_agree_pair(h1: u128, h2: u128, d: int, m: int)
    requires
        agree(h1, h2, m),
    ensures
        pair_count(h1, d, m) == pair_count(h2, d, m),
{
    let f = |b: int| if in_hand(h1, b) { match_count(h1, b, d, b) } else { 0 };
    let g = |b: int| if in_hand(h2, b) { match_count(h2, b, d, b) } else { 0 };
    assert forall|b: int| 0 <= b < m implies #[trigger] f(b) == g(b) by {
        assert(in_hand(h1, b) == in_hand(h2, b));
        lemma_agree_match(h1, h2, b, d, b);
    }
    lemma_sum_ext(m, f, g);
}

pub proof fn lemma_agree_gain(h1: u128, h2: u128, e: int, m: int)
    requires
        agree(h1, h2, m),
    ensures
        insert_gain(h1, e, m, m) == insert_gain(h2, e, m, m),
{
    let f = |x: int| if in_hand(h1, x) { pair_count(h1, xor(x, e), m) } else { 0 };
    let g = |x: int| if in_hand(h2, x) { pair_count(h2, xor(x, e), m) } else { 0 };
    assert forall|x: int| 0 <= x < m implies #[trigger] f(x) == g(x) by {
        assert(in_hand(h1, x) == in_hand(h2, x));
        lemma_agree_pair(h1, h2, xor(x, e), m);
    }
    lemma_sum_ext(m, f, g);
}

pub proof fn lemma_agree_raw(h1: u128, h2: u128, m: int)
    requires
        agree(h1, h2, m),
    ensures
        raw_quads(h1, m) == raw_quads(h2, m),
{
    let f = |e: int| if in_hand(h1, e) { insert_gain(h1, e, e, e) } else { 0 };
    let g = |e: int| if in_hand(h2, e) { insert_gain(h2, e, e, e) } else { 0 };
    assert forall|e: int| 0 <= e < m implies #[trigger] f(e) == g(e) by {
        assert(in_hand(h1, e) == in_hand(h2, e));
        lemma_agree_gain(h1, h2, e, e);
    }
    lemma_sum_ext(m, f, g);
}

pub proof fn lemma_agree_cards(h1: u128, h2: u128, m: int)
    requires
        agree(h1, h2, m),
    ensures
        card_count(h1, m) == card_count(h2, m),
{
    let f = |a: int| ind(in_hand(h1, a));
    let g = |a: int| ind(in_hand(h2, a));
    assert forall|a: int| 0 <= a < m implies #[trigger] f(a) == g(a) by {
        assert(in_hand(h1, a) == in_hand(h2, a));
    }
    lemma_sum_ext(m, f, g);
}

// ---------------------------------------------------------------------------
// Hands with nothing above a bound.
/// Counts over a hand below `n` do not change past `n`.
pub proof fn lemma_below_pair(h: u128, d: int, n: int, m: int)
    requires
        0 <= n <= m,
        below(h, n),
    ensures
        pair_count(h, d, m) == pair_count(h, d, n),
{
    let f = |b: int| if in_hand(h, b) { match_count(h, b, d, b) } else { 0 };
    assert forall|b: int| n <= b < m implies #[trigger] f(b) == 0 by {
        if in_hand(h, b) {
            assert(b < n);
        }
    }
    lemma_sum_zero_tail(n, m, f);
}

pub proof fn lemma_below_gain(h: u128, e: int, n: int, m: int)
    requires
        0 <= n <= m,
        below(h, n),
    ensures
        insert_gain(h, e, m, m) == insert_gain(h, e, n, n),
{
    let f = |x: int| if in_hand(h, x) { pair_count(h, xor(x, e), m) } else { 0 };
    let g = |x: int| if in_hand(h, x) { pair_count(h, xor(x, e), n) } else { 0 };
    assert forall|x: int| 0 <= x < m implies #[trigger] f(x) == g(x) by {
        lemma_below_pair(h, xor(x, e), n, m);
    }
    lemma_sum_ext(m, f, g);
    assert forall|x: int| n <= x < m implies #[trigger] g(x) == 0 by {
        if in_hand(h, x) {
            assert(x < n);
        }
    }
    lemma_sum_zero_tail(n, m, g);
}

pub proof fn lemma_below_raw(h: u128, n: int, m: int)
    requires
        0 <= n <= m,
        below(h, n),
    ensures
        raw_quads(h, m) == raw_quads(h, n),
{
    let f = |e: int| if in_hand(h, e) { insert_gain(h, e, e, e) } else { 0 };
    assert forall|e: int| n <= e < m implies #[trigger] f(e) == 0 by {
        if in_hand(h, e) {
            assert(e < n);
        }
    }
    lemma_sum_zero_tail(n, m, f);
}

pub proof fn lemma_below_cards(h: u128, n: int, m: int)
    requires
        0 <= n <= m,
        below(h, n),
    ensures
        card_count(h, m) == card_count(h, n),
{
    let f = |a: int| ind(in_hand(h, a));
    assert forall|a: int| n <= a < m implies #[trigger] f(a) == 0 by {
        if in_hand(h, a) {
            assert(a < n);
        }
    }
    lemma_sum_zero_tail(n, m, f);
}

// ---------------------------------------------------------------------------
// Counting quads.
/// Counting ordered pairs: for a difference `d != 0`, summing over each card
/// `x < m` the cards below `m` that differ from it by `d` counts every
/// unordered pair twice.
pub proof fn lemma_ordered_pairs(h: u128, d: int, m: int)
    requires
        0 < d < 128,
        0 <= m <= 128,
    ensures
        range_sum(m, |x: int| if in_hand(h, x) { match_count(h, x, d, m) } else { 0 })
            == 2 * pair_count(h, d, m),
    decreases m,
{
    if m > 0 {
        let k = m - 1;
        lemma_ordered_pairs(h, d, k);
        let f_m = |x: int| if in_hand(h, x) { match_count(h, x, d, m) } else { 0 };
        let f_k = |x: int| if in_hand(h, x) { match_count(h, x, d, k) } else { 0 };
        let extra = |x: int| if in_hand(h, x) { ind(in_hand(h, k) && xor(k, x) == d) } else { 0 };
        assert forall|x: int| 0 <= x < k implies #[trigger] f_m(x) == f_k(x) + extra(x) by {
            assert(match_count(h, x, d, m) == match_count(h, x, d, k) + ind(in_hand(h, k) && xor(k, x) == d));
        }
        lemma_sum_add(k, f_m, f_k, extra);
        if in_hand(h, k) {
            let g = |a: int| ind(in_hand(h, a) && xor(a, k) == d);
            assert forall|x: int| 0 <= x < k implies #[trigger] extra(x) == g(x) by {
                lemma_xor(k, x, 0, 0);
            }
            lemma_sum_ext(k, extra, g);
            lemma_xor(k, k, 0, 0);
        } else {
            lemma_sum_zero_tail(0, k, extra);
        }
        assert(pair_count(h, d, m) == pair_count(h, d, k) + (if in_hand(h, k) { match_count(h, k, d, k) } else { 0 }));
    }
}

/// Inserting a card `e` above every card below `m` adds, counted three
/// times, the triples that `e` completes to a quad.
pub proof fn lemma_gain_triples(h: u128, e: int, m: int)
    requires
        0 <= m <= e < 128,
    ensures
        insert_gain(h, e, m, m) == 3 * triple_count(h, e, m),
    decreases m,
{
    if m > 0 {
        let k = m - 1;
        lemma_gain_triples(h, e, k);
        let dk = xor(k, e);
        lemma_xor(k, e, 0, 0);
        let f_m = |x: int| if in_hand(h, x) { pair_count(h, xor(x, e), m) } else { 0 };
        let f_k = |x: int| if in_hand(h, x) { pair_count(h, xor(x, e), k) } else { 0 };
        let extra = |x: int|
            if in_hand(h, x) {
                if in_hand(h, k) { match_count(h, k, xor(x, e), k) } else { 0 }
            } else {
                0
            };
        assert forall|x: int| 0 <= x < k implies #[trigger] f_m(x) == f_k(x) + extra(x) by {
            assert(pair_count(h, xor(x, e), m) == pair_count(h, xor(x, e), k) + (if in_hand(h, k) {
                match_count(h, k, xor(x, e), k)
            } else {
                0
            }));
        }
        lemma_sum_add(k, f_m, f_k, extra);
        // The new card `k` has no partner below it with difference `k ^ e`.
        let z = |a: int| ind(in_hand(h, a) && xor(a, k) == dk);
        assert forall|a: int| 0 <= a < k implies #[trigger] z(a) == 0 by {
            lemma_xor(k, a, e, 0);
            lemma_xor(a, k, e, 0);
            lemma_xor(k, e, a, 0);
        }
        lemma_sum_zero_tail(0, k, z);
        assert(match_count(h, k, dk, k) == 0);
        assert(pair_count(h, dk, m) == pair_count(h, dk, k) + (if in_hand(h, k) { match_count(h, k, dk, k) } else { 0 }));
        if in_hand(h, k) {
            let g = |x: int| if in_hand(h, x) { match_count(h, x, dk, k) } else { 0 };
            assert forall|x: int| 0 <= x < k implies #[trigger] extra(x) == g(x) by {
                if in_hand(h, x) {
                    let u = |a: int| ind(in_hand(h, a) && xor(a, k) == xor(x, e));
                    let v = |a: int| ind(in_hand(h, a) && xor(a, x) == dk);
                    assert forall|a: int| 0 <= a < k implies #[trigger] u(a) == v(a) by {
                        lemma_xor(a, k, x, e);
                    }
                    lemma_sum_ext(k, u, v);
                }
            }
            lemma_sum_ext(k, extra, g);
            lemma_ordered_pairs(h, dk, k);
        } else {
            lemma_sum_zero_tail(0, k, extra);
        }
    }
}

/// The raw count of the cards below `n` is three times their number of quads.
pub proof fn lemma_raw_quads(h: u128, n: int)
    requires
        0 <= n <= 128,
    ensures
        raw_quads(h, n) == 3 * quad_count(h, n),
{
    let f = |e: int| if in_hand(h, e) { insert_gain(h, e, e, e) } else { 0 };
    let g = |d: int| if in_hand(h, d) { triple_count(h, d, d) } else { 0 };
    assert forall|e: int| 0 <= e < n implies #[trigger] f(e) == 3 * g(e) by {
        lemma_gain_triples(h, e, e);
    }
    lemma_sum_scale(n, f, g, 3);
}

} // verus!
