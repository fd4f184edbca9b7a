use vstd::prelude::*;

use crate::counting::{
    below, card_count, hand_quads, in_hand, insert_gain, pair_count, raw_quads, top_card, xor,
};
use crate::hand::{add_card, first_cards, lowest_hand, with_card};
use crate::policy::{ceiling, dimension_ceiling, highest, highest_card, may_skip};
use crate::tracker::{count_quads, gain_at, insert_card, table_of};

verus! {

/// A hand of `size` cards, all below `deck`.
pub open spec fn valid_hand(h: u128, size: int, deck: int) -> bool {
    below(h, deck) && card_count(h, 128) == size
}

/// Every pair that card `next` forms with the cards of `h` has a difference
/// that fewer than `max_dc` pairs of `h` share already.
pub open spec fn fits(h: u128, next: int, max_dc: int) -> bool {
    forall|x: int|
        0 <= x < next && #[trigger] in_hand(h, x) ==> pair_count(h, xor(x, next), next) < max_dc
}

/// Adding card `next` to `h` keeps the raw count within three times the
/// target, when there is one.
pub open spec fn within_target(h: u128, next: int, target: Option<u64>) -> bool {
    match target {
        None => true,
        Some(t) => raw_quads(add_card(h, next), next + 1) <= 3 * t,
    }
}

/// The search from the frame (`h`, `next`, `to_add`) over a deck of `deck`
/// cards, with the difference window `min_dc`, `max_dc`, reaches the full
/// hand `f`.
pub open spec fn reaches(
    h: u128,
    next: int,
    to_add: int,
    deck: int,
    min_dc: int,
    max_dc: int,
    target: Option<u64>,
    f: u128,
) -> bool
    decreases deck - next,
{
    if next + to_add > deck || to_add <= 0 || next > ceiling(highest(h, next)) {
        false
    } else if to_add > 1 {
        (fits(h, next, max_dc) && within_target(h, next, target) && reaches(
            add_card(h, next),
            next + 1,
            to_add - 1,
            deck,
            min_dc,
            max_dc,
            target,
            f,
        )) || (next >= 2 * min_dc && reaches(h, next + 1, to_add, deck, min_dc, max_dc, target, f))
    } else {
        exists|j: int|
            next <= j < deck && j <= ceiling(highest(h, next)) && f == #[trigger] add_card(h, j)
    }
}

/// The last cards tried for the hand `h` below `next`: from `next` up to
/// the deck size and the dimension ceiling.
pub open spec fn last_end(h: u128, next: int, deck: int) -> int {
    if deck < ceiling(highest(h, next)) + 1 {
        deck
    } else {
        ceiling(highest(h, next)) + 1
    }
}

/// The full hands that the search from a frame reaches, in the order in
/// which it meets them: those of the include branch before those of the
/// skip branch, and last cards in increasing order.
pub open spec fn reached_in_order(
    h: u128,
    next: int,
    to_add: int,
    deck: int,
    min_dc: int,
    max_dc: int,
    target: Option<u64>,
) -> Seq<u128>
    decreases deck - next,
{
    if next + to_add > deck || to_add <= 0 || next > ceiling(highest(h, next)) {
        Seq::empty()
    } else if to_add > 1 {
        (if fits(h, next, max_dc) && within_target(h, next, target) {
            reached_in_order(add_card(h, next), next + 1, to_add - 1, deck, min_dc, max_dc, target)
        } else {
            Seq::empty()
        }) + (if next >= 2 * min_dc {
            reached_in_order(h, next + 1, to_add, deck, min_dc, max_dc, target)
        } else {
            Seq::empty()
        })
    } else {
        Seq::new((last_end(h, next, deck) - next) as nat, |i: int| add_card(h, next + i))
    }
}

/// The accumulator after meeting the hand `f`: when maximizing, `f` replaces
/// it if it has strictly more quads; when aiming at target `t`, if it has
/// `t` quads and a strictly lower highest card.
pub open spec fn update(target: Option<u64>, acc: (u128, int), f: u128) -> (u128, int) {
    match target {
        None => if hand_quads(f) > acc.1 {
            (f, hand_quads(f))
        } else {
            acc
        },
        Some(t) => if hand_quads(f) == t && highest(f, 128) < acc.1 {
            (f, highest(f, 128))
        } else {
            acc
        },
    }
}

/// The accumulator after meeting the hands of `hands` in order.
pub open spec fn run(target: Option<u64>, acc: (u128, int), hands: Seq<u128>) -> (u128, int)
    decreases hands.len(),
{
    if hands.len() == 0 {
        acc
    } else {
        run(target, update(target, acc, hands[0]), hands.drop_first())
    }
}

/// Meeting `a` then `b` is meeting `a + b`.
pub proof fn lemma_run_concat(target: Option<u64>, acc: (u128, int), a: Seq<u128>, b: Seq<u128>)
    ensures
        run(target, acc, a + b) == run(target, run(target, acc, a), b),
    decreases a.len(),
{
    if a.len() == 0 {
        assert(a + b =~= b);
    } else {
        assert((a + b).drop_first() =~= a.drop_first() + b);
        assert((a + b)[0] == a[0]);
        lemma_run_concat(target, update(target, acc, a[0]), a.drop_first(), b);
    }
}

/// Meeting one more hand at the end is one more update.
pub proof fn lemma_run_push(target: Option<u64>, acc: (u128, int), a: Seq<u128>, f: u128)
    ensures
        run(target, acc, a.push(f)) == update(target, run(target, acc, a), f),
{
    assert(a.push(f) =~= a + seq![f]);
    lemma_run_concat(target, acc, a, seq![f]);
    let mid = run(target, acc, a);
    let one = seq![f];
    assert(one.drop_first() =~= Seq::<u128>::empty());
    assert(one.len() == 1 && one[0] == f);
    assert(run(target, mid, one) == run(target, update(target, mid, f), one.drop_first()));
    assert(run(target, update(target, mid, f), Seq::<u128>::empty()) == update(target, mid, f));
}

/// The accumulator (`best_hand`, `best_score`) is consistent: when
/// maximizing, the score is the hand's number of quads; when aiming at a
/// target, a score below the deck size is the highest card of a hand with
/// exactly the target number of quads, and the deck size means none yet.
pub open spec fn best_ok(
    best_hand: u128,
    best_score: u64,
    target: Option<u64>,
    size: int,
    deck: int,
) -> bool {
    valid_hand(best_hand, size, deck) && match target {
        None => best_score == hand_quads(best_hand),
        Some(t) => best_score <= deck && (best_score < deck ==> hand_quads(best_hand) == t
            && top_card(best_hand, best_score as int)),
    }
}

/// How a search from a frame moves the accumulator from (`h0`, `s0`) to
/// (`h1`, `s1`). When maximizing, the score never decreases and ends at least
/// the quad count of every hand the search reaches. When aiming at target
/// `t`, the score never increases and ends at most the highest card of every
/// reached hand with `t` quads. Either the accumulator is unchanged or it
/// holds a reached hand with a strictly better score.
pub open spec fn outcome(
    h: u128,
    next: int,
    to_add: int,
    deck: int,
    min_dc: int,
    max_dc: int,
    target: Option<u64>,
    h0: u128,
    s0: u64,
    h1: u128,
    s1: u64,
) -> bool {
    match target {
        None => s0 <= s1 && (forall|f: u128|
            #[trigger] reaches(h, next, to_add, deck, min_dc, max_dc, target, f) ==> hand_quads(f)
                <= s1) && ((s1 == s0 && h1 == h0) || (reaches(
            h,
            next,
            to_add,
            deck,
            min_dc,
            max_dc,
            target,
            h1,
        ) && s1 == hand_quads(h1) && s0 < s1)),
        Some(t) => s1 <= s0 && (forall|f: u128, j: int|
            #![trigger reaches(h, next, to_add, deck, min_dc, max_dc, target, f), top_card(f, j)]
            reaches(h, next, to_add, deck, min_dc, max_dc, target, f) && top_card(f, j) && hand_quads(
                f,
            ) == t ==> s1 <= j) && ((s1 == s0 && h1 == h0) || (reaches(
            h,
            next,
            to_add,
            deck,
            min_dc,
            max_dc,
            target,
            h1,
        ) && hand_quads(h1) == t && top_card(h1, s1 as int) && s1 < s0)),
    }
}

/// Adding a card `j` at or above `n` to a hand below `n` gives a hand with
/// top card `j`, one card more, and raw count that of the hand plus the gain.
pub proof fn lemma_complete(h: u128, n: int, j: int)
    requires
        0 <= n <= j < 128,
        below(h, n),
    ensures
        top_card(add_card(h, j), j),
        card_count(add_card(h, j), 128) == card_count(h, n) + 1,
        raw_quads(add_card(h, j), 128) == raw_quads(h, n) + insert_gain(h, j, j, j),
        3 * hand_quads(add_card(h, j)) == raw_quads(h, n) + insert_gain(h, j, j, j),
{
    let f = add_card(h, j);
    crate::hand::lemma_add_top(h, j);
    crate::tracker::lemma_insert_raw(h, j);
    crate::counting::lemma_below_raw(h, n, j);
    crate::counting::lemma_below_raw(f, j + 1, 128);
    crate::counting::lemma_below_cards(f, j + 1, 128);
    crate::counting::lemma_below_cards(h, n, j);
    crate::counting::lemma_raw_quads(f, 128);
}

/// The raw count that the last-card step of a search reads, for a hand
/// below `n` completed by a card `j`, is divisible by 3: it counts every
/// quad of the completed hand three times.
pub proof fn lemma_last_card_divisible(h: u128, n: int, j: int)
    requires
        0 <= n <= j < 128,
        below(h, n),
    ensures
        (raw_quads(h, n) + insert_gain(h, j, j, j)) % 3 == 0,
        (raw_quads(h, n) + insert_gain(h, j, j, j)) / 3 == hand_quads(add_card(h, j)),
{
    lemma_complete(h, n, j);
}

/// Searches for a hand with the best quad count from one frame.
///
/// `hand` is the partial hand below `next_index`, `differences` its
/// difference table, and `quads` its raw quad count (three times its number
/// of quads). The search adds `cards_to_add` more cards from
/// `next_index` up to `max_index` (the deck size), trying to include each
/// card before skipping it. Skipping a card is only tried from index
/// `2 * min_diff_count` on; including one is only tried while no difference
/// gets shared by more than `max_diff_count` pairs. When `target_quads` is
/// `None` the accumulator keeps the hand with the most quads; otherwise it
/// keeps the hand with exactly the target number of quads whose highest card
/// is lowest. The search does not stop at the first hand with the target
/// count: a later one may have a lower highest card.
pub fn search_inner(
    hand: u128,
    differences: [u8; 128],
    min_diff_count: usize,
    max_diff_count: usize,
    next_index: usize,
    max_index: usize,
    cards_in_hand: usize,
    cards_to_add: usize,
    quads: u64,
    target_quads: Option<u64>,
    best_score: &mut u64,
    best_hand: &mut u128,
)
    requires
        max_index <= 128,
        next_index <= max_index,
        below(hand, next_index as int),
        card_count(hand, next_index as int) + cards_to_add == cards_in_hand,
        table_of(hand, differences@, next_index as int),
        quads == raw_quads(hand, next_index as int),
        best_ok(*old(best_hand), *old(best_score), target_quads, cards_in_hand as int, max_index as int),
    ensures
        best_ok(*final(best_hand), *final(best_score), target_quads, cards_in_hand as int, max_index as int),
        outcome(
            hand,
            next_index as int,
            cards_to_add as int,
            max_index as int,
            min_diff_count as int,
            max_diff_count as int,
            target_quads,
            *old(best_hand),
            *old(best_score),
            *final(best_hand),
            *final(best_score),
        ),
        (*final(best_hand), *final(best_score) as int) == run(
            target_quads,
            (*old(best_hand), *old(best_score) as int),
            reached_in_order(
                hand,
                next_index as int,
                cards_to_add as int,
                max_index as int,
                min_diff_count as int,
                max_diff_count as int,
                target_quads,
            ),
        ),
    decreases max_index - next_index,
{
    let ghost h0 = *best_hand;
    let ghost s0 = *best_score;
    let ghost acc0 = (h0, s0 as int);
    // Nothing useful to do.
    if cards_to_add > max_index - next_index || cards_to_add == 0 {
        return;
    }
    let top = highest_card(hand, next_index);
    let max_useful_card = dimension_ceiling(top);
    if next_index > max_useful_card {
        return;
    }
    proof {
        crate::counting::lemma_raw_bound(hand, next_index as int);
    }
    if cards_to_add > 1 {
        let (differences2, gain, good) = insert_card(hand, &differences, next_index, max_diff_count);
        let ghost n = next_index as int;
        let ghost inc = add_card(hand, n);
        let mut allowed = good;
        if good {
            proof {
                crate::counting::lemma_gain_bound(hand, n, n, n);
                crate::tracker::lemma_insert_raw(hand, n);
                crate::hand::lemma_add_top(hand, n);
            }
            let quads2 = quads + gain;
            allowed = match target_quads {
                None => true,
                Some(t) => t >= quads2 || quads2 <= t * 3,
            };
            if allowed {
                search_inner(
                    with_card(hand, next_index),
                    differences2,
                    min_diff_count,
                    max_diff_count,
                    next_index + 1,
                    max_index,
                    cards_in_hand,
                    cards_to_add - 1,
                    quads2,
                    target_quads,
                    best_score,
                    best_hand,
                );
            }
        }
        let ghost h1 = *best_hand;
        let ghost s1 = *best_score;
        if may_skip(next_index, min_diff_count) {
            proof {
                crate::tracker::lemma_skip(hand, differences@, n);
            }
            search_inner(
                hand,
                differences,
                min_diff_count,
                max_diff_count,
                next_index + 1,
                max_index,
                cards_in_hand,
                cards_to_add,
                quads,
                target_quads,
                best_score,
                best_hand,
            );
        }
        proof {
            let deck = max_index as int;
            let lo = min_diff_count as int;
            let hi = max_diff_count as int;
            let k = cards_to_add as int;
            assert(allowed == (fits(hand, n, hi) && within_target(hand, n, target_quads)));
            assert forall|f: u128|
                #[trigger] reaches(hand, n, k, deck, lo, hi, target_quads, f) == ((allowed && reaches(
                    inc,
                    n + 1,
                    k - 1,
                    deck,
                    lo,
                    hi,
                    target_quads,
                    f,
                )) || (n >= 2 * lo && reaches(hand, n + 1, k, deck, lo, hi, target_quads, f))) by {}
            let a_seq = if allowed {
                reached_in_order(inc, n + 1, k - 1, deck, lo, hi, target_quads)
            } else {
                Seq::<u128>::empty()
            };
            let b_seq = if n >= 2 * lo {
                reached_in_order(hand, n + 1, k, deck, lo, hi, target_quads)
            } else {
                Seq::<u128>::empty()
            };
            assert(reached_in_order(hand, n, k, deck, lo, hi, target_quads) == a_seq + b_seq);
            assert((h1, s1 as int) == run(target_quads, acc0, a_seq));
            lemma_run_concat(target_quads, acc0, a_seq, b_seq);
        }
    } else {
        // One card left to add, so try all possibilities.
        let end = if max_index < max_useful_card + 1 {
            max_index
        } else {
            max_useful_card + 1
        };
        let ghost order = Seq::new((end - next_index) as nat, |i: int| add_card(hand, next_index + i));
        let mut j: usize = next_index;
        while j < end
            invariant
                next_index <= j <= end,
                acc0 == (h0, s0 as int),
                order == Seq::new((end - next_index) as nat, |i: int| add_card(hand, next_index + i)),
                (*best_hand, *best_score as int) == run(target_quads, acc0, order.take(j - next_index)),
                end <= max_index <= 128,
                end <= max_useful_card + 1,
                max_useful_card == ceiling(highest(hand, next_index as int)),
                cards_to_add == 1,
                below(hand, next_index as int),
                card_count(hand, next_index as int) + 1 == cards_in_hand,
                table_of(hand, differences@, next_index as int),
                quads == raw_quads(hand, next_index as int),
                quads <= next_index * 16384,
                best_ok(*best_hand, *best_score, target_quads, cards_in_hand as int, max_index as int),
                match target_quads {
                    None => s0 <= *best_score && (forall|j2: int|
                        next_index <= j2 < j ==> hand_quads(#[trigger] add_card(hand, j2)) <= *best_score)
                        && ((*best_score == s0 && *best_hand == h0) || (s0 < *best_score && exists|j2: int|
                        next_index <= j2 < j && *best_hand == #[trigger] add_card(hand, j2))),
                    Some(t) => *best_score <= s0 && (forall|j2: int|
                        next_index <= j2 < j && hand_quads(#[trigger] add_card(hand, j2)) == t ==> *best_score
                            <= j2) && ((*best_score == s0 && *best_hand == h0) || (*best_score < s0
                        && exists|j2: int|
                        next_index <= j2 < j && *best_hand == #[trigger] add_card(hand, j2))),
                },
            decreases end - j,
        {
            let gain = gain_at(hand, &differences, next_index, j);
            let quads2 = quads + gain;
            proof {
                lemma_complete(hand, next_index as int, j as int);
            }
            // Quads are triple-counted, so divide by 3.
            let real_quads = quads2 / 3;
            let ghost acc_pre = (*best_hand, *best_score as int);
            match target_quads {
                Some(target) => {
                    let j2 = j as u64;
                    if real_quads == target && j2 < *best_score {
                        *best_score = j2;
                        *best_hand = with_card(hand, j);
                    }
                },
                None => {
                    if real_quads > *best_score {
                        *best_score = real_quads;
                        *best_hand = with_card(hand, j);
                    }
                },
            }
            proof {
                let f = add_card(hand, j as int);
                crate::policy::lemma_highest_top(f, j as int, 128);
                assert(order[j - next_index] == f);
                assert(order.take(j + 1 - next_index) =~= order.take(j - next_index).push(f));
                lemma_run_push(target_quads, acc0, order.take(j - next_index), f);
                assert((*best_hand, *best_score as int) == update(target_quads, acc_pre, f));
            }
            j = j + 1;
        }
        proof {
            assert(order.take(end - next_index) =~= order);
            assert(reached_in_order(
                hand,
                next_index as int,
                1,
                max_index as int,
                min_diff_count as int,
                max_diff_count as int,
                target_quads,
            ) == order);
            let n = next_index as int;
            let c = max_useful_card as int;
            match target_quads {
                None => {
                    assert forall|f: u128|
                        #[trigger] reaches(
                            hand,
                            n,
                            1,
                            max_index as int,
                            min_diff_count as int,
                            max_diff_count as int,
                            target_quads,
                            f,
                        ) implies hand_quads(f) <= *best_score by {
                        let j2 = choose|j2: int|
                            n <= j2 < max_index && j2 <= c && f == #[trigger] add_card(hand, j2);
                        assert(hand_quads(add_card(hand, j2)) <= *best_score);
                    }
                },
                Some(t) => {
                    assert forall|f: u128, jj: int|
                        #[trigger] reaches(
                            hand,
                            n,
                            1,
                            max_index as int,
                            min_diff_count as int,
                            max_diff_count as int,
                            target_quads,
                            f,
                        ) && #[trigger] top_card(f, jj) && hand_quads(f) == t implies *best_score
                        <= jj by {
                        let j2 = choose|j2: int|
                            n <= j2 < max_index && j2 <= c && f == #[trigger] add_card(hand, j2);
                        lemma_complete(hand, n, j2);
                        assert(*best_score <= j2);
                    }
                },
            }
            if !(*best_score == s0 && *best_hand == h0) {
                let j2 = choose|j2: int| next_index <= j2 < j && *best_hand == #[trigger] add_card(hand, j2);
                assert(reaches(
                    hand,
                    n,
                    1,
                    max_index as int,
                    min_diff_count as int,
                    max_diff_count as int,
                    target_quads,
                    *best_hand,
                ));
            }
        }
    }
}

/// The target is small enough for the window of differences shared by two
/// pairs: at most `size * (size + 1) / 12`.
pub open spec fn small_target(size: int, target: Option<u64>) -> bool {
    match target {
        Some(t) => t <= size * (size + 1) / 12,
        None => false,
    }
}

/// The search for hands of `size` cards in a deck of `deck` reaches `f`
/// under one of its difference windows: `[1, 1]` for target 0, `[2, 2]` for
/// a small target, and always `[3, deck / 2]`.
pub open spec fn searched(deck: int, size: int, target: Option<u64>, f: u128) -> bool {
    (target == Some(0u64) && reaches(0u128, 0, size, deck, 1, 1, target, f)) || (small_target(
        size,
        target,
    ) && reaches(0u128, 0, size, deck, 2, 2, target, f)) || reaches(
        0u128,
        0,
        size,
        deck,
        3,
        deck / 2,
        target,
        f,
    )
}

/// `h` holds exactly the cards `0, 1, ..., size - 1`.
pub open spec fn lowest_cards(h: u128, size: int) -> bool {
    forall|a: int| #[trigger] in_hand(h, a) == (0 <= a < size)
}

/// What `search` returns: a hand of `size` cards of the deck and its score.
/// When maximizing, the score is the hand's number of quads and no searched
/// hand has more; the hand is the `size` lowest cards, or a searched hand
/// with strictly more quads than those. When
/// aiming at target `t`, a score below the deck size is the highest card of
/// a searched hand with exactly `t` quads, and no searched hand with `t`
/// quads has a lower highest card; the deck size means that no searched
/// hand has `t` quads, and then the hand is the `size` lowest cards.
pub open spec fn search_result(deck: int, size: int, target: Option<u64>, h: u128, s: u64) -> bool {
    valid_hand(h, size, deck) && match target {
        None => s == hand_quads(h) && (forall|f: u128|
            #[trigger] searched(deck, size, target, f) ==> hand_quads(f) <= s) && ((searched(
            deck,
            size,
            target,
            h,
        ) && forall|g: u128| #[trigger] lowest_cards(g, size) ==> hand_quads(g) < s) || lowest_cards(
            h,
            size,
        )),
        Some(t) => s <= deck && (s < deck ==> searched(deck, size, target, h) && hand_quads(h) == t
            && top_card(h, s as int)) && (s == deck ==> lowest_cards(h, size)) && (forall|f: u128, j: int|
            #![trigger searched(deck, size, target, f), top_card(f, j)]
            searched(deck, size, target, f) && top_card(f, j) && hand_quads(f) == t ==> s <= j),
    }
}

/// The hands that `search` meets, in order: under the window `[1, 1]` for
/// target 0, then `[2, 2]` for a small target, then `[3, deck / 2]`.
pub open spec fn search_order(deck: int, size: int, target: Option<u64>) -> Seq<u128> {
    (if target == Some(0u64) {
        reached_in_order(0u128, 0, size, deck, 1, 1, target)
    } else {
        Seq::empty()
    }) + (if small_target(size, target) {
        reached_in_order(0u128, 0, size, deck, 2, 2, target)
    } else {
        Seq::empty()
    }) + reached_in_order(0u128, 0, size, deck, 3, deck / 2, target)
}

/// The accumulator that `search` starts from: the `size` lowest cards, with
/// their quad count when maximizing, or the deck size ("none found").
pub open spec fn initial_best(deck: int, size: int, target: Option<u64>) -> (u128, int) {
    match target {
        None => (lowest_hand(size), hand_quads(lowest_hand(size))),
        Some(_) => (lowest_hand(size), deck),
    }
}

/// Searches a deck of `cards_in_deck` cards for a hand of `cards_in_hand`
/// cards: with the most quads when `target_quads` is `None`, else with
/// exactly the target number of quads and the lowest highest card. Returns
/// the hand and its score: its quad count, or its highest card (the deck
/// size when no hand was found).
pub fn search(cards_in_deck: usize, cards_in_hand: usize, target_quads: Option<u64>) -> (r: (u128, u64))
    requires
        cards_in_deck <= 128,
        cards_in_hand <= cards_in_deck,
    ensures
        search_result(cards_in_deck as int, cards_in_hand as int, target_quads, r.0, r.1),
        (r.0, r.1 as int) == run(
            target_quads,
            initial_best(cards_in_deck as int, cards_in_hand as int, target_quads),
            search_order(cards_in_deck as int, cards_in_hand as int, target_quads),
        ),
{
    let ghost deck = cards_in_deck as int;
    let ghost size = cards_in_hand as int;
    let mut best_hand = first_cards(cards_in_hand);
    let mut best_score = match target_quads {
        None => count_quads(best_hand),
        Some(_) => cards_in_deck as u64,
    };
    let ghost first = best_hand;
    let empty: [u8; 128] = [0u8; 128];
    proof {
        crate::hand::lemma_empty_hand();
        crate::hand::lemma_first_cards_count(first, size, size);
        crate::counting::lemma_below_cards(first, size, 128);
        assert(card_count(0u128, 0) == 0);
        assert forall|d: int| 0 <= d < 128 implies #[trigger] empty@[d] as int == pair_count(0u128, d, 0) by {}
        assert(below(0u128, 0));
    }
    let ghost h0 = best_hand;
    let ghost s0 = best_score;
    if let Some(target) = target_quads {
        if target == 0 {
            search_inner(
                0,
                empty,
                1,
                1,
                0,
                cards_in_deck,
                cards_in_hand,
                cards_in_hand,
                0,
                target_quads,
                &mut best_score,
                &mut best_hand,
            );
        }
    }
    let ghost h1 = best_hand;
    let ghost s1 = best_score;
    assert(cards_in_hand * (cards_in_hand + 1) <= 128 * 129) by (nonlinear_arith)
        requires
            cards_in_hand <= 128,
    ;
    if let Some(target) = target_quads {
        if target <= (cards_in_hand * (cards_in_hand + 1) / 12) as u64 {
            search_inner(
                0,
                empty,
                2,
                2,
                0,
                cards_in_deck,
                cards_in_hand,
                cards_in_hand,
                0,
                target_quads,
                &mut best_score,
                &mut best_hand,
            );
        }
    }
    let ghost h2 = best_hand;
    let ghost s2 = best_score;
    search_inner(
        0,
        empty,
        3,
        cards_in_deck / 2,
        0,
        cards_in_deck,
        cards_in_hand,
        cards_in_hand,
        0,
        target_quads,
        &mut best_score,
        &mut best_hand,
    );
    proof {
        let z = target_quads == Some(0u64);
        let sm = small_target(size, target_quads);
        assert(z ==> outcome(0u128, 0, size, deck, 1, 1, target_quads, h0, s0, h1, s1));
        assert(!z ==> h1 == h0 && s1 == s0);
        assert(sm ==> outcome(0u128, 0, size, deck, 2, 2, target_quads, h1, s1, h2, s2));
        assert(!sm ==> h2 == h1 && s2 == s1);
        let a_seq = if z {
            reached_in_order(0u128, 0, size, deck, 1, 1, target_quads)
        } else {
            Seq::<u128>::empty()
        };
        let b_seq = if sm {
            reached_in_order(0u128, 0, size, deck, 2, 2, target_quads)
        } else {
            Seq::<u128>::empty()
        };
        let c_seq = reached_in_order(0u128, 0, size, deck, 3, deck / 2, target_quads);
        let acc0 = initial_best(deck, size, target_quads);
        assert(acc0 == (h0, s0 as int));
        assert((h1, s1 as int) == run(target_quads, acc0, a_seq));
        assert((h2, s2 as int) == run(target_quads, (h1, s1 as int), b_seq));
        lemma_run_concat(target_quads, acc0, a_seq, b_seq);
        lemma_run_concat(target_quads, acc0, a_seq + b_seq, c_seq);
        assert(search_order(deck, size, target_quads) == a_seq + b_seq + c_seq);
        assert(lowest_cards(first, size));
        assert forall|g: u128| #[trigger] lowest_cards(g, size) implies hand_quads(g) == hand_quads(first) by {
            crate::counting::lemma_agree_raw(g, first, 128);
            crate::counting::lemma_raw_quads(g, 128);
            crate::counting::lemma_raw_quads(first, 128);
        }
    }
    (best_hand, best_score)
}

/// Every hand that a search from a frame below `next` reaches holds the
/// frame's cards plus `to_add` more, all below the deck size.
pub proof fn lemma_reaches_valid(
    h: u128,
    next: int,
    to_add: int,
    deck: int,
    min_dc: int,
    max_dc: int,
    target: Option<u64>,
    f: u128,
)
    requires
        0 <= next,
        deck <= 128,
        below(h, next),
        reaches(h, next, to_add, deck, min_dc, max_dc, target, f),
    ensures
        valid_hand(f, card_count(h, next) + to_add, deck),
    decreases deck - next,
{
    if to_add > 1 {
        let inc = add_card(h, next);
        if fits(h, next, max_dc) && within_target(h, next, target) && reaches(
            inc,
            next + 1,
            to_add - 1,
            deck,
            min_dc,
            max_dc,
            target,
            f,
        ) {
            crate::hand::lemma_add_top(h, next);
            lemma_reaches_valid(inc, next + 1, to_add - 1, deck, min_dc, max_dc, target, f);
        } else {
            crate::counting::lemma_below_cards(h, next, next + 1);
            lemma_reaches_valid(h, next + 1, to_add, deck, min_dc, max_dc, target, f);
        }
    } else {
        let j = choose|j: int|
            next <= j < deck && j <= ceiling(highest(h, next)) && f == #[trigger] add_card(h, j);
        lemma_complete(h, next, j);
    }
}

/// Entry `q` of the table `v`, or `absent` past its end.
pub open spec fn entry(v: Seq<u64>, q: int, absent: int) -> int {
    if 0 <= q < v.len() {
        v[q] as int
    } else {
        absent
    }
}

/// How a sweep from a frame moves the table of lowest highest cards from
/// `v0` to `v1`: the table only grows, its entries never increase (an entry
/// past the end counts as the deck size), every reached hand with `q` quads
/// and highest card `j` leaves entry `q` at most `j`, and every entry that
/// went down is the highest card of a reached hand with that many quads. A
/// table that grew ends with an entry below the deck size: it grows only up
/// to a count that was met.
pub open spec fn sweep_outcome(
    h: u128,
    next: int,
    to_add: int,
    deck: int,
    min_dc: int,
    max_dc: int,
    v0: Seq<u64>,
    v1: Seq<u64>,
) -> bool {
    &&& v0.len() <= v1.len()
    &&& v0.len() < v1.len() ==> v1[v1.len() - 1] < deck
    &&& forall|q: int| 0 <= q < v1.len() ==> #[trigger] v1[q] as int <= entry(v0, q, deck)
    &&& forall|f: u128, j: int|
        #![trigger reaches(h, next, to_add, deck, min_dc, max_dc, None, f), top_card(f, j)]
        reaches(h, next, to_add, deck, min_dc, max_dc, None, f) && top_card(f, j) ==> hand_quads(f)
            < v1.len() && v1[hand_quads(f)] <= j
    &&& forall|q: int|
        0 <= q < v1.len() && #[trigger] v1[q] < entry(v0, q, deck) ==> exists|f: u128|
            #[trigger] reaches(h, next, to_add, deck, min_dc, max_dc, None, f) && hand_quads(f) == q
                && top_card(f, v1[q] as int)
}

/// Lowers entry `q` of `v` to `value` if that is lower, first extending
/// `v` with `fill` until entry `q` exists.
pub fn record_min(v: &mut Vec<u64>, q: usize, value: u64, fill: u64)
    requires
        q < usize::MAX,
    ensures
        final(v)@.len() == if old(v)@.len() > q {
            old(v)@.len() as int
        } else {
            q + 1
        },
        forall|p: int|
            0 <= p < final(v)@.len() && p != q ==> #[trigger] final(v)@[p] == entry(old(v)@, p, fill as int),
        final(v)@[q as int] as int == if value < entry(old(v)@, q as int, fill as int) {
            value as int
        } else {
            entry(old(v)@, q as int, fill as int)
        },
{
    let ghost pre = v@;
    while v.len() <= q
        invariant
            q < usize::MAX,
            pre.len() <= v@.len(),
            v@.len() > pre.len() ==> v@.len() <= q + 1,
            forall|p: int| 0 <= p < pre.len() ==> #[trigger] v@[p] == pre[p],
            forall|p: int| pre.len() <= p < v@.len() ==> #[trigger] v@[p] == fill,
        decreases q + 1 - v@.len(),
    {
        v.push(fill);
    }
    if v[q] > value {
        v[q] = value;
    }
}

/// Tries each last card `j` in `[next_index, end)` for the hand below
/// `next_index`, lowering entry `q` of `best_scores` to `j` where the
/// completed hand has `q` quads.
pub fn sweep_last_card(
    hand: u128,
    differences: &[u8; 128],
    next_index: usize,
    end: usize,
    max_index: usize,
    quads: u64,
    best_scores: &mut Vec<u64>,
)
    requires
        next_index <= end <= max_index <= 128,
        below(hand, next_index as int),
        table_of(hand, differences@, next_index as int),
        quads == raw_quads(hand, next_index as int),
    ensures
        old(best_scores)@.len() <= final(best_scores)@.len(),
        old(best_scores)@.len() < final(best_scores)@.len() ==> final(best_scores)@.last() < max_index,
        forall|q: int|
            0 <= q < final(best_scores)@.len() ==> #[trigger] final(best_scores)@[q] as int <= entry(
                old(best_scores)@,
                q,
                max_index as int,
            ),
        forall|j2: int|
            next_index <= j2 < end ==> hand_quads(#[trigger] add_card(hand, j2)) < final(best_scores)@.len()
                && final(best_scores)@[hand_quads(add_card(hand, j2))] <= j2,
        forall|q: int|
            0 <= q < final(best_scores)@.len() && #[trigger] final(best_scores)@[q] < entry(
                old(best_scores)@,
                q,
                max_index as int,
            ) ==> exists|j2: int|
                next_index <= j2 < end && final(best_scores)@[q] == j2 && hand_quads(
                    #[trigger] add_card(hand, j2),
                ) == q,
{
    let ghost v0 = best_scores@;
    let ghost deck = max_index as int;
    proof {
        crate::counting::lemma_raw_bound(hand, next_index as int);
    }
    let mut j: usize = next_index;
    while j < end
        invariant
            next_index <= j <= end <= max_index <= 128,
            below(hand, next_index as int),
            table_of(hand, differences@, next_index as int),
            quads == raw_quads(hand, next_index as int),
            quads <= next_index * 16384,
            deck == max_index,
            v0.len() <= best_scores@.len(),
            v0.len() < best_scores@.len() ==> best_scores@[best_scores@.len() - 1] < deck,
            forall|q: int|
                0 <= q < best_scores@.len() ==> #[trigger] best_scores@[q] as int <= entry(v0, q, deck),
            forall|j2: int|
                next_index <= j2 < j ==> hand_quads(#[trigger] add_card(hand, j2)) < best_scores@.len()
                    && best_scores@[hand_quads(add_card(hand, j2))] <= j2,
            forall|q: int|
                0 <= q < best_scores@.len() && #[trigger] best_scores@[q] < entry(v0, q, deck) ==> exists|
                    j2: int,
                |
                    next_index <= j2 < j && best_scores@[q] == j2 && hand_quads(#[trigger] add_card(hand, j2))
                        == q,
        decreases end - j,
    {
        let gain = gain_at(hand, differences, next_index, j);
        let quads2 = quads + gain;
        proof {
            lemma_complete(hand, next_index as int, j as int);
        }
        // Quads are triple-counted, so divide by 3.
        let real_quads = (quads2 / 3) as usize;
        let ghost pre = best_scores@;
        record_min(best_scores, real_quads, j as u64, max_index as u64);
        proof {
            let cur = best_scores@;
            let r = real_quads as int;
            if v0.len() < cur.len() {
                if pre.len() < cur.len() {
                    assert(cur.len() - 1 == r);
                } else if cur.len() - 1 != r {
                    assert(cur[cur.len() - 1] as int == entry(pre, cur.len() - 1, deck));
                }
            }
            assert(hand_quads(add_card(hand, j as int)) == r);
            assert forall|q: int| 0 <= q < cur.len() implies #[trigger] cur[q] as int <= entry(v0, q, deck) by {
                if q < pre.len() {
                    assert(pre[q] as int <= entry(v0, q, deck));
                }
            }
            assert forall|j2: int|
                next_index <= j2 < j + 1 implies hand_quads(#[trigger] add_card(hand, j2)) < cur.len()
                    && cur[hand_quads(add_card(hand, j2))] <= j2 by {
                let q = hand_quads(add_card(hand, j2));
                crate::counting::lemma_quads_nonneg(add_card(hand, j2));
                if j2 < j {
                    assert(q < pre.len() && pre[q] <= j2);
                    if q == r {
                        assert(cur[q] <= pre[q]);
                    } else {
                        assert(cur[q] as int == entry(pre, q, deck));
                    }
                } else {
                    assert(j2 == j);
                    assert(q == r);
                }
            }
            assert forall|q: int|
                0 <= q < cur.len() && #[trigger] cur[q] < entry(v0, q, deck) implies exists|j2: int|
                next_index <= j2 < j + 1 && cur[q] == j2 && hand_quads(#[trigger] add_card(hand, j2)) == q by {
                if q == r && cur[q] == j {
                    assert(hand_quads(add_card(hand, j as int)) == q);
                } else {
                    assert(cur[q] as int == entry(pre, q, deck));
                    assert(q < pre.len());
                    assert(pre[q] < entry(v0, q, deck));
                }
            }
        }
        j = j + 1;
    }
}

/// Sweeps all quad counts from one frame at once: like `search_inner`
/// without a target, but entry `q` of `best_scores` keeps the lowest highest
/// card of a hand found with `q` quads, the table growing as needed with the
/// deck size `max_index` as "none found".
pub fn search_inner_multi(
    hand: u128,
    differences: [u8; 128],
    min_diff_count: usize,
    max_diff_count: usize,
    next_index: usize,
    max_index: usize,
    cards_in_hand: usize,
    cards_to_add: usize,
    quads: u64,
    best_scores: &mut Vec<u64>,
)
    requires
        max_index <= 128,
        next_index <= max_index,
        below(hand, next_index as int),
        table_of(hand, differences@, next_index as int),
        quads == raw_quads(hand, next_index as int),
    ensures
        sweep_outcome(
            hand,
            next_index as int,
            cards_to_add as int,
            max_index as int,
            min_diff_count as int,
            max_diff_count as int,
            old(best_scores)@,
            final(best_scores)@,
        ),
    decreases max_index - next_index,
{
    let ghost v0 = best_scores@;
    let ghost deck = max_index as int;
    let ghost lo = min_diff_count as int;
    let ghost hi = max_diff_count as int;
    // Nothing useful to do.
    if cards_to_add > max_index - next_index || cards_to_add == 0 {
        return;
    }
    let top = highest_card(hand, next_index);
    let max_useful_card = dimension_ceiling(top);
    if next_index > max_useful_card {
        return;
    }
    proof {
        crate::counting::lemma_raw_bound(hand, next_index as int);
    }
    let ghost n = next_index as int;
    let ghost k = cards_to_add as int;
    if cards_to_add > 1 {
        let (differences2, gain, good) = insert_card(hand, &differences, next_index, max_diff_count);
        let ghost inc = add_card(hand, n);
        if good {
            proof {
                crate::counting::lemma_gain_bound(hand, n, n, n);
                crate::tracker::lemma_insert_raw(hand, n);
                crate::hand::lemma_add_top(hand, n);
            }
            search_inner_multi(
                with_card(hand, next_index),
                differences2,
                min_diff_count,
                max_diff_count,
                next_index + 1,
                max_index,
                cards_in_hand,
                cards_to_add - 1,
                quads + gain,
                best_scores,
            );
        }
        let ghost v1 = best_scores@;
        if may_skip(next_index, min_diff_count) {
            proof {
                crate::tracker::lemma_skip(hand, differences@, n);
            }
            search_inner_multi(
                hand,
                differences,
                min_diff_count,
                max_diff_count,
                next_index + 1,
                max_index,
                cards_in_hand,
                cards_to_add,
                quads,
                best_scores,
            );
        }
        proof {
            let v2 = best_scores@;
            let a = good;
            let b = n >= 2 * lo;
            assert(good == (fits(hand, n, hi) && within_target(hand, n, None)));
            assert forall|f: u128|
                #[trigger] reaches(hand, n, k, deck, lo, hi, None, f) == ((a && reaches(
                    inc,
                    n + 1,
                    k - 1,
                    deck,
                    lo,
                    hi,
                    None,
                    f,
                )) || (b && reaches(hand, n + 1, k, deck, lo, hi, None, f))) by {}
            assert(a ==> sweep_outcome(inc, n + 1, k - 1, deck, lo, hi, v0, v1));
            assert(!a ==> v1 == v0);
            assert(b ==> sweep_outcome(hand, n + 1, k, deck, lo, hi, v1, v2));
            assert(!b ==> v2 == v1);
            if v0.len() < v2.len() && v1.len() == v2.len() {
                assert(v2[v2.len() - 1] as int <= entry(v1, v2.len() - 1, deck));
            }
            assert forall|q: int| 0 <= q < v2.len() implies #[trigger] v2[q] as int <= entry(v0, q, deck) by {
                assert(v2[q] as int <= entry(v1, q, deck));
            }
            assert forall|q: int|
                0 <= q < v2.len() && #[trigger] v2[q] < entry(v0, q, deck) implies exists|f: u128|
                #[trigger] reaches(hand, n, k, deck, lo, hi, None, f) && hand_quads(f) == q && top_card(
                    f,
                    v2[q] as int,
                ) by {
                if v2[q] < entry(v1, q, deck) {
                    let f = choose|f: u128|
                        #[trigger] reaches(hand, n + 1, k, deck, lo, hi, None, f) && hand_quads(f) == q
                            && top_card(f, v2[q] as int);
                    assert(reaches(hand, n, k, deck, lo, hi, None, f));
                } else {
                    let f = choose|f: u128|
                        #[trigger] reaches(inc, n + 1, k - 1, deck, lo, hi, None, f) && hand_quads(f) == q
                            && top_card(f, v1[q] as int);
                    assert(reaches(hand, n, k, deck, lo, hi, None, f));
                }
            }
            assert forall|f: u128, jj: int|
                #[trigger] reaches(hand, n, k, deck, lo, hi, None, f) && #[trigger] top_card(f, jj) implies hand_quads(
                f,
            ) < v2.len() && v2[hand_quads(f)] <= jj by {
                crate::counting::lemma_quads_nonneg(f);
                let q = hand_quads(f);
                if a && reaches(inc, n + 1, k - 1, deck, lo, hi, None, f) {
                    assert(q < v1.len() && v1[q] <= jj);
                    assert(v2[q] as int <= entry(v1, q, deck));
                } else {
                    assert(reaches(hand, n + 1, k, deck, lo, hi, None, f));
                }
            }
        }
    } else {
        // One card left to add, so try all possibilities.
        let end = if max_index < max_useful_card + 1 {
            max_index
        } else {
            max_useful_card + 1
        };
        sweep_last_card(hand, &differences, next_index, end, max_index, quads, best_scores);
        proof {
            let v1 = best_scores@;
            assert forall|f: u128, jj: int|
                #[trigger] reaches(hand, n, 1, deck, lo, hi, None, f) && #[trigger] top_card(f, jj) implies hand_quads(
                f,
            ) < v1.len() && v1[hand_quads(f)] <= jj by {
                let j2 = choose|j2: int|
                    n <= j2 < deck && j2 <= max_useful_card && f == #[trigger] add_card(hand, j2);
                lemma_complete(hand, n, j2);
            }
            assert forall|q: int|
                0 <= q < v1.len() && #[trigger] v1[q] < entry(v0, q, deck) implies exists|f: u128|
                #[trigger] reaches(hand, n, 1, deck, lo, hi, None, f) && hand_quads(f) == q && top_card(
                    f,
                    v1[q] as int,
                ) by {
                let j2 = choose|j2: int|
                    next_index <= j2 < end && v1[q] == j2 && hand_quads(#[trigger] add_card(hand, j2)) == q;
                lemma_complete(hand, n, j2);
                assert(reaches(hand, n, 1, deck, lo, hi, None, add_card(hand, j2)));
            }
            assert(sweep_outcome(hand, n, 1, deck, lo, hi, v0, v1));
        }
    }
}

/// One sweep over a deck of `deck` cards reaches the hand `f` of `size`
/// cards under one of the windows `[1, 1]`, `[2, 2]`, `[3, deck / 2]`.
pub open spec fn swept(deck: int, size: int, f: u128) -> bool {
    reaches(0u128, 0, size, deck, 1, 1, None, f) || reaches(0u128, 0, size, deck, 2, 2, None, f)
        || reaches(0u128, 0, size, deck, 3, deck / 2, None, f)
}

/// The table `v` is what the sweeps over a deck of `deck` cards give: each
/// entry is at most `deck`, each swept hand with `q` quads and highest card
/// `j` leaves entry `q` at most `j`, and each entry below `deck` is the
/// highest card of a swept hand with that many quads; a non-empty table
/// ends with an entry below `deck`.
pub open spec fn round_ok(deck: int, size: int, v: Seq<u64>) -> bool {
    &&& v.len() > 0 ==> v.last() < deck
    &&& forall|q: int| 0 <= q < v.len() ==> #[trigger] v[q] <= deck
    &&& forall|f: u128, j: int|
        #![trigger swept(deck, size, f), top_card(f, j)]
        swept(deck, size, f) && top_card(f, j) ==> hand_quads(f) < v.len() && v[hand_quads(f)] <= j
    &&& forall|q: int|
        0 <= q < v.len() && #[trigger] v[q] < deck ==> exists|f: u128|
            #[trigger] swept(deck, size, f) && hand_quads(f) == q && top_card(f, v[q] as int)
}

proof fn lemma_round(size: int, deck: int, v0: Seq<u64>, v1: Seq<u64>, v2: Seq<u64>, v3: Seq<u64>)
    requires
        v0.len() == 0,
        sweep_outcome(0u128, 0, size, deck, 1, 1, v0, v1),
        sweep_outcome(0u128, 0, size, deck, 2, 2, v1, v2),
        sweep_outcome(0u128, 0, size, deck, 3, deck / 2, v2, v3),
    ensures
        round_ok(deck, size, v3),
{
    if v3.len() > 0 {
        let l = v3.len() - 1;
        if v2.len() < v3.len() {
        } else {
            assert(v3[l] as int <= entry(v2, l, deck));
            if v1.len() < v2.len() {
            } else {
                assert(v2[l] as int <= entry(v1, l, deck));
            }
        }
    }
    assert forall|q: int| 0 <= q < v3.len() implies #[trigger] v3[q] <= deck by {
        assert(v3[q] as int <= entry(v2, q, deck));
        if q < v2.len() {
            assert(v2[q] as int <= entry(v1, q, deck));
            if q < v1.len() {
                assert(v1[q] as int <= entry(v0, q, deck));
            }
        }
    }
    assert forall|f: u128, j: int|
        #![trigger swept(deck, size, f), top_card(f, j)]
        swept(deck, size, f) && top_card(f, j) implies hand_quads(f) < v3.len() && v3[hand_quads(f)] <= j by {
        crate::counting::lemma_quads_nonneg(f);
        let q = hand_quads(f);
        if reaches(0u128, 0, size, deck, 1, 1, None, f) {
            assert(q < v1.len() && v1[q] <= j);
            assert(v2[q] as int <= entry(v1, q, deck));
            assert(v3[q] as int <= entry(v2, q, deck));
        } else if reaches(0u128, 0, size, deck, 2, 2, None, f) {
            assert(q < v2.len() && v2[q] <= j);
            assert(v3[q] as int <= entry(v2, q, deck));
        } else {
            assert(reaches(0u128, 0, size, deck, 3, deck / 2, None, f));
        }
    }
    assert forall|q: int|
        0 <= q < v3.len() && #[trigger] v3[q] < deck implies exists|f: u128|
        #[trigger] swept(deck, size, f) && hand_quads(f) == q && top_card(f, v3[q] as int) by {
        if v3[q] < entry(v2, q, deck) {
            let f = choose|f: u128|
                #[trigger] reaches(0u128, 0, size, deck, 3, deck / 2, None, f) && hand_quads(f) == q
                    && top_card(f, v3[q] as int);
            assert(swept(deck, size, f));
        } else {
            assert(v3[q] as int <= entry(v2, q, deck));
            assert(q < v2.len());
            if v2[q] < entry(v1, q, deck) {
                let f = choose|f: u128|
                    #[trigger] reaches(0u128, 0, size, deck, 2, 2, None, f) && hand_quads(f) == q
                        && top_card(f, v2[q] as int);
                assert(swept(deck, size, f));
            } else {
                assert(v2[q] as int <= entry(v1, q, deck));
                assert(q < v1.len());
                let f = choose|f: u128|
                    #[trigger] reaches(0u128, 0, size, deck, 1, 1, None, f) && hand_quads(f) == q
                        && top_card(f, v1[q] as int);
                assert(swept(deck, size, f));
            }
        }
    }
}

/// A swept hand has `size` cards below the deck size.
proof fn lemma_swept_valid(deck: int, size: int, f: u128)
    requires
        0 <= deck <= 128,
        swept(deck, size, f),
    ensures
        valid_hand(f, size, deck),
{
    crate::hand::lemma_empty_hand();
    assert(below(0u128, 0));
    if reaches(0u128, 0, size, deck, 1, 1, None, f) {
        lemma_reaches_valid(0u128, 0, size, deck, 1, 1, None, f);
    } else if reaches(0u128, 0, size, deck, 2, 2, None, f) {
        lemma_reaches_valid(0u128, 0, size, deck, 2, 2, None, f);
    } else {
        lemma_reaches_valid(0u128, 0, size, deck, 3, deck / 2, None, f);
    }
}

/// The deck sizes that `search_multi` sweeps for hands of `size` cards:
/// `deck`, then halved again and again while it is positive and holds a hand.
pub open spec fn in_rounds(deck: int, size: int, k: int) -> bool
    decreases deck,
{
    if deck <= 0 || deck < size {
        false
    } else {
        k == deck || in_rounds(deck / 2, size, k)
    }
}

/// What `search_multi` returns for a deck of `deck` cards: each entry is at
/// most `deck`; an entry `q` below `deck` is the highest card of a hand of
/// `size` cards of the deck with exactly `q` quads; and for each swept deck
/// size, every swept hand with `q` quads and highest card `j` leaves entry
/// `q` at most `j`. A non-empty table ends with an entry below `deck`: it
/// reaches no further than the highest count found.
pub open spec fn multi_result(deck: int, size: int, v: Seq<u64>) -> bool {
    &&& v.len() > 0 ==> v.last() < deck
    &&& forall|q: int| 0 <= q < v.len() ==> #[trigger] v[q] <= deck
    &&& forall|q: int|
        0 <= q < v.len() && #[trigger] v[q] < deck ==> exists|f: u128|
            valid_hand(f, size, deck) && #[trigger] hand_quads(f) == q && top_card(f, v[q] as int)
    &&& forall|k: int, f: u128, j: int|
        #![trigger in_rounds(deck, size, k), swept(k, size, f), top_card(f, j)]
        in_rounds(deck, size, k) && swept(k, size, f) && top_card(f, j) ==> hand_quads(f) < v.len()
            && v[hand_quads(f)] <= j
}

/// Sweeps all quad counts for hands of `cards_in_hand` cards. Entry `n` of
/// the result is the lowest highest card found in a hand with `n` quads, or
/// `cards_in_deck` when none was found. The sweep is repeated with the deck
/// halved, to catch hands of a lower dimension that the pruning of a larger
/// deck passes over.
pub fn search_multi(cards_in_deck: usize, cards_in_hand: usize) -> (r: Vec<u64>)
    requires
        cards_in_deck <= 128,
    ensures
        multi_result(cards_in_deck as int, cards_in_hand as int, r@),
{
    let ghost big = cards_in_deck as int;
    let ghost size = cards_in_hand as int;
    let mut ret: Vec<u64> = Vec::new();
    let mut deck = cards_in_deck;
    let empty: [u8; 128] = [0u8; 128];
    proof {
        crate::hand::lemma_empty_hand();
        assert forall|d: int| 0 <= d < 128 implies #[trigger] empty@[d] as int == pair_count(0u128, d, 0) by {}
        assert(below(0u128, 0));
    }
    while deck > 0 && deck >= cards_in_hand
        invariant
            deck <= cards_in_deck <= 128,
            table_of(0u128, empty@, 0),
            below(0u128, 0),
            big == cards_in_deck,
            size == cards_in_hand,
            ret@.len() > 0 ==> ret@.last() < big,
            forall|q: int| 0 <= q < ret@.len() ==> #[trigger] ret@[q] <= big,
            forall|q: int|
                0 <= q < ret@.len() && #[trigger] ret@[q] < big ==> exists|f: u128|
                    valid_hand(f, size, big) && #[trigger] hand_quads(f) == q && top_card(f, ret@[q] as int),
            forall|k: int|
                #[trigger] in_rounds(big, size, k) ==> (deck < k && forall|f: u128, j: int|
                    #![trigger swept(k, size, f), top_card(f, j)]
                    swept(k, size, f) && top_card(f, j) ==> hand_quads(f) < ret@.len() && ret@[hand_quads(f)]
                        <= j) || in_rounds(deck as int, size, k),
        decreases deck,
    {
        let ghost dk = deck as int;
        let mut round: Vec<u64> = Vec::new();
        let ghost v0 = round@;
        search_inner_multi(0, empty, 1, 1, 0, deck, 0, cards_in_hand, 0, &mut round);
        let ghost v1 = round@;
        search_inner_multi(0, empty, 2, 2, 0, deck, 0, cards_in_hand, 0, &mut round);
        let ghost v2 = round@;
        search_inner_multi(0, empty, 3, deck / 2, 0, deck, 0, cards_in_hand, 0, &mut round);
        proof {
            lemma_round(size, dk, v0, v1, v2, round@);
        }
        let ghost before = ret@;
        let mut i: usize = 0;
        while i < round.len()
            invariant
                i <= round@.len(),
                0 < dk <= big <= 128,
                dk == deck,
                big == cards_in_deck,
                size == cards_in_hand,
                round_ok(dk, size, round@),
                before.len() <= ret@.len(),
                ret@.len() > 0 ==> ret@.last() < big,
                forall|q: int| 0 <= q < ret@.len() ==> #[trigger] ret@[q] as int <= entry(before, q, big),
                forall|q: int| 0 <= q < ret@.len() ==> #[trigger] ret@[q] <= big,
                forall|q: int|
                    0 <= q < ret@.len() && #[trigger] ret@[q] < big ==> exists|f: u128|
                        valid_hand(f, size, big) && #[trigger] hand_quads(f) == q && top_card(f, ret@[q] as int),
                forall|q: int|
                    0 <= q < i && #[trigger] round@[q] < dk ==> q < ret@.len() && ret@[q] <= round@[q],
            decreases round@.len() - i,
        {
            let value = round[i];
            if value < deck as u64 {
                let ghost pre = ret@;
                record_min(&mut ret, i, value, cards_in_deck as u64);
                proof {
                    assert(round@[i as int] == value && round@[i as int] < dk);
                    let f = choose|f: u128|
                        #[trigger] swept(dk, size, f) && hand_quads(f) == i && top_card(f, value as int);
                    lemma_swept_valid(dk, size, f);
                    assert(valid_hand(f, size, big));
                    let l = ret@.len() - 1;
                    if pre.len() < ret@.len() {
                        assert(l == i);
                    } else if l != i {
                        assert(ret@[l] as int == entry(pre, l, big));
                    }
                    assert forall|q: int| 0 <= q < ret@.len() implies #[trigger] ret@[q] as int <= entry(
                        before,
                        q,
                        big,
                    ) by {
                        if q < pre.len() {
                            assert(pre[q] as int <= entry(before, q, big));
                        }
                    }
                    assert forall|q: int|
                        0 <= q < ret@.len() && #[trigger] ret@[q] < big implies exists|f2: u128|
                        valid_hand(f2, size, big) && #[trigger] hand_quads(f2) == q && top_card(
                            f2,
                            ret@[q] as int,
                        ) by {
                        if q == i && ret@[q] == value {
                            assert(hand_quads(f) == q);
                        } else {
                            assert(ret@[q] as int == entry(pre, q, big));
                            assert(q < pre.len());
                        }
                    }
                    assert forall|q: int|
                        0 <= q < i + 1 && #[trigger] round@[q] < dk implies q < ret@.len() && ret@[q]
                        <= round@[q] by {
                        if q < i {
                            assert(q < pre.len() && pre[q] <= round@[q]);
                            if q != i {
                                assert(ret@[q] as int == entry(pre, q, big));
                            }
                        }
                    }
                }
            }
            i = i + 1;
        }
        proof {
            assert forall|k: int|
                #[trigger] in_rounds(big, size, k) implies (deck / 2 < k && forall|f: u128, j: int|
                #![trigger swept(k, size, f), top_card(f, j)]
                swept(k, size, f) && top_card(f, j) ==> hand_quads(f) < ret@.len() && ret@[hand_quads(f)] <= j)
                || in_rounds(dk / 2, size, k) by {
                if !in_rounds(dk / 2, size, k) {
                    assert forall|f: u128, j: int|
                        #![trigger swept(k, size, f), top_card(f, j)]
                        swept(k, size, f) && top_card(f, j) implies hand_quads(f) < ret@.len()
                        && ret@[hand_quads(f)] <= j by {
                        crate::counting::lemma_quads_nonneg(f);
                        let q = hand_quads(f);
                        if k == dk {
                            lemma_swept_valid(dk, size, f);
                            assert(q < round@.len() && round@[q] <= j);
                            assert(j < dk);
                        } else {
                            assert(q < before.len() && before[q] <= j);
                            assert(ret@[q] as int <= entry(before, q, big));
                        }
                    }
                }
            }
        }
        deck = deck / 2;
    }
    ret
}

} // verus!
