use vstd::prelude::*;

verus! {

// A seven-card hand is scored on an integer scale with one band per hand
// category; inside a band the tie-break ranks are weighted so that a
// stronger tie-break always gives a larger score. From the top:
// royal flush 8_000_000; straight flush 7_000_000 plus high card;
// four of a kind 6_000_000 plus quad rank and kicker; full house
// 5_000_000 plus trips rank and pair rank; flush 4_000_000 plus high
// card; straight 3_000_000 plus high card; three of a kind 2_000_000
// plus trips rank and kicker; a pair 1_000_000 plus pair rank, second
// pair rank and kicker; high card alone scores its rank. Ranks count
// 0 (a two) through 12 (an ace); primary ranks weigh 10_000, secondary
// ranks 100, kickers 1. The ace is never treated as rank one, so the
// wheel (ace through five) does not count as a straight here.

/// The rank index of a card integer: 0 (a two) .. 12 (an ace).
pub open spec fn card_val(c: u8) -> int {
    ((c as int) - 1) % 13
}

/// The suit index of a card integer: 0..3.
pub open spec fn card_suit_of(c: u8) -> int {
    ((c as int) - 1) / 13
}

/// How many of the cards have rank index `v`.
pub open spec fn count_val(cards: Seq<u8>, v: int) -> int
    decreases cards.len(),
{
    if cards.len() == 0 {
        0
    } else {
        count_val(cards.drop_last(), v) + if card_val(cards.last()) == v {
            1int
        } else {
            0int
        }
    }
}

/// How many of the cards have suit index `s`.
pub open spec fn count_suit(cards: Seq<u8>, s: int) -> int
    decreases cards.len(),
{
    if cards.len() == 0 {
        0
    } else {
        count_suit(cards.drop_last(), s) + if card_suit_of(cards.last()) == s {
            1int
        } else {
            0int
        }
    }
}

/// How many of the cards are the exact card with zero-based index `idx`
/// (that is, the card integer `idx + 1`).
pub open spec fn count_card(cards: Seq<u8>, idx: int) -> int
    decreases cards.len(),
{
    if cards.len() == 0 {
        0
    } else {
        count_card(cards.drop_last(), idx) + if (cards.last() as int) - 1 == idx {
            1int
        } else {
            0int
        }
    }
}

/// Five consecutive rank indices ending at `i` are all present.
pub open spec fn run5_at(cards: Seq<u8>, i: int) -> bool {
    forall|j: int| i - 4 <= j <= i ==> count_val(cards, j) >= 1
}

/// The largest rank index at or below `i` that tops a five-card run, or -1.
pub open spec fn straight_top_from(cards: Seq<u8>, i: int) -> int
    decreases i + 1,
{
    if i < 4 {
        -1
    } else if run5_at(cards, i) {
        i
    } else {
        straight_top_from(cards, i - 1)
    }
}

/// The first suit index at or above `s` that holds five or more cards, or -1.
pub open spec fn flush_suit_from(cards: Seq<u8>, s: int) -> int
    decreases 4 - s,
{
    if s >= 4 {
        -1
    } else if count_suit(cards, s) >= 5 {
        s
    } else {
        flush_suit_from(cards, s + 1)
    }
}

/// In suit `s`, the five cards with rank indices `cn-5 .. cn-1` are all
/// present: a straight flush whose top card sits at rank index `cn - 1`.
pub open spec fn sf_window(cards: Seq<u8>, cn: int, s: int) -> bool {
    forall|idx: int|
        s * 13 + cn - 5 <= idx <= s * 13 + cn - 1 ==> #[trigger] count_card(cards, idx) >= 1
}

/// Some suit holds the straight-flush window topped at `cn`.
pub open spec fn sf_exists_at(cards: Seq<u8>, cn: int) -> bool {
    exists|s: int| 0 <= s < 4 && sf_window(cards, cn, s)
}

/// The largest `cn` at or below the given one whose straight-flush window
/// is filled in some suit, or -1. `cn == 13` is a royal flush.
pub open spec fn sf_top_from(cards: Seq<u8>, cn: int) -> int
    decreases cn + 1,
{
    if cn < 5 {
        -1
    } else if sf_exists_at(cards, cn) {
        cn
    } else {
        sf_top_from(cards, cn - 1)
    }
}

/// The largest rank index in 5..=`i` present in suit `s`, or -1. The scan
/// never looks below rank index 5, exactly as the flush high-card scan of
/// the score table does.
pub open spec fn flush_high_from(cards: Seq<u8>, s: int, i: int) -> int
    decreases i + 1,
{
    if i < 5 {
        -1
    } else if count_card(cards, s * 13 + i) >= 1 {
        i
    } else {
        flush_high_from(cards, s, i - 1)
    }
}

/// The largest rank index at or below `i` held by exactly `k` cards, or -1.
pub open spec fn top_with_count(cards: Seq<u8>, k: int, i: int) -> int
    decreases i + 1,
{
    if i < 0 {
        -1
    } else if count_val(cards, i) == k {
        i
    } else {
        top_with_count(cards, k, i - 1)
    }
}

/// The largest rank index strictly below `i` held by exactly `k` cards,
/// or -1; -1 when `i` is itself -1 or 0.
pub open spec fn next_top_below(cards: Seq<u8>, k: int, i: int) -> int {
    if i <= 0 {
        -1
    } else {
        top_with_count(cards, k, i - 1)
    }
}

/// The largest rank index present at all, or -1.
pub open spec fn top_present_from(cards: Seq<u8>, i: int) -> int
    decreases i + 1,
{
    if i < 0 {
        -1
    } else if count_val(cards, i) >= 1 {
        i
    } else {
        top_present_from(cards, i - 1)
    }
}

/// The rank of the best four of a kind, or -1.
pub open spec fn quad_rank(cards: Seq<u8>) -> int {
    top_with_count(cards, 4, 12)
}

/// The rank of the best three of a kind, or -1.
pub open spec fn trips_rank(cards: Seq<u8>) -> int {
    top_with_count(cards, 3, 12)
}

/// The rank of the second-best three of a kind, or -1.
pub open spec fn second_trips_rank(cards: Seq<u8>) -> int {
    next_top_below(cards, 3, trips_rank(cards))
}

/// The rank of the best pair (a rank held by exactly two cards), or -1.
pub open spec fn pair_rank(cards: Seq<u8>) -> int {
    top_with_count(cards, 2, 12)
}

/// The rank of the second-best pair, or -1.
pub open spec fn second_pair_rank(cards: Seq<u8>) -> int {
    next_top_below(cards, 2, pair_rank(cards))
}

/// The highest rank index present among all seven cards, or -1.
pub open spec fn high_rank(cards: Seq<u8>) -> int {
    top_present_from(cards, 12)
}

/// The score of a hand with neither a straight nor a flush, from the rank
/// multiplicities alone. A four of a kind whose rank is itself the highest
/// rank present takes a zero kicker; with more than two pairs, the top
/// two set the score.
pub open spec fn spec_multiples(cards: Seq<u8>) -> int {
    let q = quad_rank(cards);
    let t1 = trips_rank(cards);
    let t2 = second_trips_rank(cards);
    let p1 = pair_rank(cards);
    let p2 = second_pair_rank(cards);
    let hi = high_rank(cards);
    if q >= 0 {
        6_000_000 + 10_000 * q + if q == hi {
            0int
        } else {
            hi
        }
    } else if t1 >= 0 && t2 >= 0 {
        5_000_000 + 10_000 * t1 + 100 * t2
    } else if t1 >= 0 && p1 >= 0 {
        5_000_000 + 10_000 * t1 + 100 * p1
    } else if t1 >= 0 {
        2_000_000 + 10_000 * t1 + hi
    } else if p1 >= 0 && p2 >= 0 {
        1_000_000 + 10_000 * p1 + 100 * p2 + hi
    } else if p1 >= 0 {
        1_000_000 + 10_000 * p1 + hi
    } else if hi >= 0 {
        hi
    } else {
        0
    }
}

/// The full score of a seven-card hand.
pub open spec fn spec_score(cards: Seq<u8>) -> int {
    let st = straight_top_from(cards, 12);
    let fs = flush_suit_from(cards, 0);
    let sft = sf_top_from(cards, 13);
    if st >= 4 && fs >= 0 && sft == 13 {
        8_000_000
    } else if st >= 4 && fs >= 0 && sft >= 5 {
        7_000_000 + 10_000 * sft
    } else if fs >= 0 && flush_high_from(cards, fs, 12) >= 5 {
        4_000_000 + 10_000 * flush_high_from(cards, fs, 12)
    } else if st >= 4 {
        3_000_000 + 10_000 * (st + 1)
    } else {
        spec_multiples(cards)
    }
}

/// Counts the cards of each rank index into thirteen buckets.
fn rank_tally(cards: &Vec<u8>) -> (t: Vec<u32>)
    requires
        cards@.len() <= 7,
        forall|i: int| 0 <= i < cards@.len() ==> 1 <= #[trigger] cards@[i] <= 52,
    ensures
        t@.len() == 13,
        forall|v: int| 0 <= v < 13 ==> #[trigger] t@[v] == count_val(cards@, v),
{
    let mut t: Vec<u32> = Vec::new();
    while t.len() < 13
        invariant
            t@.len() <= 13,
            forall|v: int| 0 <= v < t@.len() ==> #[trigger] t@[v] == 0,
        decreases 13 - t@.len(),
    {
        t.push(0);
    }
    let mut k: usize = 0;
    while k < cards.len()
        invariant
            k <= cards@.len() <= 7,
            forall|i: int| 0 <= i < cards@.len() ==> 1 <= #[trigger] cards@[i] <= 52,
            t@.len() == 13,
            forall|v: int| 0 <= v < 13 ==> #[trigger] t@[v] == count_val(cards@.take(k as int), v),
            forall|v: int| 0 <= v < 13 ==> #[trigger] t@[v] <= k,
        decreases cards@.len() - k,
    {
        let c = cards[k];
        let v = ((c - 1) % 13) as usize;
        let cur = t[v];
        t.set(v, cur + 1);
        proof {
            assert(cards@.take(k as int + 1).drop_last() =~= cards@.take(k as int));
            assert(cards@.take(k as int + 1).last() == cards@[k as int]);
        }
        k = k + 1;
    }
    proof {
        assert(cards@.take(cards@.len() as int) =~= cards@);
    }
    t
}

/// Counts the cards of each suit index into four buckets.
fn suit_tally(cards: &Vec<u8>) -> (t: Vec<u32>)
    requires
        cards@.len() <= 7,
        forall|i: int| 0 <= i < cards@.len() ==> 1 <= #[trigger] cards@[i] <= 52,
    ensures
        t@.len() == 4,
        forall|s: int| 0 <= s < 4 ==> #[trigger] t@[s] == count_suit(cards@, s),
{
    let mut t: Vec<u32> = Vec::new();
    while t.len() < 4
        invariant
            t@.len() <= 4,
            forall|s: int| 0 <= s < t@.len() ==> #[trigger] t@[s] == 0,
        decreases 4 - t@.len(),
    {
        t.push(0);
    }
    let mut k: usize = 0;
    while k < cards.len()
        invariant
            k <= cards@.len() <= 7,
            forall|i: int| 0 <= i < cards@.len() ==> 1 <= #[trigger] cards@[i] <= 52,
            t@.len() == 4,
            forall|s: int| 0 <= s < 4 ==> #[trigger] t@[s] == count_suit(cards@.take(k as int), s),
            forall|s: int| 0 <= s < 4 ==> #[trigger] t@[s] <= k,
        decreases cards@.len() - k,
    {
        let c = cards[k];
        let s = ((c - 1) / 13) as usize;
        let cur = t[s];
        t.set(s, cur + 1);
        proof {
            assert(cards@.take(k as int + 1).drop_last() =~= cards@.take(k as int));
            assert(cards@.take(k as int + 1).last() == cards@[k as int]);
        }
        k = k + 1;
    }
    proof {
        assert(cards@.take(cards@.len() as int) =~= cards@);
    }
    t
}

/// Counts each of the 52 exact cards into its own bucket.
fn card_tally(cards: &Vec<u8>) -> (t: Vec<u32>)
    requires
        cards@.len() <= 7,
        forall|i: int| 0 <= i < cards@.len() ==> 1 <= #[trigger] cards@[i] <= 52,
    ensures
        t@.len() == 52,
        forall|idx: int| 0 <= idx < 52 ==> #[trigger] t@[idx] == count_card(cards@, idx),
{
    let mut t: Vec<u32> = Vec::new();
    while t.len() < 52
        invariant
            t@.len() <= 52,
            forall|idx: int| 0 <= idx < t@.len() ==> #[trigger] t@[idx] == 0,
        decreases 52 - t@.len(),
    {
        t.push(0);
    }
    let mut k: usize = 0;
    while k < cards.len()
        invariant
            k <= cards@.len() <= 7,
            forall|i: int| 0 <= i < cards@.len() ==> 1 <= #[trigger] cards@[i] <= 52,
            t@.len() == 52,
            forall|idx: int|
                0 <= idx < 52 ==> #[trigger] t@[idx] == count_card(cards@.take(k as int), idx),
            forall|idx: int| 0 <= idx < 52 ==> #[trigger] t@[idx] <= k,
        decreases cards@.len() - k,
    {
        let c = cards[k];
        let idx = (c - 1) as usize;
        let cur = t[idx];
        t.set(idx, cur + 1);
        proof {
            assert(cards@.take(k as int + 1).drop_last() =~= cards@.take(k as int));
            assert(cards@.take(k as int + 1).last() == cards@[k as int]);
        }
        k = k + 1;
    }
    proof {
        assert(cards@.take(cards@.len() as int) =~= cards@);
    }
    t
}

/// Scans the rank tally downward from `start` for a rank held by exactly
/// `k` cards.
fn top_with_count_exec(t: &Vec<u32>, k: u32, start: usize, Ghost(cards): Ghost<Seq<u8>>) -> (r:
    Option<usize>)
    requires
        t@.len() == 13,
        start < 13,
        forall|v: int| 0 <= v < 13 ==> #[trigger] t@[v] == count_val(cards, v),
    ensures
        match r {
            Some(i) => i <= start && i == top_with_count(cards, k as int, start as int),
            None => top_with_count(cards, k as int, start as int) == -1,
        },
{
    let mut i: usize = start;
    loop
        invariant
            i <= start < 13,
            t@.len() == 13,
            forall|v: int| 0 <= v < 13 ==> #[trigger] t@[v] == count_val(cards, v),
            top_with_count(cards, k as int, start as int) == top_with_count(
                cards,
                k as int,
                i as int,
            ),
        decreases i,
    {
        if t[i] == k {
            return Some(i);
        }
        if i == 0 {
            proof {
                assert(top_with_count(cards, k as int, -1) == -1);
            }
            return None;
        }
        i = i - 1;
    }
}

/// Scans the rank tally downward from the top for any rank present.
fn top_present_exec(t: &Vec<u32>, Ghost(cards): Ghost<Seq<u8>>) -> (r: Option<usize>)
    requires
        t@.len() == 13,
        forall|v: int| 0 <= v < 13 ==> #[trigger] t@[v] == count_val(cards, v),
    ensures
        match r {
            Some(i) => i < 13 && i == top_present_from(cards, 12),
            None => top_present_from(cards, 12) == -1,
        },
{
    let mut i: usize = 12;
    loop
        invariant
            i <= 12,
            t@.len() == 13,
            forall|v: int| 0 <= v < 13 ==> #[trigger] t@[v] == count_val(cards, v),
            top_present_from(cards, 12) == top_present_from(cards, i as int),
        decreases i,
    {
        if t[i] >= 1 {
            return Some(i);
        }
        if i == 0 {
            proof {
                assert(top_present_from(cards, -1) == -1);
            }
            return None;
        }
        i = i - 1;
    }
}

/// Scans for the highest rank index that tops a run of five present ranks.
fn straight_top_exec(t: &Vec<u32>, Ghost(cards): Ghost<Seq<u8>>) -> (r: Option<usize>)
    requires
        t@.len() == 13,
        forall|v: int| 0 <= v < 13 ==> #[trigger] t@[v] == count_val(cards, v),
    ensures
        match r {
            Some(i) => 4 <= i <= 12 && i == straight_top_from(cards, 12),
            None => straight_top_from(cards, 12) == -1,
        },
{
    let mut i: usize = 12;
    loop
        invariant
            4 <= i <= 12,
            t@.len() == 13,
            forall|v: int| 0 <= v < 13 ==> #[trigger] t@[v] == count_val(cards, v),
            straight_top_from(cards, 12) == straight_top_from(cards, i as int),
        decreases i,
    {
        if t[i] >= 1 && t[i - 1] >= 1 && t[i - 2] >= 1 && t[i - 3] >= 1 && t[i - 4] >= 1 {
            proof {
                assert forall|j: int| i - 4 <= j <= i implies count_val(cards, j) >= 1 by {
                    assert(j == i - 4 || j == i - 3 || j == i - 2 || j == i - 1 || j == i);
                }
                assert(run5_at(cards, i as int));
            }
            return Some(i);
        }
        proof {
            assert(!run5_at(cards, i as int)) by {
                if t@[i as int] < 1 {
                    assert(count_val(cards, i as int) < 1);
                } else if t@[i as int - 1] < 1 {
                    assert(count_val(cards, i as int - 1) < 1);
                } else if t@[i as int - 2] < 1 {
                    assert(count_val(cards, i as int - 2) < 1);
                } else if t@[i as int - 3] < 1 {
                    assert(count_val(cards, i as int - 3) < 1);
                } else {
                    assert(count_val(cards, i as int - 4) < 1);
                }
            }
        }
        if i == 4 {
            proof {
                assert(straight_top_from(cards, 3) == -1);
            }
            return None;
        }
        i = i - 1;
    }
}

/// Scans the suit tally upward for a suit with five or more cards.
fn flush_suit_exec(st: &Vec<u32>, Ghost(cards): Ghost<Seq<u8>>) -> (r: Option<usize>)
    requires
        st@.len() == 4,
        forall|s: int| 0 <= s < 4 ==> #[trigger] st@[s] == count_suit(cards, s),
    ensures
        match r {
            Some(s) => s < 4 && s == flush_suit_from(cards, 0),
            None => flush_suit_from(cards, 0) == -1,
        },
{
    let mut s: usize = 0;
    while s < 4
        invariant
            s <= 4,
            st@.len() == 4,
            forall|q: int| 0 <= q < 4 ==> #[trigger] st@[q] == count_suit(cards, q),
            flush_suit_from(cards, 0) == flush_suit_from(cards, s as int),
        decreases 4 - s,
    {
        if st[s] >= 5 {
            return Some(s);
        }
        s = s + 1;
    }
    None
}

/// In suit `s`, scans downward from the ace for the highest present rank
/// index, stopping at rank index 5 as the score table's scan does.
fn flush_high_exec(oh: &Vec<u32>, s: usize, Ghost(cards): Ghost<Seq<u8>>) -> (r: Option<usize>)
    requires
        oh@.len() == 52,
        s < 4,
        forall|idx: int| 0 <= idx < 52 ==> #[trigger] oh@[idx] == count_card(cards, idx),
    ensures
        match r {
            Some(i) => 5 <= i <= 12 && i == flush_high_from(cards, s as int, 12),
            None => flush_high_from(cards, s as int, 12) == -1,
        },
{
    let mut i: usize = 12;
    loop
        invariant
            5 <= i <= 12,
            oh@.len() == 52,
            s < 4,
            forall|idx: int| 0 <= idx < 52 ==> #[trigger] oh@[idx] == count_card(cards, idx),
            flush_high_from(cards, s as int, 12) == flush_high_from(cards, s as int, i as int),
        decreases i,
    {
        if oh[s * 13 + i] >= 1 {
            return Some(i);
        }
        if i == 5 {
            proof {
                assert(flush_high_from(cards, s as int, 4) == -1);
            }
            return None;
        }
        i = i - 1;
    }
}

/// Scans downward from the royal window for a straight-flush window filled
/// in some suit.
fn sf_top_exec(oh: &Vec<u32>, Ghost(cards): Ghost<Seq<u8>>) -> (r: Option<usize>)
    requires
        oh@.len() == 52,
        forall|idx: int| 0 <= idx < 52 ==> #[trigger] oh@[idx] == count_card(cards, idx),
    ensures
        match r {
            Some(cn) => 5 <= cn <= 13 && cn == sf_top_from(cards, 13),
            None => sf_top_from(cards, 13) == -1,
        },
{
    let mut cn: usize = 13;
    loop
        invariant
            5 <= cn <= 13,
            oh@.len() == 52,
            forall|idx: int| 0 <= idx < 52 ==> #[trigger] oh@[idx] == count_card(cards, idx),
            sf_top_from(cards, 13) == sf_top_from(cards, cn as int),
        decreases cn,
    {
        let mut s: usize = 0;
        let mut found: bool = false;
        while s < 4
            invariant
                s <= 4,
                cn <= 13,
                5 <= cn,
                oh@.len() == 52,
                forall|idx: int| 0 <= idx < 52 ==> #[trigger] oh@[idx] == count_card(cards, idx),
                !found ==> forall|q: int| 0 <= q < s ==> !sf_window(cards, cn as int, q),
                found ==> sf_exists_at(cards, cn as int),
            decreases 4 - s,
        {
            let base = s * 13 + cn;
            if oh[base - 5] >= 1 && oh[base - 4] >= 1 && oh[base - 3] >= 1 && oh[base - 2] >= 1
                && oh[base - 1] >= 1 {
                proof {
                    let b = s * 13 + cn;
                    assert forall|idx: int|
                        b - 5 <= idx <= b - 1 implies count_card(cards, idx) >= 1 by {
                        assert(idx == b - 5 || idx == b - 4 || idx == b - 3 || idx == b - 2 || idx
                            == b - 1);
                    }
                    assert(sf_window(cards, cn as int, s as int));
                    assert(sf_exists_at(cards, cn as int));
                }
                found = true;
            } else {
                proof {
                    let b = (s * 13 + cn) as int;
                    assert(!sf_window(cards, cn as int, s as int)) by {
                        if oh@[b - 5] < 1 {
                            assert(count_card(cards, b - 5) < 1);
                        } else if oh@[b - 4] < 1 {
                            assert(count_card(cards, b - 4) < 1);
                        } else if oh@[b - 3] < 1 {
                            assert(count_card(cards, b - 3) < 1);
                        } else if oh@[b - 2] < 1 {
                            assert(count_card(cards, b - 2) < 1);
                        } else {
                            assert(count_card(cards, b - 1) < 1);
                        }
                    }
                }
            }
            s = s + 1;
        }
        if found {
            return Some(cn);
        }
        proof {
            assert(!sf_exists_at(cards, cn as int));
        }
        if cn == 5 {
            proof {
                assert(sf_top_from(cards, 4) == -1);
            }
            return None;
        }
        cn = cn - 1;
    }
}

/// Scores two private cards together with the five shared cards. Higher
/// scores strictly mean stronger hands; equal hands score equal.
pub fn score_hand(player_cards: &[u8; 2], shared_cards: &[u8; 5]) -> (score: u32)
    requires
        forall|i: int| 0 <= i < 2 ==> 1 <= #[trigger] player_cards@[i] <= 52,
        forall|i: int| 0 <= i < 5 ==> 1 <= #[trigger] shared_cards@[i] <= 52,
    ensures
        score == spec_score(player_cards@ + shared_cards@),
{
    let ghost cards = player_cards@ + shared_cards@;
    let mut all: Vec<u8> = Vec::new();
    all.push(player_cards[0]);
    all.push(player_cards[1]);
    all.push(shared_cards[0]);
    all.push(shared_cards[1]);
    all.push(shared_cards[2]);
    all.push(shared_cards[3]);
    all.push(shared_cards[4]);
    proof {
        assert(all@ =~= cards);
    }
    let rt = rank_tally(&all);
    let su = suit_tally(&all);
    let oh = card_tally(&all);
    let st_opt = straight_top_exec(&rt, Ghost(cards));
    let fs_opt = flush_suit_exec(&su, Ghost(cards));
    if st_opt.is_some() && fs_opt.is_some() {
        match sf_top_exec(&oh, Ghost(cards)) {
            Some(cn) => {
                if cn == 13 {
                    return 8_000_000;
                }
                return 7_000_000 + 10_000 * (cn as u32);
            },
            None => {},
        }
    }
    match fs_opt {
        Some(fs) => {
            match flush_high_exec(&oh, fs, Ghost(cards)) {
                Some(fh) => {
                    return 4_000_000 + 10_000 * (fh as u32);
                },
                None => {},
            }
        },
        None => {},
    }
    match st_opt {
        Some(stv) => {
            return 3_000_000 + 10_000 * ((stv as u32) + 1);
        },
        None => {},
    }
    proof {
        lemma_top_with_count_bounds(cards, 4, 12);
        lemma_top_with_count_bounds(cards, 3, 12);
        lemma_top_with_count_bounds(cards, 2, 12);
        lemma_top_present_bounds(cards, 12);
    }
    let hi_opt = top_present_exec(&rt, Ghost(cards));
    match top_with_count_exec(&rt, 4, 12, Ghost(cards)) {
        Some(q) => {
            let hi = match hi_opt {
                Some(h) => h,
                None => 0,
            };
            let kick: u32 = if q == hi {
                0
            } else {
                hi as u32
            };
            return 6_000_000 + 10_000 * (q as u32) + kick;
        },
        None => {},
    }
    match top_with_count_exec(&rt, 3, 12, Ghost(cards)) {
        Some(t1) => {
            if t1 > 0 {
                proof {
                    lemma_top_with_count_bounds(cards, 3, t1 - 1);
                }
                match top_with_count_exec(&rt, 3, t1 - 1, Ghost(cards)) {
                    Some(t2) => {
                        return 5_000_000 + 10_000 * (t1 as u32) + 100 * (t2 as u32);
                    },
                    None => {},
                }
            }
            match top_with_count_exec(&rt, 2, 12, Ghost(cards)) {
                Some(p1) => {
                    return 5_000_000 + 10_000 * (t1 as u32) + 100 * (p1 as u32);
                },
                None => {},
            }
            let hi = match hi_opt {
                Some(h) => h,
                None => 0,
            };
            return 2_000_000 + 10_000 * (t1 as u32) + (hi as u32);
        },
        None => {},
    }
    match top_with_count_exec(&rt, 2, 12, Ghost(cards)) {
        Some(p1) => {
            let hi = match hi_opt {
                Some(h) => h,
                None => 0,
            };
            if p1 > 0 {
                proof {
                    lemma_top_with_count_bounds(cards, 2, p1 - 1);
                }
                match top_with_count_exec(&rt, 2, p1 - 1, Ghost(cards)) {
                    Some(p2) => {
                        return 1_000_000 + 10_000 * (p1 as u32) + 100 * (p2 as u32) + (hi as u32);
                    },
                    None => {},
                }
            }
            return 1_000_000 + 10_000 * (p1 as u32) + (hi as u32);
        },
        None => {},
    }
    match hi_opt {
        Some(h) => h as u32,
        None => 0,
    }
}

/// The hand category of a seven-card hand, 0 (high card) through 8 (royal
/// flush), read off the same scan results as the score.
pub open spec fn category(cards: Seq<u8>) -> int {
    let st = straight_top_from(cards, 12);
    let fs = flush_suit_from(cards, 0);
    let sft = sf_top_from(cards, 13);
    if st >= 4 && fs >= 0 && sft == 13 {
        8
    } else if st >= 4 && fs >= 0 && sft >= 5 {
        7
    } else if fs >= 0 && flush_high_from(cards, fs, 12) >= 5 {
        4
    } else if st >= 4 {
        3
    } else {
        let q = quad_rank(cards);
        let t1 = trips_rank(cards);
        let t2 = second_trips_rank(cards);
        let p1 = pair_rank(cards);
        if q >= 0 {
            6
        } else if t1 >= 0 && (t2 >= 0 || p1 >= 0) {
            5
        } else if t1 >= 0 {
            2
        } else if p1 >= 0 {
            1
        } else {
            0
        }
    }
}

/// The tie-break ranks of a hand, strongest first: the primary rank
/// (weight 10_000 in the score), the secondary rank (weight 100) and the
/// kicker (weight 1). Categories that use fewer than three take zero for
/// the rest.
pub open spec fn tiebreaks(cards: Seq<u8>) -> (int, int, int) {
    let st = straight_top_from(cards, 12);
    let fs = flush_suit_from(cards, 0);
    let sft = sf_top_from(cards, 13);
    if st >= 4 && fs >= 0 && sft == 13 {
        (0, 0, 0)
    } else if st >= 4 && fs >= 0 && sft >= 5 {
        (sft, 0, 0)
    } else if fs >= 0 && flush_high_from(cards, fs, 12) >= 5 {
        (flush_high_from(cards, fs, 12), 0, 0)
    } else if st >= 4 {
        (st + 1, 0, 0)
    } else {
        let q = quad_rank(cards);
        let t1 = trips_rank(cards);
        let t2 = second_trips_rank(cards);
        let p1 = pair_rank(cards);
        let p2 = second_pair_rank(cards);
        let hi = high_rank(cards);
        if q >= 0 {
            (q, 0, if q == hi { 0int } else { hi })
        } else if t1 >= 0 && t2 >= 0 {
            (t1, t2, 0)
        } else if t1 >= 0 && p1 >= 0 {
            (t1, p1, 0)
        } else if t1 >= 0 {
            (t1, 0, hi)
        } else if p1 >= 0 && p2 >= 0 {
            (p1, p2, hi)
        } else if p1 >= 0 {
            (p1, 0, hi)
        } else if hi >= 0 {
            (0, 0, hi)
        } else {
            (0, 0, 0)
        }
    }
}

/// A rank found by the exact-count scan lies at or below the start, and
/// when found it really is held by exactly `k` cards.
proof fn lemma_top_with_count_bounds(cards: Seq<u8>, k: int, i: int)
    requires
        i >= -1,
    ensures
        -1 <= top_with_count(cards, k, i) <= i,
        top_with_count(cards, k, i) >= 0 ==> count_val(cards, top_with_count(cards, k, i)) == k,
    decreases i + 1,
{
    if i >= 0 && count_val(cards, i) != k {
        lemma_top_with_count_bounds(cards, k, i - 1);
    }
}

/// The presence scan finds a rank at or below the start; when it finds
/// one, that rank is present, and it misses no present rank below the
/// start.
proof fn lemma_top_present_bounds(cards: Seq<u8>, i: int)
    requires
        i >= -1,
    ensures
        -1 <= top_present_from(cards, i) <= i,
        top_present_from(cards, i) >= 0 ==> count_val(cards, top_present_from(cards, i)) >= 1,
        forall|v: int|
            0 <= v <= i && count_val(cards, v) >= 1 ==> top_present_from(cards, i) >= v,
    decreases i + 1,
{
    if i >= 0 && count_val(cards, i) < 1 {
        lemma_top_present_bounds(cards, i - 1);
    }
}

/// The straight scan result lies in 4..=start or is -1.
proof fn lemma_straight_top_bounds(cards: Seq<u8>, i: int)
    requires
        i >= -1,
    ensures
        straight_top_from(cards, i) == -1 || 4 <= straight_top_from(cards, i) <= i,
    decreases i + 1,
{
    if i >= 4 && !run5_at(cards, i) {
        lemma_straight_top_bounds(cards, i - 1);
    }
}

/// The straight-flush scan result lies in 5..=start or is -1.
proof fn lemma_sf_top_bounds(cards: Seq<u8>, cn: int)
    requires
        cn >= -1,
    ensures
        sf_top_from(cards, cn) == -1 || 5 <= sf_top_from(cards, cn) <= cn,
    decreases cn + 1,
{
    if cn >= 5 && !sf_exists_at(cards, cn) {
        lemma_sf_top_bounds(cards, cn - 1);
    }
}

/// The flush high-card scan result lies in 5..=start or is -1.
proof fn lemma_flush_high_bounds(cards: Seq<u8>, s: int, i: int)
    requires
        i >= -1,
    ensures
        flush_high_from(cards, s, i) == -1 || 5 <= flush_high_from(cards, s, i) <= i,
    decreases i + 1,
{
    if i >= 5 && count_card(cards, s * 13 + i) < 1 {
        lemma_flush_high_bounds(cards, s, i - 1);
    }
}

/// The flush-suit scan result lies in start..=3 or is -1.
proof fn lemma_flush_suit_bounds(cards: Seq<u8>, s: int)
    requires
        0 <= s <= 4,
    ensures
        flush_suit_from(cards, s) == -1 || s <= flush_suit_from(cards, s) <= 3,
    decreases 4 - s,
{
    if s < 4 && count_suit(cards, s) < 5 {
        lemma_flush_suit_bounds(cards, s + 1);
    }
}

/// The score is the weighted sum of the category band and the tie-break
/// ranks, and every component is bounded: so no band can overlap the next.
pub proof fn lemma_score_decomposition(cards: Seq<u8>)
    ensures
        0 <= category(cards) <= 8,
        0 <= tiebreaks(cards).0 <= 13,
        0 <= tiebreaks(cards).1 <= 12,
        0 <= tiebreaks(cards).2 <= 12,
        spec_score(cards) == 1_000_000 * category(cards) + 10_000 * tiebreaks(cards).0 + 100
            * tiebreaks(cards).1 + tiebreaks(cards).2,
{
    lemma_straight_top_bounds(cards, 12);
    lemma_sf_top_bounds(cards, 13);
    lemma_flush_suit_bounds(cards, 0);
    let fs = flush_suit_from(cards, 0);
    lemma_flush_high_bounds(cards, fs, 12);
    lemma_top_with_count_bounds(cards, 4, 12);
    lemma_top_with_count_bounds(cards, 3, 12);
    lemma_top_with_count_bounds(cards, 2, 12);
    lemma_top_present_bounds(cards, 12);
    let q = quad_rank(cards);
    let t1 = trips_rank(cards);
    let p1 = pair_rank(cards);
    if t1 > 0 {
        lemma_top_with_count_bounds(cards, 3, t1 - 1);
    }
    if p1 > 0 {
        lemma_top_with_count_bounds(cards, 2, p1 - 1);
    }
    let p2 = second_pair_rank(cards);
    if p2 > 0 {
        lemma_top_with_count_bounds(cards, 2, p2 - 1);
    }
    if q >= 0 {
        assert(count_val(cards, q) == 4);
        assert(top_present_from(cards, 12) >= q);
    }
    if t1 >= 0 {
        assert(count_val(cards, t1) == 3);
        assert(top_present_from(cards, 12) >= t1);
    }
    if p1 >= 0 {
        assert(count_val(cards, p1) == 2);
        assert(top_present_from(cards, 12) >= p1);
    }
}

/// Evaluator monotonicity. A hand of a strictly higher category always
/// scores strictly higher; within one category, a strictly higher
/// tie-break (compared rank by rank, strongest first) scores strictly
/// higher; and hands with equal category and equal tie-breaks score equal.
pub proof fn lemma_evaluator_monotonic(a: Seq<u8>, b: Seq<u8>)
    ensures
        category(a) > category(b) ==> spec_score(a) > spec_score(b),
        category(a) == category(b) && tiebreaks(a).0 > tiebreaks(b).0 ==> spec_score(a)
            > spec_score(b),
        category(a) == category(b) && tiebreaks(a).0 == tiebreaks(b).0 && tiebreaks(a).1
            > tiebreaks(b).1 ==> spec_score(a) > spec_score(b),
        category(a) == category(b) && tiebreaks(a).0 == tiebreaks(b).0 && tiebreaks(a).1
            == tiebreaks(b).1 && tiebreaks(a).2 > tiebreaks(b).2 ==> spec_score(a) > spec_score(b),
        category(a) == category(b) && tiebreaks(a) == tiebreaks(b) ==> spec_score(a)
            == spec_score(b),
{
    lemma_score_decomposition(a);
    lemma_score_decomposition(b);
}

} // verus!
