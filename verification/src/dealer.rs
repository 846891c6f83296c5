use vstd::prelude::*;

use crate::errors::HoldemError;

verus! {

/// The ordered deck: the 52 card integers 1..=52 in ascending order.
pub open spec fn full_deck() -> Seq<u8> {
    Seq::new(52, |i: int| (i + 1) as u8)
}

/// Owns the deck of 52 card integers and a cursor to the next undealt
/// position. A card is never issued twice between shuffles: the deck holds
/// distinct values and the cursor only moves forward.
#[derive(Debug)]
pub struct Dealer {
    pub card_idx: usize,
    pub deck: Vec<u8>,
}

/// Exchanging a sequence for one with the same multiset of elements keeps
/// the length, the element bounds, and distinctness.
proof fn lemma_permutation_wf(s1: Seq<u8>, s2: Seq<u8>)
    requires
        s1.to_multiset() == s2.to_multiset(),
        s1.len() == 52,
        forall|i: int| 0 <= i < 52 ==> 1 <= #[trigger] s1[i] <= 52,
        s1.no_duplicates(),
    ensures
        s2.len() == 52,
        forall|i: int| 0 <= i < 52 ==> 1 <= #[trigger] s2[i] <= 52,
        s2.no_duplicates(),
{
    broadcast use vstd::seq_lib::group_to_multiset_ensures;

    assert(s1.to_multiset().len() == s1.len());
    assert(s2.to_multiset().len() == s2.len());
    s1.lemma_multiset_has_no_duplicates();
    s2.lemma_multiset_has_no_duplicates_conv();
    assert forall|i: int| 0 <= i < 52 implies 1 <= #[trigger] s2[i] <= 52 by {
        assert(s2.contains(s2[i]));
        assert(s2.to_multiset().count(s2[i]) > 0);
        assert(s1.to_multiset().count(s2[i]) > 0);
        assert(s1.contains(s2[i]));
        let j = choose|j: int| 0 <= j < s1.len() && s1[j] == s2[i];
        assert(1 <= s1[j] <= 52);
    }
}

/// Relies on rand's `SliceRandom::shuffle` (a Durstenfeld Fisher-Yates
/// shuffle): it permutes the slice in place, so the multiset of elements
/// is unchanged whatever permutation was drawn.
#[verifier::external_body]
fn shuffle_in_place(deck: &mut Vec<u8>)
    ensures
        final(deck)@.to_multiset() == old(deck)@.to_multiset(),
{
    let mut rng = rand::rng();
    rand::seq::SliceRandom::shuffle(deck.as_mut_slice(), &mut rng);
}

impl Dealer {
    /// The deck always holds 52 distinct card integers in 1..=52.
    pub open spec fn wf(self) -> bool {
        self.deck@.len() == 52 && (forall|i: int|
            0 <= i < 52 ==> 1 <= #[trigger] self.deck@[i] <= 52)
            && self.deck@.no_duplicates()
    }

    /// A fresh dealer: the unshuffled ascending deck, cursor at the start.
    pub fn new() -> (d: Dealer)
        ensures
            d.wf(),
            d.card_idx == 0,
            d.deck@ == full_deck(),
    {
        let mut deck: Vec<u8> = Vec::new();
        let mut n: u8 = 1;
        while n <= 52
            invariant
                1 <= n <= 53,
                deck@.len() == n - 1,
                forall|i: int| 0 <= i < deck@.len() ==> #[trigger] deck@[i] == i + 1,
            decreases 53 - n,
        {
            deck.push(n);
            n = n + 1;
        }
        proof {
            assert(deck@ =~= full_deck());
        }
        Dealer { card_idx: 0, deck }
    }

    /// Permutes the deck at random and resets the cursor to the start.
    pub fn shuffle(&mut self)
        requires
            old(self).wf(),
        ensures
            final(self).wf(),
            final(self).card_idx == 0,
            final(self).deck@.to_multiset() == old(self).deck@.to_multiset(),
    {
        self.card_idx = 0;
        shuffle_in_place(&mut self.deck);
        proof {
            lemma_permutation_wf(old(self).deck@, self.deck@);
        }
    }

    /// Returns the card at the cursor and advances it. The deck is treated
    /// as exhausted once the cursor reaches the defensive bound of 51,
    /// which is far beyond what one hand can deal.
    pub fn next_card(&mut self) -> (r: Result<u8, HoldemError>)
        requires
            old(self).wf(),
        ensures
            final(self).wf(),
            final(self).deck == old(self).deck,
            old(self).card_idx >= 51 ==> r == Err::<u8, HoldemError>(
                HoldemError::InvariantViolation,
            ) && *final(self) == *old(self),
            old(self).card_idx < 51 ==> r == Ok::<u8, HoldemError>(
                old(self).deck@[old(self).card_idx as int],
            ) && final(self).card_idx == old(self).card_idx + 1 && 1 <= old(
                self,
            ).deck@[old(self).card_idx as int] <= 52,
    {
        if self.card_idx >= 51 {
            return Err(HoldemError::InvariantViolation);
        }
        let card: u8 = self.deck[self.card_idx];
        self.card_idx = self.card_idx + 1;
        Ok(card)
    }
}

} // verus!
