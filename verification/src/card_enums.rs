use vstd::prelude::*;

verus! {

/// A playing card. The rank is 1 (a two) through 13 (an ace); the suit is
/// 1 (spades), 2 (hearts), 3 (diamonds) or 4 (clubs). A card corresponds
/// to exactly one integer in 1..=52: rank `((n-1) % 13) + 1`, suit
/// `((n-1) / 13) + 1`.
#[derive(Clone, Copy, Debug, PartialEq, Eq, Structural)]
pub struct Card {
    pub card_value: u8,
    pub card_suit: u8,
}

impl Card {
    /// A card is well formed when its rank and suit are in range.
    pub open spec fn wf(self) -> bool {
        1 <= self.card_value <= 13 && 1 <= self.card_suit <= 4
    }

    /// The unique integer in 1..=52 that encodes this card.
    pub open spec fn spec_to_int(self) -> int {
        self.card_value + (self.card_suit - 1) * 13
    }

    /// Decodes an integer in 1..=52 into its rank/suit pair.
    pub fn card_from_int(val: &u8) -> (c: Card)
        requires
            1 <= *val <= 52,
        ensures
            c.wf(),
            c.card_value == ((*val - 1) % 13) + 1,
            c.card_suit == ((*val - 1) / 13) + 1,
            c.spec_to_int() == *val,
    {
        let card_value: u8 = ((*val - 1) % 13) + 1;
        let card_suit: u8 = ((*val - 1) / 13) + 1;
        Card { card_value, card_suit }
    }

    /// Encodes this card back into its integer in 1..=52.
    pub fn to_int(&self) -> (n: u8)
        requires
            self.wf(),
        ensures
            n == self.spec_to_int(),
            1 <= n <= 52,
    {
        self.card_value + (self.card_suit - 1) * 13
    }
}

/// ASCII lower-casing of one character, as the name lookup applies it.
pub open spec fn lower_char(c: char) -> char {
    match c {
        'A' => 'a',
        'B' => 'b',
        'C' => 'c',
        'D' => 'd',
        'E' => 'e',
        'F' => 'f',
        'G' => 'g',
        'H' => 'h',
        'I' => 'i',
        'J' => 'j',
        'K' => 'k',
        'L' => 'l',
        'M' => 'm',
        'N' => 'n',
        'O' => 'o',
        'P' => 'p',
        'Q' => 'q',
        'R' => 'r',
        'S' => 's',
        'T' => 't',
        'U' => 'u',
        'V' => 'v',
        'W' => 'w',
        'X' => 'x',
        'Y' => 'y',
        'Z' => 'z',
        _ => c,
    }
}

/// A string lower-cased character by character.
pub open spec fn lower_seq(s: Seq<char>) -> Seq<char> {
    s.map_values(|c: char| lower_char(c))
}

fn lower_exec(c: char) -> (r: char)
    ensures
        r == lower_char(c),
{
    match c {
        'A' => 'a',
        'B' => 'b',
        'C' => 'c',
        'D' => 'd',
        'E' => 'e',
        'F' => 'f',
        'G' => 'g',
        'H' => 'h',
        'I' => 'i',
        'J' => 'j',
        'K' => 'k',
        'L' => 'l',
        'M' => 'm',
        'N' => 'n',
        'O' => 'o',
        'P' => 'p',
        'Q' => 'q',
        'R' => 'r',
        'S' => 's',
        'T' => 't',
        'U' => 'u',
        'V' => 'v',
        'W' => 'w',
        'X' => 'x',
        'Y' => 'y',
        'Z' => 'z',
        _ => c,
    }
}

/// Whether `s`, lower-cased, reads exactly as `t`.
fn eq_lowered(s: &str, t: &str) -> (b: bool)
    ensures
        b == (lower_seq(s@) == t@),
{
    let n = s.unicode_len();
    let m = t.unicode_len();
    if n != m {
        proof {
            assert(lower_seq(s@).len() != t@.len());
        }
        return false;
    }
    let mut i: usize = 0;
    while i < n
        invariant
            n == s@.len(),
            m == t@.len(),
            n == m,
            i <= n,
            forall|j: int| 0 <= j < i ==> lower_char(s@[j]) == #[trigger] t@[j],
        decreases n - i,
    {
        let cs = s.get_char(i);
        let ct = t.get_char(i);
        if lower_exec(cs) != ct {
            proof {
                assert(lower_seq(s@)[i as int] != t@[i as int]);
            }
            return false;
        }
        i = i + 1;
    }
    proof {
        assert(lower_seq(s@) =~= t@);
    }
    true
}

/// The suit code a name denotes, case-insensitively: spades 1, hearts 2,
/// diamonds 3, clubs 4; 0 for anything else.
pub open spec fn spec_suit_code(s: Seq<char>) -> u8 {
    if lower_seq(s) == "spade"@ {
        1
    } else if lower_seq(s) == "heart"@ {
        2
    } else if lower_seq(s) == "diamond"@ {
        3
    } else if lower_seq(s) == "club"@ {
        4
    } else {
        0
    }
}

/// The rank code a name denotes, case-insensitively: "two" is 1 up
/// through "ace" at 13; 0 for anything else.
pub open spec fn spec_value_code(s: Seq<char>) -> u8 {
    if lower_seq(s) == "two"@ {
        1
    } else if lower_seq(s) == "three"@ {
        2
    } else if lower_seq(s) == "four"@ {
        3
    } else if lower_seq(s) == "five"@ {
        4
    } else if lower_seq(s) == "six"@ {
        5
    } else if lower_seq(s) == "seven"@ {
        6
    } else if lower_seq(s) == "eight"@ {
        7
    } else if lower_seq(s) == "nine"@ {
        8
    } else if lower_seq(s) == "ten"@ {
        9
    } else if lower_seq(s) == "jack"@ {
        10
    } else if lower_seq(s) == "queen"@ {
        11
    } else if lower_seq(s) == "king"@ {
        12
    } else if lower_seq(s) == "ace"@ {
        13
    } else {
        0
    }
}

fn suit_code(suit: &str) -> (c: u8)
    ensures
        c == spec_suit_code(suit@),
{
    if eq_lowered(suit, "spade") {
        1
    } else if eq_lowered(suit, "heart") {
        2
    } else if eq_lowered(suit, "diamond") {
        3
    } else if eq_lowered(suit, "club") {
        4
    } else {
        0
    }
}

fn value_code(value: &str) -> (c: u8)
    ensures
        c == spec_value_code(value@),
{
    if eq_lowered(value, "two") {
        1
    } else if eq_lowered(value, "three") {
        2
    } else if eq_lowered(value, "four") {
        3
    } else if eq_lowered(value, "five") {
        4
    } else if eq_lowered(value, "six") {
        5
    } else if eq_lowered(value, "seven") {
        6
    } else if eq_lowered(value, "eight") {
        7
    } else if eq_lowered(value, "nine") {
        8
    } else if eq_lowered(value, "ten") {
        9
    } else if eq_lowered(value, "jack") {
        10
    } else if eq_lowered(value, "queen") {
        11
    } else if eq_lowered(value, "king") {
        12
    } else if eq_lowered(value, "ace") {
        13
    } else {
        0
    }
}

impl Card {
    /// Builds the card a suit name and a rank name denote, matched
    /// case-insensitively; unknown names are outside the contract.
    pub fn card_from_name(suit: &str, value: &str) -> (c: Card)
        requires
            spec_suit_code(suit@) != 0,
            spec_value_code(value@) != 0,
        ensures
            c.wf(),
            c.card_suit == spec_suit_code(suit@),
            c.card_value == spec_value_code(value@),
    {
        let card_suit = suit_code(suit);
        let card_value = value_code(value);
        Card { card_value, card_suit }
    }
}

/// Decoding is the inverse of encoding: every integer in 1..=52 decodes to
/// the one rank/suit pair that encodes back to it, so encoding is injective
/// over the 52-card space.
pub proof fn lemma_card_round_trip(n: u8)
    requires
        1 <= n <= 52,
    ensures
        ((((n - 1) % 13) + 1) + ((((n - 1) / 13) + 1) - 1) * 13) == n,
{
}

/// The other direction of the round trip: a well-formed card is exactly
/// what its own integer decodes to.
pub proof fn lemma_card_decode_encode(c: Card)
    requires
        c.wf(),
    ensures
        ((c.spec_to_int() - 1) % 13) + 1 == c.card_value,
        ((c.spec_to_int() - 1) / 13) + 1 == c.card_suit,
{
    vstd::arithmetic::div_mod::lemma_fundamental_div_mod_converse(
        c.spec_to_int() - 1,
        13,
        c.card_suit - 1,
        c.card_value - 1,
    );
}

/// Encoding is injective: two well-formed cards with the same integer
/// are the same card.
pub proof fn lemma_card_encode_injective(a: Card, b: Card)
    requires
        a.wf(),
        b.wf(),
        a.spec_to_int() == b.spec_to_int(),
    ensures
        a == b,
{
    lemma_card_decode_encode(a);
    lemma_card_decode_encode(b);
}

} // verus!
