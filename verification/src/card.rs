use vstd::prelude::*;
use vstd::multiset::Multiset;

use crate::engine_error::EngineError;

verus! {

/// A suit. `Trump` and `Excuse` are treated as suits of their own.
#[derive(Debug, Clone, Copy, PartialEq, Eq, Hash, Structural)]
pub enum Color {
    Spade,
    Heart,
    Diamond,
    Club,
    Trump,
    Excuse,
}

/// An immutable card identity: a suit and a rank.
#[derive(Debug, Clone, Copy, PartialEq, Eq, Hash, Structural)]
pub struct Card {
    pub color: Color,
    pub value: u8,
}

/// The legal rank ranges: trumps run 1..=21, the Excuse carries the fixed
/// sentinel rank 0, every other suit runs 1..=14.
pub open spec fn valid_card(c: Card) -> bool {
    match c.color {
        Color::Excuse => c.value == 0,
        Color::Trump => 1 <= c.value <= 21,
        _ => 1 <= c.value <= 14,
    }
}

/// The point value of a card: trump 1 or 21 and the Excuse are worth 9,
/// any other trump 1, a plain card of rank at most 10 is worth 1, and a
/// court card of rank r > 10 is worth (r - 10) * 2 + 1.
pub open spec fn card_points(c: Card) -> int {
    match c.color {
        Color::Trump => if c.value == 1 || c.value == 21 { 9 } else { 1 },
        Color::Excuse => 9,
        _ => if c.value < 11 { 1 } else { (c.value - 10) * 2 + 1 },
    }
}

/// Trick-beat comparison against the current best card, given the led suit:
/// same suit compares by rank, trump beats any non-trump, nothing but a
/// higher trump beats a trump, and a fresh card of the led suit beats an
/// off-suit best.
pub open spec fn beats(c: Card, best: Card, lead: Color) -> bool {
    if c.color == best.color {
        c.value > best.value
    } else if c.color == Color::Trump {
        true
    } else if best.color == Color::Trump {
        false
    } else {
        c.color == lead
    }
}

/// Offset of each suit's block inside the canonical deck enumeration.
pub open spec fn suit_base(color: Color) -> int {
    match color {
        Color::Excuse => 0,
        Color::Diamond => 0,
        Color::Spade => 14,
        Color::Club => 28,
        Color::Heart => 42,
        Color::Trump => 56,
    }
}

/// Position of a card in the canonical deck enumeration; injective on
/// valid cards.
pub open spec fn card_index(c: Card) -> int {
    suit_base(c.color) + c.value
}

/// The card at a given position of the canonical deck enumeration.
pub open spec fn card_of_index(i: int) -> Card {
    if i == 0 {
        Card { color: Color::Excuse, value: 0 }
    } else if i <= 14 {
        Card { color: Color::Diamond, value: i as u8 }
    } else if i <= 28 {
        Card { color: Color::Spade, value: (i - 14) as u8 }
    } else if i <= 42 {
        Card { color: Color::Club, value: (i - 28) as u8 }
    } else if i <= 56 {
        Card { color: Color::Heart, value: (i - 42) as u8 }
    } else {
        Card { color: Color::Trump, value: (i - 56) as u8 }
    }
}

/// The full 78-card deck in canonical order: the Excuse, then 14 cards of
/// each plain suit, then the 21 trumps.
pub open spec fn deck() -> Seq<Card> {
    Seq::new(78, |i: int| card_of_index(i))
}

/// The deck as a multiset: every valid card exactly once.
pub open spec fn deck_mset() -> Multiset<Card> {
    deck().to_multiset()
}

/// Any card is worth between 1 and 491 points; a valid one at most 9.
pub proof fn lemma_card_points_range(c: Card)
    ensures
        1 <= card_points(c) <= 491,
        valid_card(c) ==> card_points(c) <= 9,
{
}

/// Valid cards sit at their canonical index.
pub proof fn lemma_card_index_roundtrip(c: Card)
    requires
        valid_card(c),
    ensures
        0 <= card_index(c) < 78,
        card_of_index(card_index(c)) == c,
{
}

/// Every canonical index holds a valid card, at its own index.
pub proof fn lemma_index_card_roundtrip(i: int)
    requires
        0 <= i < 78,
    ensures
        valid_card(card_of_index(i)),
        card_index(card_of_index(i)) == i,
{
}

/// The deck holds exactly the valid cards, each exactly once.
pub proof fn lemma_deck_properties()
    ensures
        deck().len() == 78,
        forall|c: Card| #[trigger] deck().contains(c) <==> valid_card(c),
        forall|c: Card|
            #[trigger] deck_mset().count(c) == if valid_card(c) { 1int } else { 0int },
{
    assert forall|c: Card| valid_card(c) implies #[trigger] deck().contains(c) by {
        lemma_card_index_roundtrip(c);
        assert(deck()[card_index(c)] == c);
    }
    assert forall|c: Card| #[trigger] deck().contains(c) implies valid_card(c) by {
        let i = choose|i: int| 0 <= i < deck().len() && deck()[i] == c;
        lemma_index_card_roundtrip(i);
    }
    assert(deck().no_duplicates()) by {
        assert forall|i: int, j: int|
            0 <= i < 78 && 0 <= j < 78 && i != j implies deck()[i] != deck()[j] by {
            lemma_index_card_roundtrip(i);
            lemma_index_card_roundtrip(j);
        }
    }
    deck().lemma_multiset_has_no_duplicates();
    broadcast use vstd::seq_lib::group_to_multiset_ensures;

    assert forall|c: Card|
        #[trigger] deck_mset().count(c) == if valid_card(c) { 1int } else { 0int } by {
        if valid_card(c) {
            assert(deck().contains(c));
        } else {
            assert(!deck().contains(c));
        }
    }
}

/// A run of distinct valid cards is never longer than the deck.
pub proof fn lemma_distinct_valid_card_count(s: Seq<Card>)
    requires
        s.no_duplicates(),
        forall|i: int| 0 <= i < s.len() ==> valid_card(#[trigger] s[i]),
    ensures
        s.len() <= 78,
{
    broadcast use vstd::set::group_set_axioms;

    lemma_deck_properties();
    assert(deck().no_duplicates()) by {
        assert forall|i: int, j: int|
            0 <= i < 78 && 0 <= j < 78 && i != j implies deck()[i] != deck()[j] by {
            lemma_index_card_roundtrip(i);
            lemma_index_card_roundtrip(j);
        }
    }
    s.unique_seq_to_set();
    deck().unique_seq_to_set();
    assert(s.to_set().subset_of(deck().to_set())) by {
        assert forall|c: Card| s.to_set().contains(c) implies deck().to_set().contains(c) by {
            assert(s.contains(c));
            let i = choose|i: int| 0 <= i < s.len() && s[i] == c;
            assert(valid_card(c));
            assert(deck().contains(c));
        }
    }
    vstd::set_lib::lemma_len_subset(s.to_set(), deck().to_set());
}

/// A sequence of cards covered by the deck (each card at most once) holds
/// distinct valid cards.
pub proof fn lemma_deck_part_wf(s: Seq<Card>)
    requires
        forall|c: Card| #[trigger] s.to_multiset().count(c) <= deck_mset().count(c),
    ensures
        s.no_duplicates(),
        forall|i: int| 0 <= i < s.len() ==> valid_card(#[trigger] s[i]),
{
    lemma_deck_properties();
    broadcast use vstd::seq_lib::group_to_multiset_ensures;

    assert forall|c: Card| s.to_multiset().contains(c) implies s.to_multiset().count(c) == 1 by {
        assert(s.to_multiset().count(c) <= deck_mset().count(c));
    }
    s.lemma_multiset_has_no_duplicates_conv();
    assert forall|i: int| 0 <= i < s.len() implies valid_card(#[trigger] s[i]) by {
        assert(s.contains(s[i]));
        assert(s.to_multiset().count(s[i]) > 0);
        assert(deck_mset().count(s[i]) > 0);
    }
}

impl Card {
    /// A validated card, or the rule violation naming the illegal rank.
    pub fn new(color: Color, value: u8) -> (r: Result<Card, EngineError>)
        ensures
            valid_card(Card { color, value }) <==> r == Ok::<Card, EngineError>(
                Card { color, value },
            ),
            !valid_card(Card { color, value }) <==> r == Err::<Card, EngineError>(
                EngineError::InvalidCardValue(value),
            ),
    {
        let res = Card { color, value };
        match res.validate() {
            Ok(()) => Ok(res),
            Err(e) => Err(e),
        }
    }

    /// Accepts exactly the valid rank ranges.
    pub fn validate(&self) -> (r: Result<(), EngineError>)
        ensures
            valid_card(*self) <==> r == Ok::<(), EngineError>(()),
            !valid_card(*self) <==> r == Err::<(), EngineError>(
                EngineError::InvalidCardValue(self.value),
            ),
    {
        match self.color {
            Color::Excuse => {
                if self.value == 0 {
                    Ok(())
                } else {
                    Err(EngineError::InvalidCardValue(self.value))
                }
            },
            Color::Trump => {
                if 1 <= self.value && self.value <= 21 {
                    Ok(())
                } else {
                    Err(EngineError::InvalidCardValue(self.value))
                }
            },
            _ => {
                if 1 <= self.value && self.value <= 14 {
                    Ok(())
                } else {
                    Err(EngineError::InvalidCardValue(self.value))
                }
            },
        }
    }

    /// The card's point value.
    pub fn points(&self) -> (r: usize)
        ensures
            r == card_points(*self),
    {
        match self.color {
            Color::Trump => {
                if self.value == 1 || self.value == 21 {
                    9
                } else {
                    1
                }
            },
            Color::Excuse => 9,
            _ => {
                if self.value < 11 {
                    1
                } else {
                    ((self.value as usize) - 10) * 2 + 1
                }
            },
        }
    }

    /// Whether this card beats the current best card under the led suit.
    pub fn win_against(&self, other: &Self, lead_color: &Color) -> (r: bool)
        ensures
            r == beats(*self, *other, *lead_color),
    {
        if self.color == other.color {
            self.value > other.value
        } else if self.color == Color::Trump {
            true
        } else if other.color == Color::Trump {
            false
        } else {
            self.color == *lead_color
        }
    }

    /// The full deck, one entry per valid card, in canonical order.
    pub fn all_possibles() -> (r: Vec<Card>)
        ensures
            r@ == deck(),
    {
        let mut r: Vec<Card> = Vec::new();
        r.push(Card { color: Color::Excuse, value: 0 });
        let mut v: u8 = 1;
        while v <= 14
            invariant
                1 <= v <= 15,
                r@ =~= deck().subrange(0, v as int),
            decreases 15 - v,
        {
            r.push(Card { color: Color::Diamond, value: v });
            assert(r@ =~= deck().subrange(0, v + 1));
            v = v + 1;
        }
        let mut v: u8 = 1;
        while v <= 14
            invariant
                1 <= v <= 15,
                r@ =~= deck().subrange(0, 14 + v as int),
            decreases 15 - v,
        {
            r.push(Card { color: Color::Spade, value: v });
            assert(r@ =~= deck().subrange(0, 15 + v as int));
            v = v + 1;
        }
        let mut v: u8 = 1;
        while v <= 14
            invariant
                1 <= v <= 15,
                r@ =~= deck().subrange(0, 28 + v as int),
            decreases 15 - v,
        {
            r.push(Card { color: Color::Club, value: v });
            assert(r@ =~= deck().subrange(0, 29 + v as int));
            v = v + 1;
        }
        let mut v: u8 = 1;
        while v <= 14
            invariant
                1 <= v <= 15,
                r@ =~= deck().subrange(0, 42 + v as int),
            decreases 15 - v,
        {
            r.push(Card { color: Color::Heart, value: v });
            assert(r@ =~= deck().subrange(0, 43 + v as int));
            v = v + 1;
        }
        let mut v: u8 = 1;
        while v <= 21
            invariant
                1 <= v <= 22,
                r@ =~= deck().subrange(0, 56 + v as int),
            decreases 22 - v,
        {
            r.push(Card { color: Color::Trump, value: v });
            assert(r@ =~= deck().subrange(0, 57 + v as int));
            v = v + 1;
        }
        assert(r@ =~= deck());
        r
    }
}

} // verus!
