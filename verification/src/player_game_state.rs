use vstd::prelude::*;

use crate::card::{valid_card, Card, Color};
use crate::engine_error::EngineError;
use crate::trick::Trick;

verus! {

/// One seat's current holding.
#[derive(Debug)]
pub struct PlayerGameState {
    pub hand: Vec<Card>,
}

impl Clone for PlayerGameState {
    /// A deep copy holding the same cards.
    fn clone(&self) -> (r: Self)
        ensures
            r.hand@ == self.hand@,
    {
        PlayerGameState { hand: crate::vec_util::copy_vec(&self.hand) }
    }
}

impl PlayerGameState {
    /// A hand holds distinct valid cards.
    pub open spec fn wf(self) -> bool {
        &&& self.hand@.no_duplicates()
        &&& forall|i: int| 0 <= i < self.hand@.len() ==> valid_card(#[trigger] self.hand@[i])
    }

    pub open spec fn spec_has_color(self, color: Color) -> bool {
        exists|i: int| 0 <= i < self.hand@.len() && (#[trigger] self.hand@[i]).color == color
    }

    pub open spec fn spec_can_overtrump(self, trick: Trick) -> bool {
        exists|i: int|
            0 <= i < self.hand@.len() && (#[trigger] self.hand@[i]).color == Color::Trump
                && self.hand@[i].value > trick.spec_highest_trump()
    }

    /// The verdict of the play-legality rules, in their fixed precedence:
    /// the card must be held; the Excuse is always legal; with a led suit
    /// in hand, that suit must be followed; a seat void in the led suit
    /// must trump if it can; a trumping seat must beat the highest trump
    /// so far if it holds a trump that can.
    pub open spec fn spec_allowed_verdict(self, card: Card, trick: Trick) -> Result<
        (),
        EngineError,
    > {
        if !self.hand@.contains(card) {
            Err(EngineError::DoesNotHaveCard)
        } else if card.color == Color::Excuse {
            Ok(())
        } else {
            match trick.spec_color() {
                None => Ok(()),
                Some(tc) => if tc != card.color && self.spec_has_color(tc) {
                    Err(EngineError::HasToFollowSuit)
                } else if !self.spec_has_color(tc) && card.color != Color::Trump
                    && self.spec_has_color(Color::Trump) {
                    Err(EngineError::HasToTrump)
                } else if !self.spec_has_color(tc) && card.color == Color::Trump
                    && self.spec_can_overtrump(trick) && !(card.value
                    > trick.spec_highest_trump()) {
                    Err(EngineError::HasToOvertrump)
                } else {
                    Ok(())
                },
            }
        }
    }

    pub open spec fn spec_allowed(self, card: Card, trick: Trick) -> bool {
        self.spec_allowed_verdict(card, trick) is Ok
    }

    /// Whether the hand holds the card.
    pub fn contains_card(&self, card: &Card) -> (r: bool)
        ensures
            r == self.hand@.contains(*card),
    {
        let mut i: usize = 0;
        while i < self.hand.len()
            invariant
                i <= self.hand@.len(),
                forall|j: int| 0 <= j < i ==> self.hand@[j] != *card,
            decreases self.hand@.len() - i,
        {
            if self.hand[i] == *card {
                return true;
            }
            i = i + 1;
        }
        false
    }

    /// Whether the hand holds a card of the suit.
    pub fn has_color(&self, color: Color) -> (r: bool)
        ensures
            r == self.spec_has_color(color),
    {
        let mut i: usize = 0;
        while i < self.hand.len()
            invariant
                i <= self.hand@.len(),
                forall|j: int| 0 <= j < i ==> (#[trigger] self.hand@[j]).color != color,
            decreases self.hand@.len() - i,
        {
            if self.hand[i].color == color {
                return true;
            }
            i = i + 1;
        }
        false
    }

    /// Whether the hand holds a trump above every trump in the trick.
    pub fn can_overtrump(&self, trick: &Trick) -> (r: bool)
        requires
            trick.wf(),
        ensures
            r == self.spec_can_overtrump(*trick),
    {
        let highest = trick.highest_trump();
        let mut i: usize = 0;
        while i < self.hand.len()
            invariant
                i <= self.hand@.len(),
                highest == trick.spec_highest_trump(),
                forall|j: int|
                    0 <= j < i ==> !((#[trigger] self.hand@[j]).color == Color::Trump
                        && self.hand@[j].value > trick.spec_highest_trump()),
            decreases self.hand@.len() - i,
        {
            let c = self.hand[i];
            if matches!(c.color, Color::Trump) && c.value > highest {
                proof {
                    assert((self.hand@[i as int]).color == Color::Trump && self.hand@[i as int].value
                        > trick.spec_highest_trump());
                }
                return true;
            }
            i = i + 1;
        }
        false
    }

    /// The position of the card in the hand, if held.
    fn index_of_card(&self, card: &Card) -> (r: Option<usize>)
        ensures
            match r {
                Some(i) => i < self.hand@.len() && self.hand@[i as int] == *card,
                None => !self.hand@.contains(*card),
            },
    {
        let mut i: usize = 0;
        while i < self.hand.len()
            invariant
                i <= self.hand@.len(),
                forall|j: int| 0 <= j < i ==> self.hand@[j] != *card,
            decreases self.hand@.len() - i,
        {
            if self.hand[i] == *card {
                return Some(i);
            }
            i = i + 1;
        }
        None
    }

    /// Removes a played card from the hand; rejects a card not held,
    /// changing nothing.
    pub fn use_card(&mut self, card: &Card) -> (r: Result<(), EngineError>)
        requires
            old(self).wf(),
        ensures
            final(self).wf(),
            match r {
                Ok(_) => {
                    &&& old(self).hand@.contains(*card)
                    &&& final(self).hand@.len() == old(self).hand@.len() - 1
                    &&& final(self).hand@.to_multiset() == old(self).hand@.to_multiset().remove(
                        *card,
                    )
                    &&& forall|c: Card|
                        #[trigger] final(self).hand@.contains(c) <==> (old(self).hand@.contains(c)
                            && c != *card)
                },
                Err(e) => {
                    &&& *final(self) == *old(self)
                    &&& !old(self).hand@.contains(*card)
                    &&& e == EngineError::DoesNotHaveCard
                },
            },
            r is Ok <==> old(self).hand@.contains(*card),
    {
        let i = match self.index_of_card(card) {
            Some(i) => i,
            None => { return Err(EngineError::DoesNotHaveCard); },
        };
        self.hand.remove(i);
        proof {
            let h0 = old(self).hand@;
            let h1 = self.hand@;
            let i = i as int;
            assert(h1 =~= h0.remove(i));
            broadcast use vstd::seq_lib::group_to_multiset_ensures;

            assert(h1.to_multiset() == h0.to_multiset().remove(*card));
            assert forall|k: int| 0 <= k < h1.len() implies h1[k] == (if k < i {
                h0[k]
            } else {
                h0[k + 1]
            }) by {
                assert(h0.remove(i) == h0.subrange(0, i) + h0.subrange(i + 1, h0.len() as int));
            }
            assert forall|c: Card| #[trigger] h1.contains(c) implies (h0.contains(c) && c
                != *card) by {
                let k = choose|k: int| 0 <= k < h1.len() && h1[k] == c;
                if k < i {
                    assert(h0[k] == c);
                    assert(h0[k] != h0[i]);
                } else {
                    assert(h0[k + 1] == c);
                    assert(h0[k + 1] != h0[i]);
                }
            }
            assert forall|c: Card| (h0.contains(c) && c != *card) implies #[trigger] h1.contains(
                c,
            ) by {
                let k = choose|k: int| 0 <= k < h0.len() && h0[k] == c;
                assert(k != i);
                if k < i {
                    assert(h1[k] == c);
                } else {
                    assert(h1[k - 1] == c);
                }
            }
            assert(h1.no_duplicates()) by {
                assert forall|a: int, b: int|
                    0 <= a < h1.len() && 0 <= b < h1.len() && a != b implies h1[a] != h1[b] by {
                    let a0 = if a < i {
                        a
                    } else {
                        a + 1
                    };
                    let b0 = if b < i {
                        b
                    } else {
                        b + 1
                    };
                    assert(h0[a0] != h0[b0]);
                }
            }
        }
        Ok(())
    }

    /// The verdict of the play-legality rules for one card.
    pub fn allowed_to_play(&self, card: &Card, trick: &Trick) -> (r: Result<(), EngineError>)
        requires
            trick.wf(),
        ensures
            r == self.spec_allowed_verdict(*card, *trick),
    {
        if !self.contains_card(card) {
            return Err(EngineError::DoesNotHaveCard);
        }
        if matches!(card.color, Color::Excuse) {
            return Ok(());
        }
        let trick_color = match trick.color() {
            None => { return Ok(()); },
            Some(tc) => tc,
        };
        if trick_color != card.color && self.has_color(trick_color) {
            return Err(EngineError::HasToFollowSuit);
        }
        if !self.has_color(trick_color) && !matches!(card.color, Color::Trump) && self.has_color(
            Color::Trump,
        ) {
            return Err(EngineError::HasToTrump);
        }
        if !self.has_color(trick_color) && matches!(card.color, Color::Trump)
            && self.can_overtrump(trick) && !trick.overtrumped_by(card) {
            return Err(EngineError::HasToOvertrump);
        }
        Ok(())
    }

    /// Every card of the hand that the rules allow against the trick.
    pub fn cards_allowed(&self, trick: &Trick) -> (r: Vec<Card>)
        requires
            trick.wf(),
            self.wf(),
        ensures
            forall|c: Card|
                #[trigger] r@.contains(c) <==> (self.hand@.contains(c) && self.spec_allowed(
                    c,
                    *trick,
                )),
            r@.no_duplicates(),
    {
        let mut r: Vec<Card> = Vec::new();
        let mut i: usize = 0;
        while i < self.hand.len()
            invariant
                i <= self.hand@.len(),
                self.wf(),
                trick.wf(),
                r@.no_duplicates(),
                forall|c: Card|
                    #[trigger] r@.contains(c) <==> (exists|j: int|
                        0 <= j < i && self.hand@[j] == c && self.spec_allowed(c, *trick)),
            decreases self.hand@.len() - i,
        {
            let card = self.hand[i];
            match self.allowed_to_play(&card, trick) {
                Ok(()) => {
                    proof {
                        if r@.contains(card) {
                            let j = choose|j: int|
                                0 <= j < i && self.hand@[j] == card && self.spec_allowed(
                                    card,
                                    *trick,
                                );
                            assert(self.hand@[j] == self.hand@[i as int]);
                            assert(false);
                        }
                    }
                    let ghost rpre = r@;
                    r.push(card);
                    proof {
                        assert forall|c: Card| #[trigger] r@.contains(c) implies (exists|j: int|
                            0 <= j < i + 1 && self.hand@[j] == c && self.spec_allowed(
                                c,
                                *trick,
                            )) by {
                            let k = choose|k: int| 0 <= k < r@.len() && r@[k] == c;
                            if k < r@.len() - 1 {
                                assert(r@.subrange(0, r@.len() - 1) =~= rpre);
                                assert(rpre.contains(c));
                            } else {
                                assert(c == card);
                                assert(self.hand@[i as int] == c);
                            }
                        }
                        assert forall|c: Card|
                            (exists|j: int|
                                0 <= j < i + 1 && self.hand@[j] == c && self.spec_allowed(
                                    c,
                                    *trick,
                                )) implies #[trigger] r@.contains(c) by {
                            let j = choose|j: int|
                                0 <= j < i + 1 && self.hand@[j] == c && self.spec_allowed(
                                    c,
                                    *trick,
                                );
                            if j < i {
                                assert(rpre.contains(c));
                                let k = choose|k: int| 0 <= k < rpre.len() && rpre[k] == c;
                                assert(r@[k] == c);
                            } else {
                                assert(r@[r@.len() - 1] == c);
                            }
                        }
                    }
                },
                Err(_) => {
                    proof {
                        assert forall|c: Card| #[trigger] r@.contains(c) implies (exists|j: int|
                            0 <= j < i + 1 && self.hand@[j] == c && self.spec_allowed(
                                c,
                                *trick,
                            )) by {}
                        assert forall|c: Card|
                            (exists|j: int|
                                0 <= j < i + 1 && self.hand@[j] == c && self.spec_allowed(
                                    c,
                                    *trick,
                                )) implies #[trigger] r@.contains(c) by {
                            let j = choose|j: int|
                                0 <= j < i + 1 && self.hand@[j] == c && self.spec_allowed(
                                    c,
                                    *trick,
                                );
                            if j == i {
                                assert(c == self.hand@[i as int]);
                                assert(!self.spec_allowed(c, *trick));
                            }
                        }
                    }
                },
            }
            i = i + 1;
        }
        proof {
            assert forall|c: Card|
                #[trigger] r@.contains(c) <==> (self.hand@.contains(c) && self.spec_allowed(
                    c,
                    *trick,
                )) by {
                if self.hand@.contains(c) && self.spec_allowed(c, *trick) {
                    let j = choose|j: int| 0 <= j < self.hand@.len() && self.hand@[j] == c;
                    assert(exists|j: int|
                        0 <= j < self.hand@.len() && self.hand@[j] == c && self.spec_allowed(
                            c,
                            *trick,
                        ));
                }
            }
        }
        r
    }

    /// Plays one card into the trick: turn order, legality, and possession
    /// are checked in that order, and on success the card moves from the
    /// hand to the seat's slot.
    pub fn play_a_card(&mut self, trick: &mut Trick, player: u8, card: &Card) -> (r: Result<
        (),
        EngineError,
    >)
        requires
            old(self).wf(),
            old(trick).wf(),
        ensures
            final(self).wf(),
            final(trick).wf(),
            final(trick).leader == old(trick).leader,
            match r {
                Ok(_) => {
                    &&& old(trick).spec_next_to_play() == Some(player as int)
                    &&& old(self).spec_allowed(*card, *old(trick))
                    &&& final(self).hand@.len() == old(self).hand@.len() - 1
                    &&& final(self).hand@.to_multiset() == old(self).hand@.to_multiset().remove(
                        *card,
                    )
                    &&& forall|c: Card|
                        #[trigger] final(self).hand@.contains(c) <==> (old(self).hand@.contains(c)
                            && c != *card)
                    &&& final(trick).cards@ == old(trick).cards@.update(
                        player as int,
                        Some(*card),
                    )
                },
                Err(e) => {
                    &&& *final(self) == *old(self)
                    &&& *final(trick) == *old(trick)
                    &&& (e == EngineError::FinishedHand <==> old(trick).spec_next_to_play()
                        is None)
                    &&& (old(trick).spec_next_to_play() is Some && old(
                        trick,
                    ).spec_next_to_play() != Some(player as int) ==> e
                        == EngineError::OutOfOrderPlay)
                    &&& (old(trick).spec_next_to_play() == Some(player as int) ==> old(
                        self,
                    ).spec_allowed_verdict(*card, *old(trick)) == Err::<(), EngineError>(e))
                },
            },
            r is Ok <==> (old(trick).spec_next_to_play() == Some(player as int) && old(
                self,
            ).spec_allowed(*card, *old(trick))),
    {
        match trick.next_to_play() {
            None => { return Err(EngineError::FinishedHand); },
            Some(p) => {
                if p != player {
                    return Err(EngineError::OutOfOrderPlay);
                }
            },
        }
        match self.allowed_to_play(card, trick) {
            Ok(()) => {},
            Err(e) => { return Err(e); },
        }
        match self.use_card(card) {
            Ok(()) => {},
            Err(e) => { return Err(e); },
        }
        match trick.play_card(player, card) {
            Ok(()) => Ok(()),
            Err(e) => {
                proof {
                    assert(false);
                }
                Err(e)
            },
        }
    }

    /// Takes six fresh cards into the hand, used when the revealed kitty
    /// joins the taker's hand before the discard.
    pub fn add_cards(&mut self, cards: &[Card; 6]) -> (r: ())
        requires
            old(self).wf(),
            cards@.no_duplicates(),
            forall|i: int| 0 <= i < 6 ==> valid_card(#[trigger] cards@[i]),
            forall|c: Card| #[trigger] cards@.contains(c) ==> !old(self).hand@.contains(c),
        ensures
            final(self).wf(),
            final(self).hand@ == old(self).hand@ + cards@,
    {
        let ghost h0 = old(self).hand@;
        self.hand.push(cards[0]);
        self.hand.push(cards[1]);
        self.hand.push(cards[2]);
        self.hand.push(cards[3]);
        self.hand.push(cards[4]);
        self.hand.push(cards[5]);
        proof {
            assert(self.hand@ =~= h0 + cards@);
            assert(self.hand@.no_duplicates()) by {
                assert forall|a: int, b: int|
                    0 <= a < self.hand@.len() && 0 <= b < self.hand@.len() && a
                        != b implies self.hand@[a] != self.hand@[b] by {
                    let n = h0.len() as int;
                    if a < n && b < n {
                        assert(h0[a] != h0[b]);
                    } else if a >= n && b >= n {
                        assert(cards@[a - n] != cards@[b - n]);
                    } else if a < n {
                        assert(cards@.contains(cards@[b - n]));
                        assert(!h0.contains(cards@[b - n]));
                        if h0[a] == cards@[b - n] {
                            assert(h0.contains(cards@[b - n]));
                        }
                    } else {
                        assert(cards@.contains(cards@[a - n]));
                        assert(!h0.contains(cards@[a - n]));
                        if h0[b] == cards@[a - n] {
                            assert(h0.contains(cards@[a - n]));
                        }
                    }
                }
            }
        }
    }

    /// Sets the six chosen cards aside, removing them from the hand for
    /// the rest of the match.
    pub fn chose_aside(&mut self, aside: &[Card; 6]) -> (r: Result<(), EngineError>)
        requires
            old(self).wf(),
        ensures
            final(self).wf(),
            match r {
                Ok(_) => {
                    &&& final(self).hand@.len() == old(self).hand@.len() - 6
                    &&& final(self).hand@.to_multiset() == old(self).hand@.to_multiset().sub(
                        aside@.to_multiset(),
                    )
                    &&& forall|c: Card|
                        #[trigger] final(self).hand@.contains(c) <==> (old(self).hand@.contains(c)
                            && !aside@.contains(c))
                },
                Err(e) => {
                    &&& *final(self) == *old(self)
                    &&& e == EngineError::DoesNotHaveCard
                },
            },
            r is Ok <==> (aside@.no_duplicates() && forall|i: int|
                0 <= i < 6 ==> old(self).hand@.contains(#[trigger] aside@[i])),
    {
        let ghost h0 = old(self).hand@;
        // a rejected choice must change nothing: check every card first
        let mut i: usize = 0;
        while i < 6
            invariant
                i <= 6,
                *self == *old(self),
                self.wf(),
                forall|a: int, b: int| 0 <= a < b < i ==> aside@[a] != aside@[b],
                forall|m: int| 0 <= m < i ==> self.hand@.contains(#[trigger] aside@[m]),
            decreases 6 - i,
        {
            let card = aside[i];
            let mut j: usize = 0;
            while j < i
                invariant
                    j <= i < 6,
                    *self == *old(self),
                    self.wf(),
                    card == aside@[i as int],
                    forall|m: int| 0 <= m < j ==> aside@[m] != card,
                decreases i - j,
            {
                if aside[j] == card {
                    return Err(EngineError::DoesNotHaveCard);
                }
                j = j + 1;
            }
            if !self.contains_card(&card) {
                return Err(EngineError::DoesNotHaveCard);
            }
            i = i + 1;
        }
        proof {
            assert(aside@.no_duplicates()) by {
                assert forall|a: int, b: int|
                    0 <= a < 6 && 0 <= b < 6 && a != b implies aside@[a] != aside@[b] by {
                    if a < b {
                    } else {
                        assert(aside@[b] != aside@[a]);
                    }
                }
            }
            broadcast use vstd::seq_lib::group_to_multiset_ensures;
            broadcast use vstd::multiset::group_multiset_axioms;

            assert(aside@.subrange(0, 0) =~= Seq::<Card>::empty());
            assert(h0.to_multiset().sub(aside@.subrange(0, 0).to_multiset()) =~= h0.to_multiset());
        }
        // every card is held and distinct, so each removal succeeds
        let mut i: usize = 0;
        while i < 6
            invariant
                i <= 6,
                self.wf(),
                h0 == old(self).hand@,
                h0.no_duplicates(),
                aside@.no_duplicates(),
                forall|j: int| 0 <= j < 6 ==> h0.contains(#[trigger] aside@[j]),
                self.hand@.len() == h0.len() - i,
                self.hand@.to_multiset() == h0.to_multiset().sub(
                    aside@.subrange(0, i as int).to_multiset(),
                ),
                forall|c: Card|
                    #[trigger] self.hand@.contains(c) <==> (h0.contains(c) && !aside@.subrange(
                        0,
                        i as int,
                    ).contains(c)),
                aside@.subrange(0, i as int).no_duplicates(),
                forall|j: int| 0 <= j < i ==> h0.contains(#[trigger] aside@[j]),
            decreases 6 - i,
        {
            let card = aside[i];
            let ghost hprev = self.hand@;
            match self.use_card(&card) {
                Ok(()) => {},
                Err(e) => {
                    proof {
                        assert(!hprev.contains(card));
                        assert(h0.contains(aside@[i as int]));
                        assert(!aside@.subrange(0, i as int).contains(card));
                        assert(hprev.contains(card));
                        assert(false);
                    }
                    return Err(e);
                },
            }
            proof {
                broadcast use vstd::seq_lib::group_to_multiset_ensures;
                broadcast use vstd::multiset::group_multiset_axioms;

                let pre = aside@.subrange(0, i as int);
                let post = aside@.subrange(0, i + 1);
                assert(post =~= pre.push(card));
                assert(pre.push(card).to_multiset() == pre.to_multiset().insert(card));
                assert(post.to_multiset() == pre.to_multiset().insert(card));
                assert(self.hand@.to_multiset() =~= h0.to_multiset().sub(post.to_multiset()))
                    by {
                    assert(self.hand@.to_multiset() == hprev.to_multiset().remove(card));
                    assert forall|c: Card|
                        self.hand@.to_multiset().count(c) == h0.to_multiset().sub(
                            post.to_multiset(),
                        ).count(c) by {
                        assert(pre.to_multiset().insert(card).count(card) == pre.to_multiset()
                            .count(card) + 1);
                    }
                }
                assert forall|c: Card|
                    #[trigger] self.hand@.contains(c) <==> (h0.contains(c) && !post.contains(
                        c,
                    )) by {
                    if post.contains(c) {
                        let k = choose|k: int| 0 <= k < post.len() && post[k] == c;
                        if k < pre.len() {
                            assert(pre[k] == c);
                        } else {
                            assert(c == card);
                        }
                    }
                    if pre.contains(c) {
                        let k = choose|k: int| 0 <= k < pre.len() && pre[k] == c;
                        assert(post[k] == c);
                    }
                    assert(post[post.len() - 1] == card);
                    assert(hprev.contains(c) <==> (h0.contains(c) && !pre.contains(c)));
                }
                assert(post.no_duplicates()) by {
                    assert(hprev.contains(card));
                    assert(!pre.contains(card));
                }
                assert(h0.contains(card)) by {
                    assert(hprev.contains(card));
                }
            }
            i = i + 1;
        }
        proof {
            assert(aside@.subrange(0, 6) =~= aside@);
        }
        Ok(())
    }
}

} // verus!
