use vstd::prelude::*;

use crate::card::{beats, card_points, Card, Color};
use crate::engine_error::EngineError;

verus! {

/// The seat that plays k steps after `leader`, clockwise.
pub open spec fn seat_at(leader: u8, k: int) -> int {
    (leader + k) % 4
}

/// One exchange of four plays, in progress: an optional card per seat and
/// the seat that led.
#[derive(Debug, Clone, Copy)]
pub struct Trick {
    pub cards: [Option<Card>; 4],
    pub leader: u8,
}

/// A finished exchange: the four cards, the seat that led, and the seat
/// that won.
#[derive(Debug, Clone, Copy)]
pub struct PlayedTrick {
    pub cards: [Card; 4],
    pub leader: u8,
    pub winner: u8,
}

/// The points of one slot: the card's value, or nothing while unfilled.
pub open spec fn slot_points(oc: Option<Card>) -> int {
    match oc {
        Some(c) => card_points(c),
        None => 0,
    }
}

/// Scans seats in play order from position `k`, carrying the seat of the
/// current best card, and yields the winning seat.
pub open spec fn winner_scan(t: Trick, lead: Color, k: int, best: int) -> int
    decreases 4 - k,
{
    if k >= 4 {
        best
    } else {
        let s = seat_at(t.leader, k);
        let next = if t.cards@[s] is Some && t.cards@[best] is Some && beats(
            t.cards@[s]->Some_0,
            t.cards@[best]->Some_0,
            lead,
        ) {
            s
        } else {
            best
        };
        winner_scan(t, lead, k + 1, next)
    }
}

impl Trick {
    /// The leader is a seat, and the filled slots form a contiguous run in
    /// play order starting at the leader: once filled, never cleared, and
    /// plays are accepted only in clockwise order.
    pub open spec fn wf(self) -> bool {
        &&& self.leader < 4
        &&& forall|j: int, k: int|
            0 <= j < k < 4 && (#[trigger] self.cards@[seat_at(self.leader, k)]) is Some
                ==> (#[trigger] self.cards@[seat_at(self.leader, j)]) is Some
    }

    /// The first unfilled position in play order, 4 when complete.
    pub open spec fn first_empty(self) -> int {
        if self.cards@[seat_at(self.leader, 0)] is None {
            0
        } else if self.cards@[seat_at(self.leader, 1)] is None {
            1
        } else if self.cards@[seat_at(self.leader, 2)] is None {
            2
        } else if self.cards@[seat_at(self.leader, 3)] is None {
            3
        } else {
            4
        }
    }

    pub open spec fn spec_next_to_play(self) -> Option<int> {
        if self.first_empty() == 4 {
            None
        } else {
            Some(seat_at(self.leader, self.first_empty()))
        }
    }

    pub open spec fn complete(self) -> bool {
        self.first_empty() == 4
    }

    /// The led suit: the leader's card's suit, or, when the Excuse was
    /// led, the suit of the second card in play order.
    pub open spec fn spec_color(self) -> Option<Color> {
        match self.cards@[self.leader as int] {
            None => None,
            Some(lc) => if lc.color != Color::Excuse {
                Some(lc.color)
            } else {
                match self.cards@[seat_at(self.leader, 1)] {
                    None => None,
                    Some(c) => Some(c.color),
                }
            },
        }
    }

    /// The led suit for beat comparisons; the Excuse stands in while no
    /// suit is established (nothing beats by following it: no card has it).
    pub open spec fn lead_for_compare(self) -> Color {
        match self.spec_color() {
            Some(c) => c,
            None => Color::Excuse,
        }
    }

    /// The winning seat: the leader provisionally, then every later card
    /// that beats the current best takes over.
    pub open spec fn spec_winner(self) -> int {
        winner_scan(self, self.lead_for_compare(), 1, self.leader as int)
    }

    /// The highest trump among the first `k` slots in play order.
    pub open spec fn trump_max_upto(self, k: int) -> int
        decreases k,
    {
        if k <= 0 {
            0
        } else {
            let prev = self.trump_max_upto(k - 1);
            match self.cards@[seat_at(self.leader, k - 1)] {
                Some(c) => if c.color == Color::Trump && c.value > prev {
                    c.value as int
                } else {
                    prev
                },
                None => prev,
            }
        }
    }

    /// The highest trump played so far, 0 if none.
    pub open spec fn spec_highest_trump(self) -> int {
        self.trump_max_upto(4)
    }

    /// The points of the slots at position < k in seat order.
    pub open spec fn points_upto(self, k: int) -> int
        decreases k,
    {
        if k <= 0 {
            0
        } else {
            self.points_upto(k - 1) + slot_points(self.cards@[k - 1])
        }
    }

    /// The points of the cards played so far.
    pub open spec fn spec_points(self) -> int {
        self.points_upto(4)
    }

    /// A fresh trick led by `leader`, with no card played.
    pub fn new(leader: u8) -> (r: Self)
        requires
            leader < 4,
        ensures
            r.leader == leader,
            r.cards@ =~= Seq::new(4, |i: int| None::<Card>),
            r.wf(),
            r.first_empty() == 0,
    {
        let r = Self { cards: [None, None, None, None], leader };
        proof {
            assert(r.cards@ =~= Seq::new(4, |i: int| None::<Card>));
        }
        r
    }

    /// The led suit, if established.
    pub fn color(&self) -> (r: Option<Color>)
        requires
            self.wf(),
        ensures
            r == self.spec_color(),
    {
        match self.cards[self.leader as usize] {
            None => None,
            Some(lc) => {
                if lc.color != Color::Excuse {
                    Some(lc.color)
                } else {
                    let second = (self.leader + 1) % 4;
                    match self.cards[second as usize] {
                        None => None,
                        Some(c) => Some(c.color),
                    }
                }
            },
        }
    }

    /// The winning seat so far, or the rejection while no card was led.
    pub fn winner(&self) -> (r: Result<u8, EngineError>)
        requires
            self.wf(),
        ensures
            match r {
                Ok(w) => self.cards@[self.leader as int] is Some && w == self.spec_winner()
                    && w < 4 && self.cards@[w as int] is Some,
                Err(e) => self.cards@[self.leader as int] is None && e
                    == EngineError::NotBegunHand,
            },
    {
        if self.cards[self.leader as usize].is_none() {
            return Err(EngineError::NotBegunHand);
        }
        let lead: Color = match self.color() {
            Some(c) => c,
            None => Color::Excuse,
        };
        let mut best: u8 = self.leader;
        let mut k: u8 = 1;
        while k < 4
            invariant
                self.wf(),
                1 <= k <= 4,
                best < 4,
                self.cards@[best as int] is Some,
                lead == self.lead_for_compare(),
                self.spec_winner() == winner_scan(*self, lead, k as int, best as int),
            decreases 4 - k,
        {
            let s = (self.leader + k) % 4;
            match self.cards[s as usize] {
                Some(c) => {
                    let best_card = match self.cards[best as usize] {
                        Some(b) => b,
                        None => {
                            proof {
                                assert(false);
                            }
                            c
                        },
                    };
                    if c.win_against(&best_card, &lead) {
                        best = s;
                    }
                },
                None => {},
            }
            k = k + 1;
        }
        Ok(best)
    }

    /// The seat whose turn it is, or nothing once the trick is complete.
    pub fn next_to_play(&self) -> (r: Option<u8>)
        requires
            self.wf(),
        ensures
            match r {
                Some(p) => self.spec_next_to_play() == Some(p as int) && p < 4,
                None => self.spec_next_to_play() is None,
            },
    {
        let mut k: u8 = 0;
        while k < 4
            invariant
                self.wf(),
                k <= 4,
                forall|j: int|
                    0 <= j < k ==> (#[trigger] self.cards@[seat_at(self.leader, j)]) is Some,
            decreases 4 - k,
        {
            let s = (self.leader + k) % 4;
            if self.cards[s as usize].is_none() {
                return Some(s);
            }
            k = k + 1;
        }
        None
    }

    /// The points of the cards played so far.
    pub fn points(&self) -> (r: usize)
        ensures
            r == self.spec_points(),
    {
        let mut total: usize = 0;
        let mut i: usize = 0;
        while i < 4
            invariant
                i <= 4,
                total == self.points_upto(i as int),
                total <= i * 491,
            decreases 4 - i,
        {
            match self.cards[i] {
                Some(c) => {
                    proof {
                        crate::card::lemma_card_points_range(c);
                    }
                    total = total + c.points();
                },
                None => {},
            }
            i = i + 1;
        }
        total
    }

    /// The highest trump played so far, 0 if none.
    pub fn highest_trump(&self) -> (r: u8)
        requires
            self.wf(),
        ensures
            r == self.spec_highest_trump(),
    {
        let mut result: u8 = 0;
        let mut k: u8 = 0;
        while k < 4
            invariant
                self.wf(),
                k <= 4,
                result == self.trump_max_upto(k as int),
            decreases 4 - k,
        {
            let s = (self.leader + k) % 4;
            match self.cards[s as usize] {
                Some(c) => {
                    if c.color == Color::Trump && c.value > result {
                        result = c.value;
                    }
                },
                None => {},
            }
            k = k + 1;
        }
        result
    }

    /// Whether the card is a trump that beats every trump played so far.
    pub fn overtrumped_by(&self, card: &Card) -> (r: bool)
        requires
            self.wf(),
        ensures
            r == (card.color == Color::Trump && card.value > self.spec_highest_trump()),
    {
        card.color == Color::Trump && card.value > self.highest_trump()
    }

    /// Freezes a complete trick into its immutable record, computing the
    /// winner; rejected while a slot is unfilled.
    pub fn into_played(self) -> (r: Result<PlayedTrick, EngineError>)
        requires
            self.wf(),
        ensures
            match r {
                Ok(pt) => {
                    &&& self.complete()
                    &&& pt.leader == self.leader
                    &&& pt.winner == self.spec_winner()
                    &&& pt.winner < 4
                    &&& forall|i: int| 0 <= i < 4 ==> Some(#[trigger] pt.cards@[i]) == self.cards@[i]
                },
                Err(e) => !self.complete() && e == EngineError::UnfinishedHand,
            },
    {
        let c0 = match self.cards[0] {
            Some(c) => c,
            None => { return Err(EngineError::UnfinishedHand); },
        };
        let c1 = match self.cards[1] {
            Some(c) => c,
            None => { return Err(EngineError::UnfinishedHand); },
        };
        let c2 = match self.cards[2] {
            Some(c) => c,
            None => { return Err(EngineError::UnfinishedHand); },
        };
        let c3 = match self.cards[3] {
            Some(c) => c,
            None => { return Err(EngineError::UnfinishedHand); },
        };
        let winner = match self.winner() {
            Ok(w) => w,
            Err(_) => { return Err(EngineError::UnfinishedHand); },
        };
        let pt = PlayedTrick { cards: [c0, c1, c2, c3], leader: self.leader, winner };
        Ok(pt)
    }

    /// Accepts a play from the next seat in clockwise order; rejects a
    /// complete trick and an out-of-turn seat, changing nothing.
    pub fn play_card(&mut self, player: u8, card: &Card) -> (r: Result<(), EngineError>)
        requires
            old(self).wf(),
        ensures
            final(self).wf(),
            final(self).leader == old(self).leader,
            match r {
                Ok(_) => {
                    &&& old(self).spec_next_to_play() == Some(player as int)
                    &&& final(self).cards@ == old(self).cards@.update(player as int, Some(*card))
                },
                Err(e) => {
                    &&& *final(self) == *old(self)
                    &&& old(self).spec_next_to_play() != Some(player as int)
                    &&& (e == EngineError::FinishedHand <==> old(self).spec_next_to_play()
                        is None)
                    &&& (e == EngineError::OutOfOrderPlay <==> old(self).spec_next_to_play()
                        is Some)
                },
            },
            r is Ok <==> old(self).spec_next_to_play() == Some(player as int),
    {
        match self.next_to_play() {
            None => Err(EngineError::FinishedHand),
            Some(p) => {
                if p == player {
                    self.cards[p as usize] = Some(*card);
                    proof {
                        let t0 = *old(self);
                        let t1 = *self;
                        let fe = t0.first_empty();
                        assert(t1.cards@ =~= t0.cards@.update(player as int, Some(*card)));
                        assert forall|j: int, k: int|
                            0 <= j < k < 4 && (#[trigger] t1.cards@[seat_at(t1.leader, k)])
                                is Some implies (#[trigger] t1.cards@[seat_at(
                            t1.leader,
                            j,
                        )]) is Some by {
                            assert(seat_at(t0.leader, fe) == player as int);
                            if seat_at(t1.leader, k) != player as int {
                                assert(t0.cards@[seat_at(t0.leader, k)] is Some);
                            }
                        }
                    }
                    Ok(())
                } else {
                    Err(EngineError::OutOfOrderPlay)
                }
            },
        }
    }
}

/// The card of one slot as a sequence: empty while unfilled.
pub open spec fn opt_card_seq(o: Option<Card>) -> Seq<Card> {
    match o {
        Some(c) => seq![c],
        None => Seq::empty(),
    }
}

/// The cards played into the trick so far, in seat order.
pub open spec fn trick_cards_seq(t: Trick) -> Seq<Card> {
    opt_card_seq(t.cards@[0]) + opt_card_seq(t.cards@[1]) + opt_card_seq(t.cards@[2]) + opt_card_seq(
        t.cards@[3],
    )
}

/// How many seats have played into the trick.
pub open spec fn trick_fill_count(t: Trick) -> int {
    (if t.cards@[0] is Some {
        1int
    } else {
        0int
    }) + (if t.cards@[1] is Some {
        1int
    } else {
        0int
    }) + (if t.cards@[2] is Some {
        1int
    } else {
        0int
    }) + (if t.cards@[3] is Some {
        1int
    } else {
        0int
    })
}

/// The trick's card sequence holds one card per filled seat.
pub proof fn lemma_trick_cards_seq_len(t: Trick)
    ensures
        trick_cards_seq(t).len() == trick_fill_count(t),
{
}

/// The trick's card sequence decomposes into its four slots.
pub proof fn lemma_trick_cards_mset(t: Trick)
    ensures
        trick_cards_seq(t).to_multiset() == opt_card_seq(t.cards@[0]).to_multiset().add(
            opt_card_seq(t.cards@[1]).to_multiset(),
        ).add(opt_card_seq(t.cards@[2]).to_multiset()).add(opt_card_seq(t.cards@[3]).to_multiset()),
{
    let o0 = opt_card_seq(t.cards@[0]);
    let o1 = opt_card_seq(t.cards@[1]);
    let o2 = opt_card_seq(t.cards@[2]);
    let o3 = opt_card_seq(t.cards@[3]);
    vstd::seq_lib::lemma_multiset_commutative(o0, o1);
    vstd::seq_lib::lemma_multiset_commutative(o0 + o1, o2);
    vstd::seq_lib::lemma_multiset_commutative((o0 + o1) + o2, o3);
}

/// A one-card sequence is the singleton multiset.
pub proof fn lemma_singleton_mset(c: Card)
    ensures
        seq![c].to_multiset() == vstd::multiset::Multiset::empty().insert(c),
{
    broadcast use vstd::seq_lib::group_to_multiset_ensures;

    assert(seq![c] =~= Seq::<Card>::empty().push(c));
    assert(Seq::<Card>::empty().push(c).to_multiset() =~= Seq::<Card>::empty().to_multiset()
        .insert(c));
    assert(Seq::<Card>::empty().to_multiset() =~= vstd::multiset::Multiset::<Card>::empty());
}

/// Filling one empty slot adds exactly that card to the trick's cards.
pub proof fn lemma_trick_fill_mset(t0: Trick, t1: Trick, p: int, c: Card)
    requires
        0 <= p < 4,
        t0.cards@[p] is None,
        t1.cards@ == t0.cards@.update(p, Some(c)),
    ensures
        trick_cards_seq(t1).to_multiset() == trick_cards_seq(t0).to_multiset().insert(c),
{
    broadcast use vstd::multiset::group_multiset_axioms;

    lemma_trick_cards_mset(t0);
    lemma_trick_cards_mset(t1);
    lemma_singleton_mset(c);
    broadcast use vstd::seq_lib::group_to_multiset_ensures;

    assert(opt_card_seq(None::<Card>) == Seq::<Card>::empty());
    assert forall|x: Card| Seq::<Card>::empty().to_multiset().count(x) == 0 by {
        assert(!Seq::<Card>::empty().contains(x));
    }
    assert(opt_card_seq(None::<Card>).to_multiset() =~= vstd::multiset::Multiset::<
        Card,
    >::empty());
    assert(trick_cards_seq(t1).to_multiset() =~= trick_cards_seq(t0).to_multiset().insert(c));
}

/// Appending a trick leaves the cards of the earlier tricks unchanged.
pub proof fn lemma_played_cards_push(s: Seq<PlayedTrick>, pt: PlayedTrick, k: int)
    requires
        0 <= k <= s.len(),
    ensures
        played_cards_upto(s.push(pt), k) == played_cards_upto(s, k),
    decreases k,
{
    if k > 0 {
        lemma_played_cards_push(s, pt, k - 1);
    }
}

/// The cards of the first `k` finished tricks, in order.
pub open spec fn played_cards_upto(s: Seq<PlayedTrick>, k: int) -> Seq<Card>
    decreases k,
{
    if k <= 0 {
        Seq::empty()
    } else {
        played_cards_upto(s, k - 1) + s[k - 1].cards@
    }
}

/// Each finished trick contributes exactly four cards.
pub proof fn lemma_played_cards_upto_len(s: Seq<PlayedTrick>, k: int)
    requires
        0 <= k <= s.len(),
    ensures
        played_cards_upto(s, k).len() == 4 * k,
    decreases k,
{
    if k > 0 {
        lemma_played_cards_upto_len(s, k - 1);
    }
}

/// A finished trick is worth between 4 and 1964 points.
pub proof fn lemma_played_trick_points_range(pt: PlayedTrick)
    ensures
        4 <= pt.spec_points() <= 1964,
{
    crate::card::lemma_card_points_range(pt.cards@[0]);
    crate::card::lemma_card_points_range(pt.cards@[1]);
    crate::card::lemma_card_points_range(pt.cards@[2]);
    crate::card::lemma_card_points_range(pt.cards@[3]);
    assert(played_points_upto(pt, 1) == played_points_upto(pt, 0) + card_points(pt.cards@[0]));
    assert(played_points_upto(pt, 2) == played_points_upto(pt, 1) + card_points(pt.cards@[1]));
    assert(played_points_upto(pt, 3) == played_points_upto(pt, 2) + card_points(pt.cards@[2]));
    assert(played_points_upto(pt, 4) == played_points_upto(pt, 3) + card_points(pt.cards@[3]));
}

/// The points of the first `k` cards of a finished trick, in seat order.
pub open spec fn played_points_upto(pt: PlayedTrick, k: int) -> int
    decreases k,
{
    if k <= 0 {
        0
    } else {
        played_points_upto(pt, k - 1) + card_points(pt.cards@[k - 1])
    }
}

/// The led suit of a finished trick: the first card in play order whose
/// suit is not the Excuse, scanning from position `k`.
pub open spec fn first_non_excuse_from(pt: PlayedTrick, k: int) -> Color
    decreases 4 - k,
{
    if k >= 4 {
        Color::Excuse
    } else {
        let c = pt.cards@[seat_at(pt.leader, k)];
        if c.color != Color::Excuse {
            c.color
        } else {
            first_non_excuse_from(pt, k + 1)
        }
    }
}

/// The highest trump among the first `k` cards of a finished trick, in
/// play order.
pub open spec fn played_trump_before(pt: PlayedTrick, k: int) -> int
    decreases k,
{
    if k <= 0 {
        0
    } else {
        let c = pt.cards@[seat_at(pt.leader, k - 1)];
        let prev = played_trump_before(pt, k - 1);
        if c.color == Color::Trump && c.value > prev {
            c.value as int
        } else {
            prev
        }
    }
}

impl PlayedTrick {
    pub open spec fn wf(self) -> bool {
        &&& self.leader < 4
        &&& self.winner < 4
    }

    pub open spec fn spec_points(self) -> int {
        played_points_upto(self, 4)
    }

    /// The led suit of the trick.
    pub open spec fn spec_color(self) -> Color {
        first_non_excuse_from(self, 0)
    }

    /// The seat proved void in the led suit: it played neither the led
    /// suit nor the Excuse, which only a void seat may do.
    pub open spec fn spec_proved_void(self, p: int) -> bool {
        let led = self.spec_color();
        self.cards@[p].color != led && self.cards@[p].color != Color::Excuse
    }

    /// The upper bound this trick proves on the seat's remaining trumps:
    /// 0 when the seat discarded off-suit without trumping (it holds no
    /// trump), the highest earlier trump when the seat under-trumped a
    /// plain-suit lead it had to overtrump, nothing otherwise.
    pub open spec fn spec_trump_bound(self, p: int) -> Option<u8> {
        let led = self.spec_color();
        let c = self.cards@[p];
        let k = (p - self.leader) % 4;
        if c.color == Color::Excuse || c.color == led {
            None
        } else if c.color == Color::Trump {
            if led != Color::Trump && (c.value as int) < played_trump_before(self, k) {
                Some(played_trump_before(self, k) as u8)
            } else {
                None
            }
        } else {
            Some(0u8)
        }
    }

    /// The points of the trick's four cards.
    pub fn points(&self) -> (r: usize)
        ensures
            r == self.spec_points(),
    {
        proof {
            crate::card::lemma_card_points_range(self.cards@[0]);
            crate::card::lemma_card_points_range(self.cards@[1]);
            crate::card::lemma_card_points_range(self.cards@[2]);
            crate::card::lemma_card_points_range(self.cards@[3]);
            assert(played_points_upto(*self, 0) == 0);
            assert(played_points_upto(*self, 1) == card_points(self.cards@[0]));
            assert(played_points_upto(*self, 2) == played_points_upto(*self, 1) + card_points(
                self.cards@[1],
            ));
            assert(played_points_upto(*self, 3) == played_points_upto(*self, 2) + card_points(
                self.cards@[2],
            ));
        }
        self.cards[0].points() + self.cards[1].points() + self.cards[2].points()
            + self.cards[3].points()
    }

    /// The led suit of the trick.
    pub fn color(&self) -> (r: Color)
        requires
            self.wf(),
        ensures
            r == self.spec_color(),
    {
        let mut k: u8 = 0;
        while k < 4
            invariant
                self.wf(),
                k <= 4,
                self.spec_color() == first_non_excuse_from(*self, k as int),
            decreases 4 - k,
        {
            let s = (self.leader + k) % 4;
            let c = self.cards[s as usize];
            if !matches!(c.color, Color::Excuse) {
                return c.color;
            }
            k = k + 1;
        }
        Color::Excuse
    }

    /// Whether this trick proves the seat void in the led suit.
    pub fn did_not_have_color(&self, player: u8) -> (r: bool)
        requires
            self.wf(),
            player < 4,
        ensures
            r == self.spec_proved_void(player as int),
    {
        let led = self.color();
        let c = self.cards[player as usize];
        c.color != led && !matches!(c.color, Color::Excuse)
    }

    /// The trump ceiling this trick proves for the seat, if any.
    pub fn did_not_have_trump_higher(&self, player: u8) -> (r: Option<u8>)
        requires
            self.wf(),
            player < 4,
        ensures
            r == self.spec_trump_bound(player as int),
    {
        let led = self.color();
        let c = self.cards[player as usize];
        if matches!(c.color, Color::Excuse) || c.color == led {
            return None;
        }
        if matches!(c.color, Color::Trump) {
            let k: u8 = (player + 4 - self.leader) % 4;
            proof {
                assert((player + 4 - self.leader) % 4 == (player as int - self.leader as int)
                    % 4) by {
                    assert((player as int + 4 - self.leader as int) == (player as int
                        - self.leader as int) + 4);
                };
            }
            let mut before: u8 = 0;
            let mut j: u8 = 0;
            while j < k
                invariant
                    self.wf(),
                    j <= k <= 4,
                    before == played_trump_before(*self, j as int),
                decreases k - j,
            {
                let s = (self.leader + j) % 4;
                let cj = self.cards[s as usize];
                if matches!(cj.color, Color::Trump) && cj.value > before {
                    before = cj.value;
                }
                j = j + 1;
            }
            if !matches!(led, Color::Trump) && c.value < before {
                Some(before)
            } else {
                None
            }
        } else {
            Some(0)
        }
    }
}

} // verus!
