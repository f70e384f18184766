use vstd::prelude::*;
use vstd::multiset::Multiset;

use crate::card::{deck, valid_card, Card};
use crate::engine_error::EngineError;
use crate::game_type::{bid_rank, GameType};
use crate::handfuls::{HandfulDeclaration, Handfuls};
use crate::trick::{played_cards_upto, trick_cards_seq, PlayedTrick, Trick};
use crate::vec_util::vec_contains;

verus! {

/// The public part of a match: dealer, taker and bid, the finished tricks,
/// the trick in progress, and the declared handfuls.
#[derive(Debug)]
pub struct SharedGameState {
    pub dealer: u8,
    pub taker: Option<u8>,
    pub current_trick: Option<Trick>,
    pub played_tricks: Vec<PlayedTrick>,
    pub game_type: Option<GameType>,
    pub declared_handfuls: [Option<HandfulDeclaration>; 4],
}

/// The taker's points over the first `k` finished tricks: the full value of
/// every trick the taker won.
pub open spec fn score_upto(s: Seq<PlayedTrick>, taker: int, k: int) -> int
    decreases k,
{
    if k <= 0 {
        0
    } else {
        score_upto(s, taker, k - 1) + if s[k - 1].winner == taker {
            s[k - 1].spec_points()
        } else {
            0
        }
    }
}

impl SharedGameState {
    /// What one seat's declared handful shows publicly.
    pub open spec fn hf_view(self, p: int) -> Option<(Handfuls, Seq<Card>)> {
        match self.declared_handfuls@[p] {
            None => None,
            Some(h) => Some((h.handful, h.cards@)),
        }
    }

    /// The same public match state, field for field.
    pub open spec fn obs_eq(self, other: Self) -> bool {
        &&& self.dealer == other.dealer
        &&& self.taker == other.taker
        &&& self.current_trick == other.current_trick
        &&& self.game_type == other.game_type
        &&& self.played_tricks@ == other.played_tricks@
        &&& forall|p: int| 0 <= p < 4 ==> self.hf_view(p) == other.hf_view(p)
    }

    /// Seats are in range, at most 18 tricks are ever played, the trick in
    /// progress (if any) is well-formed and not yet complete, and every
    /// declared handful shows distinct valid trumps.
    pub open spec fn wf(self) -> bool {
        &&& self.dealer < 4
        &&& match self.taker {
            Some(t) => t < 4,
            None => true,
        }
        &&& match self.current_trick {
            Some(t) => t.wf() && !t.complete(),
            None => true,
        }
        &&& self.played_tricks@.len() <= 18
        &&& (self.spec_finished() ==> self.current_trick is None)
        &&& forall|i: int|
            0 <= i < self.played_tricks@.len() ==> (#[trigger] self.played_tricks@[i]).wf()
        &&& forall|p: int|
            0 <= p < 4 ==> match #[trigger] self.declared_handfuls@[p] {
                Some(h) => h.wf(),
                None => true,
            }
    }

    /// The seat that leads the next trick: left of the dealer first, then
    /// each trick's winner.
    pub open spec fn spec_player_to_lead(self) -> int {
        if self.played_tricks@.len() == 0 {
            ((self.dealer + 1) % 4) as int
        } else {
            self.played_tricks@.last().winner as int
        }
    }

    /// A match is 18 tricks.
    pub open spec fn spec_finished(self) -> bool {
        self.played_tricks@.len() == 18
    }

    /// The seat to act: the next seat of the trick in progress, or the
    /// leader of a fresh trick; nobody once the match is finished.
    pub open spec fn spec_next_to_play(self) -> Option<int> {
        if self.spec_finished() {
            None
        } else {
            match self.current_trick {
                Some(t) => match t.spec_next_to_play() {
                    Some(p) => Some(p),
                    None => Some(self.spec_player_to_lead()),
                },
                None => Some(self.spec_player_to_lead()),
            }
        }
    }

    /// Every card played so far, finished tricks first, then the trick in
    /// progress.
    pub open spec fn used_seq(self) -> Seq<Card> {
        played_cards_upto(self.played_tricks@, self.played_tricks@.len() as int) + (
        match self.current_trick {
            Some(t) => trick_cards_seq(t),
            None => Seq::empty(),
        })
    }

    /// Every card played so far, as a multiset.
    pub open spec fn used_mset(self) -> Multiset<Card> {
        self.used_seq().to_multiset()
    }

    /// Whether the seat has already played into the trick in progress.
    pub open spec fn cur_filled(self, p: int) -> int {
        match self.current_trick {
            Some(t) => if t.cards@[p] is Some {
                1int
            } else {
                0int
            },
            None => 0,
        }
    }

    /// The taker's current score; 0 while there is no taker.
    pub open spec fn spec_score(self) -> int {
        match self.taker {
            None => 0,
            Some(t) => score_upto(
                self.played_tricks@,
                t as int,
                self.played_tricks@.len() as int,
            ),
        }
    }

    /// Whether the active contract reveals the kitty.
    pub open spec fn spec_kitty_revealed(self) -> bool {
        match self.game_type {
            Some(g) => g.spec_kitty_revealed(),
            None => false,
        }
    }

    /// A fresh match state: no taker, no bid, no trick, no handful.
    pub fn initialize(dealer: u8) -> (r: Self)
        requires
            dealer < 4,
        ensures
            r.wf(),
            r.dealer == dealer,
            r.taker is None,
            r.current_trick is None,
            r.played_tricks@ =~= Seq::<PlayedTrick>::empty(),
            r.game_type is None,
            forall|p: int| 0 <= p < 4 ==> r.hf_view(p) is None,
            r.used_seq() =~= Seq::<Card>::empty(),
    {
        let r = Self {
            dealer,
            taker: None,
            current_trick: None,
            played_tricks: Vec::new(),
            game_type: None,
            declared_handfuls: [None, None, None, None],
        };
        proof {
            assert(r.used_seq() =~= Seq::<Card>::empty());
        }
        r
    }

    /// The seat that leads the next trick.
    pub fn player_to_lead(&self) -> (r: u8)
        requires
            self.wf(),
        ensures
            r as int == self.spec_player_to_lead(),
            r < 4,
    {
        if self.played_tricks.len() == 0 {
            (self.dealer + 1) % 4
        } else {
            let last = self.played_tricks.len() - 1;
            self.played_tricks[last].winner
        }
    }

    /// Accepts a bid that strictly raises the current contract level, or a
    /// pass, which changes nothing; rejects any other bid.
    pub fn bid(&mut self, player: u8, bid: Option<GameType>) -> (r: Result<(), EngineError>)
        requires
            old(self).wf(),
            player < 4,
        ensures
            final(self).wf(),
            match bid {
                None => r is Ok && *final(self) == *old(self),
                Some(b) => match old(self).game_type {
                    None => {
                        &&& r is Ok
                        &&& final(self).taker == Some(player)
                        &&& final(self).game_type == Some(b)
                    },
                    Some(prev) => if bid_rank(b) > bid_rank(prev) {
                        &&& r is Ok
                        &&& final(self).taker == Some(player)
                        &&& final(self).game_type == Some(b)
                    } else {
                        r == Err::<(), EngineError>(EngineError::InvalidBid) && *final(self)
                            == *old(self)
                    },
                },
            },
            final(self).dealer == old(self).dealer,
            final(self).current_trick == old(self).current_trick,
            final(self).played_tricks@ == old(self).played_tricks@,
            forall|p: int| 0 <= p < 4 ==> final(self).hf_view(p) == old(self).hf_view(p),
            r is Ok ==> match bid {
                None => final(self).game_type == old(self).game_type && final(self).taker == old(
                    self,
                ).taker,
                Some(b) => final(self).game_type == Some(b),
            },
    {
        let b = match bid {
            None => { return Ok(()); },
            Some(b) => b,
        };
        match self.game_type {
            None => {},
            Some(prev) => {
                if b.rank() <= prev.rank() {
                    return Err(EngineError::InvalidBid);
                }
            },
        }
        self.taker = Some(player);
        self.game_type = Some(b);
        Ok(())
    }

    /// Freezes a complete trick in progress into the played sequence and
    /// clears the slot; rejects a missing or incomplete trick, changing
    /// nothing.
    pub fn finish_trick(&mut self) -> (r: Result<(), EngineError>)
        requires
            match old(self).current_trick {
                Some(t) => t.wf() && (t.complete() ==> old(self).played_tricks@.len() < 18),
                None => true,
            },
        ensures
            match r {
                Ok(_) => {
                    &&& old(self).current_trick matches Some(t) && t.complete()
                    &&& final(self).current_trick is None
                    &&& ({
                        let t = old(self).current_trick->Some_0;
                        let pt = final(self).played_tricks@.last();
                        &&& final(self).played_tricks@ == old(self).played_tricks@.push(pt)
                        &&& pt.leader == t.leader
                        &&& pt.winner == t.spec_winner()
                        &&& pt.winner < 4
                        &&& forall|i: int| 0 <= i < 4 ==> Some(#[trigger] pt.cards@[i]) == t.cards@[i]
                        &&& pt.cards@.to_multiset() == trick_cards_seq(t).to_multiset()
                    })
                },
                Err(e) => {
                    &&& *final(self) == *old(self)
                    &&& (e == EngineError::NotBegunHand <==> old(self).current_trick is None)
                    &&& (e == EngineError::UnfinishedHand <==> (old(self).current_trick
                        matches Some(t) && !t.complete()))
                },
            },
            r is Ok <==> (old(self).current_trick matches Some(t) && t.complete()),
            final(self).dealer == old(self).dealer,
            final(self).taker == old(self).taker,
            final(self).game_type == old(self).game_type,
            forall|p: int| 0 <= p < 4 ==> final(self).hf_view(p) == old(self).hf_view(p),
    {
        let trick = match &self.current_trick {
            Some(t) => *t,
            None => { return Err(EngineError::NotBegunHand); },
        };
        let pt = match trick.into_played() {
            Ok(pt) => pt,
            Err(e) => { return Err(e); },
        };
        self.played_tricks.push(pt);
        self.current_trick = None;
        proof {
            let t = old(self).current_trick->Some_0;
            assert(pt.cards@ =~= trick_cards_seq(t)) by {
                assert(pt.cards@.len() == 4);
                assert(t.cards@[0] is Some && t.cards@[1] is Some && t.cards@[2] is Some
                    && t.cards@[3] is Some) by {
                    assert(t.complete());
                    assert(t.cards@[crate::trick::seat_at(t.leader, 0)] is Some);
                    assert(t.cards@[crate::trick::seat_at(t.leader, 1)] is Some);
                    assert(t.cards@[crate::trick::seat_at(t.leader, 2)] is Some);
                    assert(t.cards@[crate::trick::seat_at(t.leader, 3)] is Some);
                }
            }
        }
        Ok(())
    }

    /// The taker's score so far: the summed points of the tricks the taker
    /// won.
    pub fn current_score(&self) -> (r: usize)
        requires
            self.wf(),
        ensures
            r == self.spec_score(),
    {
        let taker = match self.taker {
            Some(t) => t,
            None => { return 0; },
        };
        let mut total: usize = 0;
        let mut k: usize = 0;
        while k < self.played_tricks.len()
            invariant
                self.wf(),
                k <= self.played_tricks@.len(),
                total == score_upto(self.played_tricks@, taker as int, k as int),
                total <= 1964 * k,
            decreases self.played_tricks@.len() - k,
        {
            let pt = &self.played_tricks[k];
            proof {
                crate::trick::lemma_played_trick_points_range(self.played_tricks@[k as int]);
            }
            if pt.winner == taker {
                total = total + pt.points();
            }
            k = k + 1;
        }
        total
    }

    /// Whether the active contract reveals the kitty.
    pub fn kitty_should_be_revealed(&self) -> (r: bool)
        ensures
            r == self.spec_kitty_revealed(),
    {
        match self.game_type {
            Some(g) => g.kitty_should_be_revealed(),
            None => false,
        }
    }

    /// Whether all 18 tricks are played.
    pub fn finished(&self) -> (r: bool)
        ensures
            r == self.spec_finished(),
    {
        self.played_tricks.len() == 18
    }

    /// The seat to act, while the match is unfinished.
    pub fn next_to_play(&self) -> (r: Option<u8>)
        requires
            self.wf(),
        ensures
            match r {
                Some(p) => self.spec_next_to_play() == Some(p as int) && p < 4,
                None => self.spec_next_to_play() is None,
            },
    {
        if self.finished() {
            return None;
        }
        match &self.current_trick {
            Some(t) => match t.next_to_play() {
                Some(p) => Some(p),
                None => Some(self.player_to_lead()),
            },
            None => Some(self.player_to_lead()),
        }
    }

    /// Opens a fresh trick led by the winner of the last one (or the seat
    /// left of the dealer) and returns it.
    pub fn new_trick(&mut self) -> (r: Trick)
        requires
            old(self).wf(),
            old(self).current_trick is None,
            !old(self).spec_finished(),
        ensures
            final(self).wf(),
            final(self).current_trick == Some(r),
            r.leader as int == old(self).spec_player_to_lead(),
            r.cards@ =~= Seq::new(4, |i: int| None::<Card>),
            r.wf(),
            final(self).dealer == old(self).dealer,
            final(self).taker == old(self).taker,
            final(self).game_type == old(self).game_type,
            final(self).played_tricks@ == old(self).played_tricks@,
            forall|p: int| 0 <= p < 4 ==> final(self).hf_view(p) == old(self).hf_view(p),
            final(self).used_seq() == old(self).used_seq(),
    {
        let t = Trick::new(self.player_to_lead());
        self.current_trick = Some(t);
        proof {
            assert(trick_cards_seq(t) =~= Seq::<Card>::empty());
            assert(self.used_seq() =~= old(self).used_seq());
        }
        t
    }

    /// The cards that no seat has played yet: the deck minus the finished
    /// tricks and the trick in progress.
    pub fn cards_left_to_play(&self) -> (r: Vec<Card>)
        requires
            self.wf(),
        ensures
            r@.no_duplicates(),
            forall|c: Card|
                #[trigger] r@.contains(c) <==> (valid_card(c) && !self.used_seq().contains(c)),
            (self.used_seq().no_duplicates() && (forall|i: int|
                0 <= i < self.used_seq().len() ==> valid_card(
                    #[trigger] self.used_seq()[i],
                ))) ==> r@.len() == 78 - self.used_seq().len(),
    {
        let used = self.used_cards();
        let all = Card::all_possibles();
        let mut r: Vec<Card> = Vec::new();
        let mut i: usize = 0;
        proof {
            crate::card::lemma_deck_properties();
        }
        while i < all.len()
            invariant
                i <= all@.len(),
                all@ == deck(),
                used@ == self.used_seq(),
                r@.no_duplicates(),
                forall|c: Card|
                    #[trigger] r@.contains(c) <==> (deck().subrange(0, i as int).contains(c)
                        && !used@.contains(c)),
            decreases all@.len() - i,
        {
            let card = all[i];
            if !vec_contains(&used, &card) {
                let ghost rpre = r@;
                proof {
                    if rpre.contains(card) {
                        let j = choose|j: int| 0 <= j < rpre.len() && rpre[j] == card;
                        assert(deck().subrange(0, i as int).contains(card));
                        let k = choose|k: int|
                            0 <= k < i && #[trigger] deck().subrange(0, i as int)[k] == card;
                        crate::card::lemma_index_card_roundtrip(k);
                        crate::card::lemma_index_card_roundtrip(i as int);
                        assert(false);
                    }
                }
                r.push(card);
                proof {
                    assert forall|c: Card| #[trigger] r@.contains(c) implies (deck().subrange(
                        0,
                        i + 1,
                    ).contains(c) && !used@.contains(c)) by {
                        let k = choose|k: int| 0 <= k < r@.len() && r@[k] == c;
                        if k < r@.len() - 1 {
                            assert(rpre[k] == c);
                            assert(rpre.contains(c));
                            let m = choose|m: int|
                                0 <= m < i && deck().subrange(0, i as int)[m] == c;
                            assert(deck().subrange(0, i + 1)[m] == c);
                        } else {
                            assert(c == card);
                            assert(deck().subrange(0, i + 1)[i as int] == c);
                        }
                    }
                    assert forall|c: Card|
                        (deck().subrange(0, i + 1).contains(c) && !used@.contains(
                            c,
                        )) implies #[trigger] r@.contains(c) by {
                        let m = choose|m: int|
                            0 <= m < i + 1 && #[trigger] deck().subrange(0, i + 1)[m] == c;
                        if m < i {
                            assert(deck().subrange(0, i as int)[m] == c);
                            assert(rpre.contains(c));
                            let k = choose|k: int| 0 <= k < rpre.len() && rpre[k] == c;
                            assert(r@[k] == c);
                        } else {
                            assert(c == card);
                            assert(r@[r@.len() - 1] == c);
                        }
                    }
                }
            } else {
                proof {
                    assert forall|c: Card| #[trigger] r@.contains(c) implies (deck().subrange(
                        0,
                        i + 1,
                    ).contains(c) && !used@.contains(c)) by {
                        let m = choose|m: int|
                            0 <= m < i && #[trigger] deck().subrange(0, i as int)[m] == c;
                        assert(deck().subrange(0, i + 1)[m] == c);
                    }
                    assert forall|c: Card|
                        (deck().subrange(0, i + 1).contains(c) && !used@.contains(
                            c,
                        )) implies #[trigger] r@.contains(c) by {
                        let m = choose|m: int|
                            0 <= m < i + 1 && #[trigger] deck().subrange(0, i + 1)[m] == c;
                        if m < i {
                            assert(deck().subrange(0, i as int)[m] == c);
                        } else {
                            assert(c == card);
                            assert(false);
                        }
                    }
                }
            }
            i = i + 1;
        }
        proof {
            assert(deck().subrange(0, 78) =~= deck());
            assert forall|c: Card|
                #[trigger] r@.contains(c) <==> (valid_card(c) && !self.used_seq().contains(
                    c,
                )) by {
                if valid_card(c) {
                    assert(deck().contains(c));
                }
                if deck().contains(c) {
                    assert(valid_card(c));
                }
            }
            if self.used_seq().no_duplicates() && (forall|i: int|
                0 <= i < self.used_seq().len() ==> valid_card(#[trigger] self.used_seq()[i])) {
                lemma_left_len(r@, self.used_seq());
            }
        }
        r
    }

    /// Every card played so far, as one vector.
    fn used_cards(&self) -> (r: Vec<Card>)
        requires
            self.wf(),
        ensures
            r@ == self.used_seq(),
    {
        let mut r: Vec<Card> = Vec::new();
        let mut k: usize = 0;
        while k < self.played_tricks.len()
            invariant
                self.wf(),
                k <= self.played_tricks@.len(),
                r@ =~= played_cards_upto(self.played_tricks@, k as int),
            decreases self.played_tricks@.len() - k,
        {
            let pt = &self.played_tricks[k];
            r.push(pt.cards[0]);
            r.push(pt.cards[1]);
            r.push(pt.cards[2]);
            r.push(pt.cards[3]);
            proof {
                assert(r@ =~= played_cards_upto(self.played_tricks@, k + 1));
            }
            k = k + 1;
        }
        let ghost played = r@;
        match &self.current_trick {
            None => {
                proof {
                    assert(r@ =~= self.used_seq());
                }
            },
            Some(t) => {
                let mut s: usize = 0;
                while s < 4
                    invariant
                        self.wf(),
                        s <= 4,
                        self.current_trick == Some(*t),
                        t.wf(),
                        played == played_cards_upto(
                            self.played_tricks@,
                            self.played_tricks@.len() as int,
                        ),
                        r@ =~= played + trick_slots_upto(*t, s as int),
                    decreases 4 - s,
                {
                    match t.cards[s] {
                        Some(c) => {
                            r.push(c);
                        },
                        None => {},
                    }
                    proof {
                        assert(r@ =~= played + trick_slots_upto(*t, s + 1));
                    }
                    s = s + 1;
                }
                proof {
                    assert(trick_slots_upto(*t, 1) == trick_slots_upto(*t, 0)
                        + crate::trick::opt_card_seq(t.cards@[0]));
                    assert(trick_slots_upto(*t, 2) == trick_slots_upto(*t, 1)
                        + crate::trick::opt_card_seq(t.cards@[1]));
                    assert(trick_slots_upto(*t, 3) == trick_slots_upto(*t, 2)
                        + crate::trick::opt_card_seq(t.cards@[2]));
                    assert(trick_slots_upto(*t, 4) == trick_slots_upto(*t, 3)
                        + crate::trick::opt_card_seq(t.cards@[3]));
                    assert(trick_slots_upto(*t, 4) =~= trick_cards_seq(*t));
                    assert(r@ =~= self.used_seq());
                }
            },
        }
        r
    }
}

/// The cards of the first `k` slots of a trick, in seat order.
pub open spec fn trick_slots_upto(t: Trick, k: int) -> Seq<Card>
    decreases k,
{
    if k <= 0 {
        Seq::empty()
    } else {
        trick_slots_upto(t, k - 1) + crate::trick::opt_card_seq(t.cards@[k - 1])
    }
}

/// A set of distinct valid cards left after removing distinct valid used
/// cards counts exactly what remains of the 78.
proof fn lemma_left_len(left: Seq<Card>, used: Seq<Card>)
    requires
        left.no_duplicates(),
        used.no_duplicates(),
        forall|i: int| 0 <= i < used.len() ==> valid_card(#[trigger] used[i]),
        forall|c: Card| #[trigger] left.contains(c) <==> (valid_card(c) && !used.contains(c)),
    ensures
        left.len() == 78 - used.len(),
{
    crate::card::lemma_deck_properties();
    let deck_set = deck().to_set();
    let left_set = left.to_set();
    let used_set = used.to_set();
    left.unique_seq_to_set();
    used.unique_seq_to_set();
    assert(deck().no_duplicates()) by {
        assert forall|i: int, j: int|
            0 <= i < 78 && 0 <= j < 78 && i != j implies deck()[i] != deck()[j] by {
            crate::card::lemma_index_card_roundtrip(i);
            crate::card::lemma_index_card_roundtrip(j);
        }
    }
    deck().unique_seq_to_set();
    assert(deck_set.len() == 78);
    assert(deck_set =~= left_set.union(used_set));
    assert(left_set.disjoint(used_set));
    crate::vec_util::lemma_len_disjoint_union(left_set, used_set);
}

/// The played cards number four per finished trick plus one per seat that
/// has played into the trick in progress.
pub proof fn lemma_used_seq_len(s: SharedGameState)
    ensures
        s.used_seq().len() == 4 * s.played_tricks@.len() + (match s.current_trick {
            Some(t) => crate::trick::trick_fill_count(t),
            None => 0,
        }),
{
    crate::trick::lemma_played_cards_upto_len(
        s.played_tricks@,
        s.played_tricks@.len() as int,
    );
    match s.current_trick {
        Some(t) => {
            crate::trick::lemma_trick_cards_seq_len(t);
        },
        None => {},
    }
}

/// The taker's score over the first `k` tricks is at most 1964 points per
/// trick.
pub proof fn lemma_score_upto_bound(s: Seq<PlayedTrick>, taker: int, k: int)
    requires
        0 <= k <= s.len(),
    ensures
        0 <= score_upto(s, taker, k) <= 1964 * k,
    decreases k,
{
    if k > 0 {
        lemma_score_upto_bound(s, taker, k - 1);
        crate::trick::lemma_played_trick_points_range(s[k - 1]);
    }
}

/// The taker's score in a match never exceeds 18 tricks of 1964 points.
pub proof fn lemma_score_bound(s: SharedGameState)
    requires
        s.wf(),
    ensures
        0 <= s.spec_score() <= 35352,
{
    match s.taker {
        Some(t) => {
            lemma_score_upto_bound(
                s.played_tricks@,
                t as int,
                s.played_tricks@.len() as int,
            );
        },
        None => {},
    }
}

/// Public match states with the same observable fields are equally
/// well-formed and account for the same played cards.
pub proof fn lemma_shared_obs_eq_wf(a: SharedGameState, b: SharedGameState)
    requires
        a.wf(),
        a.obs_eq(b),
    ensures
        b.wf(),
        b.used_seq() == a.used_seq(),
{
    assert forall|p: int|
        0 <= p < 4 implies match #[trigger] b.declared_handfuls@[p] {
        Some(h) => h.wf(),
        None => true,
    } by {
        assert(a.hf_view(p) == b.hf_view(p));
        match b.declared_handfuls@[p] {
            Some(h) => {
                let ah = a.declared_handfuls@[p]->Some_0;
                assert(ah.wf());
                assert(ah.cards@ == h.cards@);
            },
            None => {},
        }
    }
}

impl Clone for SharedGameState {
    /// A deep copy with the same public match state.
    fn clone(&self) -> (r: Self)
        ensures
            r.obs_eq(*self),
    {
        let r = SharedGameState {
            dealer: self.dealer,
            taker: self.taker,
            current_trick: self.current_trick,
            played_tricks: crate::vec_util::copy_vec(&self.played_tricks),
            game_type: self.game_type,
            declared_handfuls: [
                clone_handful(&self.declared_handfuls[0]),
                clone_handful(&self.declared_handfuls[1]),
                clone_handful(&self.declared_handfuls[2]),
                clone_handful(&self.declared_handfuls[3]),
            ],
        };
        r
    }
}

/// A deep copy of one optional handful declaration, showing the same cards.
fn clone_handful(h: &Option<HandfulDeclaration>) -> (r: Option<HandfulDeclaration>)
    ensures
        match (h, r) {
            (Some(a), Some(b)) => a.handful == b.handful && a.cards@ == b.cards@,
            (None, None) => true,
            _ => false,
        },
{
    match h {
        None => None,
        Some(d) => Some(
            HandfulDeclaration { handful: d.handful, cards: crate::vec_util::copy_vec(&d.cards) },
        ),
    }
}

} // verus!
