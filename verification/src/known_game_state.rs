use vstd::prelude::*;
use vstd::multiset::Multiset;

use crate::card::{deck_mset, valid_card, Card, Color};
use crate::engine_error::EngineError;
use crate::game_state::GameState;
use crate::player_game_state::PlayerGameState;
use crate::rng::{random_below, shuffle_cards};
use crate::shared_game_state::SharedGameState;
use crate::trick::PlayedTrick;
use crate::vec_util::{copy_vec, filter_out, lemma_push_filter_step, lemma_skip_filter_step, vec_contains};

verus! {

/// What public history proves about one seat's unseen hand: how many cards
/// it still holds, an upper bound on its highest trump, the suits it was
/// proven void in, and the cards publicly known to be in it.
#[derive(Debug)]
pub struct PlayerConstraint {
    pub number_cards: usize,
    pub highest_trump: u8,
    pub voided_colors: Vec<Color>,
    pub known_cards: Vec<Card>,
}

/// One seat's view of the match: its own hand, the public match state, and
/// the kitty only when the contract reveals it. Everything about the other
/// hands is inferred, never stored.
#[derive(Debug)]
pub struct KnownGameState {
    pub player_state: PlayerGameState,
    pub player_index: u8,
    pub kitty: Option<[Card; 6]>,
    pub shared_state: SharedGameState,
}

/// The trump ceiling the first `k` finished tricks prove for the seat,
/// starting from the highest trump.
pub open spec fn ceiling_upto(s: Seq<PlayedTrick>, p: int, k: int) -> int
    decreases k,
{
    if k <= 0 {
        21
    } else {
        let prev = ceiling_upto(s, p, k - 1);
        match s[k - 1].spec_trump_bound(p) {
            Some(b) => if b < prev {
                b as int
            } else {
                prev
            },
            None => prev,
        }
    }
}

impl KnownGameState {
    /// The derived upper bound on the seat's highest remaining trump.
    pub open spec fn spec_ceiling(self, p: int) -> int {
        ceiling_upto(
            self.shared_state.played_tricks@,
            p,
            self.shared_state.played_tricks@.len() as int,
        )
    }

    /// Whether public history proves the seat void in the suit.
    pub open spec fn spec_proved_void(self, p: int, col: Color) -> bool {
        exists|j: int|
            0 <= j < self.shared_state.played_tricks@.len() && (
            #[trigger] self.shared_state.played_tricks@[j]).spec_proved_void(p)
                && self.shared_state.played_tricks@[j].spec_color() == col
    }

    /// The cards publicly known to be in the seat's hand: the viewer's own
    /// hand for its own seat, a declared handful's cards otherwise.
    pub open spec fn spec_known_of(self, p: int) -> Seq<Card> {
        if p == self.player_index as int {
            self.player_state.hand@
        } else {
            match self.shared_state.hf_view(p) {
                Some(hf) => hf.1,
                None => Seq::empty(),
            }
        }
    }

    /// How many cards the seat still holds, by public bookkeeping.
    pub open spec fn spec_number_cards(self, p: int) -> int {
        18 - self.shared_state.played_tricks@.len() - self.shared_state.cur_filled(p)
    }

    /// The kitty's cards, where known.
    pub open spec fn kitty_mset(self) -> Multiset<Card> {
        match self.kitty {
            Some(k) => k@.to_multiset(),
            None => Multiset::empty(),
        }
    }

    /// The viewer's seat is in range, its hand is well-formed and matches
    /// the public bookkeeping, and the hand, the known kitty and the
    /// played cards never hold a card twice nor an invalid one.
    pub open spec fn wf(self) -> bool {
        &&& self.shared_state.wf()
        &&& self.player_index < 4
        &&& self.player_state.wf()
        &&& self.player_state.hand@.len() as int == self.spec_number_cards(
            self.player_index as int,
        )
        &&& forall|c: Card|
            #[trigger] self.player_state.hand@.to_multiset().count(c) + self.kitty_mset().count(
                c,
            ) + self.shared_state.used_mset().count(c) <= deck_mset().count(c)
    }

    /// The same view, observable field for observable field.
    pub open spec fn obs_eq(self, other: KnownGameState) -> bool {
        &&& self.player_state.hand@ == other.player_state.hand@
        &&& self.player_index == other.player_index
        &&& match (self.kitty, other.kitty) {
            (Some(a), Some(b)) => a@ == b@,
            (None, None) => true,
            _ => false,
        }
        &&& self.shared_state.obs_eq(other.shared_state)
    }

    /// What the projection of a full state down to one seat observes:
    /// that seat's hand, the public state, and the kitty exactly when the
    /// active contract reveals it.
    pub open spec fn is_projection_of(self, gs: GameState, player: u8) -> bool {
        &&& self.player_index == player
        &&& self.player_state.hand@ == gs.players_state@[player as int].hand@
        &&& self.shared_state.obs_eq(gs.shared_state)
        &&& if gs.shared_state.spec_kitty_revealed() {
            self.kitty matches Some(k) && k@ == gs.kitty@
        } else {
            self.kitty is None
        }
    }

    /// A fresh view at the start of a match.
    pub fn initialize(hand: Vec<Card>, player_index: u8, kitty: Option<[Card; 6]>, dealer: u8) -> (r:
        Self)
        requires
            player_index < 4,
            dealer < 4,
            hand@.no_duplicates(),
            forall|i: int| 0 <= i < hand@.len() ==> valid_card(#[trigger] hand@[i]),
            hand@.len() == 18,
            forall|c: Card|
                #[trigger] hand@.to_multiset().count(c) + (match kitty {
                    Some(k) => k@.to_multiset().count(c),
                    None => 0,
                }) <= deck_mset().count(c),
        ensures
            r.wf(),
            r.player_state.hand@ == hand@,
            r.player_index == player_index,
            r.kitty == kitty,
            r.shared_state.dealer == dealer,
            r.shared_state.taker is None,
            r.shared_state.game_type is None,
            r.shared_state.current_trick is None,
            r.shared_state.played_tricks@.len() == 0,
    {
        let r = Self {
            player_state: PlayerGameState { hand },
            player_index,
            kitty,
            shared_state: SharedGameState::initialize(dealer),
        };
        proof {
            broadcast use vstd::seq_lib::group_to_multiset_ensures;
            broadcast use vstd::multiset::group_multiset_axioms;

            assert(r.shared_state.used_seq().to_multiset().len() == 0);
            assert forall|c: Card| r.shared_state.used_mset().count(c) == 0 by {
                if r.shared_state.used_mset().count(c) > 0 {
                    assert(r.shared_state.used_seq().contains(c));
                }
            }
        }
        r
    }

    /// Projects the authoritative state down to one seat's legal view,
    /// hiding the kitty unless the active contract reveals it. The result
    /// is a pure function of the full state and the seat.
    pub fn from_omniscient(state: &GameState, player: u8) -> (r: Self)
        requires
            state.wf(),
            player < 4,
        ensures
            r.wf(),
            r.is_projection_of(*state, player),
    {
        let r = Self {
            player_state: PlayerGameState {
                hand: copy_vec(&state.players_state[player as usize].hand),
            },
            player_index: player,
            kitty: if state.shared_state.kitty_should_be_revealed() {
                Some(state.kitty)
            } else {
                None
            },
            shared_state: state.shared_state.clone(),
        };
        proof {
            broadcast use vstd::multiset::group_multiset_axioms;

            crate::shared_game_state::lemma_shared_obs_eq_wf(
                state.shared_state,
                r.shared_state,
            );
            assert(r.shared_state.used_seq() == state.shared_state.used_seq());
            assert forall|c: Card|
                #[trigger] r.player_state.hand@.to_multiset().count(c) + r.kitty_mset().count(c)
                    + r.shared_state.used_mset().count(c) <= deck_mset().count(c) by {
                assert(state.all_cards_mset().count(c) == deck_mset().count(c));
                assert(state.hands_mset().count(c)
                    >= state.players_state@[player as int].hand@.to_multiset().count(c));
                if r.kitty is Some {
                    assert(r.kitty_mset() == state.kitty@.to_multiset());
                }
            }
        }
        r
    }

    /// Derives, from public history alone, what is known about one seat's
    /// hand: its size, its trump ceiling, its proven voids, and its
    /// publicly known cards. Recomputed on every call, never cached.
    pub fn get_known_constraints(&self, player: usize) -> (r: Result<PlayerConstraint, EngineError>)
        requires
            self.wf(),
            player < 4,
        ensures
            match r {
                Ok(ct) => {
                    &&& ct.number_cards as int == self.spec_number_cards(player as int)
                    &&& ct.highest_trump as int == self.spec_ceiling(player as int)
                    &&& forall|col: Color|
                        #[trigger] ct.voided_colors@.contains(col) <==> self.spec_proved_void(
                            player as int,
                            col,
                        )
                    &&& ct.voided_colors@.no_duplicates()
                    &&& ct.known_cards@ == self.spec_known_of(player as int)
                },
                Err(_) => false,
            },
    {
        let known_cards: Vec<Card> = if player == self.player_index as usize {
            copy_vec(&self.player_state.hand)
        } else {
            match &self.shared_state.declared_handfuls[player] {
                Some(h) => copy_vec(&h.cards),
                None => Vec::new(),
            }
        };
        let n = self.shared_state.played_tricks.len();
        let mut number_cards: usize = 18 - n;
        match &self.shared_state.current_trick {
            Some(t) => {
                if t.cards[player].is_some() {
                    number_cards = number_cards - 1;
                }
            },
            None => {},
        }
        let mut highest_trump: u8 = 21;
        let mut voided_colors: Vec<Color> = Vec::new();
        let mut i: usize = 0;
        while i < n
            invariant
                self.wf(),
                player < 4,
                i <= n,
                n == self.shared_state.played_tricks@.len(),
                highest_trump as int == ceiling_upto(
                    self.shared_state.played_tricks@,
                    player as int,
                    i as int,
                ),
                voided_colors@.no_duplicates(),
                forall|col: Color|
                    #[trigger] voided_colors@.contains(col) <==> (exists|j: int|
                        0 <= j < i && (#[trigger] self.shared_state.played_tricks@[j])
                            .spec_proved_void(player as int)
                            && self.shared_state.played_tricks@[j].spec_color() == col),
            decreases n - i,
        {
            let pt = &self.played_trick_at(i);
            if pt.did_not_have_color(player as u8) {
                let col = pt.color();
                if !color_vec_contains(&voided_colors, col) {
                    let ghost vpre = voided_colors@;
                    voided_colors.push(col);
                    proof {
                        assert forall|c2: Color| #[trigger] voided_colors@.contains(
                            c2,
                        ) implies (exists|j: int|
                            0 <= j < i + 1 && (#[trigger] self.shared_state.played_tricks@[j])
                                .spec_proved_void(player as int)
                                && self.shared_state.played_tricks@[j].spec_color() == c2) by {
                            let k = choose|k: int|
                                0 <= k < voided_colors@.len() && voided_colors@[k] == c2;
                            if k < voided_colors@.len() - 1 {
                                assert(vpre[k] == c2);
                                assert(vpre.contains(c2));
                            } else {
                                assert(c2 == col);
                                assert(self.shared_state.played_tricks@[i as int]
                                    .spec_proved_void(player as int)
                                    && self.shared_state.played_tricks@[i as int].spec_color()
                                    == c2);
                            }
                        }
                        assert forall|c2: Color|
                            (exists|j: int|
                                0 <= j < i + 1 && (
                                #[trigger] self.shared_state.played_tricks@[j]).spec_proved_void(
                                    player as int,
                                ) && self.shared_state.played_tricks@[j].spec_color()
                                    == c2) implies #[trigger] voided_colors@.contains(c2) by {
                            let j = choose|j: int|
                                0 <= j < i + 1 && (
                                #[trigger] self.shared_state.played_tricks@[j]).spec_proved_void(
                                    player as int,
                                ) && self.shared_state.played_tricks@[j].spec_color() == c2;
                            if j < i {
                                assert(vpre.contains(c2));
                                let k = choose|k: int| 0 <= k < vpre.len() && vpre[k] == c2;
                                assert(voided_colors@[k] == c2);
                            } else {
                                assert(c2 == col);
                                assert(voided_colors@[voided_colors@.len() - 1] == c2);
                            }
                        }
                        assert(voided_colors@.no_duplicates()) by {
                            assert(!vpre.contains(col));
                        }
                    }
                } else {
                    proof {
                        assert forall|c2: Color|
                            (exists|j: int|
                                0 <= j < i + 1 && (
                                #[trigger] self.shared_state.played_tricks@[j]).spec_proved_void(
                                    player as int,
                                ) && self.shared_state.played_tricks@[j].spec_color()
                                    == c2) implies #[trigger] voided_colors@.contains(c2) by {
                            let j = choose|j: int|
                                0 <= j < i + 1 && (
                                #[trigger] self.shared_state.played_tricks@[j]).spec_proved_void(
                                    player as int,
                                ) && self.shared_state.played_tricks@[j].spec_color() == c2;
                            if j == i {
                                assert(c2 == col);
                            }
                        }
                    }
                }
            } else {
                proof {
                    assert forall|c2: Color|
                        (exists|j: int|
                            0 <= j < i + 1 && (#[trigger] self.shared_state.played_tricks@[j])
                                .spec_proved_void(player as int)
                                && self.shared_state.played_tricks@[j].spec_color()
                                == c2) implies #[trigger] voided_colors@.contains(c2) by {
                        let j = choose|j: int|
                            0 <= j < i + 1 && (#[trigger] self.shared_state.played_tricks@[j])
                                .spec_proved_void(player as int)
                                && self.shared_state.played_tricks@[j].spec_color() == c2;
                        assert(j < i);
                    }
                }
            }
            match pt.did_not_have_trump_higher(player as u8) {
                Some(b) => {
                    if b < highest_trump {
                        highest_trump = b;
                    }
                },
                None => {},
            }
            i = i + 1;
        }
        Ok(PlayerConstraint { number_cards, highest_trump, voided_colors, known_cards })
    }

    /// The cards the first `q` seats other than the viewer still need when
    /// unseen cards are dealt out in seat order.
    pub open spec fn needed_prefix(self, q: int) -> int
        decreases q,
    {
        if q <= 0 {
            0
        } else {
            self.needed_prefix(q - 1) + if q - 1 == self.player_index as int {
                0
            } else {
                self.spec_number_cards(q - 1)
            }
        }
    }

    /// How many cards the seat still holds, by public bookkeeping.
    fn seat_needed(&self, q: u8) -> (r: usize)
        requires
            self.wf(),
            q < 4,
        ensures
            r as int == self.spec_number_cards(q as int),
    {
        let n = self.shared_state.played_tricks.len();
        let mut r: usize = 18 - n;
        match &self.shared_state.current_trick {
            Some(t) => {
                if t.cards[q as usize].is_some() {
                    r = r - 1;
                }
            },
            None => {},
        }
        r
    }

    /// Unconstrained determinization: removes the viewer's own cards and
    /// the known kitty from the unplayed cards, shuffles the rest, and
    /// deals each other seat exactly as many cards as public bookkeeping
    /// says it holds; the remainder (or the known kitty) is the kitty.
    /// Suit and trump constraints are deliberately ignored.
    #[verifier::loop_isolation(false)]
    #[verifier::rlimit(100)]
    pub fn possible_random_full_state(&self) -> (r: Result<GameState, EngineError>)
        requires
            self.wf(),
        ensures
            match r {
                Ok(gs) => {
                    &&& gs.wf()
                    &&& gs.shared_state.obs_eq(self.shared_state)
                    &&& gs.players_state@[self.player_index as int].hand@
                        == self.player_state.hand@
                    &&& (self.kitty matches Some(k) ==> gs.kitty@ == k@)
                },
                Err(_) => false,
            },
    {
        let ghost own = self.player_state.hand@;
        let ghost used = self.shared_state.used_seq();
        proof {
            lemma_known_parts_wf(*self);
        }
        let left = self.shared_state.cards_left_to_play();
        let mut removed = copy_vec(&self.player_state.hand);
        match &self.kitty {
            Some(k) => {
                removed.push(k[0]);
                removed.push(k[1]);
                removed.push(k[2]);
                removed.push(k[3]);
                removed.push(k[4]);
                removed.push(k[5]);
                proof {
                    assert(removed@ =~= own + k@);
                }
            },
            None => {
                proof {
                    assert(removed@ =~= own + kitty_seq(*self));
                }
            },
        }
        proof {
            assert(removed@ =~= own + kitty_seq(*self));
        }
        let mut pool = filter_out(&left, &removed);
        let ghost ktail: int = if self.kitty is Some {
            0int
        } else {
            6int
        };
        proof {
            lemma_pool_len(*self, left@, removed@, pool@, ktail);
        }
        let ghost pre = pool@;
        shuffle_cards(&mut pool);
        let ghost pl = pool@;
        proof {
            broadcast use vstd::seq_lib::group_to_multiset_ensures;

            assert forall|c: Card| #[trigger] pl.contains(c) <==> pre.contains(c) by {
                assert(pl.contains(c) <==> pl.to_multiset().count(c) > 0);
                assert(pre.contains(c) <==> pre.to_multiset().count(c) > 0);
            }
            assert(pl.no_duplicates()) by {
                pre.lemma_multiset_has_no_duplicates();
                assert forall|c: Card| pl.to_multiset().contains(c) implies pl.to_multiset()
                    .count(c) == 1 by {
                    assert(pre.to_multiset().contains(c));
                }
                pl.lemma_multiset_has_no_duplicates_conv();
            }
            assert forall|c: Card|
                #[trigger] pl.contains(c) <==> (valid_card(c) && !used.contains(c)
                    && !own.contains(c) && !kitty_seq(*self).contains(c)) by {
                assert(removed@ =~= own + kitty_seq(*self));
                if pl.contains(c) {
                    assert(left@.contains(c) && !removed@.contains(c));
                    if own.contains(c) {
                        let i = choose|i: int| 0 <= i < own.len() && own[i] == c;
                        assert(removed@[i] == c);
                    }
                    if kitty_seq(*self).contains(c) {
                        let i = choose|i: int|
                            0 <= i < kitty_seq(*self).len() && kitty_seq(*self)[i] == c;
                        assert(removed@[own.len() + i] == c);
                    }
                }
                if valid_card(c) && !used.contains(c) && !own.contains(c) && !kitty_seq(
                    *self,
                ).contains(c) {
                    assert(left@.contains(c));
                    assert(!removed@.contains(c)) by {
                        if removed@.contains(c) {
                            let i = choose|i: int|
                                0 <= i < removed@.len() && removed@[i] == c;
                            if i < own.len() {
                                assert(own[i] == c);
                            } else {
                                assert(kitty_seq(*self)[i - own.len()] == c);
                            }
                        }
                    }
                    assert(pre.contains(c));
                }
            }
        }
        let mut hands: Vec<Vec<Card>> = Vec::new();
        let mut offset: usize = 0;
        let mut q: usize = 0;
        while q < 4
            invariant
                self.wf(),
                q <= 4,
                hands@.len() == q,
                pool@ == pl,
                offset as int == self.needed_prefix(q as int),
                pl.len() as int == self.needed_prefix(4) + ktail,
                ktail == (if self.kitty is Some {
                    0int
                } else {
                    6int
                }),
                forall|j: int|
                    0 <= j < q ==> (#[trigger] hands@[j])@ == (if j == self.player_index as int {
                        self.player_state.hand@
                    } else {
                        pl.subrange(self.needed_prefix(j), self.needed_prefix(j + 1))
                    }),
            decreases 4 - q,
        {
            proof {
                lemma_needed_prefix_bounds(*self, q as int);
            }
            if q == self.player_index as usize {
                hands.push(copy_vec(&self.player_state.hand));
            } else {
                let nq = self.seat_needed(q as u8);
                let plen = pool.len();
                proof {
                    assert(offset as int + nq as int == self.needed_prefix(q as int + 1));
                    assert(self.needed_prefix(q as int + 1) <= plen as int);
                }
                hands.push(crate::vec_util::sub_vec(&pool, offset, offset + nq));
                offset = offset + nq;
            }
            q = q + 1;
        }
        let kitty: [Card; 6] = match &self.kitty {
            Some(k) => *k,
            None => {
                let plen = pool.len();
                proof {
                    lemma_needed_prefix_bounds(*self, 4);
                    assert(offset as int + 6 == plen as int);
                }
                let kv = crate::vec_util::sub_vec(&pool, offset, offset + 6);
                let ka: [Card; 6] = [kv[0], kv[1], kv[2], kv[3], kv[4], kv[5]];
                proof {
                    assert(ka@ =~= kv@);
                }
                ka
            },
        };
        let h3 = match hands.pop() {
            Some(h) => h,
            None => {
                proof {
                    assert(false);
                }
                Vec::new()
            },
        };
        let h2 = match hands.pop() {
            Some(h) => h,
            None => {
                proof {
                    assert(false);
                }
                Vec::new()
            },
        };
        let h1 = match hands.pop() {
            Some(h) => h,
            None => {
                proof {
                    assert(false);
                }
                Vec::new()
            },
        };
        let h0 = match hands.pop() {
            Some(h) => h,
            None => {
                proof {
                    assert(false);
                }
                Vec::new()
            },
        };
        let gs = GameState {
            players_state: [
                PlayerGameState { hand: h0 },
                PlayerGameState { hand: h1 },
                PlayerGameState { hand: h2 },
                PlayerGameState { hand: h3 },
            ],
            kitty,
            shared_state: self.shared_state.clone(),
        };
        proof {
            match self.kitty {
                Some(a) => {
                    assert(gs.kitty@ == a@);
                },
                None => {
                    assert(gs.kitty@ == pl.subrange(
                        self.needed_prefix(4),
                        self.needed_prefix(4) + 6,
                    ));
                },
            }
            lemma_deal_wf(*self, gs, pl, ktail);
        }
        Ok(gs)
    }

    /// Whether the card cannot be in any hand because the viewer, who is
    /// not the taker, can see it lying in the kitty.
    pub open spec fn spec_excluded_by_kitty(self, c: Card) -> bool {
        match (self.shared_state.taker, self.kitty) {
            (Some(t), Some(k)) => self.player_index != t && k@.contains(c),
            _ => false,
        }
    }

    /// Whether the seat may, for all the derived constraints say, still
    /// hold the card.
    pub open spec fn spec_eligible(self, cts: Seq<PlayerConstraint>, c: Card, index: int) -> bool {
        &&& !self.spec_excluded_by_kitty(c)
        &&& !cts[index].voided_colors@.contains(c.color)
        &&& !(exists|q: int| 0 <= q < 4 && (#[trigger] cts[q]).known_cards@.contains(c))
        &&& (c.color == Color::Trump ==> c.value <= cts[index].highest_trump)
    }

    /// The unplayed cards the seat may still hold: the seat's proven
    /// voids, its trump ceiling, every publicly known card, and a kitty
    /// visible to a non-taker viewer all exclude a card.
    pub fn possible_cards(
        &self,
        constraints_per_player: &[PlayerConstraint; 4],
        left_to_play: &Vec<Card>,
        index: usize,
    ) -> (r: Vec<Card>)
        requires
            index < 4,
            left_to_play@.no_duplicates(),
        ensures
            r@.no_duplicates(),
            r@.len() <= left_to_play@.len(),
            forall|c: Card|
                #[trigger] r@.contains(c) <==> (left_to_play@.contains(c) && self.spec_eligible(
                    constraints_per_player@,
                    c,
                    index as int,
                )),
    {
        let mut r: Vec<Card> = Vec::new();
        let mut i: usize = 0;
        while i < left_to_play.len()
            invariant
                i <= left_to_play@.len(),
                index < 4,
                left_to_play@.no_duplicates(),
                r@.no_duplicates(),
                r@.len() <= i,
                forall|c: Card|
                    #[trigger] r@.contains(c) <==> (left_to_play@.subrange(0, i as int).contains(
                        c,
                    ) && self.spec_eligible(constraints_per_player@, c, index as int)),
            decreases left_to_play@.len() - i,
        {
            let card = left_to_play[i];
            if self.card_eligible(constraints_per_player, &card, index) {
                let ghost rpre = r@;
                proof {
                    if rpre.contains(card) {
                        let k = choose|k: int|
                            0 <= k < i && #[trigger] left_to_play@.subrange(0, i as int)[k]
                                == card;
                        assert(left_to_play@[k] == left_to_play@[i as int]);
                        assert(false);
                    }
                }
                r.push(card);
                proof {
                    lemma_push_filter_step(
                        rpre,
                        r@,
                        left_to_play@,
                        i as int,
                        card,
                        |c: Card|
                            self.spec_eligible(constraints_per_player@, c, index as int),
                    );
                }
            } else {
                proof {
                    lemma_skip_filter_step(
                        r@,
                        left_to_play@,
                        i as int,
                        card,
                        |c: Card|
                            self.spec_eligible(constraints_per_player@, c, index as int),
                    );
                }
            }
            i = i + 1;
        }
        proof {
            assert(left_to_play@.subrange(0, left_to_play@.len() as int) =~= left_to_play@);
        }
        r
    }

    /// Whether the derived constraints still let the seat hold the card.
    fn card_eligible(&self, cts: &[PlayerConstraint; 4], card: &Card, index: usize) -> (r: bool)
        requires
            index < 4,
        ensures
            r == self.spec_eligible(cts@, *card, index as int),
    {
        match (&self.shared_state.taker, &self.kitty) {
            (Some(t), Some(k)) => {
                if self.player_index != *t {
                    let mut j: usize = 0;
                    while j < 6
                        invariant
                            j <= 6,
                            self.shared_state.taker == Some(*t),
                            self.kitty == Some(*k),
                            self.player_index != *t,
                            forall|m: int| 0 <= m < j ==> k@[m] != *card,
                        decreases 6 - j,
                    {
                        if k[j] == *card {
                            proof {
                                assert(k@.contains(*card));
                            }
                            return false;
                        }
                        j = j + 1;
                    }
                }
            },
            _ => {},
        }
        if color_vec_contains(&cts[index].voided_colors, card.color) {
            return false;
        }
        let mut q: usize = 0;
        while q < 4
            invariant
                q <= 4,
                forall|m: int|
                    0 <= m < q ==> !(#[trigger] cts@[m]).known_cards@.contains(*card),
            decreases 4 - q,
        {
            if vec_contains(&cts[q].known_cards, card) {
                return false;
            }
            q = q + 1;
        }
        if matches!(card.color, Color::Trump) && card.value > cts[index].highest_trump {
            return false;
        }
        true
    }

    /// A contradiction in the publicly known cards that no deal can meet:
    /// a seat known to hold more cards than its bookkeeping allows, a card
    /// known to sit in two hands at once, or a known card that is invalid
    /// or was already played. Such over-tight constraints are reported,
    /// never silently patched.
    pub open spec fn spec_known_conflict(self) -> bool {
        ||| exists|q: int|
            0 <= q < 4 && (#[trigger] self.spec_known_of(q)).len() > self.spec_number_cards(q)
        ||| exists|q1: int, q2: int, c: Card|
            0 <= q1 < 4 && 0 <= q2 < 4 && q1 != q2 && (#[trigger] self.spec_known_of(
                q1,
            ).contains(c)) && (#[trigger] self.spec_known_of(q2).contains(c))
        ||| exists|q: int, c: Card|
            0 <= q < 4 && (#[trigger] self.spec_known_of(q).contains(c)) && !(valid_card(c)
                && !self.shared_state.used_seq().contains(c))
    }

    /// Whether the card, held by the seat, would contradict the derived
    /// constraints: a proven void, the trump ceiling, or a kitty the
    /// non-taker viewer can see.
    pub open spec fn spec_compatible(self, p: int, c: Card) -> bool {
        &&& !self.spec_proved_void(p, c.color)
        &&& (c.color == Color::Trump ==> c.value as int <= self.spec_ceiling(p))
        &&& !self.spec_excluded_by_kitty(c)
    }

    /// Constraint-aware determinization: assigns every unseen card to a
    /// seat that may still hold it, seeding each hand with its publicly
    /// known cards, routing cards with no eligible holder to the kitty,
    /// and preferring the seat with the least slack. Fails with the
    /// hand-generation error when the derived constraints admit no deal
    /// that meets the public bookkeeping.
    #[verifier::loop_isolation(false)]
    #[verifier::rlimit(100)]
    pub fn possible_random_full_state_v2(&self) -> (r: Result<GameState, EngineError>)
        requires
            self.wf(),
        ensures
            match r {
                Ok(gs) => {
                    &&& gs.wf()
                    &&& gs.shared_state.obs_eq(self.shared_state)
                    &&& gs.players_state@[self.player_index as int].hand@
                        == self.player_state.hand@
                    &&& forall|q: int, c: Card|
                        0 <= q < 4 && (#[trigger] self.spec_known_of(q).contains(c))
                            ==> gs.players_state@[q].hand@.contains(c)
                    &&& forall|q: int, c: Card|
                        0 <= q < 4 && (#[trigger] gs.players_state@[q].hand@.contains(c)) ==> (
                        self.spec_known_of(q).contains(c) || self.spec_compatible(q, c))
                },
                Err(e) => e == EngineError::HandGenerationNotPossible,
            },
            self.spec_known_conflict() ==> r is Err,
    {
        let me = self.player_index as usize;
        let cts: [PlayerConstraint; 4] = [
            match self.get_known_constraints(0) {
                Ok(ct) => ct,
                Err(_) => { return Err(EngineError::HandGenerationNotPossible); },
            },
            match self.get_known_constraints(1) {
                Ok(ct) => ct,
                Err(_) => { return Err(EngineError::HandGenerationNotPossible); },
            },
            match self.get_known_constraints(2) {
                Ok(ct) => ct,
                Err(_) => { return Err(EngineError::HandGenerationNotPossible); },
            },
            match self.get_known_constraints(3) {
                Ok(ct) => ct,
                Err(_) => { return Err(EngineError::HandGenerationNotPossible); },
            },
        ];
        proof {
            lemma_known_parts_wf(*self);
        }
        let left = self.shared_state.cards_left_to_play();
        let poss: [Vec<Card>; 4] = [
            self.possible_cards(&cts, &left, 0),
            self.possible_cards(&cts, &left, 1),
            self.possible_cards(&cts, &left, 2),
            self.possible_cards(&cts, &left, 3),
        ];
        // the publicly known cards must be distinct, unplayed, and no more
        // than the seat's bookkeeping allows
        let mut removed: Vec<Card> = Vec::new();
        let mut q: usize = 0;
        while q < 4
            invariant
                q <= 4,
                removed@.no_duplicates(),
                removed@ =~= known_prefix(cts@, q as int),
                forall|c: Card| #[trigger] removed@.contains(c) ==> left@.contains(c),
                forall|p2: int|
                    0 <= p2 < q ==> (#[trigger] cts@[p2]).known_cards@.len()
                        <= cts@[p2].number_cards,
            decreases 4 - q,
        {
            if cts[q].known_cards.len() > cts[q].number_cards {
                return Err(EngineError::HandGenerationNotPossible);
            }
            let kc = &cts[q].known_cards;
            let mut j: usize = 0;
            while j < kc.len()
                invariant
                    q < 4,
                    j <= kc@.len(),
                    kc@ == cts@[q as int].known_cards@,
                    removed@.no_duplicates(),
                    removed@ =~= known_prefix(cts@, q as int) + kc@.subrange(0, j as int),
                    forall|c: Card| #[trigger] removed@.contains(c) ==> left@.contains(c),
                decreases kc@.len() - j,
            {
                let card = kc[j];
                if vec_contains(&removed, &card) {
                    return Err(EngineError::HandGenerationNotPossible);
                }
                if !vec_contains(&left, &card) {
                    return Err(EngineError::HandGenerationNotPossible);
                }
                let ghost rpre2 = removed@;
                removed.push(card);
                proof {
                    assert forall|c: Card| #[trigger] removed@.contains(c) implies left@.contains(
                        c,
                    ) by {
                        let m = choose|m: int| 0 <= m < removed@.len() && removed@[m] == c;
                        if m < removed@.len() - 1 {
                            assert(rpre2[m] == c);
                            assert(rpre2.contains(c));
                        } else {
                            assert(c == card);
                        }
                    }
                    assert(removed@ =~= known_prefix(cts@, q as int) + kc@.subrange(0, j + 1));
                }
                j = j + 1;
            }
            proof {
                assert(kc@.subrange(0, kc@.len() as int) =~= kc@);
                assert(removed@ =~= known_prefix(cts@, q as int + 1));
            }
            q = q + 1;
        }
        let mut unseen = filter_out(&left, &removed);
        proof {
            crate::vec_util::lemma_filter_out_len(left@, removed@, unseen@);
        }
        let ghost upre = unseen@;
        shuffle_cards(&mut unseen);
        let ghost ul = unseen@;
        proof {
            broadcast use vstd::seq_lib::group_to_multiset_ensures;

            assert forall|c: Card| #[trigger] ul.contains(c) <==> upre.contains(c) by {
                assert(ul.contains(c) <==> ul.to_multiset().count(c) > 0);
                assert(upre.contains(c) <==> upre.to_multiset().count(c) > 0);
            }
            assert(ul.no_duplicates()) by {
                upre.lemma_multiset_has_no_duplicates();
                assert forall|c: Card| ul.to_multiset().contains(c) implies ul.to_multiset()
                    .count(c) == 1 by {
                    assert(upre.to_multiset().contains(c));
                }
                ul.lemma_multiset_has_no_duplicates_conv();
            }
        }
        // facts the assignment step needs about its inputs
        proof {
            crate::card::lemma_deck_properties();
            assert forall|q2: int, c: Card|
                0 <= q2 < 4 && #[trigger] ul.contains(c) implies !(
            #[trigger] cts@[q2].known_cards@).contains(c) by {
                if cts@[q2].known_cards@.contains(c) {
                    let j = choose|j: int|
                        0 <= j < cts@[q2].known_cards@.len() && cts@[q2].known_cards@[j] == c;
                    lemma_known_prefix_member(cts@, q2, j);
                    assert(removed@.contains(c));
                    assert(upre.contains(c));
                    assert(false);
                }
            }
            assert forall|q2: int| 0 <= q2 < 4 implies (
            #[trigger] cts@[q2].known_cards@).no_duplicates() by {
                assert(cts@[q2].known_cards@ == self.spec_known_of(q2));
                if q2 == me as int {
                    assert(self.player_state.wf());
                } else {
                    match self.shared_state.declared_handfuls@[q2] {
                        Some(hf) => {
                            assert(hf.wf());
                        },
                        None => {
                            assert(self.spec_known_of(q2).len() == 0);
                        },
                    }
                }
            }
            assert forall|q2: int| 0 <= q2 < 4 implies (#[trigger] cts@[q2]).number_cards
                <= 18 by {
                assert(cts@[q2].number_cards as int == self.spec_number_cards(q2));
            }
            assert forall|q2: int| 0 <= q2 < 4 implies (#[trigger] poss@[q2])@.len() <= 78 by {
                assert(poss@[q2]@.len() <= left@.len());
            }
        }
        let ghost ktot = cts@[0].known_cards@.to_multiset().add(
            cts@[1].known_cards@.to_multiset(),
        ).add(cts@[2].known_cards@.to_multiset()).add(cts@[3].known_cards@.to_multiset());
        let (hands, kitty_v) = match generate_hands(&cts, &poss, unseen) {
            Ok(hk) => hk,
            Err(e) => { return Err(EngineError::HandGenerationNotPossible); },
        };
        let ghost hfin = hands@;
        proof {
            broadcast use vstd::seq_lib::group_to_multiset_ensures;
            broadcast use vstd::multiset::group_multiset_axioms;

            let k0 = cts@[0].known_cards@;
            let k1 = cts@[1].known_cards@;
            let k2 = cts@[2].known_cards@;
            let k3 = cts@[3].known_cards@;
            assert(known_prefix(cts@, 0) == Seq::<Card>::empty());
            assert(known_prefix(cts@, 1) =~= k0);
            assert(known_prefix(cts@, 2) =~= k0 + k1);
            assert(known_prefix(cts@, 3) =~= (k0 + k1) + k2);
            assert(known_prefix(cts@, 4) =~= ((k0 + k1) + k2) + k3);
            vstd::seq_lib::lemma_multiset_commutative(k0, k1);
            vstd::seq_lib::lemma_multiset_commutative(k0 + k1, k2);
            vstd::seq_lib::lemma_multiset_commutative((k0 + k1) + k2, k3);
            assert(removed@.to_multiset() == ktot);
            lemma_v2_kitty_len(*self, cts@, left@, removed@, ul, hfin, kitty_v@, ktot);
        }
        let kitty: [Card; 6] = [
            kitty_v[0],
            kitty_v[1],
            kitty_v[2],
            kitty_v[3],
            kitty_v[4],
            kitty_v[5],
        ];
        let mut hands = hands;
        let h3 = match hands.pop() {
            Some(h) => h,
            None => {
                proof {
                    assert(false);
                }
                Vec::new()
            },
        };
        let h2 = match hands.pop() {
            Some(h) => h,
            None => {
                proof {
                    assert(false);
                }
                Vec::new()
            },
        };
        let h1 = match hands.pop() {
            Some(h) => h,
            None => {
                proof {
                    assert(false);
                }
                Vec::new()
            },
        };
        let h0 = match hands.pop() {
            Some(h) => h,
            None => {
                proof {
                    assert(false);
                }
                Vec::new()
            },
        };
        let gs = GameState {
            players_state: [
                PlayerGameState { hand: h0 },
                PlayerGameState { hand: h1 },
                PlayerGameState { hand: h2 },
                PlayerGameState { hand: h3 },
            ],
            kitty,
            shared_state: self.shared_state.clone(),
        };
        proof {
            assert(kitty@ =~= kitty_v@);
            assert(gs.players_state@[0].hand@ == hfin[0]@ && gs.players_state@[1].hand@
                == hfin[1]@ && gs.players_state@[2].hand@ == hfin[2]@
                && gs.players_state@[3].hand@ == hfin[3]@);
            assert(self.shared_state.obs_eq(gs.shared_state));
            assert(gs.players_state@[me as int].hand@ == self.player_state.hand@) by {
                assert(cts@[me as int].known_cards@ == self.player_state.hand@);
                assert(cts@[me as int].number_cards as int == self.spec_number_cards(
                    me as int,
                ));
            }
            lemma_v2_wf(*self, gs, cts@, poss@, left@, removed@, ul, ktot, hfin, kitty_v@);
            // the publicly known cards were all seeded into their hands
            assert forall|q: int, c: Card|
                0 <= q < 4 && (#[trigger] self.spec_known_of(q).contains(c)) implies gs
                .players_state@[q].hand@.contains(c) by {
                assert(cts@[q].known_cards@ == self.spec_known_of(q));
            }
            // reaching this point refutes every pre-shuffle contradiction
            assert(!self.spec_known_conflict()) by {
                broadcast use vstd::seq_lib::group_to_multiset_ensures;
                broadcast use vstd::multiset::group_multiset_axioms;

                removed@.lemma_multiset_has_no_duplicates();
                if exists|q: int|
                    0 <= q < 4 && (#[trigger] self.spec_known_of(q)).len()
                        > self.spec_number_cards(q) {
                    let q = choose|q: int|
                        0 <= q < 4 && (#[trigger] self.spec_known_of(q)).len()
                            > self.spec_number_cards(q);
                    assert(cts@[q].known_cards@.len() <= cts@[q].number_cards);
                    assert(false);
                }
                if exists|q1: int, q2: int, c: Card|
                    0 <= q1 < 4 && 0 <= q2 < 4 && q1 != q2 && (#[trigger] self.spec_known_of(
                        q1,
                    ).contains(c)) && (#[trigger] self.spec_known_of(q2).contains(c)) {
                    let (q1, q2, c) = choose|q1: int, q2: int, c: Card|
                        0 <= q1 < 4 && 0 <= q2 < 4 && q1 != q2 && (#[trigger] self.spec_known_of(
                            q1,
                        ).contains(c)) && (#[trigger] self.spec_known_of(q2).contains(c));
                    assert(removed@.to_multiset().count(c) <= 1) by {
                        assert(removed@.to_multiset().contains(c)) by {
                            let j = choose|j: int|
                                0 <= j < cts@[q1].known_cards@.len() && cts@[
                                q1].known_cards@[j] == c;
                            lemma_known_prefix_member(cts@, q1, j);
                            assert(removed@.contains(c));
                        }
                    }
                    assert(cts@[q1].known_cards@.to_multiset().count(c) >= 1);
                    assert(cts@[q2].known_cards@.to_multiset().count(c) >= 1);
                    assert(ktot.count(c) >= 2) by {
                        assert(q1 == 0 || q1 == 1 || q1 == 2 || q1 == 3);
                        assert(q2 == 0 || q2 == 1 || q2 == 2 || q2 == 3);
                    }
                    assert(false);
                }
                if exists|q: int, c: Card|
                    0 <= q < 4 && (#[trigger] self.spec_known_of(q).contains(c)) && !(valid_card(
                        c,
                    ) && !self.shared_state.used_seq().contains(c)) {
                    let (q, c) = choose|q: int, c: Card|
                        0 <= q < 4 && (#[trigger] self.spec_known_of(q).contains(c)) && !(
                        valid_card(c) && !self.shared_state.used_seq().contains(c));
                    let j = choose|j: int|
                        0 <= j < cts@[q].known_cards@.len() && cts@[q].known_cards@[j] == c;
                    lemma_known_prefix_member(cts@, q, j);
                    assert(removed@.contains(c));
                    assert(left@.contains(c));
                    assert(false);
                }
            }
        }
        Ok(gs)
    }

    /// One finished trick, by position.
    fn played_trick_at(&self, i: usize) -> (r: PlayedTrick)
        requires
            i < self.shared_state.played_tricks@.len(),
        ensures
            r == self.shared_state.played_tricks@[i as int],
    {
        self.shared_state.played_tricks[i]
    }
}

/// The known kitty's cards, empty while the kitty is hidden.
pub open spec fn kitty_seq(k: KnownGameState) -> Seq<Card> {
    match k.kitty {
        Some(a) => a@,
        None => Seq::empty(),
    }
}

/// In a well-formed view, the viewer's hand, the known kitty and the
/// played cards are distinct valid cards with no overlap.
proof fn lemma_known_parts_wf(k: KnownGameState)
    requires
        k.wf(),
    ensures
        k.player_state.hand@.no_duplicates(),
        k.shared_state.used_seq().no_duplicates(),
        kitty_seq(k).no_duplicates(),
        forall|i: int|
            0 <= i < k.shared_state.used_seq().len() ==> valid_card(
                #[trigger] k.shared_state.used_seq()[i],
            ),
        forall|i: int| 0 <= i < kitty_seq(k).len() ==> valid_card(#[trigger] kitty_seq(k)[i]),
        forall|c: Card|
            #[trigger] k.player_state.hand@.to_multiset().count(c) + kitty_seq(
                k,
            ).to_multiset().count(c) + k.shared_state.used_seq().to_multiset().count(c) <= 1,
{
    broadcast use vstd::seq_lib::group_to_multiset_ensures;
    broadcast use vstd::multiset::group_multiset_axioms;

    crate::card::lemma_deck_properties();
    assert forall|c: Card|
        #[trigger] k.player_state.hand@.to_multiset().count(c) + kitty_seq(
            k,
        ).to_multiset().count(c) + k.shared_state.used_seq().to_multiset().count(c) <= 1 by {
        assert(k.player_state.hand@.to_multiset().count(c) + k.kitty_mset().count(c)
            + k.shared_state.used_mset().count(c) <= deck_mset().count(c));
        assert(kitty_seq(k).to_multiset() == k.kitty_mset()) by {
            if k.kitty is None {
                assert(kitty_seq(k).to_multiset().len() == 0);
                assert(kitty_seq(k).to_multiset() =~= Multiset::<Card>::empty());
            }
        }
    }
    assert forall|c: Card|
        #[trigger] k.shared_state.used_seq().to_multiset().count(c) <= deck_mset().count(c) by {
        assert(k.player_state.hand@.to_multiset().count(c) + k.kitty_mset().count(c)
            + k.shared_state.used_mset().count(c) <= deck_mset().count(c));
    }
    crate::card::lemma_deck_part_wf(k.shared_state.used_seq());
    assert forall|c: Card|
        #[trigger] kitty_seq(k).to_multiset().count(c) <= deck_mset().count(c) by {
        assert(k.player_state.hand@.to_multiset().count(c) + k.kitty_mset().count(c)
            + k.shared_state.used_mset().count(c) <= deck_mset().count(c));
        assert(kitty_seq(k).to_multiset() == k.kitty_mset()) by {
            if k.kitty is None {
                assert(kitty_seq(k).to_multiset().len() == 0);
                assert(kitty_seq(k).to_multiset() =~= Multiset::<Card>::empty());
            }
        }
    }
    crate::card::lemma_deck_part_wf(kitty_seq(k));
}

/// The dealing pool holds exactly the cards the other seats and an unknown
/// kitty still need.
proof fn lemma_pool_len(
    k: KnownGameState,
    left: Seq<Card>,
    removed: Seq<Card>,
    pool: Seq<Card>,
    ktail: int,
)
    requires
        k.wf(),
        left.no_duplicates(),
        forall|c: Card|
            #[trigger] left.contains(c) <==> (valid_card(c)
                && !k.shared_state.used_seq().contains(c)),
        left.len() == 78 - k.shared_state.used_seq().len(),
        removed =~= k.player_state.hand@ + kitty_seq(k),
        pool.no_duplicates(),
        forall|c: Card| #[trigger] pool.contains(c) <==> (left.contains(c) && !removed.contains(c)),
        ktail == (if k.kitty is Some {
            0int
        } else {
            6int
        }),
    ensures
        pool.len() as int == k.needed_prefix(4) + ktail,
{
    lemma_known_parts_wf(k);
    broadcast use vstd::seq_lib::group_to_multiset_ensures;

    let own = k.player_state.hand@;
    let ks = kitty_seq(k);
    vstd::seq_lib::lemma_multiset_commutative(own, ks);
    // the removed cards are distinct and all of them are still unplayed
    assert(removed.no_duplicates()) by {
        assert forall|c: Card| removed.to_multiset().contains(c) implies removed.to_multiset()
            .count(c) == 1 by {
            assert(removed.to_multiset().count(c) == own.to_multiset().count(c)
                + ks.to_multiset().count(c));
        }
        removed.lemma_multiset_has_no_duplicates_conv();
    }
    assert forall|c: Card| #[trigger] removed.contains(c) implies left.contains(c) by {
        assert(removed.to_multiset().count(c) > 0);
        assert(removed.to_multiset().count(c) == own.to_multiset().count(c)
            + ks.to_multiset().count(c));
        assert(!k.shared_state.used_seq().contains(c)) by {
            if k.shared_state.used_seq().contains(c) {
                assert(k.shared_state.used_seq().to_multiset().count(c) > 0);
            }
        }
        assert(valid_card(c)) by {
            if own.to_multiset().count(c) > 0 {
                assert(own.contains(c));
                let i = choose|i: int| 0 <= i < own.len() && own[i] == c;
                assert(k.player_state.wf());
            } else {
                assert(ks.contains(c));
                let i = choose|i: int| 0 <= i < ks.len() && ks[i] == c;
            }
        }
    }
    crate::vec_util::lemma_filter_out_len(left, removed, pool);
    // length bookkeeping
    crate::shared_game_state::lemma_used_seq_len(k.shared_state);
    let n = k.shared_state.played_tricks@.len() as int;
    let me = k.player_index as int;
    assert(removed.len() == own.len() + ks.len());
    assert(own.len() as int == 18 - n - k.shared_state.cur_filled(me));
    let fill = match k.shared_state.current_trick {
        Some(t) => crate::trick::trick_fill_count(t),
        None => 0int,
    };
    assert(fill == k.shared_state.cur_filled(0) + k.shared_state.cur_filled(1)
        + k.shared_state.cur_filled(2) + k.shared_state.cur_filled(3));
    assert(k.needed_prefix(1) == k.needed_prefix(0) + if 0 == me {
        0int
    } else {
        k.spec_number_cards(0)
    });
    assert(k.needed_prefix(2) == k.needed_prefix(1) + if 1 == me {
        0int
    } else {
        k.spec_number_cards(1)
    });
    assert(k.needed_prefix(3) == k.needed_prefix(2) + if 2 == me {
        0int
    } else {
        k.spec_number_cards(2)
    });
    assert(k.needed_prefix(4) == k.needed_prefix(3) + if 3 == me {
        0int
    } else {
        k.spec_number_cards(3)
    });
}

/// Earlier prefixes of the deal never need more cards than later ones.
proof fn lemma_needed_prefix_mono(k: KnownGameState, a: int, b: int)
    requires
        k.wf(),
        0 <= a <= b <= 4,
    ensures
        k.needed_prefix(a) <= k.needed_prefix(b),
    decreases b,
{
    if a < b {
        lemma_needed_prefix_mono(k, a, b - 1);
        assert(k.spec_number_cards(b - 1) >= 0);
    }
}

/// Bounds used while dealing seat by seat.
proof fn lemma_needed_prefix_bounds(k: KnownGameState, q: int)
    requires
        k.wf(),
        0 <= q <= 4,
    ensures
        0 <= k.needed_prefix(q),
        k.needed_prefix(q) <= k.needed_prefix(4),
        q < 4 ==> k.needed_prefix(q + 1) <= k.needed_prefix(4),
        q < 4 && q != k.player_index as int ==> k.needed_prefix(q + 1) == k.needed_prefix(q)
            + k.spec_number_cards(q),
        q < 4 && q == k.player_index as int ==> k.needed_prefix(q + 1) == k.needed_prefix(q),
{
    lemma_needed_prefix_mono(k, 0, q);
    lemma_needed_prefix_mono(k, q, 4);
    if q < 4 {
        lemma_needed_prefix_mono(k, q + 1, 4);
    }
}

/// A deal of the unseen pool into the other seats reconstructs a
/// well-formed full state: the parts partition the deck again.
#[verifier::rlimit(100)]
proof fn lemma_deal_wf(k: KnownGameState, gs: GameState, pl: Seq<Card>, ktail: int)
    requires
        k.wf(),
        pl.no_duplicates(),
        forall|c: Card|
            #[trigger] pl.contains(c) <==> (valid_card(c) && !k.shared_state.used_seq().contains(
                c,
            ) && !k.player_state.hand@.contains(c) && !kitty_seq(k).contains(c)),
        pl.len() as int == k.needed_prefix(4) + ktail,
        ktail == (if k.kitty is Some {
            0int
        } else {
            6int
        }),
        forall|j: int|
            0 <= j < 4 ==> (#[trigger] gs.players_state@[j]).hand@ == (if j
                == k.player_index as int {
                k.player_state.hand@
            } else {
                pl.subrange(k.needed_prefix(j), k.needed_prefix(j + 1))
            }),
        match k.kitty {
            Some(a) => gs.kitty@ == a@,
            None => gs.kitty@ == pl.subrange(k.needed_prefix(4), k.needed_prefix(4) + 6),
        },
        k.shared_state.obs_eq(gs.shared_state),
    ensures
        gs.wf(),
{
    broadcast use vstd::seq_lib::group_to_multiset_ensures;
    broadcast use vstd::multiset::group_multiset_axioms;

    lemma_known_parts_wf(k);
    crate::card::lemma_deck_properties();
    crate::shared_game_state::lemma_shared_obs_eq_wf(k.shared_state, gs.shared_state);
    let me = k.player_index as int;
    let own = k.player_state.hand@;
    let used = k.shared_state.used_seq();
    let ks = kitty_seq(k);
    lemma_needed_prefix_bounds(k, 0);
    lemma_needed_prefix_bounds(k, 1);
    lemma_needed_prefix_bounds(k, 2);
    lemma_needed_prefix_bounds(k, 3);
    lemma_needed_prefix_bounds(k, 4);
    let p1 = k.needed_prefix(1);
    let p2 = k.needed_prefix(2);
    let p3 = k.needed_prefix(3);
    let p4 = k.needed_prefix(4);
    let s0 = pl.subrange(0, p1);
    let s1 = pl.subrange(p1, p2);
    let s2 = pl.subrange(p2, p3);
    let s3 = pl.subrange(p3, p4);
    let tail = pl.subrange(p4, pl.len() as int);
    assert(pl =~= s0 + s1 + s2 + s3 + tail);
    vstd::seq_lib::lemma_multiset_commutative(s0, s1);
    vstd::seq_lib::lemma_multiset_commutative(s0 + s1, s2);
    vstd::seq_lib::lemma_multiset_commutative(s0 + s1 + s2, s3);
    vstd::seq_lib::lemma_multiset_commutative(s0 + s1 + s2 + s3, tail);
    // each subrange is a run of distinct cards from the pool
    assert forall|c: Card| #[trigger] pl.contains(c) implies valid_card(c) by {}
    lemma_sub_run(pl, 0, p1);
    lemma_sub_run(pl, p1, p2);
    lemma_sub_run(pl, p2, p3);
    lemma_sub_run(pl, p3, p4);
    lemma_sub_run(pl, p4, pl.len() as int);
    assert(sub_wf(s0, pl) && sub_wf(s1, pl) && sub_wf(s2, pl) && sub_wf(s3, pl) && sub_wf(
        tail,
        pl,
    ));
    // combined, the hands and the kitty hold the viewer's hand, the pool
    // and the known kitty
    let parts = own.to_multiset().add(pl.to_multiset()).add(ks.to_multiset());
    assert(gs.hands_mset().add(gs.kitty@.to_multiset()) =~= parts) by {
        assert(s0.to_multiset().add(s1.to_multiset()).add(s2.to_multiset()).add(
            s3.to_multiset(),
        ).add(tail.to_multiset()) =~= pl.to_multiset());
        if me == 0 {
            assert(s0.len() == 0);
            assert(s0.to_multiset() =~= Multiset::<Card>::empty());
        } else if me == 1 {
            assert(s1.len() == 0);
            assert(s1.to_multiset() =~= Multiset::<Card>::empty());
        } else if me == 2 {
            assert(s2.len() == 0);
            assert(s2.to_multiset() =~= Multiset::<Card>::empty());
        } else {
            assert(s3.len() == 0);
            assert(s3.to_multiset() =~= Multiset::<Card>::empty());
        }
        match k.kitty {
            Some(a) => {
                assert(tail.len() == 0);
                assert(tail.to_multiset() =~= Multiset::<Card>::empty());
                assert(gs.kitty@.to_multiset() == ks.to_multiset());
            },
            None => {
                assert(gs.kitty@ == tail);
                assert(ks.to_multiset().len() == 0);
                assert(ks.to_multiset() =~= Multiset::<Card>::empty());
            },
        }
    }
    // the partition of the deck is restored
    assert(gs.all_cards_mset() == deck_mset()) by {
        assert(gs.shared_state.used_seq() == used);
        assert forall|c: Card| gs.all_cards_mset().count(c) == deck_mset().count(c) by {
            let co = own.to_multiset().count(c);
            let cp = pl.to_multiset().count(c);
            let ck = ks.to_multiset().count(c);
            let cu = used.to_multiset().count(c);
            assert(gs.all_cards_mset().count(c) == co + cp + ck + cu);
            assert(co + ck + cu <= 1);
            assert(cp <= 1) by {
                pl.lemma_multiset_has_no_duplicates();
                if pl.to_multiset().count(c) > 1 {
                    assert(pl.to_multiset().contains(c));
                }
            }
            if valid_card(c) {
                assert(deck_mset().count(c) == 1);
                if co + ck + cu == 0 {
                    assert(!own.contains(c) && !ks.contains(c) && !used.contains(c));
                    assert(pl.contains(c));
                    assert(cp >= 1);
                } else {
                    assert(own.contains(c) || ks.contains(c) || used.contains(c));
                    assert(!pl.contains(c));
                    assert(cp == 0);
                }
            } else {
                assert(deck_mset().count(c) == 0);
                assert(!pl.contains(c));
                assert(cp == 0);
                assert(co == 0) by {
                    if co > 0 {
                        assert(own.contains(c));
                        let i = choose|i: int| 0 <= i < own.len() && own[i] == c;
                        assert(k.player_state.wf());
                    }
                }
                assert(ck == 0) by {
                    if ck > 0 {
                        assert(ks.contains(c));
                        let i = choose|i: int| 0 <= i < ks.len() && ks[i] == c;
                    }
                }
                assert(cu == 0) by {
                    if cu > 0 {
                        assert(used.contains(c));
                        let i = choose|i: int| 0 <= i < used.len() && used[i] == c;
                    }
                }
            }
        }
    }
    // seat bookkeeping and per-hand well-formedness
    assert forall|j: int| 0 <= j < 4 implies (#[trigger] gs.players_state@[j]).wf() by {
        if j != me {
            let s = gs.players_state@[j].hand@;
            assert(s == pl.subrange(k.needed_prefix(j), k.needed_prefix(j + 1)));
            assert(sub_wf(s, pl));
        }
    }
    assert forall|j: int|
        0 <= j < 4 implies (#[trigger] gs.players_state@[j]).hand@.len() as int == 18
        - gs.shared_state.played_tricks@.len() - gs.shared_state.cur_filled(j) by {
        assert(gs.shared_state.cur_filled(j) == k.shared_state.cur_filled(j));
        assert(gs.shared_state.played_tricks@.len() == k.shared_state.played_tricks@.len());
        if j != me {
            lemma_needed_prefix_bounds(k, j);
        }
    }
}

/// A run of distinct valid cards drawn from the pool.
spec fn sub_wf(s: Seq<Card>, pl: Seq<Card>) -> bool {
    &&& s.no_duplicates()
    &&& forall|i: int| 0 <= i < s.len() ==> valid_card(#[trigger] s[i])
    &&& forall|c: Card| #[trigger] s.contains(c) ==> pl.contains(c)
}

/// Any slice of a run of distinct valid cards is such a run.
proof fn lemma_sub_run(pl: Seq<Card>, a: int, b: int)
    requires
        pl.no_duplicates(),
        forall|c: Card| #[trigger] pl.contains(c) ==> valid_card(c),
        0 <= a <= b <= pl.len(),
    ensures
        sub_wf(pl.subrange(a, b), pl),
{
    let s = pl.subrange(a, b);
    assert forall|i: int| 0 <= i < s.len() implies valid_card(#[trigger] s[i]) by {
        assert(s[i] == pl[a + i]);
        assert(pl.contains(pl[a + i]));
    }
    assert(s.no_duplicates()) by {
        assert forall|i: int, j: int|
            0 <= i < s.len() && 0 <= j < s.len() && i != j implies s[i] != s[j] by {
            assert(s[i] == pl[a + i] && s[j] == pl[a + j]);
        }
    }
    assert forall|c: Card| #[trigger] s.contains(c) implies pl.contains(c) by {
        let i = choose|i: int| 0 <= i < s.len() && s[i] == c;
        assert(pl[a + i] == c);
    }
}


/// The known cards of the first `q` seats, concatenated.
pub open spec fn known_prefix(cts: Seq<PlayerConstraint>, q: int) -> Seq<Card>
    decreases q,
{
    if q <= 0 {
        Seq::empty()
    } else {
        known_prefix(cts, q - 1) + cts[q - 1].known_cards@
    }
}

/// The four seeded hands combined, as a multiset.
pub open spec fn hands4_mset(h: Seq<Vec<Card>>) -> Multiset<Card> {
    h[0]@.to_multiset().add(h[1]@.to_multiset()).add(h[2]@.to_multiset()).add(
        h[3]@.to_multiset(),
    )
}

/// A card known for one seat occurs in the concatenation of all known
/// cards.
proof fn lemma_known_prefix_member(cts: Seq<PlayerConstraint>, q: int, j: int)
    requires
        0 <= q < 4,
        cts.len() == 4,
        0 <= j < cts[q].known_cards@.len(),
    ensures
        known_prefix(cts, 4).contains(cts[q].known_cards@[j]),
{
    let c = cts[q].known_cards@[j];
    assert(known_prefix(cts, q + 1).contains(c)) by {
        assert(known_prefix(cts, q + 1)[known_prefix(cts, q).len() + j] == c);
    }
    lemma_known_prefix_grow(cts, q + 1, 4, c);
}

/// Membership in a prefix of the known cards persists in longer prefixes.
proof fn lemma_known_prefix_grow(cts: Seq<PlayerConstraint>, a: int, b: int, c: Card)
    requires
        0 <= a <= b,
        known_prefix(cts, a).contains(c),
    ensures
        known_prefix(cts, b).contains(c),
    decreases b - a,
{
    if a < b {
        assert(known_prefix(cts, a + 1).contains(c)) by {
            let m = choose|m: int|
                0 <= m < known_prefix(cts, a).len() && known_prefix(cts, a)[m] == c;
            assert(known_prefix(cts, a + 1)[m] == c);
        }
        lemma_known_prefix_grow(cts, a + 1, b, c);
    }
}

/// Deals the unseen cards under the derived constraints: each hand starts
/// from its publicly known cards, a card no seat may hold goes to the
/// kitty, and every other card goes to an eligible seat with the least
/// slack, ties broken at random. Fails when some seat's public bookkeeping
/// cannot be met exactly.
#[verifier::loop_isolation(false)]
#[verifier::rlimit(100)]
fn generate_hands(cts: &[PlayerConstraint; 4], poss: &[Vec<Card>; 4], unseen: Vec<Card>) -> (r:
    Result<(Vec<Vec<Card>>, Vec<Card>), EngineError>)
    requires
        forall|q: int|
            0 <= q < 4 ==> (#[trigger] cts@[q]).known_cards@.len() <= cts@[q].number_cards,
        forall|q: int| 0 <= q < 4 ==> (#[trigger] cts@[q]).known_cards@.no_duplicates(),
        forall|q: int| 0 <= q < 4 ==> (#[trigger] cts@[q]).number_cards <= 18,
        forall|q: int| 0 <= q < 4 ==> (#[trigger] poss@[q])@.len() <= 78,
        unseen@.no_duplicates(),
        forall|c: Card| #[trigger] unseen@.contains(c) ==> !known_prefix(cts@, 4).contains(c),
    ensures
        match r {
            Ok(hk) => {
                &&& hk.0@.len() == 4
                &&& forall|q: int| 0 <= q < 4 ==> (#[trigger] hk.0@[q])@.no_duplicates()
                &&& forall|q: int|
                    0 <= q < 4 ==> (#[trigger] hk.0@[q])@.len() == cts@[q].number_cards
                &&& forall|q: int, c: Card|
                    0 <= q < 4 && (#[trigger] hk.0@[q]@.contains(c)) ==> (
                    cts@[q].known_cards@.contains(c) || (poss@[q]@.contains(c)
                        && unseen@.contains(c)))
                &&& forall|q: int|
                    0 <= q < 4 && cts@[q].known_cards@.len() == cts@[q].number_cards ==> (
                    #[trigger] hk.0@[q])@ == cts@[q].known_cards@
                &&& forall|q: int, c: Card|
                    0 <= q < 4 && (#[trigger] cts@[q].known_cards@.contains(c)) ==> hk.0@[
                    q]@.contains(c)
                &&& hands4_mset(hk.0@).add(hk.1@.to_multiset()) == cts@[0].known_cards@
                    .to_multiset().add(cts@[1].known_cards@.to_multiset()).add(
                    cts@[2].known_cards@.to_multiset(),
                ).add(cts@[3].known_cards@.to_multiset()).add(unseen@.to_multiset())
            },
            Err(e) => e == EngineError::HandGenerationNotPossible,
        },
{
    let ghost ktot = cts@[0].known_cards@.to_multiset().add(
        cts@[1].known_cards@.to_multiset(),
    ).add(cts@[2].known_cards@.to_multiset()).add(cts@[3].known_cards@.to_multiset());
    let mut hands: Vec<Vec<Card>> = Vec::new();
    hands.push(copy_vec(&cts[0].known_cards));
    hands.push(copy_vec(&cts[1].known_cards));
    hands.push(copy_vec(&cts[2].known_cards));
    hands.push(copy_vec(&cts[3].known_cards));
    let mut remaining: Vec<usize> = Vec::new();
    remaining.push(cts[0].number_cards - cts[0].known_cards.len());
    remaining.push(cts[1].number_cards - cts[1].known_cards.len());
    remaining.push(cts[2].number_cards - cts[2].known_cards.len());
    remaining.push(cts[3].number_cards - cts[3].known_cards.len());
    let mut kitty_v: Vec<Card> = Vec::new();
    let ul = unseen;
    proof {
        broadcast use vstd::seq_lib::group_to_multiset_ensures;
        broadcast use vstd::multiset::group_multiset_axioms;

        assert(ul@.subrange(0, 0) =~= Seq::<Card>::empty());
        assert(hands4_mset(hands@).add(kitty_v@.to_multiset()) =~= ktot.add(
            ul@.subrange(0, 0).to_multiset(),
        )) by {
            assert(kitty_v@.to_multiset().len() == 0);
            assert(ul@.subrange(0, 0).to_multiset().len() == 0);
        }
    }
    let mut i: usize = 0;
    while i < ul.len()
        invariant
            i <= ul@.len(),
            hands@.len() == 4,
            remaining@.len() == 4,
            forall|q: int|
                0 <= q < 4 ==> remaining@[q] as int == cts@[q].number_cards as int - (
                #[trigger] hands@[q])@.len(),
            forall|q: int| 0 <= q < 4 ==> (#[trigger] hands@[q])@.no_duplicates(),
            forall|q: int|
                0 <= q < 4 && cts@[q].known_cards@.len() == cts@[q].number_cards ==> (
                #[trigger] hands@[q])@ == cts@[q].known_cards@,
            forall|q: int, c: Card|
                0 <= q < 4 && (#[trigger] cts@[q].known_cards@.contains(c)) ==> hands@[
                q]@.contains(c),
            forall|q: int, c: Card|
                0 <= q < 4 && (#[trigger] hands@[q]@.contains(c)) ==> (
                cts@[q].known_cards@.contains(c) || (poss@[q]@.contains(c) && exists|j: int|
                    0 <= j < i && ul@[j] == c)),
            hands4_mset(hands@).add(kitty_v@.to_multiset()) == ktot.add(
                ul@.subrange(0, i as int).to_multiset(),
            ),
        decreases ul@.len() - i,
    {
        let card = ul[i];
        let ghost hpre = hands@;
        let ghost kpre = kitty_v@;
        let mut cands: Vec<usize> = Vec::new();
        let mut cq: usize = 0;
        while cq < 4
            invariant
                cq <= 4,
                forall|m: int|
                    0 <= m < cands@.len() ==> (#[trigger] cands@[m]) < 4 && remaining@[
                    cands@[m] as int] > 0 && poss@[cands@[m] as int]@.contains(card),
            decreases 4 - cq,
        {
            if remaining[cq] > 0 && vec_contains(&poss[cq], &card) {
                cands.push(cq);
            }
            cq = cq + 1;
        }
        if cands.len() == 0 {
            kitty_v.push(card);
            proof {
                broadcast use vstd::seq_lib::group_to_multiset_ensures;
                broadcast use vstd::multiset::group_multiset_axioms;

                assert(ul@.subrange(0, i + 1) =~= ul@.subrange(0, i as int).push(card));
                assert(ul@.subrange(0, i as int).push(card).to_multiset() == ul@.subrange(
                    0,
                    i as int,
                ).to_multiset().insert(card));
                assert(kpre.push(card).to_multiset() == kpre.to_multiset().insert(card));
                assert(kitty_v@.to_multiset() == kpre.to_multiset().insert(card));
                assert forall|c2: Card|
                    hands4_mset(hands@).add(kitty_v@.to_multiset()).count(c2) == ktot.add(
                        ul@.subrange(0, i + 1).to_multiset(),
                    ).count(c2) by {
                    assert(hands4_mset(hands@).add(kpre.to_multiset()).count(c2) == ktot.add(
                        ul@.subrange(0, i as int).to_multiset(),
                    ).count(c2));
                    assert(kitty_v@.to_multiset().count(c2) == kpre.to_multiset().count(c2) + (
                    if c2 == card {
                        1int
                    } else {
                        0int
                    }));
                    assert(ul@.subrange(0, i + 1).to_multiset().count(c2) == ul@.subrange(
                        0,
                        i as int,
                    ).to_multiset().count(c2) + (if c2 == card {
                        1int
                    } else {
                        0int
                    }));
                }
                assert(hands4_mset(hands@).add(kitty_v@.to_multiset()) =~= ktot.add(
                    ul@.subrange(0, i + 1).to_multiset(),
                ));
            }
        } else {
            let mut best: usize = cands[0];
            let mut bi: usize = 1;
            while bi < cands.len()
                invariant
                    bi <= cands@.len(),
                    best < 4,
                    remaining@[best as int] > 0,
                    poss@[best as int]@.contains(card),
                decreases cands@.len() - bi,
            {
                let c2 = cands[bi];
                if remaining[c2] + poss[best].len() < remaining[best] + poss[c2].len() {
                    best = c2;
                }
                bi = bi + 1;
            }
            let mut tight: Vec<usize> = Vec::new();
            let mut ti: usize = 0;
            while ti < cands.len()
                invariant
                    ti <= cands@.len(),
                    forall|m: int|
                        0 <= m < tight@.len() ==> (#[trigger] tight@[m]) < 4 && remaining@[
                        tight@[m] as int] > 0 && poss@[tight@[m] as int]@.contains(card),
                decreases cands@.len() - ti,
            {
                let c2 = cands[ti];
                if remaining[c2] + poss[best].len() == remaining[best] + poss[c2].len() {
                    tight.push(c2);
                }
                ti = ti + 1;
            }
            if tight.len() == 0 {
                tight.push(best);
            }
            let chosen = tight[random_below(tight.len())];
            let rc = remaining[chosen];
            hands[chosen].push(card);
            remaining.set(chosen, rc - 1);
            proof {
                broadcast use vstd::seq_lib::group_to_multiset_ensures;
                broadcast use vstd::multiset::group_multiset_axioms;

                assert(hands@[chosen as int]@ == hpre[chosen as int]@.push(card));
                assert(forall|q: int|
                    0 <= q < 4 && q != chosen as int ==> hands@[q] == hpre[q]);
                assert(ul@.contains(card));
                assert(!hpre[chosen as int]@.contains(card)) by {
                    if cts@[chosen as int].known_cards@.contains(card) {
                        let j = choose|j: int|
                            0 <= j < cts@[chosen as int].known_cards@.len() && cts@[
                            chosen as int].known_cards@[j] == card;
                        lemma_known_prefix_member(cts@, chosen as int, j);
                        assert(false);
                    }
                    if exists|j: int| 0 <= j < i && ul@[j] == card {
                        let j = choose|j: int| 0 <= j < i && ul@[j] == card;
                        assert(ul@[j] == ul@[i as int]);
                        assert(false);
                    }
                }
                assert((hands@[chosen as int])@.no_duplicates());
                assert forall|q: int, c: Card|
                    0 <= q < 4 && (#[trigger] hands@[q]@.contains(c)) implies (
                cts@[q].known_cards@.contains(c) || (poss@[q]@.contains(c) && exists|j: int|
                    0 <= j < i + 1 && ul@[j] == c)) by {
                    if q == chosen as int {
                        let kk = choose|kk: int|
                            0 <= kk < hands@[q]@.len() && hands@[q]@[kk] == c;
                        if kk < hands@[q]@.len() - 1 {
                            assert(hpre[q]@[kk] == c);
                            assert(hpre[q]@.contains(c));
                        } else {
                            assert(c == card);
                            assert(ul@[i as int] == c);
                        }
                    } else {
                        assert(hpre[q]@.contains(c));
                    }
                }
                assert forall|q2: int, c2: Card|
                    0 <= q2 < 4 && (#[trigger] cts@[q2].known_cards@.contains(c2)) implies hands@[
                q2]@.contains(c2) by {
                    assert(hpre[q2]@.contains(c2));
                    if q2 == chosen as int {
                        let kk = choose|kk: int| 0 <= kk < hpre[q2]@.len() && hpre[q2]@[kk] == c2;
                        assert(hands@[q2]@[kk] == c2);
                    }
                }
                assert(ul@.subrange(0, i + 1) =~= ul@.subrange(0, i as int).push(card));
                assert(ul@.subrange(0, i as int).push(card).to_multiset() == ul@.subrange(
                    0,
                    i as int,
                ).to_multiset().insert(card));
                assert(hpre[chosen as int]@.push(card).to_multiset() == hpre[
                chosen as int]@.to_multiset().insert(card));
                assert(hands@[chosen as int]@.to_multiset() == hpre[
                chosen as int]@.to_multiset().insert(card));
                assert forall|c2: Card|
                    hands4_mset(hands@).add(kitty_v@.to_multiset()).count(c2) == ktot.add(
                        ul@.subrange(0, i + 1).to_multiset(),
                    ).count(c2) by {
                    assert(hands4_mset(hpre).add(kitty_v@.to_multiset()).count(c2) == ktot.add(
                        ul@.subrange(0, i as int).to_multiset(),
                    ).count(c2));
                    assert(hands@[chosen as int]@.to_multiset().count(c2) == hpre[
                    chosen as int]@.to_multiset().count(c2) + (if c2 == card {
                        1int
                    } else {
                        0int
                    }));
                    assert(chosen as int == 0 || chosen as int == 1 || chosen as int == 2
                        || chosen as int == 3);
                    assert(hands4_mset(hands@).count(c2) == hands4_mset(hpre).count(c2) + (
                    if c2 == card {
                        1int
                    } else {
                        0int
                    }));
                    assert(ul@.subrange(0, i + 1).to_multiset().count(c2) == ul@.subrange(
                        0,
                        i as int,
                    ).to_multiset().count(c2) + (if c2 == card {
                        1int
                    } else {
                        0int
                    }));
                }
                assert(hands4_mset(hands@).add(kitty_v@.to_multiset()) =~= ktot.add(
                    ul@.subrange(0, i + 1).to_multiset(),
                ));
            }
        }
        i = i + 1;
    }
    if remaining[0] != 0 || remaining[1] != 0 || remaining[2] != 0 || remaining[3] != 0 {
        return Err(EngineError::HandGenerationNotPossible);
    }
    proof {
        assert(ul@.subrange(0, ul@.len() as int) =~= ul@);
    }
    Ok((hands, kitty_v))
}

/// With every seat's bookkeeping met, the kitty gets exactly six cards.
#[verifier::rlimit(100)]
proof fn lemma_v2_kitty_len(
    k: KnownGameState,
    cts: Seq<PlayerConstraint>,
    left: Seq<Card>,
    removed: Seq<Card>,
    ul: Seq<Card>,
    hands: Seq<Vec<Card>>,
    kitty: Seq<Card>,
    ktot: Multiset<Card>,
)
    requires
        k.wf(),
        cts.len() == 4,
        hands.len() == 4,
        removed.to_multiset() == ktot,
        forall|q: int| 0 <= q < 4 ==> (#[trigger] hands[q])@.len() == cts[q].number_cards,
        forall|q: int|
            0 <= q < 4 ==> (#[trigger] cts[q]).number_cards as int == k.spec_number_cards(q),
        ktot == cts[0].known_cards@.to_multiset().add(cts[1].known_cards@.to_multiset()).add(
            cts[2].known_cards@.to_multiset(),
        ).add(cts[3].known_cards@.to_multiset()),
        hands4_mset(hands).add(kitty.to_multiset()) == ktot.add(ul.to_multiset()),
        ul.len() == left.len() - removed.len(),
        left.len() as int == 78 - k.shared_state.used_seq().len(),
    ensures
        kitty.len() == 6,
{
    broadcast use vstd::seq_lib::group_to_multiset_ensures;
    broadcast use vstd::multiset::group_multiset_axioms;

    crate::shared_game_state::lemma_used_seq_len(k.shared_state);
    let n = k.shared_state.played_tricks@.len() as int;
    let fill = match k.shared_state.current_trick {
        Some(t) => crate::trick::trick_fill_count(t),
        None => 0int,
    };
    assert(fill == k.shared_state.cur_filled(0) + k.shared_state.cur_filled(1)
        + k.shared_state.cur_filled(2) + k.shared_state.cur_filled(3));
    let a0 = hands[0]@.to_multiset();
    let a1 = hands[1]@.to_multiset();
    let a2 = hands[2]@.to_multiset();
    let a3 = hands[3]@.to_multiset();
    assert(a0.add(a1).len() == a0.len() + a1.len());
    assert(a0.add(a1).add(a2).len() == a0.add(a1).len() + a2.len());
    assert(a0.add(a1).add(a2).add(a3).len() == a0.add(a1).add(a2).len() + a3.len());
    assert(hands4_mset(hands).len() == hands[0]@.len() + hands[1]@.len() + hands[2]@.len()
        + hands[3]@.len());
    let b0 = cts[0].known_cards@.to_multiset();
    let b1 = cts[1].known_cards@.to_multiset();
    let b2 = cts[2].known_cards@.to_multiset();
    let b3 = cts[3].known_cards@.to_multiset();
    assert(b0.add(b1).len() == b0.len() + b1.len());
    assert(b0.add(b1).add(b2).len() == b0.add(b1).len() + b2.len());
    assert(b0.add(b1).add(b2).add(b3).len() == b0.add(b1).add(b2).len() + b3.len());
    assert(ktot.len() == cts[0].known_cards@.len() + cts[1].known_cards@.len()
        + cts[2].known_cards@.len() + cts[3].known_cards@.len());
    assert(hands4_mset(hands).add(kitty.to_multiset()).len() == hands4_mset(hands).len()
        + kitty.to_multiset().len());
    assert(ktot.add(ul.to_multiset()).len() == ktot.len() + ul.to_multiset().len());
    assert(hands4_mset(hands).len() + kitty.to_multiset().len() == ktot.len()
        + ul.to_multiset().len());
}

/// A constraint-aware deal reconstructs a well-formed full state whose
/// hands respect the derived constraints.
#[verifier::rlimit(100)]
proof fn lemma_v2_wf(
    k: KnownGameState,
    gs: GameState,
    cts: Seq<PlayerConstraint>,
    poss: Seq<Vec<Card>>,
    left: Seq<Card>,
    removed: Seq<Card>,
    ul: Seq<Card>,
    ktot: Multiset<Card>,
    hfin: Seq<Vec<Card>>,
    kitty_v: Seq<Card>,
)
    requires
        k.wf(),
        cts.len() == 4,
        poss.len() == 4,
        hfin.len() == 4,
        forall|q: int|
            0 <= q < 4 ==> (#[trigger] gs.players_state@[q]).hand@ == hfin[q]@,
        gs.kitty@ == kitty_v,
        forall|q: int| 0 <= q < 4 ==> (#[trigger] hfin[q])@.no_duplicates(),
        forall|q: int| 0 <= q < 4 ==> (#[trigger] hfin[q])@.len() == cts[q].number_cards,
        forall|q: int, c: Card|
            0 <= q < 4 && (#[trigger] hfin[q]@.contains(c)) ==> (cts[q].known_cards@.contains(c)
                || (poss[q]@.contains(c) && ul.contains(c))),
        forall|q: int|
            0 <= q < 4 ==> (#[trigger] cts[q]).number_cards as int == k.spec_number_cards(q),
        forall|q: int|
            0 <= q < 4 ==> (#[trigger] cts[q]).known_cards@ == k.spec_known_of(q),
        forall|q: int|
            0 <= q < 4 ==> (#[trigger] cts[q]).highest_trump as int == k.spec_ceiling(q),
        forall|q: int, col: Color|
            0 <= q < 4 ==> ((#[trigger] cts[q].voided_colors@.contains(col))
                <==> k.spec_proved_void(q, col)),
        forall|q: int, c: Card|
            0 <= q < 4 ==> ((#[trigger] poss[q]@.contains(c)) <==> (left.contains(c)
                && k.spec_eligible(cts, c, q))),
        left.no_duplicates(),
        forall|c: Card|
            #[trigger] left.contains(c) <==> (valid_card(c)
                && !k.shared_state.used_seq().contains(c)),
        removed.no_duplicates(),
        removed.to_multiset() == ktot,
        forall|c: Card| #[trigger] removed.contains(c) ==> left.contains(c),
        ul.no_duplicates(),
        forall|c: Card|
            #[trigger] ul.contains(c) <==> (left.contains(c) && !removed.contains(c)),
        hands4_mset(hfin).add(kitty_v.to_multiset()) == ktot.add(ul.to_multiset()),
        k.shared_state.obs_eq(gs.shared_state),
    ensures
        gs.wf(),
        forall|q: int, c: Card|
            0 <= q < 4 && (#[trigger] gs.players_state@[q].hand@.contains(c)) ==> (
            k.spec_known_of(q).contains(c) || k.spec_compatible(q, c)),
{
    broadcast use vstd::seq_lib::group_to_multiset_ensures;
    broadcast use vstd::multiset::group_multiset_axioms;

    lemma_known_parts_wf(k);
    crate::card::lemma_deck_properties();
    crate::shared_game_state::lemma_shared_obs_eq_wf(k.shared_state, gs.shared_state);
    let used = k.shared_state.used_seq();
    assert(gs.hands_mset() == hands4_mset(hfin));
    // every accounted card is placed exactly once
    assert(gs.all_cards_mset() == deck_mset()) by {
        assert forall|c: Card| gs.all_cards_mset().count(c) == deck_mset().count(c) by {
            let cr = removed.to_multiset().count(c);
            let cu2 = ul.to_multiset().count(c);
            let cl = left.to_multiset().count(c);
            let cs = used.to_multiset().count(c);
            assert(gs.all_cards_mset().count(c) == cr + cu2 + cs);
            left.lemma_multiset_has_no_duplicates();
            removed.lemma_multiset_has_no_duplicates();
            ul.lemma_multiset_has_no_duplicates();
            used.lemma_multiset_has_no_duplicates();
            assert(cl == cr + cu2) by {
                if removed.contains(c) {
                    assert(left.contains(c));
                    assert(!ul.contains(c));
                    assert(cr == 1 && cu2 == 0 && cl == 1);
                } else if ul.contains(c) {
                    assert(left.contains(c));
                    assert(cr == 0 && cu2 == 1 && cl == 1);
                } else {
                    assert(cr == 0 && cu2 == 0);
                    if left.contains(c) {
                        assert(ul.contains(c));
                    }
                    assert(cl == 0);
                }
            }
            if valid_card(c) {
                assert(deck_mset().count(c) == 1);
                if used.contains(c) {
                    assert(!left.contains(c));
                    assert(cl == 0 && cs == 1);
                } else {
                    assert(left.contains(c));
                    assert(cl == 1 && cs == 0);
                }
            } else {
                assert(deck_mset().count(c) == 0);
                assert(!left.contains(c));
                assert(cl == 0);
                assert(cs == 0) by {
                    if used.contains(c) {
                        let m = choose|m: int| 0 <= m < used.len() && used[m] == c;
                    }
                }
            }
        }
    }
    // every hand holds distinct valid cards
    assert forall|q2: int| 0 <= q2 < 4 implies (#[trigger] gs.players_state@[q2]).wf() by {
        let h = gs.players_state@[q2].hand@;
        assert(h == hfin[q2]@);
        assert forall|m: int| 0 <= m < h.len() implies valid_card(#[trigger] h[m]) by {
            assert(h.contains(h[m]));
            if cts[q2].known_cards@.contains(h[m]) {
                assert(cts[q2].known_cards@ == k.spec_known_of(q2));
                if q2 == k.player_index as int {
                    let j = choose|j: int|
                        0 <= j < k.player_state.hand@.len() && k.player_state.hand@[j] == h[m];
                    assert(k.player_state.wf());
                } else {
                    match k.shared_state.declared_handfuls@[q2] {
                        Some(hf) => {
                            assert(hf.wf());
                            let j = choose|j: int|
                                0 <= j < hf.cards@.len() && hf.cards@[j] == h[m];
                        },
                        None => {
                            assert(k.spec_known_of(q2).len() == 0);
                        },
                    }
                }
            } else {
                assert(poss[q2]@.contains(h[m]));
                assert(left.contains(h[m]));
            }
        }
    }
    // the bookkeeping of every seat is met
    assert forall|q2: int|
        0 <= q2 < 4 implies (#[trigger] gs.players_state@[q2]).hand@.len() as int == 18
        - gs.shared_state.played_tricks@.len() - gs.shared_state.cur_filled(q2) by {
        assert(gs.shared_state.cur_filled(q2) == k.shared_state.cur_filled(q2));
    }
    // the constraints hold of every reconstructed hand
    assert forall|q2: int, c: Card|
        0 <= q2 < 4 && (#[trigger] gs.players_state@[q2].hand@.contains(c)) implies (
    k.spec_known_of(q2).contains(c) || k.spec_compatible(q2, c)) by {
        if !cts[q2].known_cards@.contains(c) {
            assert(poss[q2]@.contains(c));
            assert(k.spec_eligible(cts, c, q2));
            assert(!k.spec_proved_void(q2, c.color)) by {
                assert(!cts[q2].voided_colors@.contains(c.color));
            }
        }
    }
}

/// Determinization soundness: projecting a constraint-aware determinized
/// full state back contradicts no derived constraint. While no opponent
/// has declared a handful, every card of every reconstructed opponent
/// hand avoids the suits that seat was proven void in, stays at or below
/// the seat's derived trump ceiling, and is no card of a kitty visible to
/// a non-taker viewer. (A declared handful is seeded into the hand as
/// given, so its cards are excluded here.)
pub proof fn lemma_determinization_sound(k: KnownGameState, gs: GameState, q: int, c: Card)
    requires
        forall|q2: int, c2: Card|
            0 <= q2 < 4 && (#[trigger] gs.players_state@[q2].hand@.contains(c2)) ==> (
            k.spec_known_of(q2).contains(c2) || k.spec_compatible(q2, c2)),
        forall|p: int|
            0 <= p < 4 && p != k.player_index as int ==> k.shared_state.hf_view(p) is None,
        0 <= q < 4,
        q != k.player_index as int,
        gs.players_state@[q].hand@.contains(c),
    ensures
        !k.spec_proved_void(q, c.color),
        c.color == Color::Trump ==> c.value as int <= k.spec_ceiling(q),
        !k.spec_excluded_by_kitty(c),
{
    assert(k.spec_known_of(q).len() == 0);
    assert(!k.spec_known_of(q).contains(c));
}

/// Two projections of the same full state for the same seat observe the
/// same view: the projection has no hidden state and mutates nothing.
pub proof fn lemma_projection_deterministic(
    gs: GameState,
    player: u8,
    k1: KnownGameState,
    k2: KnownGameState,
)
    requires
        k1.is_projection_of(gs, player),
        k2.is_projection_of(gs, player),
    ensures
        k1.obs_eq(k2),
{
}

/// Whether the vector holds the suit.
fn color_vec_contains(v: &Vec<Color>, x: Color) -> (r: bool)
    ensures
        r == v@.contains(x),
{
    let mut i: usize = 0;
    while i < v.len()
        invariant
            i <= v@.len(),
            forall|j: int| 0 <= j < i ==> v@[j] != x,
        decreases v@.len() - i,
    {
        if v[i] == x {
            return true;
        }
        i = i + 1;
    }
    false
}

} // verus!
