use vstd::prelude::*;

use crate::card::{Card, Color};
use crate::game_type::GameType;
use crate::player_game_state::PlayerGameState;

verus! {

pub open spec fn b2i(b: bool) -> int {
    if b {
        1int
    } else {
        0int
    }
}

/// The trump of the given rank.
pub open spec fn trump(v: u8) -> Card {
    Card { color: Color::Trump, value: v }
}

/// How many cards of the suit the hand holds.
pub open spec fn count_color_in(s: Seq<Card>, color: Color) -> int
    decreases s.len(),
{
    if s.len() == 0 {
        0
    } else {
        count_color_in(s.drop_last(), color) + b2i(s.last().color == color)
    }
}

/// How many trumps of rank 16 or above the hand holds.
pub open spec fn count_high_trumps(s: Seq<Card>) -> int
    decreases s.len(),
{
    if s.len() == 0 {
        0
    } else {
        count_high_trumps(s.drop_last()) + b2i(
            s.last().color == Color::Trump && s.last().value > 15,
        )
    }
}

/// A run of consecutive high trumps scores its length, runs of one score
/// nothing.
pub open spec fn run_score(run: int) -> int {
    if run > 1 {
        run
    } else {
        0
    }
}

/// The bonus for sequences among the six highest trumps, scanning upward
/// from rank 16 + j with a running streak.
pub open spec fn seq_bonus(s: Seq<Card>, j: int, run: int) -> int
    decreases 6 - j,
{
    if j >= 6 {
        run_score(run)
    } else if s.contains(trump((16 + j) as u8)) {
        seq_bonus(s, j + 1, run + 1)
    } else {
        run_score(run) + seq_bonus(s, j + 1, 0)
    }
}

/// The petit's protection bonus: worth keeping only behind enough trumps.
pub open spec fn petit_bonus(s: Seq<Card>) -> int {
    if s.contains(trump(1)) {
        let tc = count_color_in(s, Color::Trump);
        if 1 <= tc < 4 {
            0
        } else if tc == 4 {
            5
        } else if tc == 5 {
            7
        } else {
            9
        }
    } else {
        0
    }
}

/// Two points per trump once the hand holds more than three.
pub open spec fn trump_mass_bonus(s: Seq<Card>) -> int {
    let tc = count_color_in(s, Color::Trump);
    if tc > 3 {
        2 * tc
    } else {
        0
    }
}

/// The suit-length bonus: long suits always score; short suits score only
/// for the contracts that reveal the kitty.
pub open spec fn dist_bonus(n: int, low: bool) -> int {
    if n == 0 {
        if low {
            6
        } else {
            0
        }
    } else if n == 1 {
        if low {
            3
        } else {
            0
        }
    } else if n < 5 {
        0
    } else if n == 5 {
        5
    } else if n == 6 {
        7
    } else {
        9
    }
}

/// The court-card bonus of one suit: king and queen together outweigh
/// either alone, knight and jack add a little.
pub open spec fn honour_bonus(s: Seq<Card>, color: Color) -> int {
    (if s.contains(Card { color, value: 14 }) && s.contains(Card { color, value: 13 }) {
        10int
    } else if s.contains(Card { color, value: 14 }) {
        6
    } else if s.contains(Card { color, value: 13 }) {
        3
    } else {
        0
    }) + 2 * b2i(s.contains(Card { color, value: 12 })) + b2i(
        s.contains(Card { color, value: 11 }),
    )
}

pub open spec fn suit_points(s: Seq<Card>, color: Color, low: bool) -> int {
    dist_bonus(count_color_in(s, color), low) + honour_bonus(s, color)
}

/// Whether the contract level scores short suits.
pub open spec fn counts_low_suits(g: GameType) -> bool {
    match g {
        GameType::GardeSans { .. } | GameType::GardeContre { .. } => true,
        _ => false,
    }
}

/// The plain suit at each scan position.
pub open spec fn plain_color(ci: int) -> Color {
    if ci == 0 {
        Color::Spade
    } else if ci == 1 {
        Color::Club
    } else if ci == 2 {
        Color::Heart
    } else {
        Color::Diamond
    }
}

/// The per-suit points of the first `k` plain suits.
pub open spec fn suits_upto(s: Seq<Card>, low: bool, k: int) -> int
    decreases k,
{
    if k <= 0 {
        0
    } else {
        suits_upto(s, low, k - 1) + suit_points(s, plain_color(k - 1), low)
    }
}

/// The heuristic strength of a hand bid at the given contract level.
pub open spec fn spec_count_points(s: Seq<Card>, game_type: GameType) -> int {
    let low = counts_low_suits(game_type);
    10 * b2i(s.contains(trump(21))) + 8 * b2i(
        s.contains(Card { color: Color::Excuse, value: 0 }),
    ) + 2 * count_high_trumps(s) + seq_bonus(s, 0, 0) + petit_bonus(s) + trump_mass_bonus(s)
        + suits_upto(s, low, 4)
}

/// The strength a hand must show to bid each contract level.
pub open spec fn spec_points_threshold(g: GameType) -> int {
    match g {
        GameType::Petit { .. } => 40,
        GameType::Garde { .. } => 55,
        GameType::GardeSans { .. } => 71,
        GameType::GardeContre { .. } => 80,
    }
}

/// The highest contract level whose threshold the hand's strength meets,
/// or nothing when even the lowest is out of reach.
pub open spec fn spec_evaluate(s: Seq<Card>) -> Option<GameType> {
    if spec_count_points(s, GameType::Petit { chelem: false }) < 40 {
        None
    } else if spec_count_points(s, GameType::Garde { chelem: false }) < 55 {
        Some(GameType::Petit { chelem: false })
    } else if spec_count_points(s, GameType::GardeSans { chelem: false }) < 71 {
        Some(GameType::Garde { chelem: false })
    } else if spec_count_points(s, GameType::GardeContre { chelem: false }) < 80 {
        Some(GameType::GardeSans { chelem: false })
    } else {
        Some(GameType::GardeContre { chelem: false })
    }
}

/// The scan position of each suit.
pub open spec fn spec_color_index(color: Color) -> int {
    match color {
        Color::Spade => 0,
        Color::Club => 1,
        Color::Heart => 2,
        Color::Diamond => 3,
        Color::Trump => 4,
        Color::Excuse => 5,
    }
}

/// The scan position of each suit.
pub fn color_to_index(color: &Color) -> (r: usize)
    ensures
        r as int == spec_color_index(*color),
        r < 6,
{
    match color {
        Color::Spade => 0,
        Color::Club => 1,
        Color::Heart => 2,
        Color::Diamond => 3,
        Color::Trump => 4,
        Color::Excuse => 5,
    }
}

/// One scan step extends every membership fact by the next card.
proof fn lemma_prefix_extend(hand: Seq<Card>, k: int)
    requires
        0 <= k < hand.len(),
    ensures
        forall|c: Card|
            #[trigger] hand.subrange(0, k + 1).contains(c) <==> (hand.subrange(0, k).contains(c)
                || hand[k] == c),
{
    assert forall|c: Card|
        #[trigger] hand.subrange(0, k + 1).contains(c) <==> (hand.subrange(0, k).contains(c)
            || hand[k] == c) by {
        if hand.subrange(0, k + 1).contains(c) {
            let m = choose|m: int| 0 <= m < k + 1 && #[trigger] hand.subrange(0, k + 1)[m] == c;
            if m < k {
                assert(hand.subrange(0, k)[m] == c);
            }
        }
        if hand.subrange(0, k).contains(c) {
            let m = choose|m: int| 0 <= m < k && #[trigger] hand.subrange(0, k)[m] == c;
            assert(hand.subrange(0, k + 1)[m] == c);
        }
        if hand[k] == c {
            assert(hand.subrange(0, k + 1)[k] == c);
        }
    }
}

/// One scan step adds the next card to every suit count.
proof fn lemma_count_extend(hand: Seq<Card>, k: int)
    requires
        0 <= k < hand.len(),
    ensures
        forall|color: Color|
            #[trigger] count_color_in(hand.subrange(0, k + 1), color) == count_color_in(
                hand.subrange(0, k),
                color,
            ) + b2i(hand[k].color == color),
        count_high_trumps(hand.subrange(0, k + 1)) == count_high_trumps(hand.subrange(0, k))
            + b2i(hand[k].color == Color::Trump && hand[k].value > 15),
{
    let pre = hand.subrange(0, k);
    let post = hand.subrange(0, k + 1);
    assert(post.drop_last() =~= pre);
    assert(post.last() == hand[k]);
}

/// Suit counts never exceed the number of cards scanned.
proof fn lemma_count_bounds(s: Seq<Card>)
    ensures
        forall|color: Color| 0 <= #[trigger] count_color_in(s, color) <= s.len(),
        0 <= count_high_trumps(s) <= s.len(),
    decreases s.len(),
{
    if s.len() > 0 {
        lemma_count_bounds(s.drop_last());
        assert forall|color: Color|
            0 <= #[trigger] count_color_in(s, color) <= s.len() by {
            assert(count_color_in(s, color) == count_color_in(s.drop_last(), color) + b2i(
                s.last().color == color,
            ));
        }
    } else {
        assert forall|color: Color|
            0 <= #[trigger] count_color_in(s, color) <= s.len() by {
            assert(count_color_in(s, color) == 0);
        }
    }
}

/// What one pass over the hand gathers: per-suit counts, the notable
/// single cards, the high trumps, and the court cards of each plain suit.
struct ScanAgg {
    npc: [usize; 6],
    high_count: usize,
    has21: bool,
    has_petit: bool,
    has_excuse: bool,
    high: [bool; 6],
    hon_s: [bool; 4],
    hon_c: [bool; 4],
    hon_h: [bool; 4],
    hon_d: [bool; 4],
}

impl ScanAgg {
    /// The aggregates describe the scanned cards exactly.
    spec fn describes(self, s: Seq<Card>) -> bool {
        &&& forall|m: int|
            0 <= m < 6 ==> #[trigger] self.npc@[m] as int == count_color_in(s, plain6(m))
        &&& self.high_count as int == count_high_trumps(s)
        &&& self.has21 == s.contains(trump(21))
        &&& self.has_petit == s.contains(trump(1))
        &&& self.has_excuse == s.contains(Card { color: Color::Excuse, value: 0 })
        &&& forall|j: int|
            0 <= j < 6 ==> #[trigger] self.high@[j] == s.contains(trump((16 + j) as u8))
        &&& forall|j: int|
            0 <= j < 4 ==> #[trigger] self.hon_s@[j] == s.contains(
                Card { color: Color::Spade, value: (11 + j) as u8 },
            )
        &&& forall|j: int|
            0 <= j < 4 ==> #[trigger] self.hon_c@[j] == s.contains(
                Card { color: Color::Club, value: (11 + j) as u8 },
            )
        &&& forall|j: int|
            0 <= j < 4 ==> #[trigger] self.hon_h@[j] == s.contains(
                Card { color: Color::Heart, value: (11 + j) as u8 },
            )
        &&& forall|j: int|
            0 <= j < 4 ==> #[trigger] self.hon_d@[j] == s.contains(
                Card { color: Color::Diamond, value: (11 + j) as u8 },
            )
    }
}

/// One pass over the hand, gathering every aggregate the score needs.
#[verifier::loop_isolation(false)]
#[verifier::rlimit(100)]
fn scan_hand(state: &PlayerGameState) -> (r: ScanAgg)
    requires
        state.wf(),
    ensures
        r.describes(state.hand@),
        forall|m: int| 0 <= m < 6 ==> #[trigger] r.npc@[m] <= state.hand@.len(),
        r.high_count <= state.hand@.len(),
{
    let hand = &state.hand;
    let ghost s = hand@;
    let mut agg = ScanAgg {
        npc: [0, 0, 0, 0, 0, 0],
        high_count: 0,
        has21: false,
        has_petit: false,
        has_excuse: false,
        high: [false, false, false, false, false, false],
        hon_s: [false, false, false, false],
        hon_c: [false, false, false, false],
        hon_h: [false, false, false, false],
        hon_d: [false, false, false, false],
    };
    proof {
        assert(s.subrange(0, 0) =~= Seq::<Card>::empty());
        assert forall|color: Color|
            count_color_in(s.subrange(0, 0), color) == 0 by {}
    }
    let mut k: usize = 0;
    while k < hand.len()
        invariant
            k <= s.len(),
            agg.describes(s.subrange(0, k as int)),
            forall|m: int| 0 <= m < 6 ==> #[trigger] agg.npc@[m] <= k,
            agg.high_count <= k,
        decreases s.len() - k,
    {
        let card = hand[k];
        proof {
            lemma_prefix_extend(s, k as int);
            lemma_count_extend(s, k as int);
        }
        let ci = color_to_index(&card.color);
        let old_count = agg.npc[ci];
        agg.npc[ci] = old_count + 1;
        match card.color {
            Color::Trump => {
                if card.value == 21 {
                    agg.has21 = true;
                }
                if card.value == 1 {
                    agg.has_petit = true;
                }
                if card.value > 15 {
                    agg.high_count = agg.high_count + 1;
                    agg.high[(card.value - 16) as usize] = true;
                }
            },
            Color::Excuse => {
                agg.has_excuse = true;
            },
            Color::Spade => {
                if card.value > 10 {
                    agg.hon_s[(card.value - 11) as usize] = true;
                }
            },
            Color::Club => {
                if card.value > 10 {
                    agg.hon_c[(card.value - 11) as usize] = true;
                }
            },
            Color::Heart => {
                if card.value > 10 {
                    agg.hon_h[(card.value - 11) as usize] = true;
                }
            },
            Color::Diamond => {
                if card.value > 10 {
                    agg.hon_d[(card.value - 11) as usize] = true;
                }
            },
        }
        proof {
            let post = s.subrange(0, k + 1);
            assert forall|m: int|
                0 <= m < 6 implies #[trigger] agg.npc@[m] as int == count_color_in(
                post,
                plain6(m),
            ) by {
                if m == spec_color_index(card.color) {
                    assert(plain6(m) == card.color);
                } else {
                    assert(plain6(m) != card.color);
                }
            }
        }
        k = k + 1;
    }
    proof {
        assert(s.subrange(0, s.len() as int) =~= s);
    }
    agg
}

/// The distribution and court-card points of one plain suit, computed
/// from its aggregates.
fn suit_score(
    n: usize,
    hk: bool,
    hq: bool,
    hn: bool,
    hj: bool,
    low: bool,
    Ghost(s): Ghost<Seq<Card>>,
    Ghost(col): Ghost<Color>,
) -> (r: usize)
    requires
        n as int == count_color_in(s, col),
        hk == s.contains(Card { color: col, value: 14 }),
        hq == s.contains(Card { color: col, value: 13 }),
        hn == s.contains(Card { color: col, value: 12 }),
        hj == s.contains(Card { color: col, value: 11 }),
    ensures
        r as int == suit_points(s, col, low),
        r <= 22,
{
    let mut add: usize = 0;
    if n == 0 {
        if low {
            add = 6;
        }
    } else if n == 1 {
        if low {
            add = 3;
        }
    } else if n < 5 {
    } else if n == 5 {
        add = 5;
    } else if n == 6 {
        add = 7;
    } else {
        add = 9;
    }
    if hk && hq {
        add = add + 10;
    } else if hk {
        add = add + 6;
    } else if hq {
        add = add + 3;
    }
    if hn {
        add = add + 2;
    }
    if hj {
        add = add + 1;
    }
    add
}

/// The bonus for runs of consecutive high trumps, folded over the six
/// flags.
#[verifier::loop_isolation(false)]
fn sequence_bonus(high: &[bool; 6], Ghost(s): Ghost<Seq<Card>>) -> (r: usize)
    requires
        forall|j: int| 0 <= j < 6 ==> #[trigger] high@[j] == s.contains(trump((16 + j) as u8)),
    ensures
        r as int == seq_bonus(s, 0, 0),
        r <= 6,
{
    let mut total: usize = 0;
    let mut current_run: usize = 0;
    let mut j: usize = 0;
    while j < 6
        invariant
            j <= 6,
            current_run <= j,
            total as int + current_run <= j,
            seq_bonus(s, 0, 0) == total + seq_bonus(s, j as int, current_run as int),
        decreases 6 - j,
    {
        if high[j] {
            current_run = current_run + 1;
        } else {
            if current_run > 1 {
                total = total + current_run;
            }
            current_run = 0;
        }
        j = j + 1;
    }
    if current_run > 1 {
        total = total + current_run;
    }
    total
}

/// The petit's protection bonus plus the long-trump bonus, from the trump
/// count.
fn petit_and_mass(has_petit: bool, tc: usize, Ghost(s): Ghost<Seq<Card>>) -> (r: usize)
    requires
        has_petit == s.contains(trump(1)),
        tc as int == count_color_in(s, Color::Trump),
        tc <= 78,
    ensures
        r as int == petit_bonus(s) + trump_mass_bonus(s),
        r <= 165,
{
    let mut total: usize = 0;
    if has_petit {
        if tc >= 1 && tc < 4 {
        } else if tc == 4 {
            total = total + 5;
        } else if tc == 5 {
            total = total + 7;
        } else {
            total = total + 9;
        }
    }
    if tc > 3 {
        total = total + tc * 2;
    }
    total
}

/// The strength the bidding heuristic assigns to the hand when bidding
/// the given contract level.
#[verifier::rlimit(100)]
pub fn count_points(state: &PlayerGameState, game_type: GameType) -> (r: usize)
    requires
        state.wf(),
    ensures
        r as int == spec_count_points(state.hand@, game_type),
{
    let ghost s = state.hand@;
    proof {
        crate::card::lemma_distinct_valid_card_count(s);
        lemma_count_bounds(s);
    }
    let count_low_suits = match game_type {
        GameType::GardeSans { .. } | GameType::GardeContre { .. } => true,
        _ => false,
    };
    let agg = scan_hand(state);
    let mut total: usize = 0;
    if agg.has21 {
        total = total + 10;
    }
    if agg.has_excuse {
        total = total + 8;
    }
    total = total + 2 * agg.high_count;
    total = total + sequence_bonus(&agg.high, Ghost(s));
    total = total + petit_and_mass(agg.has_petit, agg.npc[4], Ghost(s));
    let a0 = suit_score(
        agg.npc[0],
        agg.hon_s[3],
        agg.hon_s[2],
        agg.hon_s[1],
        agg.hon_s[0],
        count_low_suits,
        Ghost(s),
        Ghost(Color::Spade),
    );
    let a1 = suit_score(
        agg.npc[1],
        agg.hon_c[3],
        agg.hon_c[2],
        agg.hon_c[1],
        agg.hon_c[0],
        count_low_suits,
        Ghost(s),
        Ghost(Color::Club),
    );
    let a2 = suit_score(
        agg.npc[2],
        agg.hon_h[3],
        agg.hon_h[2],
        agg.hon_h[1],
        agg.hon_h[0],
        count_low_suits,
        Ghost(s),
        Ghost(Color::Heart),
    );
    let a3 = suit_score(
        agg.npc[3],
        agg.hon_d[3],
        agg.hon_d[2],
        agg.hon_d[1],
        agg.hon_d[0],
        count_low_suits,
        Ghost(s),
        Ghost(Color::Diamond),
    );
    total = total + a0 + a1 + a2 + a3;
    proof {
        let low = counts_low_suits(game_type);
        assert(suits_upto(s, low, 1) == suits_upto(s, low, 0) + suit_points(s, Color::Spade, low));
        assert(suits_upto(s, low, 2) == suits_upto(s, low, 1) + suit_points(s, Color::Club, low));
        assert(suits_upto(s, low, 3) == suits_upto(s, low, 2) + suit_points(s, Color::Heart, low));
        assert(suits_upto(s, low, 4) == suits_upto(s, low, 3) + suit_points(
            s,
            Color::Diamond,
            low,
        ));
        assert(total as int == spec_count_points(s, game_type));
    }
    total
}

/// The plain suits at positions 0 to 3, the trump and Excuse pseudo-suits
/// after them.
pub open spec fn plain6(m: int) -> Color {
    if m < 4 {
        plain_color(m)
    } else if m == 4 {
        Color::Trump
    } else {
        Color::Excuse
    }
}

/// The strength a hand must show to bid each contract level.
pub fn points_threshold(game_type: GameType) -> (r: usize)
    ensures
        r as int == spec_points_threshold(game_type),
{
    match game_type {
        GameType::Petit { .. } => 40,
        GameType::Garde { .. } => 55,
        GameType::GardeSans { .. } => 71,
        GameType::GardeContre { .. } => 80,
    }
}

/// The trivial bidding heuristic: the highest contract level whose
/// threshold the hand meets, or a pass.
pub fn evaluate_hand(state: &PlayerGameState) -> (r: Option<GameType>)
    requires
        state.wf(),
    ensures
        r == spec_evaluate(state.hand@),
{
    if count_points(state, GameType::Petit { chelem: false }) < points_threshold(
        GameType::Petit { chelem: false },
    ) {
        None
    } else if count_points(state, GameType::Garde { chelem: false }) < points_threshold(
        GameType::Garde { chelem: false },
    ) {
        Some(GameType::Petit { chelem: false })
    } else if count_points(state, GameType::GardeSans { chelem: false }) < points_threshold(
        GameType::GardeSans { chelem: false },
    ) {
        Some(GameType::Garde { chelem: false })
    } else if count_points(state, GameType::GardeContre { chelem: false }) < points_threshold(
        GameType::GardeContre { chelem: false },
    ) {
        Some(GameType::GardeSans { chelem: false })
    } else {
        Some(GameType::GardeContre { chelem: false })
    }
}

} // verus!
