use vstd::prelude::*;

verus! {

/// One of the four escalating contract levels, each carrying a flag that
/// says whether the bid is a slam attempt.
#[derive(Debug, Clone, Copy, PartialEq, Eq, Hash, Structural)]
pub enum GameType {
    Petit { chelem: bool },
    Garde { chelem: bool },
    GardeSans { chelem: bool },
    GardeContre { chelem: bool },
}

/// Total order on bids: contract level first, a slam attempt above the
/// plain bid of the same level.
pub open spec fn bid_rank(g: GameType) -> int {
    (match g {
        GameType::Petit { .. } => 0int,
        GameType::Garde { .. } => 2int,
        GameType::GardeSans { .. } => 4int,
        GameType::GardeContre { .. } => 6int,
    }) + (match g {
        GameType::Petit { chelem } => chelem,
        GameType::Garde { chelem } => chelem,
        GameType::GardeSans { chelem } => chelem,
        GameType::GardeContre { chelem } => chelem,
    }) as int
}

impl GameType {
    /// The kitty stays hidden under the two lower contract levels and is
    /// revealed under the two higher ones.
    pub fn kitty_should_be_revealed(&self) -> (r: bool)
        ensures
            r == self.spec_kitty_revealed(),
    {
        match self {
            GameType::Petit { .. } | GameType::Garde { .. } => false,
            GameType::GardeSans { .. } | GameType::GardeContre { .. } => true,
        }
    }

    pub open spec fn spec_kitty_revealed(self) -> bool {
        match self {
            GameType::Petit { .. } | GameType::Garde { .. } => false,
            GameType::GardeSans { .. } | GameType::GardeContre { .. } => true,
        }
    }

    /// The score multiplier of the contract level: 1, 2, 4 or 6.
    pub fn hand_points_multiplier(&self) -> (r: u8)
        ensures
            r == self.spec_multiplier(),
    {
        match self {
            GameType::Petit { .. } => 1,
            GameType::Garde { .. } => 2,
            GameType::GardeSans { .. } => 4,
            GameType::GardeContre { .. } => 6,
        }
    }

    pub open spec fn spec_multiplier(self) -> int {
        match self {
            GameType::Petit { .. } => 1,
            GameType::Garde { .. } => 2,
            GameType::GardeSans { .. } => 4,
            GameType::GardeContre { .. } => 6,
        }
    }

    /// The bid's position in the total bid order.
    pub fn rank(&self) -> (r: u8)
        ensures
            r == bid_rank(*self),
    {
        let base: u8 = match self {
            GameType::Petit { .. } => 0,
            GameType::Garde { .. } => 2,
            GameType::GardeSans { .. } => 4,
            GameType::GardeContre { .. } => 6,
        };
        let chelem: bool = match self {
            GameType::Petit { chelem } => *chelem,
            GameType::Garde { chelem } => *chelem,
            GameType::GardeSans { chelem } => *chelem,
            GameType::GardeContre { chelem } => *chelem,
        };
        if chelem {
            base + 1
        } else {
            base
        }
    }
}

} // verus!
