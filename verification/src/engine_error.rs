use vstd::prelude::*;

verus! {

/// A rule violation: local, expected, and recoverable by the caller
/// choosing another legal action.
#[derive(Debug, Clone, Copy, PartialEq, Eq, Structural)]
pub enum EngineError {
    /// The card's value lies outside the legal range for its suit.
    InvalidCardValue(u8),
    /// A bid that does not raise the current contract level.
    InvalidBid,
    /// The operation needs a finished trick, but the trick is not finished.
    UnfinishedHand,
    /// The operation needs a begun trick, but no card was played yet.
    NotBegunHand,
    /// A seat tried to play although it is another seat's turn.
    OutOfOrderPlay,
    /// The seat does not hold the card it tried to play.
    DoesNotHaveCard,
    /// The seat holds a card of the led suit but played another suit.
    HasToFollowSuit,
    /// The seat is void in the led suit and holds a trump but played none.
    HasToTrump,
    /// The seat could beat the highest trump so far but played a lower trump.
    HasToOvertrump,
    /// The trick already holds four cards.
    FinishedHand,
    /// Constraint-aware determinization could not satisfy the public
    /// bookkeeping: the derived constraints admit no full deal.
    HandGenerationNotPossible,
}

} // verus!
