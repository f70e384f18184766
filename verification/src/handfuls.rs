use vstd::prelude::*;

use crate::card::{valid_card, Card, Color};

verus! {

/// The three sizes of a handful declaration: a mid-match reveal of part of
/// one's trump holding, for bonus points.
#[derive(Debug, Clone, Copy, PartialEq, Eq, Hash, Structural)]
pub enum Handfuls {
    Simple,
    Double,
    Triple,
}

pub open spec fn handful_points(h: Handfuls) -> int {
    match h {
        Handfuls::Simple => 20,
        Handfuls::Double => 40,
        Handfuls::Triple => 60,
    }
}

pub open spec fn handful_trumps_required(h: Handfuls) -> int {
    match h {
        Handfuls::Simple => 10,
        Handfuls::Double => 13,
        Handfuls::Triple => 15,
    }
}

impl Handfuls {
    /// The bonus of the declaration.
    pub fn points(&self) -> (r: usize)
        ensures
            r == handful_points(*self),
    {
        match self {
            Handfuls::Simple => 20,
            Handfuls::Double => 40,
            Handfuls::Triple => 60,
        }
    }

    /// How many trumps the declaration must show.
    pub fn trumps_required(&self) -> (r: usize)
        ensures
            r == handful_trumps_required(*self),
    {
        match self {
            Handfuls::Simple => 10,
            Handfuls::Double => 13,
            Handfuls::Triple => 15,
        }
    }
}

/// A declared handful: its size together with the trump cards the seat
/// revealed. The revealed cards are public knowledge and feed opponent
/// inference.
#[derive(Debug)]
pub struct HandfulDeclaration {
    pub handful: Handfuls,
    pub cards: Vec<Card>,
}

impl Clone for HandfulDeclaration {
    /// A deep copy showing the same cards.
    fn clone(&self) -> (r: Self)
        ensures
            r.handful == self.handful,
            r.cards@ == self.cards@,
    {
        HandfulDeclaration { handful: self.handful, cards: crate::vec_util::copy_vec(&self.cards) }
    }
}

impl HandfulDeclaration {
    /// The revealed cards are distinct valid trumps.
    pub open spec fn wf(self) -> bool {
        &&& self.cards@.no_duplicates()
        &&& forall|i: int|
            0 <= i < self.cards@.len() ==> (#[trigger] self.cards@[i]).color == Color::Trump
                && valid_card(self.cards@[i])
    }
}

} // verus!
