//! Ground and inventory items.  The engine only moves items around; what
//! an item does belongs to the item catalog outside this engine's scope.

use vstd::prelude::*;

verus! {

/// The body slot an item is worn or held in.
#[derive(Clone, Copy, PartialEq, Eq, Structural, Debug)]
pub enum Slot {
    Hand,
    Body,
}

/// An item: an inventory letter and the slot it equips into.
#[derive(Clone, Copy, PartialEq, Eq, Structural, Debug)]
pub struct Item {
    /// The letter the item answers to in an inventory.
    pub letter: char,
    /// Where the item is worn or held.
    pub slot: Slot,
}

impl Item {
    /// An item with the given letter and slot.
    pub fn new(letter: char, slot: Slot) -> (r: Item)
        ensures
            r == (Item { letter, slot }),
    {
        Item { letter, slot }
    }
}

} // verus!
