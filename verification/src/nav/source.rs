//! A source of directions that needs no route.
use crate::channels::nav::{Instruction, NavInstruction};
use vstd::prelude::*;

verus! {

/// Says to go straight on, whatever happens.
#[derive(Debug, Clone, Copy, PartialEq, Eq, Structural)]
pub struct StaticDemoSource {
    /// How many positions have come.
    pub update_count: u64,
}

impl Default for StaticDemoSource {
    fn default() -> (r: Self)
        ensures
            r.update_count == 0,
    {
        StaticDemoSource { update_count: 0 }
    }
}

/// The instruction to go straight on.
pub open spec fn straight_on() -> Instruction {
    Instruction { status_text: "Continue straight"@, turn_id: 1, distance_m: 0 }
}

impl StaticDemoSource {
    /// How many positions have come.
    pub fn updates(&self) -> (r: u64)
        ensures
            r == self.update_count,
    {
        self.update_count
    }

    /// Takes a destination.
    pub fn set_destination(&mut self) -> (r: Option<NavInstruction>)
        ensures
            *final(self) == *old(self),
            r matches Some(i) && i@ == straight_on(),
    {
        Some(NavInstruction::straight_ahead())
    }

    /// Takes a position.
    pub fn update_position(&mut self) -> (r: Option<NavInstruction>)
        requires
            old(self).update_count < u64::MAX,
        ensures
            final(self).update_count == old(self).update_count + 1,
            r matches Some(i) && i@ == straight_on(),
    {
        self.update_count = self.update_count + 1;
        Some(NavInstruction::straight_ahead())
    }

    /// What is shown.
    pub fn current_instruction(&self) -> (r: Option<NavInstruction>)
        ensures
            r matches Some(i) && i@ == straight_on(),
    {
        Some(NavInstruction::straight_ahead())
    }
}

} // verus!
