//! Teams: three optional member slots, filled and cleared together.

use vstd::prelude::*;

verus! {

/// A team holds up to three members, one per slot; `None` marks an open slot.
#[derive(Clone, Copy)]
pub struct Team(pub Option<usize>, pub Option<usize>, pub Option<usize>);

impl Team {
    /// True if `player` occupies one of the three slots.
    pub open spec fn spec_has_member(self, player: usize) -> bool {
        self.0 == Some(player) || self.1 == Some(player) || self.2 == Some(player)
    }

    /// True if at least one slot is open.
    pub open spec fn spec_has_room(self) -> bool {
        self.0 is None || self.1 is None || self.2 is None
    }

    /// True if every slot is occupied.
    pub open spec fn spec_is_full(self) -> bool {
        self.0 is Some && self.1 is Some && self.2 is Some
    }

    /// True if no slot is occupied.
    pub open spec fn spec_is_empty(self) -> bool {
        self.0 is None && self.1 is None && self.2 is None
    }

    pub fn has_room(&self) -> (r: bool)
        ensures
            r == self.spec_has_room(),
    {
        self.0.is_none() || self.1.is_none() || self.2.is_none()
    }

    pub fn on_the_team(&self, player: usize) -> (r: bool)
        ensures
            r == self.spec_has_member(player),
    {
        if let Some(player_0) = self.0 {
            if player_0 == player {
                return true;
            }
        }
        if let Some(player_1) = self.1 {
            if player_1 == player {
                return true;
            }
        }
        if let Some(player_2) = self.2 {
            if player_2 == player {
                return true;
            }
        }
        false
    }
}

impl Default for Team {
    /// A fresh team with all three slots open.
    fn default() -> (r: Self)
        ensures
            r.spec_is_empty(),
    {
        Team(None, None, None)
    }
}

} // verus!
