use vstd::prelude::*;

use crate::board::BOARD_SIZE;

verus! {

/// A synthetic player: a name and the space the player stands on.
pub struct Player {
    name: String,
    current_space: u8,
}

impl Player {
    pub closed spec fn name_view(&self) -> Seq<char> {
        self.name@
    }

    pub closed spec fn position(&self) -> int {
        self.current_space as int
    }

    /// A player stands on one of the board's spaces.
    pub open spec fn wf(&self) -> bool {
        0 <= self.position() < BOARD_SIZE
    }

    /// A new player starts on the first space.
    pub fn new(name: String) -> (p: Self)
        ensures
            p.name_view() == name@,
            p.position() == 0,
            p.wf(),
    {
        Player { name, current_space: 0 }
    }

    pub fn set_current_space(&mut self, space: u8)
        requires
            space < BOARD_SIZE,
        ensures
            final(self).position() == space as int,
            final(self).name_view() == old(self).name_view(),
            final(self).wf(),
    {
        self.current_space = space;
    }

    pub fn get_current_space(&self) -> (r: u8)
        ensures
            r as int == self.position(),
    {
        self.current_space
    }

    pub fn get_player_name(&self) -> (r: &str)
        ensures
            r@ == self.name_view(),
    {
        self.name.as_str()
    }
}

} // verus!
