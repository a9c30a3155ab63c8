use vstd::prelude::*;

verus! {

/// The number of generations for which a dead cell keeps glowing, and the
/// number of steps into which a colour channel is divided.
pub const MAX_COOLDOWN: u8 = 10;

/// An RGBA colour. Each channel counts steps of one `MAX_COOLDOWN`-th of full
/// intensity, so `MAX_COOLDOWN` is a fully lit channel and `0` an unlit one.
#[derive(Clone, Copy, Debug, PartialEq, Eq, Structural)]
pub struct Color {
    pub red: u8,
    pub green: u8,
    pub blue: u8,
    pub alpha: u8,
}

/// What the colour of a cell depends on: whether it lives, and how much of its
/// afterglow is left.
pub struct CellState {
    pub alive: bool,
    pub trail: nat,
}

impl CellState {
    /// A cell holds no afterglow while it lives, and never more than the full one.
    pub open spec fn wf(self) -> bool {
        &&& self.trail <= MAX_COOLDOWN
        &&& self.alive ==> self.trail == 0
    }

    /// The colour in which the cell is drawn: red while it lives, a blue that
    /// fades with the afterglow once it is dead, black when nothing is left.
    pub open spec fn shade(self) -> Color {
        if self.alive {
            Color { red: MAX_COOLDOWN, green: 0, blue: 0, alpha: MAX_COOLDOWN }
        } else {
            Color { red: 0, green: 0, blue: self.trail as u8, alpha: MAX_COOLDOWN }
        }
    }
}

} // verus!
