//! The two screens and their master brightness.

use vstd::prelude::*;

verus! {

/// Which screen something is shown on.
#[derive(Clone, Copy, PartialEq, Eq, Debug, Hash, Structural)]
pub enum DsScreen {
    /// The top screen, driven by the main engine.
    Top,
    /// The bottom screen, driven by the sub engine.
    Bottom,
}

/// Fade level of each screen, from fully black at -16 over normal at zero to fully
/// white at 16.
#[derive(Clone, Copy, Debug, PartialEq, Eq, Structural)]
pub struct MasterBright {
    pub top: i8,
    pub bottom: i8,
}

impl Default for MasterBright {
    fn default() -> (r: Self)
        ensures
            r.top == 0,
            r.bottom == 0,
    {
        MasterBright { top: 0, bottom: 0 }
    }
}

/// A level held to the range from -16 to 16.
pub open spec fn held_level(level: int) -> int {
    if level < -16 {
        -16
    } else if level > 16 {
        16
    } else {
        level
    }
}

/// The brightness register for a level: the factor in the low bits, and the
/// direction, one up and two down, in the top two.
pub open spec fn bright_value(level: int) -> int {
    let l = held_level(level);
    if l == 0 {
        0
    } else if l < 0 {
        0x8000 - l
    } else {
        0x4000 + l
    }
}

/// Encode a fade level for the brightness register.
pub fn master_bright_bits(level: i8) -> (r: u16)
    ensures
        r == bright_value(level as int),
{
    let l: i8 = if level < -16 {
        -16
    } else if level > 16 {
        16
    } else {
        level
    };
    if l == 0 {
        0
    } else if l < 0 {
        0x8000 + (0 - l as i16) as u16
    } else {
        0x4000 + l as u16
    }
}

impl MasterBright {
    /// The register values of the main and the sub engine.
    pub fn registers(&self) -> (r: (u16, u16))
        ensures
            r.0 == bright_value(self.top as int),
            r.1 == bright_value(self.bottom as int),
    {
        (master_bright_bits(self.top), master_bright_bits(self.bottom))
    }
}

/// Levels beyond the range count as its ends, and the factor never exceeds 16.
pub proof fn law_levels_are_held(level: int)
    ensures
        bright_value(level) == bright_value(held_level(level)),
        bright_value(level) % 0x4000 <= 16,
        bright_value(level) / 0x4000 == if level == 0 {
            0int
        } else if level < 0 {
            2
        } else {
            1
        },
{
}

} // verus!
