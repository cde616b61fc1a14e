//! Buttons and touch screen: key masks, the hand-agnostic bindings, the frame's
//! button transitions and the touch events.

use bevy_input::ButtonInput;
use core::hash::Hash;
use vstd::prelude::*;

verus! {

pub const KEY_A: u32 = 1;

pub const KEY_B: u32 = 2;

pub const KEY_SELECT: u32 = 4;

pub const KEY_START: u32 = 8;

pub const KEY_RIGHT: u32 = 16;

pub const KEY_LEFT: u32 = 32;

pub const KEY_UP: u32 = 64;

pub const KEY_DOWN: u32 = 128;

pub const KEY_R: u32 = 256;

pub const KEY_L: u32 = 512;

pub const KEY_X: u32 = 1024;

pub const KEY_Y: u32 = 2048;

/// The pen is down; only then does a touch reading mean anything.
pub const KEY_TOUCH: u32 = 4096;

/// A button of the console.
#[derive(Debug, Clone, Copy, PartialEq, Eq, Hash, Structural)]
pub enum DsButton {
    A,
    B,
    X,
    Y,
    L,
    R,
    Start,
    Select,
    Up,
    Down,
    Left,
    Right,
}

/// Which hand holds the stylus; the other one works the buttons.
#[derive(Debug, Clone, Copy, PartialEq, Eq, Structural)]
pub enum Handedness {
    Right,
    Left,
}

impl Default for Handedness {
    fn default() -> (r: Handedness)
        ensures
            r == Handedness::Right,
    {
        Handedness::Right
    }
}

/// A direction on the four-button cluster under the free hand.
#[derive(Debug, Clone, Copy, PartialEq, Eq, Structural)]
pub enum Cluster {
    Up,
    Down,
    Left,
    Right,
}

/// A shoulder button by its role: the one under the free hand, or the other.
#[derive(Debug, Clone, Copy, PartialEq, Eq, Structural)]
pub enum Shoulder {
    Primary,
    Secondary,
}

impl Cluster {
    /// Right-handed the cluster is the d-pad, left-handed the diamond of lettered
    /// buttons, position for position.
    pub open spec fn button_of(self, handedness: Handedness) -> DsButton {
        match (handedness, self) {
            (Handedness::Right, Cluster::Up) => DsButton::Up,
            (Handedness::Right, Cluster::Down) => DsButton::Down,
            (Handedness::Right, Cluster::Left) => DsButton::Left,
            (Handedness::Right, Cluster::Right) => DsButton::Right,
            (Handedness::Left, Cluster::Up) => DsButton::X,
            (Handedness::Left, Cluster::Down) => DsButton::B,
            (Handedness::Left, Cluster::Left) => DsButton::Y,
            (Handedness::Left, Cluster::Right) => DsButton::A,
        }
    }

    /// The button that the direction is for this hand.
    pub fn button(self, handedness: Handedness) -> (r: DsButton)
        ensures
            r == self.button_of(handedness),
    {
        match handedness {
            Handedness::Right => match self {
                Cluster::Up => DsButton::Up,
                Cluster::Down => DsButton::Down,
                Cluster::Left => DsButton::Left,
                Cluster::Right => DsButton::Right,
            },
            Handedness::Left => match self {
                Cluster::Up => DsButton::X,
                Cluster::Down => DsButton::B,
                Cluster::Left => DsButton::Y,
                Cluster::Right => DsButton::A,
            },
        }
    }
}

impl Shoulder {
    /// The free hand's shoulder is the primary one.
    pub open spec fn button_of(self, handedness: Handedness) -> DsButton {
        if (self == Shoulder::Primary) == (handedness == Handedness::Right) {
            DsButton::L
        } else {
            DsButton::R
        }
    }

    /// The button that the role is for this hand.
    pub fn button(self, handedness: Handedness) -> (r: DsButton)
        ensures
            r == self.button_of(handedness),
    {
        match (self, handedness) {
            (Shoulder::Primary, Handedness::Right) => DsButton::L,
            (Shoulder::Secondary, Handedness::Right) => DsButton::R,
            (Shoulder::Primary, Handedness::Left) => DsButton::R,
            (Shoulder::Secondary, Handedness::Left) => DsButton::L,
        }
    }
}

impl DsButton {
    /// Every button with its key mask.
    pub const ALL: [(DsButton, u32); 12] = [
        (DsButton::A, KEY_A),
        (DsButton::B, KEY_B),
        (DsButton::X, KEY_X),
        (DsButton::Y, KEY_Y),
        (DsButton::L, KEY_L),
        (DsButton::R, KEY_R),
        (DsButton::Start, KEY_START),
        (DsButton::Select, KEY_SELECT),
        (DsButton::Up, KEY_UP),
        (DsButton::Down, KEY_DOWN),
        (DsButton::Left, KEY_LEFT),
        (DsButton::Right, KEY_RIGHT),
    ];

    /// The button's key mask.
    pub open spec fn mask(self) -> u32 {
        match self {
            DsButton::A => KEY_A,
            DsButton::B => KEY_B,
            DsButton::X => KEY_X,
            DsButton::Y => KEY_Y,
            DsButton::L => KEY_L,
            DsButton::R => KEY_R,
            DsButton::Start => KEY_START,
            DsButton::Select => KEY_SELECT,
            DsButton::Up => KEY_UP,
            DsButton::Down => KEY_DOWN,
            DsButton::Left => KEY_LEFT,
            DsButton::Right => KEY_RIGHT,
        }
    }

    /// The button's place in the table.
    pub open spec fn place(self) -> int {
        match self {
            DsButton::A => 0,
            DsButton::B => 1,
            DsButton::X => 2,
            DsButton::Y => 3,
            DsButton::L => 4,
            DsButton::R => 5,
            DsButton::Start => 6,
            DsButton::Select => 7,
            DsButton::Up => 8,
            DsButton::Down => 9,
            DsButton::Left => 10,
            DsButton::Right => 11,
        }
    }

    /// Is the button down in this key state?
    pub open spec fn down_in(self, held: u32) -> bool {
        held & self.mask() != 0
    }
}

/// [`ButtonInput`], the press state that games read.
#[verifier::external_type_specification]
#[verifier::external_body]
#[verifier::reject_recursive_types(T)]
pub struct ExButtonInput<T: Copy + Eq + Hash + Send + Sync + 'static>(ButtonInput<T>);

/// The buttons that are pressed.
pub uninterp spec fn pressed_set(b: ButtonInput<DsButton>) -> Set<DsButton>;

/// The buttons that went down this frame.
pub uninterp spec fn just_pressed_set(b: ButtonInput<DsButton>) -> Set<DsButton>;

/// The buttons that went up this frame.
pub uninterp spec fn just_released_set(b: ButtonInput<DsButton>) -> Set<DsButton>;

/// [`ButtonInput::press`] adds the button to those pressed and, if it was not among
/// them, to those just pressed. The rest stays. The sets compare buttons by their
/// derived `Eq` and `Hash`, which tell the variants apart.
#[verifier::external_body]
fn press(buttons: &mut ButtonInput<DsButton>, button: DsButton)
    ensures
        pressed_set(*final(buttons)) == pressed_set(*old(buttons)).insert(button),
        just_pressed_set(*final(buttons)) == if pressed_set(*old(buttons)).contains(button) {
            just_pressed_set(*old(buttons))
        } else {
            just_pressed_set(*old(buttons)).insert(button)
        },
        just_released_set(*final(buttons)) == just_released_set(*old(buttons)),
{
    buttons.press(button)
}

/// [`ButtonInput::release`] takes the button from those pressed and, if it was among
/// them, adds it to those just released. The rest stays.
#[verifier::external_body]
fn release(buttons: &mut ButtonInput<DsButton>, button: DsButton)
    ensures
        pressed_set(*final(buttons)) == pressed_set(*old(buttons)).remove(button),
        just_released_set(*final(buttons)) == if pressed_set(*old(buttons)).contains(button) {
            just_released_set(*old(buttons)).insert(button)
        } else {
            just_released_set(*old(buttons))
        },
        just_pressed_set(*final(buttons)) == just_pressed_set(*old(buttons)),
{
    buttons.release(button)
}

/// [`ButtonInput::clear`] forgets what was just pressed and just released, and keeps
/// what is pressed.
#[verifier::external_body]
fn clear(buttons: &mut ButtonInput<DsButton>)
    ensures
        pressed_set(*final(buttons)) == pressed_set(*old(buttons)),
        just_pressed_set(*final(buttons)) == Set::<DsButton>::empty(),
        just_released_set(*final(buttons)) == Set::<DsButton>::empty(),
{
    buttons.clear()
}

/// Bring the press state up to this frame's keys: pressed is what is down, just
/// pressed what was not pressed before, just released what no longer is.
pub fn read_keys(buttons: &mut ButtonInput<DsButton>, held: u32)
    ensures
        forall|b: DsButton| #[trigger] pressed_set(*final(buttons)).contains(b) == b.down_in(held),
        forall|b: DsButton| #[trigger]
            just_pressed_set(*final(buttons)).contains(b) == (b.down_in(held) && !pressed_set(
                *old(buttons),
            ).contains(b)),
        forall|b: DsButton| #[trigger]
            just_released_set(*final(buttons)).contains(b) == (!b.down_in(held) && pressed_set(
                *old(buttons),
            ).contains(b)),
{
    let ghost before = pressed_set(*buttons);
    clear(buttons);
    let all: [(DsButton, u32); 12] = DsButton::ALL;
    let mut i: usize = 0;
    while i < 12
        invariant
            i <= 12,
            all@ == DsButton::ALL@,
            forall|b: DsButton| #[trigger]
                pressed_set(*buttons).contains(b) == if b.place() < i {
                    b.down_in(held)
                } else {
                    before.contains(b)
                },
            forall|b: DsButton| #[trigger]
                just_pressed_set(*buttons).contains(b) == (b.place() < i && b.down_in(held)
                    && !before.contains(b)),
            forall|b: DsButton| #[trigger]
                just_released_set(*buttons).contains(b) == (b.place() < i && !b.down_in(held)
                    && before.contains(b)),
        decreases 12 - i,
    {
        let (button, mask): (DsButton, u32) = all[i];
        assert(button.place() == i && mask == button.mask());
        if held & mask != 0 {
            press(buttons, button);
        } else {
            release(buttons, button);
        }
        i = i + 1;
    }
}

/// A position on the touch screen, in pixels.
#[derive(Debug, Clone, Copy, PartialEq, Eq, Structural)]
pub struct TouchPos {
    pub px: u16,
    pub py: u16,
}

/// What happened to the pen.
#[derive(Debug, Clone, Copy, PartialEq, Eq, Structural)]
pub enum TouchPhase {
    Started,
    Moved,
    Ended,
}

/// The screen tells one pen only; this is its id.
pub const TOUCH_ID: u64 = 0;

/// The pen's position, if this key state says that it is down.
pub fn touch_reading(held: u32, px: u16, py: u16) -> (r: Option<TouchPos>)
    ensures
        r == if held & KEY_TOUCH != 0 {
            Some(TouchPos { px, py })
        } else {
            None::<TouchPos>
        },
{
    if held & KEY_TOUCH != 0 {
        Some(TouchPos { px, py })
    } else {
        None
    }
}

/// The event between two readings: a pen that comes down starts a touch, one that
/// leaves ends it where it was last seen, one that moved moves it.
pub open spec fn touch_event(prev: Option<TouchPos>, current: Option<TouchPos>) -> Option<
    (TouchPhase, TouchPos),
> {
    match (prev, current) {
        (None, Some(pos)) => Some((TouchPhase::Started, pos)),
        (Some(last), None) => Some((TouchPhase::Ended, last)),
        (Some(last), Some(pos)) => if pos != last {
            Some((TouchPhase::Moved, pos))
        } else {
            None
        },
        (None, None) => None,
    }
}

/// The event between two readings, and the position to remember.
pub fn diff_touch(prev: Option<TouchPos>, current: Option<TouchPos>) -> (r: (
    Option<(TouchPhase, TouchPos)>,
    Option<TouchPos>,
))
    ensures
        r.0 == touch_event(prev, current),
        r.1 == current,
{
    match (prev, current) {
        (None, Some(pos)) => (Some((TouchPhase::Started, pos)), Some(pos)),
        (Some(prev_pos), Some(pos)) => if pos != prev_pos {
            (Some((TouchPhase::Moved, pos)), Some(pos))
        } else {
            (None, Some(pos))
        },
        (Some(prev_pos), None) => (Some((TouchPhase::Ended, prev_pos)), None),
        (None, None) => (None, None),
    }
}

/// Every button has one mask of its own, a single bit, and none is the pen's.
pub proof fn law_masks_are_distinct_bits(a: DsButton, b: DsButton)
    ensures
        a.mask() != 0,
        a.mask() & ((a.mask() - 1) as u32) == 0,
        a.mask() & KEY_TOUCH == 0,
        a != b ==> a.mask() & b.mask() == 0,
        DsButton::ALL@[a.place()] == (a, a.mask()),
{
    lemma_low_bit(a);
    lemma_low_bit(b);
    let m = a.mask();
    let n = b.mask();
    let i = a.bit();
    let j = b.bit();
    assert(m != 0 && m & ((m - 1) as u32) == 0 && m & 4096 == 0 && (i != j ==> m & n == 0))
        by (bit_vector)
        requires
            i < 12,
            j < 12,
            m == 1u32 << i,
            n == 1u32 << j,
    ;
}

impl DsButton {
    /// The number of the mask's bit.
    pub open spec fn bit(self) -> u32 {
        match self {
            DsButton::A => 0,
            DsButton::B => 1,
            DsButton::Select => 2,
            DsButton::Start => 3,
            DsButton::Right => 4,
            DsButton::Left => 5,
            DsButton::Up => 6,
            DsButton::Down => 7,
            DsButton::R => 8,
            DsButton::L => 9,
            DsButton::X => 10,
            DsButton::Y => 11,
        }
    }
}

proof fn lemma_low_bit(b: DsButton)
    ensures
        b.mask() == 1u32 << b.bit(),
        b.bit() < 12,
{
    assert(1u32 << 0u32 == 1 && 1u32 << 1u32 == 2 && 1u32 << 2u32 == 4 && 1u32 << 3u32 == 8
        && 1u32 << 4u32 == 16 && 1u32 << 5u32 == 32 && 1u32 << 6u32 == 64 && 1u32 << 7u32 == 128
        && 1u32 << 8u32 == 256 && 1u32 << 9u32 == 512 && 1u32 << 10u32 == 1024 && 1u32 << 11u32
        == 2048) by (bit_vector);
}

/// For either hand the four directions are four buttons, the two shoulders are two,
/// and no direction is a shoulder.
pub proof fn law_bindings_do_not_collide(h: Handedness, a: Cluster, b: Cluster, s: Shoulder, t: Shoulder)
    ensures
        a.button_of(h) == b.button_of(h) ==> a == b,
        s.button_of(h) == t.button_of(h) ==> s == t,
        a.button_of(h) != s.button_of(h),
{
}

/// Changing hands moves every binding to another button.
pub proof fn law_hands_share_no_binding(a: Cluster, b: Cluster, s: Shoulder)
    ensures
        a.button_of(Handedness::Right) != b.button_of(Handedness::Left),
        s.button_of(Handedness::Right) != s.button_of(Handedness::Left),
{
}

/// How many touches a run of readings starts, or ends, with the pen up before it.
pub open spec fn events_in(readings: Seq<Option<TouchPos>>, phase: TouchPhase) -> int
    decreases readings.len(),
{
    if readings.len() == 0 {
        0
    } else {
        let prev = if readings.len() == 1 {
            None
        } else {
            readings[readings.len() - 2]
        };
        let now = match touch_event(prev, readings.last()) {
            Some((p, _)) => if p == phase {
                1int
            } else {
                0
            },
            None => 0,
        };
        events_in(readings.drop_last(), phase) + now
    }
}

/// Touches are whole: over any run of readings as many touches end as start, but for
/// the one that is still going on while the pen is down.
pub proof fn law_touches_start_and_end(readings: Seq<Option<TouchPos>>)
    ensures
        events_in(readings, TouchPhase::Started) - events_in(readings, TouchPhase::Ended) == if readings.len()
            > 0 && readings.last() is Some {
            1int
        } else {
            0
        },
    decreases readings.len(),
{
    if readings.len() > 0 {
        law_touches_start_and_end(readings.drop_last());
    }
}

} // verus!
