//! The window of the panel: its forms, their sizes, and where they stand on the screen.

use vstd::prelude::*;

use crate::text;

verus! {

/// Size of the full panel, and the smallest it can be made.
pub const FULL_SIZE: (u32, u32) = (1000, 800);

pub const FULL_MIN_SIZE: (u32, u32) = (720, 520);

/// Sizes of the floating window.
pub const FLOAT_GAUGE_SIZE: (u32, u32) = (148, 118);

pub const FLOAT_PILL_SIZE: (u32, u32) = (172, 72);

/// Side of the pet, and its bounds, in thousandths of a pixel.
pub const FLOAT_PET_SIZE: u64 = 200_000;

pub const PET_SIZE_MIN: u64 = 100_000;

pub const PET_SIZE_MAX: u64 = 480_000;

/// Height above the pet for what it says, and for what it says of several tasks, in
/// thousandths of a pixel.
pub const PET_BUBBLE_RESERVE: u64 = 56_000;

pub const PET_TASK_EXTRA: u64 = 96_000;

/// How long a moved window waits before its place is saved.
pub const PLACE_SAVE_MS: u64 = 2_000;

/// The form of the window.
#[derive(Clone, Copy, Debug, PartialEq, Eq, Structural)]
pub enum Mode {
    /// The whole panel.
    Full,
    /// A small window that floats.
    Float,
}

/// The look of the floating window.
#[derive(Clone, Copy, Debug, PartialEq, Eq, Structural)]
pub enum FloatStyle {
    Gauge,
    Pill,
    Pet,
}

/// The name of a form.
pub open spec fn mode_name(m: Mode) -> Seq<char> {
    match m {
        Mode::Full => "full"@,
        Mode::Float => "float"@,
    }
}

/// The form of a name; what is no such name is full.
pub open spec fn mode_named(s: Seq<char>) -> Mode {
    if text::trimmed(s) == "float"@ {
        Mode::Float
    } else {
        Mode::Full
    }
}

/// The name of a look.
pub open spec fn style_name(s: FloatStyle) -> Seq<char> {
    match s {
        FloatStyle::Gauge => "gauge"@,
        FloatStyle::Pill => "pill"@,
        FloatStyle::Pet => "pet"@,
    }
}

/// The look of a name; what is no such name is a gauge.
pub open spec fn style_named(s: Seq<char>) -> FloatStyle {
    if text::trimmed(s) == "pill"@ {
        FloatStyle::Pill
    } else if text::trimmed(s) == "pet"@ {
        FloatStyle::Pet
    } else {
        FloatStyle::Gauge
    }
}

fn is_named(s: &str, name: &str) -> (r: bool)
    ensures
        r == (text::trimmed(s@) == name@),
{
    let cs = text::chars_of(s);
    let t = text::trim(&cs);
    let n = text::chars_of(name);
    text::same_chars(&t, &n)
}

impl Mode {
    /// The name of the form.
    pub fn as_str(self) -> (r: &'static str)
        ensures
            r@ == mode_name(self),
    {
        match self {
            Mode::Full => "full",
            Mode::Float => "float",
        }
    }

    /// The form of a name; what is no such name is full.
    pub fn parse(s: &str) -> (r: Mode)
        ensures
            r == mode_named(s@),
    {
        if is_named(s, "float") {
            Mode::Float
        } else {
            Mode::Full
        }
    }

    /// The other form.
    pub fn other(self) -> (r: Mode)
        ensures
            r == (if self == Mode::Float {
                Mode::Full
            } else {
                Mode::Float
            }),
    {
        match self {
            Mode::Full => Mode::Float,
            Mode::Float => Mode::Full,
        }
    }
}

impl FloatStyle {
    /// The name of the look.
    pub fn as_str(self) -> (r: &'static str)
        ensures
            r@ == style_name(self),
    {
        match self {
            FloatStyle::Gauge => "gauge",
            FloatStyle::Pill => "pill",
            FloatStyle::Pet => "pet",
        }
    }

    /// The look of a name; what is no such name is a gauge.
    pub fn parse(s: &str) -> (r: FloatStyle)
        ensures
            r == style_named(s@),
    {
        if is_named(s, "pill") {
            FloatStyle::Pill
        } else if is_named(s, "pet") {
            FloatStyle::Pet
        } else {
            FloatStyle::Gauge
        }
    }
}

/// Forms and looks are found again by their names.
pub proof fn law_names_are_found_again(m: Mode, s: FloatStyle)
    ensures
        mode_named(mode_name(m)) == m,
        style_named(style_name(s)) == s,
{
    reveal_strlit("full");
    reveal_strlit("float");
    reveal_strlit("gauge");
    reveal_strlit("pill");
    reveal_strlit("pet");
    let a = mode_name(m);
    let b = style_name(s);
    assert(!text::white(a[0]) && !text::white(a.last()));
    assert(!text::white(b[0]) && !text::white(b.last()));
    assert(text::trimmed(a) == a);
    assert(text::trimmed(b) == b);
    assert("full"@.len() == 4 && "float"@.len() == 5);
    assert("gauge"@.len() == 5 && "pill"@.len() == 4 && "pet"@.len() == 3);
}

/// The size of a form: fixed, or that of the pet.
#[derive(Clone, Copy, Debug, PartialEq, Eq, Structural)]
pub enum PlanSize {
    Fixed(u32, u32),
    Pet,
}

/// How the window is set up.
#[derive(Clone, Copy, Debug, PartialEq, Eq)]
pub struct WindowPlan {
    pub min_size: Option<(u32, u32)>,
    pub size: PlanSize,
    /// It has the title bar of the system.
    pub decorations: bool,
    pub resizable: bool,
    pub always_on_top: bool,
    pub skip_taskbar: bool,
    pub shadow: bool,
    /// The panel shows in the dock.
    pub in_dock: bool,
}

/// How the window is set up in a form and look.
pub open spec fn plan_of(mode: Mode, style: FloatStyle, on_macos: bool) -> WindowPlan {
    match mode {
        Mode::Full => WindowPlan {
            min_size: Some(FULL_MIN_SIZE),
            size: PlanSize::Fixed(FULL_SIZE.0, FULL_SIZE.1),
            decorations: on_macos,
            resizable: true,
            always_on_top: false,
            skip_taskbar: false,
            shadow: true,
            in_dock: true,
        },
        Mode::Float => WindowPlan {
            min_size: None,
            size: match style {
                FloatStyle::Gauge => PlanSize::Fixed(FLOAT_GAUGE_SIZE.0, FLOAT_GAUGE_SIZE.1),
                FloatStyle::Pill => PlanSize::Fixed(FLOAT_PILL_SIZE.0, FLOAT_PILL_SIZE.1),
                FloatStyle::Pet => PlanSize::Pet,
            },
            decorations: false,
            resizable: false,
            always_on_top: true,
            skip_taskbar: true,
            shadow: false,
            in_dock: false,
        },
    }
}

/// How the window is set up in a form and look.
pub fn window_plan(mode: Mode, style: FloatStyle, on_macos: bool) -> (r: WindowPlan)
    ensures
        r == plan_of(mode, style, on_macos),
{
    match mode {
        Mode::Full => WindowPlan {
            min_size: Some(FULL_MIN_SIZE),
            size: PlanSize::Fixed(FULL_SIZE.0, FULL_SIZE.1),
            decorations: on_macos,
            resizable: true,
            always_on_top: false,
            skip_taskbar: false,
            shadow: true,
            in_dock: true,
        },
        Mode::Float => WindowPlan {
            min_size: None,
            size: match style {
                FloatStyle::Gauge => PlanSize::Fixed(FLOAT_GAUGE_SIZE.0, FLOAT_GAUGE_SIZE.1),
                FloatStyle::Pill => PlanSize::Fixed(FLOAT_PILL_SIZE.0, FLOAT_PILL_SIZE.1),
                FloatStyle::Pet => PlanSize::Pet,
            },
            decorations: false,
            resizable: false,
            always_on_top: true,
            skip_taskbar: true,
            shadow: false,
            in_dock: false,
        },
    }
}

/// A side within the bounds of the pet.
pub open spec fn side_within(side: u64) -> u64 {
    if side < PET_SIZE_MIN {
        PET_SIZE_MIN
    } else if side > PET_SIZE_MAX {
        PET_SIZE_MAX
    } else {
        side
    }
}

/// Width and height of the window of the pet, in thousandths of a pixel: a square, and room
/// above it for what it says.
pub fn pet_box(side: Option<u64>, roomy: bool) -> (r: (u64, u64))
    ensures
        r.0 == side_within(
            match side {
                Some(s) => s,
                None => FLOAT_PET_SIZE,
            },
        ),
        r.1 == r.0 + PET_BUBBLE_RESERVE + (if roomy {
            PET_TASK_EXTRA as int
        } else {
            0
        }),
        (r.0 as int, r.1 as int) == pet_room(side, roomy),
{
    let wanted: u64 = match side {
        Some(s) => s,
        None => FLOAT_PET_SIZE,
    };
    let w: u64 = if wanted < PET_SIZE_MIN {
        PET_SIZE_MIN
    } else if wanted > PET_SIZE_MAX {
        PET_SIZE_MAX
    } else {
        wanted
    };
    let extra: u64 = if roomy {
        PET_TASK_EXTRA
    } else {
        0
    };
    (w, w + PET_BUBBLE_RESERVE + extra)
}

/// A screen: where it begins, and its size.
#[derive(Clone, Copy, Debug, PartialEq, Eq, Structural)]
pub struct Screen {
    pub x: i32,
    pub y: i32,
    pub width: u32,
    pub height: u32,
}

/// A place moved so that something of a size lies between bounds; at the lower bound where it
/// does not fit.
pub open spec fn within(at: int, size: int, low: int, length: int) -> int {
    let high = if low + length - size > low {
        low + length - size
    } else {
        low
    };
    if at < low {
        low
    } else if at > high {
        high
    } else {
        at
    }
}

fn move_within(at: i32, size: u32, low: i32, length: u32) -> (r: i32)
    ensures
        r == within(at as int, size as int, low as int, length as int),
{
    let last: i64 = low as i64 + length as i64 - size as i64;
    let high: i64 = if last > low as i64 {
        last
    } else {
        low as i64
    };
    if at < low {
        low
    } else if at as i64 > high {
        high as i32
    } else {
        at
    }
}

/// The place of a window moved so that all of it can be seen on a screen. Where no screen is
/// known it stays.
pub fn clamp_to_screen(x: i32, y: i32, w: u32, h: u32, screen: Option<Screen>) -> (r: (i32, i32))
    ensures
        match screen {
            Some(s) => {
                &&& r.0 == within(x as int, w as int, s.x as int, s.width as int)
                &&& r.1 == within(y as int, h as int, s.y as int, s.height as int)
            },
            None => r == (x, y),
        },
{
    match screen {
        Some(s) => (move_within(x, w, s.x, s.width), move_within(y, h, s.y, s.height)),
        None => (x, y),
    }
}

/// What fits lies on the screen as a whole, and what lay there is not moved.
pub proof fn law_window_is_on_screen(at: int, size: int, low: int, length: int)
    requires
        0 <= size <= length,
    ensures
        low <= within(at, size, low, length),
        within(at, size, low, length) + size <= low + length,
        low <= at && at + size <= low + length ==> within(at, size, low, length) == at,
{
}

/// Where each form of the window was last.
#[derive(Clone, Copy, Debug, PartialEq, Eq)]
pub struct Places {
    pub full: Option<(i32, i32)>,
    pub float: Option<(i32, i32)>,
}

impl Places {
    /// The place of a form.
    pub open spec fn of(self, mode: Mode) -> Option<(i32, i32)> {
        match mode {
            Mode::Full => self.full,
            Mode::Float => self.float,
        }
    }

    /// Remembers the place of a form. The other forms keep theirs.
    pub fn remember(&mut self, mode: Mode, at: (i32, i32))
        ensures
            final(self).of(mode) == Some(at),
            forall|m: Mode| m != mode ==> #[trigger] final(self).of(m) == old(self).of(m),
    {
        match mode {
            Mode::Full => {
                self.full = Some(at);
            },
            Mode::Float => {
                self.float = Some(at);
            },
        }
    }
}

/// A number moved into the range of a coordinate.
pub open spec fn coordinate(x: int) -> i32 {
    if x > i32::MAX {
        i32::MAX
    } else if x < i32::MIN {
        i32::MIN
    } else {
        x as i32
    }
}

fn to_coordinate(x: i64) -> (r: i32)
    ensures
        r == coordinate(x as int),
{
    if x > 0x7fff_ffff {
        0x7fff_ffff
    } else if x < -0x8000_0000 {
        -0x8000_0000
    } else {
        x as i32
    }
}

/// Where the window is to stand: where its form was last. A floating window that was nowhere
/// yet takes the middle of where the window is now; the full panel stays.
pub open spec fn wanted_place(
    mode: Mode,
    places: Places,
    at: (i32, i32),
    size: (u32, u32),
    new_size: (u32, u32),
) -> Option<(i32, i32)> {
    match mode {
        Mode::Full => places.full,
        Mode::Float => match places.float {
            Some(p) => Some(p),
            None => Some(
                (
                    coordinate(at.0 + size.0 / 2 - new_size.0 / 2),
                    coordinate(at.1 + size.1 / 2 - new_size.1 / 2),
                ),
            ),
        },
    }
}

/// Where the window is to stand, before it is moved onto a screen.
pub fn wanted_position(
    mode: Mode,
    places: &Places,
    at: (i32, i32),
    size: (u32, u32),
    new_size: (u32, u32),
) -> (r: Option<(i32, i32)>)
    ensures
        r == wanted_place(mode, *places, at, size, new_size),
{
    match mode {
        Mode::Full => places.full,
        Mode::Float => match places.float {
            Some(p) => Some(p),
            None => {
                let x: i64 = at.0 as i64 + (size.0 / 2) as i64 - (new_size.0 / 2) as i64;
                let y: i64 = at.1 as i64 + (size.1 / 2) as i64 - (new_size.1 / 2) as i64;
                Some((to_coordinate(x), to_coordinate(y)))
            },
        },
    }
}

/// The part of a screen below a margin: where it begins, and its size.
pub fn below_margin(screen: &Screen, margin: u32) -> (r: Screen)
    ensures
        r.x == screen.x,
        r.width == screen.width,
        r.y == coordinate(screen.y + margin),
        r.height == (if screen.height >= margin {
            screen.height - margin
        } else {
            0
        }),
{
    Screen {
        x: screen.x,
        y: to_coordinate(screen.y as i64 + margin as i64),
        width: screen.width,
        height: if screen.height >= margin {
            screen.height - margin
        } else {
            0
        },
    }
}

/// Whether the place of a moved window is to be saved now: it was not for long enough. If so,
/// it counts as saved.
pub fn place_save_due(last: &mut Option<u64>, mono_ms: u64) -> (r: bool)
    ensures
        r == (match *old(last) {
            Some(t) => mono_ms - t > PLACE_SAVE_MS,
            None => true,
        }),
        r == saves_place(*old(last), mono_ms as int),
        *final(last) == (if r {
            Some(mono_ms)
        } else {
            *old(last)
        }),
{
    let due = match *last {
        Some(t) => mono_ms > t && mono_ms - t > PLACE_SAVE_MS,
        None => true,
    };
    if due {
        *last = Some(mono_ms);
    }
    due
}

/// The pet is as large as was wished, but never smaller or larger than it can be.
pub proof fn law_pet_keeps_its_bounds(side: u64)
    ensures
        100_000 <= side_within(side) <= 480_000,
        100_000 <= side <= 480_000 ==> side_within(side) == side,
        side < 100_000 ==> side_within(side) == 100_000,
        side > 480_000 ==> side_within(side) == 480_000,
{
}

/// A small window appears where it last was; the first time, its middle is that of the window
/// that it comes from, to within a point.
pub proof fn law_small_window_appears_in_the_middle(
    places: Places,
    at: (i32, i32),
    size: (u32, u32),
    new_size: (u32, u32),
)
    requires
        i32::MIN <= at.0 + size.0 / 2 - new_size.0 / 2 <= i32::MAX,
        i32::MIN <= at.1 + size.1 / 2 - new_size.1 / 2 <= i32::MAX,
    ensures
        ({
            let p = wanted_place(Mode::Float, places, at, size, new_size);
            &&& places.float is Some ==> p == places.float
            &&& places.float is None ==> match p {
                Some((x, y)) => -1 <= (2 * x + new_size.0) - (2 * at.0 + size.0) <= 1 && -1 <= (2
                    * y + new_size.1) - (2 * at.1 + size.1) <= 1,
                None => false,
            }
        }),
{
}

/// The place of a window is to be saved.
pub open spec fn saves_place(last: Option<u64>, now: int) -> bool {
    match last {
        Some(t) => now - t > PLACE_SAVE_MS,
        None => true,
    }
}

/// Width and height of the pet, with room for its bubble, and for that of several tasks.
pub open spec fn pet_room(side: Option<u64>, roomy: bool) -> (int, int) {
    let w = side_within(
        match side {
            Some(s) => s,
            None => FLOAT_PET_SIZE,
        },
    );
    (
        w as int,
        w + PET_BUBBLE_RESERVE + (if roomy {
            PET_TASK_EXTRA as int
        } else {
            0
        }),
    )
}

/// The place of a window is saved every two seconds at most.
pub proof fn law_place_is_saved_now_and_then(last: u64, now: int)
    ensures
        saves_place(None, now),
        saves_place(Some(last), now) == (now - last > 2_000),
{
}

/// The pet is a square of two hundred points unless another size is wished, with a bubble of fifty-six
/// above it, and ninety-six more where there are several tasks.
pub proof fn law_room_of_the_pet(side: u64, roomy: bool)
    requires
        100_000 <= side <= 480_000,
    ensures
        pet_room(None, roomy) == pet_room(Some(200_000), roomy),
        pet_room(Some(side), false) == (side as int, side + 56_000),
        pet_room(Some(side), true) == (side as int, side + 56_000 + 96_000),
{
}

/// A small window has no frame, stays on top and out of the task bar, and keeps its size; the
/// whole panel is an ordinary window.
pub proof fn law_small_windows_float(style: FloatStyle, on_macos: bool)
    ensures
        ({
            let f = plan_of(Mode::Float, style, on_macos);
            &&& !f.decorations && !f.resizable && !f.shadow && !f.in_dock
            &&& f.always_on_top && f.skip_taskbar
            &&& f.min_size is None
            &&& f.size == match style {
                FloatStyle::Gauge => PlanSize::Fixed(148, 118),
                FloatStyle::Pill => PlanSize::Fixed(172, 72),
                FloatStyle::Pet => PlanSize::Pet,
            }
        }),
        ({
            let w = plan_of(Mode::Full, style, on_macos);
            &&& w.resizable && w.shadow && w.in_dock && !w.always_on_top && !w.skip_taskbar
            &&& w.decorations == on_macos
            &&& w.size == PlanSize::Fixed(1000, 800)
            &&& w.min_size == Some((720u32, 520u32))
        }),
{
}

} // verus!
