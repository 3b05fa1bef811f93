//! The closed set of timed phases and their fixed per-variant attributes:
//! display name, nominal duration, and display color.
use vstd::prelude::*;

verus! {

/// One scheduled timed interval of the work-interval cycle.
#[derive(Clone, Copy, Debug, PartialEq, Eq, Structural)]
pub enum Phase {
    Work,
    Break,
    LongBreak,
}

/// A foreground color for rendered cells and text.
#[derive(Clone, Copy, Debug, PartialEq, Eq, Structural)]
pub enum Color {
    Red,
    Green,
    Blue,
}

/// The display name of a phase.
pub open spec fn spec_name(p: Phase) -> Seq<char> {
    match p {
        Phase::Work => "work"@,
        Phase::Break => "break"@,
        Phase::LongBreak => "long break"@,
    }
}

/// The nominal duration of a phase, in seconds.
pub open spec fn spec_duration_seconds(p: Phase) -> u32 {
    match p {
        Phase::Work => 1500,
        Phase::Break => 300,
        Phase::LongBreak => 900,
    }
}

/// The marker a completed phase shows in the day's progress line: five
/// full blocks for work, one for a short break, three for a long break.
pub open spec fn spec_marker(p: Phase) -> Seq<char> {
    match p {
        Phase::Work => "\u{2588}\u{2588}\u{2588}\u{2588}\u{2588}"@,
        Phase::Break => "\u{2588}"@,
        Phase::LongBreak => "\u{2588}\u{2588}\u{2588}"@,
    }
}

/// The color associated with a phase.
pub open spec fn spec_color(p: Phase) -> Color {
    match p {
        Phase::Work => Color::Red,
        Phase::Break => Color::Green,
        Phase::LongBreak => Color::Blue,
    }
}

impl Phase {
    /// The phase's display name.
    pub fn name(&self) -> (r: &'static str)
        ensures
            r@ == spec_name(*self),
    {
        match self {
            Phase::Work => "work",
            Phase::Break => "break",
            Phase::LongBreak => "long break",
        }
    }

    /// The phase's nominal duration in seconds (25, 5 and 15 minutes).
    pub fn duration_seconds(&self) -> (r: u32)
        ensures
            r == spec_duration_seconds(*self),
    {
        match self {
            Phase::Work => 1500,
            Phase::Break => 300,
            Phase::LongBreak => 900,
        }
    }

    /// The phase's marker in the day's progress line.
    pub fn marker(&self) -> (r: &'static str)
        ensures
            r@ == spec_marker(*self),
    {
        match self {
            Phase::Work => "\u{2588}\u{2588}\u{2588}\u{2588}\u{2588}",
            Phase::Break => "\u{2588}",
            Phase::LongBreak => "\u{2588}\u{2588}\u{2588}",
        }
    }

    /// The foreground color a phase is displayed with.
    pub fn color(&self) -> (r: Color)
        ensures
            r == spec_color(*self),
    {
        match self {
            Phase::Work => Color::Red,
            Phase::Break => Color::Green,
            Phase::LongBreak => Color::Blue,
        }
    }
}

/// The color of the remaining-time text: a warning color in the last minutes
/// of a work phase, a calm color once a break has run over, otherwise the
/// terminal default.
pub open spec fn spec_text_color(workmode: Phase, minutes_remaining: i32) -> Option<Color> {
    if workmode is Work && minutes_remaining <= 4 {
        Some(Color::Red)
    } else if workmode is Break && minutes_remaining <= 0 {
        Some(Color::Green)
    } else if workmode is LongBreak && minutes_remaining <= 0 {
        Some(Color::Blue)
    } else {
        None
    }
}

/// Picks the color of the remaining-time text from the current phase and the
/// whole minutes left in it.
pub fn get_text_color(workmode: Phase, minutes_remaining: i32) -> (r: Option<Color>)
    ensures
        r == spec_text_color(workmode, minutes_remaining),
{
    match (workmode, minutes_remaining) {
        (Phase::Work, x) if x <= 4 => Some(Color::Red),
        (Phase::Break, x) if x <= 0 => Some(Color::Green),
        (Phase::LongBreak, x) if x <= 0 => Some(Color::Blue),
        _ => None,
    }
}

} // verus!
