//! The events that the matches of a line give rise to.

use crate::color::Color;
use vstd::prelude::*;

verus! {

/// Whether an event opens a colored span or closes one.
#[derive(Clone, Copy, Debug, PartialEq, Eq, Structural)]
pub enum Operation {
    Start,
    End,
}

/// What happens at one end of a match: the operation, the color of the
/// pattern that matched, and that pattern's priority (`order`; a lower number
/// is applied first among the events of one position).
#[derive(Clone, Copy, Debug, PartialEq, Eq, Structural)]
pub struct Style {
    pub operation: Operation,
    pub color: Color,
    pub order: usize,
}

impl Style {
    /// The event that opens a span of `color`.
    pub fn start(color: Color, order: usize) -> (style: Self)
        ensures
            style == start_of(color, order),
    {
        Style { operation: Operation::Start, color, order }
    }

    /// The event that closes a span of `color`.
    pub fn end(color: Color, order: usize) -> (style: Self)
        ensures
            style == end_of(color, order),
    {
        Style { operation: Operation::End, color, order }
    }
}

/// The opening event of a pattern with the given color and priority.
pub open spec fn start_of(color: Color, order: usize) -> Style {
    Style { operation: Operation::Start, color, order }
}

/// The closing event of a pattern with the given color and priority.
pub open spec fn end_of(color: Color, order: usize) -> Style {
    Style { operation: Operation::End, color, order }
}

/// A style together with the character offset at which it takes effect.
#[derive(Clone, Copy, Debug, PartialEq, Eq, Structural)]
pub struct Event {
    pub position: usize,
    pub style: Style,
}

/// The two events of one match `[span.0, span.1)`: the start at its first
/// character, the end just behind its last.
pub open spec fn match_events(color: Color, order: usize, span: (usize, usize)) -> Seq<Event> {
    seq![
        Event { position: span.0, style: start_of(color, order) },
        Event { position: span.1, style: end_of(color, order) },
    ]
}

/// The events of the matches `spans` of one pattern, match by match.
pub open spec fn pattern_events(color: Color, order: usize, spans: Seq<(usize, usize)>) -> Seq<
    Event,
>
    decreases spans.len(),
{
    if spans.len() == 0 {
        Seq::empty()
    } else {
        pattern_events(color, order, spans.drop_last()) + match_events(color, order, spans.last())
    }
}

} // verus!
