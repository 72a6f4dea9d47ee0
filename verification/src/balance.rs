//! The balance of starts and ends: when the color stack is empty again at
//! the end of a line.

use crate::builder::line_events;
use crate::color::Color;
use crate::pattern::{line_spans, Opt};
use crate::priority::{insertion_point, lemma_insert_at_point, lemma_point_behind_inserted};
use crate::render::{stack_after_all, stack_at, styles_of};
use crate::resolver::{by_priority, insert_by_order, resolved, styles_at};
use crate::stack::remove_last;
use crate::style::{end_of, match_events, pattern_events, start_of, Event, Operation, Style};
use vstd::prelude::*;

verus! {

/// How often `color` stands on `stack`.
pub open spec fn occurrences(stack: Seq<Color>, color: Color) -> nat
    decreases stack.len(),
{
    if stack.len() == 0 {
        0
    } else if stack.last() == color {
        occurrences(stack.drop_last(), color) + 1
    } else {
        occurrences(stack.drop_last(), color)
    }
}

/// What `style` adds to the number of open spans of `color`: one for a
/// start of that color, minus one for an end of it, nothing otherwise.
pub open spec fn weight(style: Style, color: Color) -> int {
    if style.color != color {
        0
    } else if style.operation == Operation::Start {
        1
    } else {
        -1
    }
}

/// The number of starts of `color` among `styles` less the number of its
/// ends: the spans of that color that `styles` leave open.
pub open spec fn open_spans(styles: Seq<Style>, color: Color) -> int
    decreases styles.len(),
{
    if styles.len() == 0 {
        0
    } else {
        open_spans(styles.drop_last(), color) + weight(styles.last(), color)
    }
}

/// Whether every end among `styles` closes a span that an earlier start of
/// its color has opened and no other end has closed yet.
pub open spec fn well_nested(styles: Seq<Style>) -> bool {
    forall|count: int, color: Color|
        0 <= count <= styles.len() ==> #[trigger] open_spans(styles.take(count), color) >= 0
}

/// Whether starts and ends are balanced in `styles`: every end closes a span
/// that is open, and no span stays open.
pub open spec fn balanced(styles: Seq<Style>) -> bool {
    &&& well_nested(styles)
    &&& forall|color: Color| open_spans(styles, color) == 0
}

/// The styles of the first `count` positions of `index`, in the order in
/// which the render loop applies them.
pub open spec fn fired(index: Seq<Seq<Style>>, count: nat) -> Seq<Style>
    decreases count,
{
    if count == 0 {
        Seq::empty()
    } else {
        fired(index, (count - 1) as nat) + styles_of(index, count - 1)
    }
}

/// Removing the last entry of a color takes one occurrence of that color
/// away, if there is one, and none of another color.
pub proof fn lemma_occurrences_remove_last(stack: Seq<Color>, removed: Color, color: Color)
    ensures
        occurrences(remove_last(stack, removed), color) == if removed == color && occurrences(
            stack,
            color,
        ) > 0 {
            (occurrences(stack, color) - 1) as nat
        } else {
            occurrences(stack, color)
        },
    decreases stack.len(),
{
    if stack.len() > 0 && stack.last() != removed {
        lemma_occurrences_remove_last(stack.drop_last(), removed, color);
        let rest = remove_last(stack.drop_last(), removed);
        assert(rest.push(stack.last()).drop_last() =~= rest);
    }
}

/// A stack on which no color stands is empty.
pub proof fn lemma_no_occurrence_is_empty(stack: Seq<Color>)
    requires
        forall|color: Color| occurrences(stack, color) == 0,
    ensures
        stack == Seq::<Color>::empty(),
{
    if stack.len() > 0 {
        assert(occurrences(stack, stack.last()) > 0);
    }
    assert(stack =~= Seq::<Color>::empty());
}

/// Applying one list of styles and then another is applying the two in a row.
pub proof fn lemma_stack_after_all_concat(stack: Seq<Color>, first: Seq<Style>, second: Seq<Style>)
    ensures
        stack_after_all(stack, first + second) == stack_after_all(
            stack_after_all(stack, first),
            second,
        ),
    decreases second.len(),
{
    if second.len() == 0 {
        assert(first + second =~= first);
    } else {
        lemma_stack_after_all_concat(stack, first, second.drop_last());
        assert((first + second).drop_last() =~= first + second.drop_last());
    }
}

/// The stack at a position is what the styles fired before it make of the
/// empty stack.
pub proof fn lemma_stack_at_is_fired(index: Seq<Seq<Style>>, count: nat)
    ensures
        stack_at(index, count) == stack_after_all(Seq::<Color>::empty(), fired(index, count)),
    decreases count,
{
    if count > 0 {
        lemma_stack_at_is_fired(index, (count - 1) as nat);
        lemma_stack_after_all_concat(
            Seq::<Color>::empty(),
            fired(index, (count - 1) as nat),
            styles_of(index, count - 1),
        );
    }
}

/// Where every end closes an open span, each color stands on the stack as
/// often as it has spans open: the stack holds the colors whose start has
/// been applied and whose end has not.
pub proof fn lemma_stack_counts_open_spans(styles: Seq<Style>, color: Color)
    requires
        well_nested(styles),
    ensures
        occurrences(stack_after_all(Seq::<Color>::empty(), styles), color) == open_spans(
            styles,
            color,
        ),
    decreases styles.len(),
{
    if styles.len() > 0 {
        let before = styles.drop_last();
        let last = styles.last();
        assert forall|count: int, other: Color|
            0 <= count <= before.len() implies #[trigger] open_spans(
            before.take(count),
            other,
        ) >= 0 by {
            assert(before.take(count) =~= styles.take(count));
            assert(open_spans(styles.take(count), other) >= 0);
        }
        lemma_stack_counts_open_spans(before, color);
        let stack = stack_after_all(Seq::<Color>::empty(), before);
        assert(styles.take(styles.len() as int) =~= styles);
        assert(open_spans(styles.take(styles.len() as int), last.color) >= 0);
        match last.operation {
            Operation::Start => {
                assert(stack.push(last.color).drop_last() =~= stack);
            },
            Operation::End => {
                lemma_stack_counts_open_spans(before, last.color);
                lemma_occurrences_remove_last(stack, last.color, color);
            },
        }
    }
}

/// After balanced starts and ends the stack is empty.
pub proof fn lemma_balanced_ends_empty(styles: Seq<Style>)
    requires
        balanced(styles),
    ensures
        stack_after_all(Seq::<Color>::empty(), styles) == Seq::<Color>::empty(),
{
    let stack = stack_after_all(Seq::<Color>::empty(), styles);
    assert forall|color: Color| occurrences(stack, color) == 0 by {
        lemma_stack_counts_open_spans(styles, color);
    }
    lemma_no_occurrence_is_empty(stack);
}

/// Full reset: where the starts and ends that are applied in a line are
/// balanced, the color stack is empty at the end of the line, so that no
/// color is carried into the next one.
pub proof fn lemma_balanced_line_ends_empty(index: Seq<Seq<Style>>, line: Seq<char>)
    requires
        balanced(fired(index, line.len())),
    ensures
        stack_at(index, line.len()) == Seq::<Color>::empty(),
{
    lemma_stack_at_is_fired(index, line.len());
    lemma_balanced_ends_empty(fired(index, line.len()));
}

/// Whether a match `[span.0, span.1)` in a line of `len` characters has its
/// start not behind its end, and its end before the end of the line unless
/// it starts there.
pub open spec fn closes_in_line(span: (usize, usize), len: nat) -> bool {
    &&& span.0 <= span.1
    &&& span.0 < len ==> span.1 < len
}

/// Whether `events` lists matches: two events each, the start of a match and
/// then its end, of one color and priority, the match being one that
/// `closes_in_line`.
pub open spec fn paired(events: Seq<Event>, len: nat) -> bool
    decreases events.len(),
{
    if events.len() == 0 {
        true
    } else if events.len() < 2 {
        false
    } else {
        let start = events[events.len() - 2];
        let end = events[events.len() - 1];
        &&& start.style == start_of(end.style.color, end.style.order)
        &&& end.style == end_of(end.style.color, end.style.order)
        &&& closes_in_line((start.position, end.position), len)
        &&& paired(events.take(events.len() - 2), len)
    }
}

/// The spans of `color` that the events before `position` leave open.
pub open spec fn opened(events: Seq<Event>, position: int, color: Color) -> int
    decreases events.len(),
{
    if events.len() == 0 {
        0
    } else if events.last().position < position {
        opened(events.drop_last(), position, color) + weight(events.last().style, color)
    } else {
        opened(events.drop_last(), position, color)
    }
}

/// The number of matches of `color` in `events` that start before `position`
/// and end at it.
pub open spec fn closing(events: Seq<Event>, position: int, color: Color) -> int
    decreases events.len(),
{
    if events.len() < 2 {
        0
    } else {
        let start = events[events.len() - 2];
        let end = events[events.len() - 1];
        closing(events.take(events.len() - 2), position, color) + if end.style.color == color
            && start.position < position && end.position == position {
            1int
        } else {
            0int
        }
    }
}

/// The open spans of two lists in a row add up.
pub proof fn lemma_open_spans_concat(first: Seq<Style>, second: Seq<Style>, color: Color)
    ensures
        open_spans(first + second, color) == open_spans(first, color) + open_spans(second, color),
    decreases second.len(),
{
    if second.len() == 0 {
        assert(first + second =~= first);
    } else {
        lemma_open_spans_concat(first, second.drop_last(), color);
        assert((first + second).drop_last() =~= first + second.drop_last());
    }
}

/// One position further, the open spans are those from before and those
/// that the events of the position open or close.
proof fn lemma_opened_step(events: Seq<Event>, position: int, color: Color)
    ensures
        opened(events, position + 1, color) == opened(events, position, color) + open_spans(
            styles_at(events, position),
            color,
        ),
    decreases events.len(),
{
    if events.len() > 0 {
        lemma_opened_step(events.drop_last(), position, color);
        if events.last().position == position {
            let styles = styles_at(events.drop_last(), position);
            assert(styles.push(events.last().style).drop_last() =~= styles);
        }
    }
}

/// Of listed matches, at least as many are open before a position as end
/// at it.
proof fn lemma_opened_covers_closing(events: Seq<Event>, len: nat, position: int, color: Color)
    requires
        paired(events, len),
    ensures
        opened(events, position, color) >= closing(events, position, color) >= 0,
    decreases events.len(),
{
    if events.len() >= 2 {
        let rest = events.take(events.len() - 2);
        lemma_opened_covers_closing(rest, len, position, color);
        reveal_with_fuel(opened, 2);
        assert(events.drop_last().drop_last() =~= rest);
        assert(events.drop_last().last() == events[events.len() - 2]);
    }
}

/// Listed matches leave no span open at the end of the line.
proof fn lemma_opened_at_end(events: Seq<Event>, len: nat, color: Color)
    requires
        paired(events, len),
    ensures
        opened(events, len as int, color) == 0,
    decreases events.len(),
{
    if events.len() >= 2 {
        let rest = events.take(events.len() - 2);
        lemma_opened_at_end(rest, len, color);
        reveal_with_fuel(opened, 2);
        assert(events.drop_last().drop_last() =~= rest);
        assert(events.drop_last().last() == events[events.len() - 2]);
    }
}

/// Two lists of matches in a row list matches.
proof fn lemma_paired_concat(first: Seq<Event>, second: Seq<Event>, len: nat)
    requires
        paired(first, len),
        paired(second, len),
    ensures
        paired(first + second, len),
    decreases second.len(),
{
    if second.len() == 0 {
        assert(first + second =~= first);
    } else {
        let both = first + second;
        lemma_paired_concat(first, second.take(second.len() - 2), len);
        assert(both.take(both.len() - 2) =~= first + second.take(second.len() - 2));
    }
}

/// The events of the matches of one pattern list matches.
proof fn lemma_pattern_events_paired(
    color: Color,
    order: usize,
    spans: Seq<(usize, usize)>,
    len: nat,
)
    requires
        forall|k: int| 0 <= k < spans.len() ==> closes_in_line(#[trigger] spans[k], len),
    ensures
        paired(pattern_events(color, order, spans), len),
    decreases spans.len(),
{
    if spans.len() > 0 {
        lemma_pattern_events_paired(color, order, spans.drop_last(), len);
        let two = match_events(color, order, spans.last());
        assert(closes_in_line(spans[spans.len() - 1], len));
        assert(paired(two, len)) by {
            assert(two.take(0) =~= Seq::<Event>::empty());
            assert(paired(two.take(0), len));
        }
        lemma_paired_concat(pattern_events(color, order, spans.drop_last()), two, len);
    }
}

/// The events of a line list matches, where every match of every pattern
/// has its start not behind its end, and its end before the end of the line
/// unless it starts there.
pub proof fn lemma_line_events_paired(opts: Seq<Opt>, line: Seq<char>)
    requires
        forall|i: int, k: int|
            0 <= i < opts.len() && 0 <= k < line_spans(opts[i].regex, line).len()
                ==> closes_in_line(#[trigger] line_spans(opts[i].regex, line)[k], line.len()),
    ensures
        paired(line_events(opts, line), line.len()),
    decreases opts.len(),
{
    if opts.len() > 0 {
        lemma_line_events_paired(opts.drop_last(), line);
        let opt = opts.last();
        assert(opt == opts[opts.len() - 1]);
        lemma_pattern_events_paired(
            opt.color,
            opt.index,
            line_spans(opt.regex, line),
            line.len(),
        );
        lemma_paired_concat(
            line_events(opts.drop_last(), line),
            pattern_events(opt.color, opt.index, line_spans(opt.regex, line)),
            line.len(),
        );
    }
}

/// The open spans of a single style are its weight.
proof fn lemma_open_spans_one(style: Style, color: Color)
    ensures
        open_spans(seq![style], color) == weight(style, color),
{
    reveal_with_fuel(open_spans, 2);
    assert(seq![style].drop_last() =~= Seq::<Style>::empty());
}

/// The open spans of the first `count` entries once a style is put in at
/// `at`: as before where the style is not among them, and with its weight
/// where it is.
proof fn lemma_open_spans_insert(
    styles: Seq<Style>,
    at: int,
    style: Style,
    count: int,
    color: Color,
)
    requires
        0 <= at <= styles.len(),
        0 <= count <= styles.len() + 1,
    ensures
        open_spans(styles.insert(at, style).take(count), color) == if count <= at {
            open_spans(styles.take(count), color)
        } else {
            open_spans(styles.take(count - 1), color) + weight(style, color)
        },
{
    let inserted = styles.insert(at, style);
    if count <= at {
        assert(inserted.take(count) =~= styles.take(count));
    } else {
        let head = styles.take(at);
        let tail = styles.subrange(at, count - 1);
        assert(inserted.take(count) =~= head + seq![style] + tail);
        assert(styles.take(count - 1) =~= head + tail);
        lemma_open_spans_concat(head + seq![style], tail, color);
        lemma_open_spans_concat(head, seq![style], color);
        lemma_open_spans_concat(head, tail, color);
        lemma_open_spans_one(style, color);
    }
}

/// Putting styles in the order of their priorities changes nothing about
/// the spans that they leave open.
proof fn lemma_by_priority_open_spans(styles: Seq<Style>, color: Color)
    ensures
        open_spans(by_priority(styles), color) == open_spans(styles, color),
    decreases styles.len(),
{
    if styles.len() > 0 {
        lemma_by_priority_open_spans(styles.drop_last(), color);
        let sorted = by_priority(styles.drop_last());
        lemma_insert_at_point(sorted, styles.last());
        let at = insertion_point(sorted, styles.last().order);
        let full: int = sorted.len() as int + 1;
        lemma_open_spans_insert(sorted, at, styles.last(), full, color);
        assert(sorted.insert(at, styles.last()).take(full) =~= sorted.insert(
            at,
            styles.last(),
        ));
        assert(sorted.take(sorted.len() as int) =~= sorted);
    }
}

/// Whether no beginning of `styles` closes more than `floor` spans of
/// `color` beyond those that it opens.
pub open spec fn floored(styles: Seq<Style>, color: Color, floor: int) -> bool {
    forall|count: int|
        0 <= count <= styles.len() ==> #[trigger] open_spans(styles.take(count), color) >= -floor
}

/// Among the events of one position, in the order in which they are
/// applied, an end never comes before the start of its own match: no
/// beginning of them closes more spans than there are matches that start
/// before the position and end at it.
proof fn lemma_group_floor(events: Seq<Event>, len: nat, position: int, color: Color)
    requires
        paired(events, len),
    ensures
        floored(
            by_priority(styles_at(events, position)),
            color,
            closing(events, position, color),
        ),
    decreases events.len(),
{
    let group = by_priority(styles_at(events, position));
    if events.len() == 0 {
        assert forall|count: int| 0 <= count <= group.len() implies #[trigger] open_spans(
            group.take(count),
            color,
        ) >= 0 by {
            assert(group.take(count) =~= Seq::<Style>::empty());
        }
    } else {
        let rest = events.take(events.len() - 2);
        let start = events[events.len() - 2];
        let end = events[events.len() - 1];
        lemma_group_floor(rest, len, position, color);
        let given = styles_at(rest, position);
        let before = by_priority(given);
        let floor = closing(rest, position, color);
        assert(events.drop_last().drop_last() =~= rest);
        assert(events.drop_last().last() == start);
        reveal_with_fuel(styles_at, 2);
        if start.position == position && end.position == position {
            let one = given.push(start.style);
            assert(styles_at(events, position) == one.push(end.style));
            assert(one.push(end.style).drop_last() =~= one);
            assert(one.drop_last() =~= given);
            let middle = insert_by_order(before, start.style);
            assert(by_priority(one) == middle);
            assert(group == insert_by_order(middle, end.style));
            lemma_insert_at_point(before, start.style);
            lemma_insert_at_point(middle, end.style);
            lemma_point_behind_inserted(before, start.style);
            let at = insertion_point(before, start.style.order);
            assert(group == middle.insert(at + 1, end.style));
            assert forall|count: int| 0 <= count <= group.len() implies #[trigger] open_spans(
                group.take(count),
                color,
            ) >= -floor by {
                lemma_open_spans_insert(middle, at + 1, end.style, count, color);
                if count <= at + 1 {
                    lemma_open_spans_insert(before, at, start.style, count, color);
                    if count <= at {
                        assert(open_spans(before.take(count), color) >= -floor);
                    } else {
                        assert(open_spans(before.take(count - 1), color) >= -floor);
                    }
                } else {
                    lemma_open_spans_insert(before, at, start.style, count - 1, color);
                    assert(open_spans(before.take(count - 2), color) >= -floor);
                }
            }
        } else if start.position == position {
            assert(styles_at(events, position) == given.push(start.style));
            assert(given.push(start.style).drop_last() =~= given);
            lemma_insert_at_point(before, start.style);
            let at = insertion_point(before, start.style.order);
            assert forall|count: int| 0 <= count <= group.len() implies #[trigger] open_spans(
                group.take(count),
                color,
            ) >= -floor by {
                lemma_open_spans_insert(before, at, start.style, count, color);
                if count <= at {
                    assert(open_spans(before.take(count), color) >= -floor);
                } else {
                    assert(open_spans(before.take(count - 1), color) >= -floor);
                }
            }
        } else if end.position == position {
            assert(styles_at(events, position) == given.push(end.style));
            assert(given.push(end.style).drop_last() =~= given);
            lemma_insert_at_point(before, end.style);
            let at = insertion_point(before, end.style.order);
            assert forall|count: int| 0 <= count <= group.len() implies #[trigger] open_spans(
                group.take(count),
                color,
            ) >= -closing(events, position, color) by {
                lemma_open_spans_insert(before, at, end.style, count, color);
                if count <= at {
                    assert(open_spans(before.take(count), color) >= -floor);
                } else {
                    assert(open_spans(before.take(count - 1), color) >= -floor);
                }
            }
        } else {
            assert(styles_at(events, position) == given);
        }
    }
}

/// No event lies before the first position.
proof fn lemma_opened_at_start(events: Seq<Event>, color: Color)
    ensures
        opened(events, 0, color) == 0,
    decreases events.len(),
{
    if events.len() > 0 {
        lemma_opened_at_start(events.drop_last(), color);
    }
}

/// Of the styles that are applied for the first `count` characters of a
/// line whose events list matches, no beginning closes a span of `color`
/// that is not open, and together they leave open the matches that start
/// before `count` and do not end before it.
proof fn lemma_fired_counts(events: Seq<Event>, len: nat, count: nat, color: Color)
    requires
        paired(events, len),
        count <= len,
    ensures
        floored(fired(resolved(events, len), count), color, 0),
        open_spans(fired(resolved(events, len), count), color) == opened(
            events,
            count as int,
            color,
        ),
    decreases count,
{
    let index = resolved(events, len);
    let all = fired(index, count);
    if count == 0 {
        lemma_opened_at_start(events, color);
        assert forall|k: int| 0 <= k <= all.len() implies #[trigger] open_spans(
            all.take(k),
            color,
        ) >= 0 by {
            assert(all.take(k) =~= Seq::<Style>::empty());
        }
    } else {
        let before = (count - 1) as nat;
        lemma_fired_counts(events, len, before, color);
        let done = fired(index, before);
        let group = styles_of(index, before as int);
        assert(group == by_priority(styles_at(events, before as int)));
        lemma_group_floor(events, len, before as int, color);
        lemma_by_priority_open_spans(styles_at(events, before as int), color);
        lemma_opened_step(events, before as int, color);
        lemma_opened_covers_closing(events, len, before as int, color);
        lemma_open_spans_concat(done, group, color);
        assert forall|k: int| 0 <= k <= all.len() implies #[trigger] open_spans(
            all.take(k),
            color,
        ) >= 0 by {
            if k <= done.len() {
                assert(all.take(k) =~= done.take(k));
            } else {
                let part = group.take(k - done.len());
                assert(all.take(k) =~= done + part);
                lemma_open_spans_concat(done, part, color);
                assert(open_spans(part, color) >= -closing(events, before as int, color));
            }
        }
    }
}

/// The starts and ends that are applied in a line are balanced where every
/// match has its start not behind its end, and its end before the end of
/// the line unless it starts there.
pub proof fn lemma_line_balanced(opts: Seq<Opt>, line: Seq<char>)
    requires
        forall|i: int, k: int|
            0 <= i < opts.len() && 0 <= k < line_spans(opts[i].regex, line).len()
                ==> closes_in_line(#[trigger] line_spans(opts[i].regex, line)[k], line.len()),
    ensures
        balanced(fired(resolved(line_events(opts, line), line.len()), line.len())),
{
    let events = line_events(opts, line);
    let all = fired(resolved(events, line.len()), line.len());
    lemma_line_events_paired(opts, line);
    assert forall|count: int, color: Color| 0 <= count <= all.len() implies #[trigger] open_spans(
        all.take(count),
        color,
    ) >= 0 by {
        lemma_fired_counts(events, line.len(), line.len(), color);
    }
    assert forall|color: Color| open_spans(all, color) == 0 by {
        lemma_fired_counts(events, line.len(), line.len(), color);
        lemma_opened_at_end(events, line.len(), color);
    }
}

/// Full reset of a line: where every match that starts in the line ends
/// before the end of the line, the color stack is empty once the line is
/// written, so that no color is carried into the next line.
pub proof fn lemma_line_ends_empty(opts: Seq<Opt>, line: Seq<char>)
    requires
        forall|i: int, k: int|
            0 <= i < opts.len() && 0 <= k < line_spans(opts[i].regex, line).len()
                ==> closes_in_line(#[trigger] line_spans(opts[i].regex, line)[k], line.len()),
    ensures
        stack_at(resolved(line_events(opts, line), line.len()), line.len()) == Seq::<
            Color,
        >::empty(),
{
    lemma_line_balanced(opts, line);
    lemma_balanced_line_ends_empty(resolved(line_events(opts, line), line.len()), line);
}

} // verus!
