//! What holds of the order in which the events of one position are applied.

use crate::builder::line_events;
use crate::highlight::{highlighted_line, line_pieces};
use crate::pattern::{line_spans, Opt};
use crate::resolver::{by_priority, insert_by_order, resolved, styles_at};
use crate::style::{pattern_events, Event, Style};
use vstd::prelude::*;

verus! {

/// Whether the priority numbers of `styles` never go down.
pub open spec fn ascending(styles: Seq<Style>) -> bool {
    forall|i: int, j: int| 0 <= i <= j < styles.len() ==> styles[i].order <= styles[j].order
}

/// The styles of `styles` that have the priority `order`, in the order in
/// which `styles` lists them.
pub open spec fn of_priority(styles: Seq<Style>, order: usize) -> Seq<Style>
    decreases styles.len(),
{
    if styles.len() == 0 {
        Seq::empty()
    } else if styles.last().order == order {
        of_priority(styles.drop_last(), order).push(styles.last())
    } else {
        of_priority(styles.drop_last(), order)
    }
}

/// Putting a style into an ascending list leaves it ascending.
pub proof fn lemma_insert_ascending(styles: Seq<Style>, style: Style)
    requires
        ascending(styles),
    ensures
        ascending(insert_by_order(styles, style)),
        insert_by_order(styles, style).len() == styles.len() + 1,
    decreases styles.len(),
{
    if styles.len() == 0 || styles.last().order <= style.order {
    } else {
        let rest = styles.drop_last();
        lemma_insert_ascending(rest, style);
        lemma_insert_bound(rest, style, styles.last().order);
    }
}

/// Where neither the entries of `styles` nor `style` have a priority number
/// above `bound`, no entry has it once `style` is put in.
proof fn lemma_insert_bound(styles: Seq<Style>, style: Style, bound: usize)
    requires
        style.order <= bound,
        forall|i: int| 0 <= i < styles.len() ==> styles[i].order <= bound,
    ensures
        forall|i: int|
            0 <= i < insert_by_order(styles, style).len() ==> insert_by_order(
                styles,
                style,
            )[i].order <= bound,
    decreases styles.len(),
{
    if styles.len() == 0 || styles.last().order <= style.order {
    } else {
        lemma_insert_bound(styles.drop_last(), style, bound);
    }
}

/// A style that is put in comes last among the styles of its priority, and
/// the styles of the other priorities stay as they are.
pub proof fn lemma_insert_of_priority(styles: Seq<Style>, style: Style, order: usize)
    ensures
        of_priority(insert_by_order(styles, style), order) == if style.order == order {
            of_priority(styles, order).push(style)
        } else {
            of_priority(styles, order)
        },
    decreases styles.len(),
{
    if styles.len() == 0 || styles.last().order <= style.order {
        assert(styles.push(style).drop_last() =~= styles);
    } else {
        let rest = styles.drop_last();
        lemma_insert_of_priority(rest, style, order);
        assert(insert_by_order(rest, style).push(styles.last()).drop_last() =~= insert_by_order(
            rest,
            style,
        ));
    }
}

/// The resolved order is ascending in the priority numbers, and holds as many
/// styles as were given.
pub proof fn lemma_by_priority_ascending(styles: Seq<Style>)
    ensures
        ascending(by_priority(styles)),
        by_priority(styles).len() == styles.len(),
    decreases styles.len(),
{
    if styles.len() > 0 {
        lemma_by_priority_ascending(styles.drop_last());
        lemma_insert_ascending(by_priority(styles.drop_last()), styles.last());
    }
}

/// The resolved order is stable: the styles of one priority stand in it in
/// the order in which they were given.
pub proof fn lemma_by_priority_stable(styles: Seq<Style>, order: usize)
    ensures
        of_priority(by_priority(styles), order) == of_priority(styles, order),
    decreases styles.len(),
{
    if styles.len() > 0 {
        lemma_by_priority_stable(styles.drop_last(), order);
        lemma_insert_of_priority(by_priority(styles.drop_last()), styles.last(), order);
    }
}

/// A priority of which `styles` has a style is the priority of one of its
/// entries.
proof fn lemma_of_priority_member(styles: Seq<Style>, order: usize)
    requires
        of_priority(styles, order).len() > 0,
    ensures
        exists|i: int| 0 <= i < styles.len() && styles[i].order == order,
    decreases styles.len(),
{
    if styles.last().order == order {
        assert(styles[styles.len() - 1].order == order);
    } else {
        lemma_of_priority_member(styles.drop_last(), order);
        let i = choose|i: int| 0 <= i < styles.drop_last().len() && styles.drop_last()[i].order
            == order;
        assert(styles[i].order == order);
    }
}

/// Two ascending lists that hold the same styles of each priority in the
/// same order are the same list.
pub proof fn lemma_ascending_unique(first: Seq<Style>, second: Seq<Style>)
    requires
        ascending(first),
        ascending(second),
        forall|order: usize| of_priority(first, order) == of_priority(second, order),
    ensures
        first == second,
    decreases first.len(),
{
    if first.len() == 0 {
        if second.len() > 0 {
            assert(of_priority(second, second.last().order).len() > 0);
            assert(of_priority(first, second.last().order).len() == 0);
        }
        assert(first =~= second);
    } else {
        let x = first.last();
        assert(of_priority(first, x.order).last() == x);
        assert(of_priority(second, x.order).len() > 0);
        lemma_of_priority_member(second, x.order);
        let y = second.last();
        assert(of_priority(second, y.order).last() == y);
        assert(of_priority(first, y.order).len() > 0);
        lemma_of_priority_member(first, y.order);
        assert(x.order == y.order);
        assert(x == y);
        let a = first.drop_last();
        let b = second.drop_last();
        assert forall|order: usize| of_priority(a, order) == of_priority(b, order) by {
            assert(of_priority(first, order) == of_priority(second, order));
            if order == x.order {
                assert(of_priority(a, order) =~= of_priority(first, order).drop_last());
                assert(of_priority(b, order) =~= of_priority(second, order).drop_last());
            }
        }
        lemma_ascending_unique(a, b);
        assert(first =~= a.push(x));
        assert(second =~= b.push(y));
    }
}

/// The order in which the events of one position are applied depends on
/// nothing but the priorities: two lists that hold the same styles of each
/// priority in the same order resolve to the same order, however the styles
/// of different priorities are interleaved in them.
pub proof fn lemma_by_priority_alone(first: Seq<Style>, second: Seq<Style>)
    requires
        forall|order: usize| of_priority(first, order) == of_priority(second, order),
    ensures
        by_priority(first) == by_priority(second),
{
    lemma_by_priority_ascending(first);
    lemma_by_priority_ascending(second);
    assert forall|order: usize|
        of_priority(by_priority(first), order) == of_priority(by_priority(second), order) by {
        lemma_by_priority_stable(first, order);
        lemma_by_priority_stable(second, order);
        assert(of_priority(first, order) == of_priority(second, order));
    }
    lemma_ascending_unique(by_priority(first), by_priority(second));
}

/// Tie-break determinism: the event index of a line is fixed by the events
/// of each priority at each position in their order. The order in which
/// patterns of different priorities were scanned has no part in it.
pub proof fn lemma_resolved_by_priority_alone(first: Seq<Event>, second: Seq<Event>, len: nat)
    requires
        forall|position: int, order: usize|
            0 <= position < len ==> #[trigger] of_priority(styles_at(first, position), order)
                == of_priority(styles_at(second, position), order),
    ensures
        resolved(first, len) == resolved(second, len),
{
    assert forall|position: int| 0 <= position < len implies by_priority(
        styles_at(first, position),
    ) == by_priority(styles_at(second, position)) by {
        assert forall|order: usize|
            of_priority(styles_at(first, position), order) == of_priority(
                styles_at(second, position),
                order,
            ) by {
            assert(of_priority(styles_at(first, position), order) == of_priority(
                styles_at(second, position),
                order,
            ));
        }
        lemma_by_priority_alone(styles_at(first, position), styles_at(second, position));
    }
    assert(resolved(first, len) =~= resolved(second, len));
}

/// Where `insert_by_order` puts a style of the priority `order` into
/// `styles`: behind the last entry whose priority number is not greater.
pub open spec fn insertion_point(styles: Seq<Style>, order: usize) -> int
    decreases styles.len(),
{
    if styles.len() == 0 || styles.last().order <= order {
        styles.len() as int
    } else {
        insertion_point(styles.drop_last(), order)
    }
}

/// `insert_by_order` puts the style in at the insertion point.
pub proof fn lemma_insert_at_point(styles: Seq<Style>, style: Style)
    ensures
        0 <= insertion_point(styles, style.order) <= styles.len(),
        insert_by_order(styles, style) == styles.insert(
            insertion_point(styles, style.order),
            style,
        ),
        forall|j: int|
            insertion_point(styles, style.order) <= j < styles.len() ==> styles[j].order
                > style.order,
        insertion_point(styles, style.order) > 0 ==> styles[insertion_point(
            styles,
            style.order,
        ) - 1].order <= style.order,
    decreases styles.len(),
{
    if styles.len() == 0 || styles.last().order <= style.order {
        assert(styles.insert(styles.len() as int, style) =~= styles.push(style));
    } else {
        lemma_insert_at_point(styles.drop_last(), style);
        let at = insertion_point(styles.drop_last(), style.order);
        assert(styles.insert(at, style) =~= styles.drop_last().insert(at, style).push(
            styles.last(),
        ));
        assert forall|j: int| at <= j < styles.len() implies styles[j].order > style.order by {
            if j < styles.len() - 1 {
                assert(styles.drop_last()[j] == styles[j]);
            }
        }
        if at > 0 {
            assert(styles.drop_last()[at - 1] == styles[at - 1]);
        }
    }
}

/// A second style of the same priority is put in directly behind the first.
pub proof fn lemma_point_behind_inserted(styles: Seq<Style>, style: Style)
    ensures
        insertion_point(insert_by_order(styles, style), style.order) == insertion_point(
            styles,
            style.order,
        ) + 1,
    decreases styles.len(),
{
    if styles.len() == 0 || styles.last().order <= style.order {
    } else {
        lemma_point_behind_inserted(styles.drop_last(), style);
        let inner = insert_by_order(styles.drop_last(), style);
        assert(inner.push(styles.last()).drop_last() =~= inner);
    }
}

/// Two neighbors of one priority are still neighbors once a style is put
/// in.
proof fn lemma_insert_keeps_neighbors(styles: Seq<Style>, at: int, style: Style)
    requires
        0 <= at,
        at + 1 < styles.len(),
        styles[at].order == styles[at + 1].order,
    ensures
        exists|k: int|
            0 <= k && k + 1 < insert_by_order(styles, style).len() && insert_by_order(
                styles,
                style,
            )[k] == styles[at] && #[trigger] insert_by_order(styles, style)[k + 1] == styles[at
                + 1],
{
    lemma_insert_at_point(styles, style);
    let point = insertion_point(styles, style.order);
    let inserted = styles.insert(point, style);
    if point <= at {
        assert(inserted[at + 1] == styles[at] && inserted[at + 1 + 1] == styles[at + 1]);
    } else {
        assert(point != at + 1);
        assert(inserted[at] == styles[at] && inserted[at + 1] == styles[at + 1]);
    }
}

/// Two styles of one priority that are given one directly behind the other
/// are applied one directly behind the other.
pub proof fn lemma_by_priority_keeps_neighbors(styles: Seq<Style>, at: int)
    requires
        0 <= at,
        at + 1 < styles.len(),
        styles[at].order == styles[at + 1].order,
    ensures
        exists|k: int|
            0 <= k && k + 1 < by_priority(styles).len() && by_priority(styles)[k] == styles[at]
                && #[trigger] by_priority(styles)[k + 1] == styles[at + 1],
    decreases styles.len(),
{
    let rest = styles.drop_last();
    if at + 2 == styles.len() {
        let base = by_priority(rest.drop_last());
        assert(rest.last() == styles[at]);
        assert(by_priority(rest) == insert_by_order(base, styles[at]));
        lemma_insert_at_point(base, styles[at]);
        lemma_point_behind_inserted(base, styles[at]);
        lemma_insert_at_point(by_priority(rest), styles[at + 1]);
        let point = insertion_point(base, styles[at].order);
        let sorted = by_priority(styles);
        assert(styles.last() == styles[at + 1]);
        assert(sorted == insert_by_order(by_priority(rest), styles[at + 1]));
        assert(sorted == base.insert(point, styles[at]).insert(point + 1, styles[at + 1]));
        assert(0 <= point && point + 1 < sorted.len() && sorted[point] == styles[at] && sorted[point
            + 1] == styles[at + 1]);
    } else {
        lemma_by_priority_keeps_neighbors(rest, at);
        let sorted = by_priority(rest);
        assert(rest[at] == styles[at] && rest[at + 1] == styles[at + 1]);
        let k = choose|k: int|
            0 <= k && k + 1 < sorted.len() && sorted[k] == rest[at] && #[trigger] sorted[k + 1]
                == rest[at + 1];
        lemma_insert_keeps_neighbors(sorted, k, styles.last());
        let all = by_priority(styles);
        assert(all == insert_by_order(sorted, styles.last()));
        let m = choose|m: int|
            0 <= m && m + 1 < all.len() && all[m] == sorted[k] && #[trigger] all[m + 1] == sorted[k
                + 1];
        assert(all[m] == styles[at] && all[m + 1] == styles[at + 1]);
    }
}

/// Two events at one position that are listed one directly behind the other
/// have their styles one directly behind the other among the styles of that
/// position.
proof fn lemma_styles_at_keeps_neighbors(events: Seq<Event>, at: int)
    requires
        0 <= at,
        at + 1 < events.len(),
        events[at].position == events[at + 1].position,
    ensures
        exists|k: int|
            0 <= k && k + 1 < styles_at(events, events[at].position as int).len() && styles_at(
                events,
                events[at].position as int,
            )[k] == events[at].style && #[trigger] styles_at(
                events,
                events[at].position as int,
            )[k + 1] == events[at + 1].style,
    decreases events.len(),
{
    let position = events[at].position as int;
    let styles = styles_at(events, position);
    if at + 2 == events.len() {
        reveal_with_fuel(styles_at, 2);
        let base = styles_at(events.drop_last().drop_last(), position);
        assert(events.drop_last().last() == events[at]);
        assert(styles == base.push(events[at].style).push(events[at + 1].style));
        let k = base.len() as int;
        assert(styles[k] == events[at].style && styles[k + 1] == events[at + 1].style);
    } else {
        lemma_styles_at_keeps_neighbors(events.drop_last(), at);
        let rest = styles_at(events.drop_last(), position);
        let k = choose|k: int|
            0 <= k && k + 1 < rest.len() && rest[k] == events.drop_last()[at].style
                && #[trigger] rest[k + 1] == events.drop_last()[at + 1].style;
        assert(styles[k] == events[at].style && styles[k + 1] == events[at + 1].style);
    }
}

/// The two events of a match of length zero stay together: where a start
/// and an end of one priority are listed one directly behind the other at
/// one position of the line, the end is applied directly behind the start,
/// whatever else happens at that position.
pub proof fn lemma_zero_length_stays_together(events: Seq<Event>, at: int, len: nat)
    requires
        0 <= at,
        at + 1 < events.len(),
        events[at].position == events[at + 1].position,
        events[at].position < len,
        events[at].style.order == events[at + 1].style.order,
    ensures
        exists|k: int|
            0 <= k && k + 1 < resolved(events, len)[events[at].position as int].len()
                && resolved(events, len)[events[at].position as int][k] == events[at].style
                && #[trigger] resolved(events, len)[events[at].position as int][k + 1]
                == events[at + 1].style,
{
    let position = events[at].position as int;
    let styles = styles_at(events, position);
    lemma_styles_at_keeps_neighbors(events, at);
    let j = choose|j: int|
        0 <= j && j + 1 < styles.len() && styles[j] == events[at].style && #[trigger] styles[j
            + 1] == events[at + 1].style;
    lemma_by_priority_keeps_neighbors(styles, j);
    let sorted = by_priority(styles);
    let k = choose|k: int|
        0 <= k && k + 1 < sorted.len() && sorted[k] == styles[j] && #[trigger] sorted[k + 1]
            == styles[j + 1];
    assert(resolved(events, len)[position] == sorted);
    assert(resolved(events, len)[position][k + 1] == events[at + 1].style);
}

/// Whether no two patterns of `opts` have the same priority.
pub open spec fn distinct_priorities(opts: Seq<Opt>) -> bool {
    forall|i: int, j: int| 0 <= i < j < opts.len() ==> opts[i].index != opts[j].index
}

/// Whether every pattern of `first` is one of `second`, and every pattern of
/// `second` one of `first`.
pub open spec fn same_patterns(first: Seq<Opt>, second: Seq<Opt>) -> bool {
    &&& forall|i: int| 0 <= i < first.len() ==> second.contains(#[trigger] first[i])
    &&& forall|j: int| 0 <= j < second.len() ==> first.contains(#[trigger] second[j])
}

/// The styles that the matches of the pattern `opt` give at `position` of
/// the line `text`.
pub open spec fn styles_of_pattern(opt: Opt, text: Seq<char>, position: int) -> Seq<Style> {
    styles_at(pattern_events(opt.color, opt.index, line_spans(opt.regex, text)), position)
}

/// The styles of one priority in two lists in a row are those of the one
/// and then those of the other.
proof fn lemma_of_priority_concat(first: Seq<Style>, second: Seq<Style>, order: usize)
    ensures
        of_priority(first + second, order) == of_priority(first, order) + of_priority(
            second,
            order,
        ),
    decreases second.len(),
{
    if second.len() == 0 {
        assert(first + second =~= first);
        assert(of_priority(first, order) + of_priority(second, order) =~= of_priority(
            first,
            order,
        ));
    } else {
        lemma_of_priority_concat(first, second.drop_last(), order);
        assert((first + second).drop_last() =~= first + second.drop_last());
        assert(of_priority(first + second, order) =~= of_priority(first, order) + of_priority(
            second,
            order,
        ));
    }
}

/// The styles at a position of two event lists in a row are those of the
/// one and then those of the other.
pub proof fn lemma_styles_at_concat(first: Seq<Event>, second: Seq<Event>, position: int)
    ensures
        styles_at(first + second, position) == styles_at(first, position) + styles_at(
            second,
            position,
        ),
    decreases second.len(),
{
    if second.len() == 0 {
        assert(first + second =~= first);
        assert(styles_at(first, position) + styles_at(second, position) =~= styles_at(
            first,
            position,
        ));
    } else {
        lemma_styles_at_concat(first, second.drop_last(), position);
        assert((first + second).drop_last() =~= first + second.drop_last());
        assert(styles_at(first + second, position) =~= styles_at(first, position) + styles_at(
            second,
            position,
        ));
    }
}

/// The styles of one pattern all have the priority of the pattern.
proof fn lemma_styles_of_pattern_priority(
    opt: Opt,
    spans: Seq<(usize, usize)>,
    position: int,
    order: usize,
)
    ensures
        of_priority(styles_at(pattern_events(opt.color, opt.index, spans), position), order)
            == if order == opt.index {
            styles_at(pattern_events(opt.color, opt.index, spans), position)
        } else {
            Seq::<Style>::empty()
        },
    decreases spans.len(),
{
    let events = pattern_events(opt.color, opt.index, spans);
    if spans.len() == 0 {
        assert(styles_at(events, position) =~= Seq::<Style>::empty());
    } else {
        let rest = pattern_events(opt.color, opt.index, spans.drop_last());
        lemma_styles_of_pattern_priority(opt, spans.drop_last(), position, order);
        reveal_with_fuel(styles_at, 2);
        reveal_with_fuel(of_priority, 2);
        assert(events.drop_last().drop_last() =~= rest);
        let before = styles_at(rest, position);
        let one = styles_at(events.drop_last(), position);
        let all = styles_at(events, position);
        assert(one == before || one.drop_last() =~= before);
        assert(all == one || all.drop_last() =~= one);
    }
}

/// Where no pattern has the priority `order`, no style of the line has it.
proof fn lemma_priority_absent(opts: Seq<Opt>, text: Seq<char>, position: int, order: usize)
    requires
        forall|i: int| 0 <= i < opts.len() ==> opts[i].index != order,
    ensures
        of_priority(styles_at(line_events(opts, text), position), order) == Seq::<Style>::empty(),
    decreases opts.len(),
{
    if opts.len() > 0 {
        let opt = opts.last();
        let rest = line_events(opts.drop_last(), text);
        let own = pattern_events(opt.color, opt.index, line_spans(opt.regex, text));
        lemma_priority_absent(opts.drop_last(), text, position, order);
        lemma_styles_at_concat(rest, own, position);
        lemma_of_priority_concat(styles_at(rest, position), styles_at(own, position), order);
        lemma_styles_of_pattern_priority(opt, line_spans(opt.regex, text), position, order);
        assert(opt.index != order);
        assert(of_priority(styles_at(line_events(opts, text), position), order) =~= Seq::<
            Style,
        >::empty());
    }
}

/// Where the priorities are distinct, the styles of a priority at a position
/// are those of the one pattern that has it.
proof fn lemma_priority_present(opts: Seq<Opt>, text: Seq<char>, position: int, which: int)
    requires
        distinct_priorities(opts),
        0 <= which < opts.len(),
    ensures
        of_priority(styles_at(line_events(opts, text), position), opts[which].index)
            == styles_of_pattern(opts[which], text, position),
    decreases opts.len(),
{
    let order = opts[which].index;
    let opt = opts.last();
    let rest = line_events(opts.drop_last(), text);
    let own = pattern_events(opt.color, opt.index, line_spans(opt.regex, text));
    lemma_styles_at_concat(rest, own, position);
    lemma_of_priority_concat(styles_at(rest, position), styles_at(own, position), order);
    lemma_styles_of_pattern_priority(opt, line_spans(opt.regex, text), position, order);
    if which == opts.len() - 1 {
        lemma_priority_absent(opts.drop_last(), text, position, order);
        assert(of_priority(styles_at(line_events(opts, text), position), order)
            =~= styles_of_pattern(opts[which], text, position));
    } else {
        lemma_priority_present(opts.drop_last(), text, position, which);
        assert(opt.index != order);
        assert(of_priority(styles_at(line_events(opts, text), position), order)
            =~= styles_of_pattern(opts[which], text, position));
    }
}

/// The order in which the patterns are given plays no part: two lists of the
/// same patterns, each pattern with a priority of its own, give the same
/// output for every line. Which of two events at one position comes first
/// is decided by the priorities alone.
pub proof fn lemma_pattern_order_is_irrelevant(
    first: Seq<Opt>,
    second: Seq<Opt>,
    line: Seq<char>,
)
    requires
        distinct_priorities(first),
        distinct_priorities(second),
        same_patterns(first, second),
    ensures
        resolved(line_events(first, line), line.len()) == resolved(
            line_events(second, line),
            line.len(),
        ),
        line_pieces(first, line) == line_pieces(second, line),
        highlighted_line(first, line) == highlighted_line(second, line),
{
    let one = line_events(first, line);
    let two = line_events(second, line);
    assert forall|position: int, order: usize| 0 <= position < line.len() implies #[trigger] of_priority(
        styles_at(one, position),
        order,
    ) == of_priority(styles_at(two, position), order) by {
        if exists|i: int| 0 <= i < first.len() && first[i].index == order {
            let i = choose|i: int| 0 <= i < first.len() && first[i].index == order;
            assert(second.contains(first[i]));
            let j = choose|j: int| 0 <= j < second.len() && second[j] == first[i];
            lemma_priority_present(first, line, position, i);
            lemma_priority_present(second, line, position, j);
        } else {
            assert forall|j: int| 0 <= j < second.len() implies second[j].index != order by {
                assert(first.contains(second[j]));
                let i = choose|i: int| 0 <= i < first.len() && first[i] == second[j];
                assert(first[i].index != order);
            }
            lemma_priority_absent(first, line, position, order);
            lemma_priority_absent(second, line, position, order);
        }
    }
    lemma_resolved_by_priority_alone(one, two, line.len());
}

} // verus!
