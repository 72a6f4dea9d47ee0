//! What holds of the highlighter for every line and every set of patterns.

use crate::builder::line_events;
use crate::color::{foreground_code, reset_code, Color};
use crate::highlight::{highlighted_line, line_pieces};
use crate::pattern::{line_spans, Opt};
use crate::priority::lemma_styles_at_concat;
use crate::render::{
    emitted_all, encoded, encoded_piece, rendered, rendered_to, replay, stack_after_all,
    stack_at, styles_of, Piece,
};
use crate::resolver::{by_priority, insert_by_order, resolved, styles_at};
use crate::stack::{remove_last, top_of};
use crate::style::{end_of, match_events, pattern_events, start_of, Event, Style};
use vstd::prelude::*;

verus! {

/// The characters of `text` as pieces, with no color control among them.
pub open spec fn literal(text: Seq<char>) -> Seq<Piece>
    decreases text.len(),
{
    if text.len() == 0 {
        Seq::empty()
    } else {
        literal(text.drop_last()).push(Piece::Text(text.last()))
    }
}

/// A character is the character of its code point.
pub(crate) proof fn lemma_char(c: char)
    ensures
        (c as u32) as char == c,
{
}

/// Written out, the pieces of a text without color controls are the text.
pub proof fn lemma_encoded_literal(text: Seq<char>)
    ensures
        encoded(literal(text)) == text,
    decreases text.len(),
{
    if text.len() == 0 {
        assert(encoded(literal(text)) =~= text);
    } else {
        lemma_char(text.last());
        lemma_encoded_literal(text.drop_last());
        assert(literal(text).drop_last() =~= literal(text.drop_last()));
        assert(text.drop_last() + seq![text.last()] =~= text);
    }
}

/// Patterns without a match give no events.
pub proof fn lemma_no_match_no_events(opts: Seq<Opt>, line: Seq<char>)
    requires
        forall|i: int| 0 <= i < opts.len() ==> line_spans(opts[i].regex, line).len() == 0,
    ensures
        line_events(opts, line) == Seq::<Event>::empty(),
    decreases opts.len(),
{
    if opts.len() > 0 {
        lemma_no_match_no_events(opts.drop_last(), line);
        let opt = opts.last();
        assert(pattern_events(opt.color, opt.index, line_spans(opt.regex, line))
            =~= Seq::<Event>::empty());
        assert(line_events(opts, line) =~= Seq::<Event>::empty());
    }
}

/// Under an index in which no position below `count` has an event, the stack
/// stays empty and the first `count` characters are written as they are.
pub proof fn lemma_render_without_events(index: Seq<Seq<Style>>, line: Seq<char>, count: nat)
    requires
        count <= line.len(),
        forall|position: int| 0 <= position < count ==> styles_of(index, position).len() == 0,
    ensures
        stack_at(index, count) == Seq::<Color>::empty(),
        rendered_to(index, line, count) == literal(line.take(count as int)),
    decreases count,
{
    if count == 0 {
        assert(rendered_to(index, line, count) =~= literal(line.take(count as int)));
    } else {
        let before = (count - 1) as nat;
        lemma_render_without_events(index, line, before);
        lemma_char(line[count - 1]);
        assert(styles_of(index, count - 1).len() == 0);
        assert(emitted_all(stack_at(index, before), styles_of(index, count - 1))
            =~= Seq::<Piece>::empty());
        assert(line.take(count as int).drop_last() =~= line.take(before as int));
        assert(rendered_to(index, line, count) =~= literal(line.take(count as int)));
    }
}

/// No-match identity: where no pattern matches anywhere in a line, what is
/// written is the line itself, without any color control.
pub proof fn lemma_no_match_identity(opts: Seq<Opt>, line: Seq<char>)
    requires
        forall|i: int| 0 <= i < opts.len() ==> line_spans(opts[i].regex, line).len() == 0,
    ensures
        line_pieces(opts, line) == literal(line),
        highlighted_line(opts, line) == line,
{
    lemma_no_match_no_events(opts, line);
    let index = resolved(line_events(opts, line), line.len());
    assert forall|position: int| 0 <= position < line.len() implies styles_of(
        index,
        position,
    ).len() == 0 by {
        assert(index[position] == by_priority(styles_at(Seq::<Event>::empty(), position)));
    }
    lemma_render_without_events(index, line, line.len());
    assert(line.take(line.len() as int) =~= line);
    lemma_encoded_literal(line);
}

/// The pieces of two texts in a row are the pieces of the one and then of
/// the other.
pub proof fn lemma_literal_concat(first: Seq<char>, second: Seq<char>)
    ensures
        literal(first + second) == literal(first) + literal(second),
    decreases second.len(),
{
    if second.len() == 0 {
        assert(first + second =~= first);
        assert(literal(first) + literal(second) =~= literal(first));
    } else {
        lemma_char(second.last());
        lemma_literal_concat(first, second.drop_last());
        assert((first + second).drop_last() =~= first + second.drop_last());
        assert(literal(first + second) =~= literal(first) + literal(second));
    }
}

/// Pieces in a row are written out one text behind the other.
pub proof fn lemma_encoded_concat(first: Seq<Piece>, second: Seq<Piece>)
    ensures
        encoded(first + second) == encoded(first) + encoded(second),
    decreases second.len(),
{
    if second.len() == 0 {
        assert(first + second =~= first);
        assert(encoded(first) + encoded(second) =~= encoded(first));
    } else {
        lemma_encoded_concat(first, second.drop_last());
        assert((first + second).drop_last() =~= first + second.drop_last());
        assert(encoded(first + second) =~= encoded(first) + encoded(second));
    }
}

/// One piece is written out as its own text.
pub proof fn lemma_encoded_one(piece: Piece)
    ensures
        encoded(seq![piece]) == encoded_piece(piece),
{
    reveal_with_fuel(encoded, 2);
    assert(seq![piece].drop_last() =~= Seq::<Piece>::empty());
    assert(encoded(seq![piece]) =~= encoded_piece(piece));
}

/// Over positions without events the stack stays as it is and the characters
/// are written as they are.
pub proof fn lemma_render_gap(index: Seq<Seq<Style>>, line: Seq<char>, from: nat, to: nat)
    requires
        from <= to <= line.len(),
        forall|position: int| from <= position < to ==> styles_of(index, position).len() == 0,
    ensures
        stack_at(index, to) == stack_at(index, from),
        rendered_to(index, line, to) == rendered_to(index, line, from) + literal(
            line.subrange(from as int, to as int),
        ),
    decreases to - from,
{
    if from == to {
        assert(line.subrange(from as int, to as int) =~= Seq::<char>::empty());
        assert(rendered_to(index, line, to) =~= rendered_to(index, line, from) + literal(
            line.subrange(from as int, to as int),
        ));
    } else {
        let before = (to - 1) as nat;
        lemma_render_gap(index, line, from, before);
        lemma_char(line[to - 1]);
        assert(styles_of(index, to - 1).len() == 0);
        assert(emitted_all(stack_at(index, before), styles_of(index, to - 1))
            =~= Seq::<Piece>::empty());
        assert(line.subrange(from as int, to as int).drop_last() =~= line.subrange(
            from as int,
            before as int,
        ));
        assert(rendered_to(index, line, to) =~= rendered_to(index, line, from) + literal(
            line.subrange(from as int, to as int),
        ));
    }
}

/// From a position to a later one with no events between the two: the
/// events of the position are applied, and the characters from it on are
/// written as they are.
pub proof fn lemma_render_from(index: Seq<Seq<Style>>, line: Seq<char>, at: nat, to: nat)
    requires
        at < to <= line.len(),
        forall|position: int| at < position < to ==> styles_of(index, position).len() == 0,
    ensures
        stack_at(index, to) == stack_after_all(stack_at(index, at), styles_of(index, at as int)),
        rendered_to(index, line, to) == rendered_to(index, line, at) + emitted_all(
            stack_at(index, at),
            styles_of(index, at as int),
        ) + literal(line.subrange(at as int, to as int)),
{
    let next: int = at as int + 1;
    lemma_render_gap(index, line, next as nat, to);
    lemma_char(line[at as int]);
    assert(literal(seq![line[at as int]]) =~= seq![Piece::Text(line[at as int])]) by {
        reveal_with_fuel(literal, 2);
        assert(seq![line[at as int]].drop_last() =~= Seq::<char>::empty());
    }
    lemma_literal_concat(seq![line[at as int]], line.subrange(next, to as int));
    assert(seq![line[at as int]] + line.subrange(next, to as int) =~= line.subrange(
        at as int,
        to as int,
    ));
    assert(rendered_to(index, line, to) =~= rendered_to(index, line, at) + emitted_all(
        stack_at(index, at),
        styles_of(index, at as int),
    ) + literal(line.subrange(at as int, to as int)));
}

/// Zero-length match: its two events are a start directly followed by an
/// end at one offset. Applied one behind the other they leave the stack as
/// it was, and what they write ends with the colors of that stack, so that
/// the visible color is the one from before.
pub proof fn lemma_zero_length_match(stack: Seq<Color>, color: Color, order: usize, at: usize)
    ensures
        match_events(color, order, (at, at)) == seq![
            Event { position: at, style: start_of(color, order) },
            Event { position: at, style: end_of(color, order) },
        ],
        stack_after_all(stack, seq![start_of(color, order), end_of(color, order)]) == stack,
        emitted_all(stack, seq![start_of(color, order), end_of(color, order)]) == seq![
            Piece::SetForeground(color),
            Piece::Reset,
        ] + replay(stack),
        top_of(stack_after_all(stack, seq![start_of(color, order), end_of(color, order)]))
            == top_of(stack),
{
    let start = start_of(color, order);
    let end = end_of(color, order);
    let both = seq![start, end];
    reveal_with_fuel(stack_after_all, 2);
    reveal_with_fuel(emitted_all, 2);
    assert(both.drop_last() =~= seq![start]);
    assert(seq![start].drop_last() =~= Seq::<Style>::empty());
    assert(stack_after_all(stack, seq![start]) == stack.push(color));
    assert(remove_last(stack.push(color), color) =~= stack);
    assert(emitted_all(stack, seq![start]) =~= seq![Piece::SetForeground(color)]);
    assert(emitted_all(stack, both) =~= seq![Piece::SetForeground(color), Piece::Reset] + replay(
        stack,
    ));
}

/// Where one pattern of `opts` has the matches `spans` and the others have
/// none, the events of the line are the events of those matches.
pub proof fn lemma_events_of_one_pattern(opts: Seq<Opt>, line: Seq<char>, which: int)
    requires
        0 <= which < opts.len(),
        forall|i: int|
            0 <= i < opts.len() && i != which ==> line_spans(opts[i].regex, line).len() == 0,
    ensures
        line_events(opts, line) == pattern_events(
            opts[which].color,
            opts[which].index,
            line_spans(opts[which].regex, line),
        ),
    decreases opts.len(),
{
    let found = pattern_events(
        opts[which].color,
        opts[which].index,
        line_spans(opts[which].regex, line),
    );
    if which == opts.len() - 1 {
        lemma_no_match_no_events(opts.drop_last(), line);
        assert(line_events(opts, line) =~= found);
    } else {
        lemma_events_of_one_pattern(opts.drop_last(), line, which);
        let opt = opts.last();
        assert(pattern_events(opt.color, opt.index, line_spans(opt.regex, line))
            =~= Seq::<Event>::empty());
        assert(line_events(opts, line) =~= found);
    }
}

/// The events of a single match are its start and its end.
pub proof fn lemma_events_of_one_match(color: Color, order: usize, span: (usize, usize))
    ensures
        pattern_events(color, order, seq![span]) == match_events(color, order, span),
{
    reveal_with_fuel(pattern_events, 2);
    assert(seq![span].drop_last() =~= Seq::<(usize, usize)>::empty());
    assert(pattern_events(color, order, seq![span]) =~= match_events(color, order, span));
}

/// The styles of a single match at one position: the start at the first
/// character of the match, the end behind its last, and nothing elsewhere.
pub open spec fn styles_of_match(color: Color, order: usize, span: (usize, usize), position: int)
    -> Seq<Style> {
    if position == span.0 && position == span.1 {
        seq![start_of(color, order), end_of(color, order)]
    } else if position == span.0 {
        seq![start_of(color, order)]
    } else if position == span.1 {
        seq![end_of(color, order)]
    } else {
        Seq::<Style>::empty()
    }
}

/// The events of a single match at one position are `styles_of_match`, and
/// stand in the order in which they are applied.
proof fn lemma_styles_of_one_match(
    color: Color,
    order: usize,
    span: (usize, usize),
    position: int,
)
    ensures
        styles_at(match_events(color, order, span), position) == styles_of_match(
            color,
            order,
            span,
            position,
        ),
        by_priority(styles_of_match(color, order, span, position)) == styles_of_match(
            color,
            order,
            span,
            position,
        ),
{
    let events = match_events(color, order, span);
    let start = start_of(color, order);
    let end = end_of(color, order);
    reveal_with_fuel(styles_at, 3);
    reveal_with_fuel(by_priority, 3);
    reveal_with_fuel(insert_by_order, 3);
    assert(events.drop_last() =~= seq![events[0]]);
    assert(events.drop_last().drop_last() =~= Seq::<Event>::empty());
    let styles = styles_at(events, position);
    if position == span.0 && position == span.1 {
        assert(styles =~= seq![start, end]);
        assert(styles.drop_last() =~= seq![start]);
        assert(styles.drop_last().drop_last() =~= Seq::<Style>::empty());
        assert(by_priority(styles) =~= seq![start, end]);
    } else if position == span.0 {
        assert(styles =~= seq![start]);
        assert(styles.drop_last() =~= Seq::<Style>::empty());
        assert(by_priority(styles) =~= seq![start]);
    } else if position == span.1 {
        assert(styles =~= seq![end]);
        assert(styles.drop_last() =~= Seq::<Style>::empty());
        assert(by_priority(styles) =~= seq![end]);
    } else {
        assert(styles =~= Seq::<Style>::empty());
    }
}

/// The event index of a line with a single match.
proof fn lemma_index_of_one_match(color: Color, order: usize, span: (usize, usize), len: nat)
    ensures
        forall|position: int|
            0 <= position < len ==> #[trigger] styles_of(
                resolved(match_events(color, order, span), len),
                position,
            ) == styles_of_match(color, order, span, position),
{
    let index = resolved(match_events(color, order, span), len);
    assert forall|position: int| 0 <= position < len implies #[trigger] styles_of(index, position)
        == styles_of_match(color, order, span, position) by {
        lemma_styles_of_one_match(color, order, span, position);
    }
}

/// What one start does to a stack, and what it writes.
proof fn lemma_apply_start(stack: Seq<Color>, color: Color, order: usize)
    ensures
        stack_after_all(stack, seq![start_of(color, order)]) == stack.push(color),
        emitted_all(stack, seq![start_of(color, order)]) == seq![Piece::SetForeground(color)],
{
    reveal_with_fuel(stack_after_all, 2);
    reveal_with_fuel(emitted_all, 2);
    let styles = seq![start_of(color, order)];
    assert(styles.drop_last() =~= Seq::<Style>::empty());
    assert(emitted_all(stack, styles) =~= seq![Piece::SetForeground(color)]);
}

/// What one end does to a stack, and what it writes.
proof fn lemma_apply_end(stack: Seq<Color>, color: Color, order: usize)
    ensures
        stack_after_all(stack, seq![end_of(color, order)]) == remove_last(stack, color),
        emitted_all(stack, seq![end_of(color, order)]) == seq![Piece::Reset] + replay(
            remove_last(stack, color),
        ),
{
    reveal_with_fuel(stack_after_all, 2);
    reveal_with_fuel(emitted_all, 2);
    let styles = seq![end_of(color, order)];
    assert(styles.drop_last() =~= Seq::<Style>::empty());
    assert(emitted_all(stack, styles) =~= seq![Piece::Reset] + replay(remove_last(stack, color)));
}

/// Single match: where one pattern matches once in a line, at `[start, end)`
/// with the end before the end of the line, and no other pattern matches,
/// what is written is the text before the match, the color of the pattern,
/// the matched text, a reset, and the text behind the match.
pub proof fn lemma_single_match(
    opts: Seq<Opt>,
    line: Seq<char>,
    which: int,
    start: usize,
    end: usize,
)
    requires
        0 <= which < opts.len(),
        line_spans(opts[which].regex, line) == seq![(start, end)],
        forall|i: int|
            0 <= i < opts.len() && i != which ==> line_spans(opts[i].regex, line).len() == 0,
        start <= end < line.len(),
    ensures
        line_pieces(opts, line) == literal(line.take(start as int)) + seq![
            Piece::SetForeground(opts[which].color),
        ] + literal(line.subrange(start as int, end as int)) + seq![Piece::Reset] + literal(
            line.skip(end as int),
        ),
        highlighted_line(opts, line) == line.take(start as int) + foreground_code(
            opts[which].color,
        ) + line.subrange(start as int, end as int) + reset_code() + line.skip(end as int),
{
    let color = opts[which].color;
    let order = opts[which].index;
    let len = line.len();
    lemma_events_of_one_pattern(opts, line, which);
    lemma_events_of_one_match(color, order, (start, end));
    let index = resolved(line_events(opts, line), len);
    lemma_index_of_one_match(color, order, (start, end), len);
    let none = Seq::<Color>::empty();
    let before = literal(line.take(start as int));
    let inside = literal(line.subrange(start as int, end as int));
    let behind = literal(line.skip(end as int));
    let set = seq![Piece::SetForeground(color)];
    let reset = seq![Piece::Reset];

    lemma_render_gap(index, line, 0, start as nat);
    assert(line.subrange(0, start as int) =~= line.take(start as int));
    assert(rendered_to(index, line, start as nat) =~= before);
    assert(replay(none) =~= Seq::<Piece>::empty());
    assert(line.subrange(end as int, len as int) =~= line.skip(end as int));
    if start == end {
        lemma_zero_length_match(none, color, order, start);
        assert(styles_of(index, start as int) == seq![start_of(color, order), end_of(color, order)]);
        lemma_render_from(index, line, start as nat, len);
        assert(inside =~= Seq::<Piece>::empty());
        assert(rendered(index, line) =~= before + set + inside + reset + behind);
    } else {
        lemma_apply_start(none, color, order);
        assert(styles_of(index, start as int) == seq![start_of(color, order)]);
        lemma_render_from(index, line, start as nat, end as nat);
        lemma_apply_end(none.push(color), color, order);
        assert(remove_last(none.push(color), color) =~= none);
        assert(styles_of(index, end as int) == seq![end_of(color, order)]);
        lemma_render_from(index, line, end as nat, len);
        assert(rendered(index, line) =~= before + set + inside + reset + behind);
    }
    lemma_encoded_concat(before + set + inside + reset, behind);
    lemma_encoded_concat(before + set + inside, reset);
    lemma_encoded_concat(before + set, inside);
    lemma_encoded_concat(before, set);
    lemma_encoded_one(Piece::SetForeground(color));
    lemma_encoded_one(Piece::Reset);
    lemma_encoded_literal(line.take(start as int));
    lemma_encoded_literal(line.subrange(start as int, end as int));
    lemma_encoded_literal(line.skip(end as int));
}

/// The event index of a line in which two patterns match once each, the one
/// strictly inside the other: at each position the events of the one match
/// that has an end there.
proof fn lemma_index_of_nested_matches(
    opts: Seq<Opt>,
    line: Seq<char>,
    outer: int,
    inner: int,
    around: (usize, usize),
    within: (usize, usize),
)
    requires
        opts.len() == 2,
        0 <= outer < 2,
        0 <= inner < 2,
        outer != inner,
        line_spans(opts[outer].regex, line) == seq![around],
        line_spans(opts[inner].regex, line) == seq![within],
        around.0 < within.0 <= within.1 < around.1,
    ensures
        forall|position: int|
            0 <= position < line.len() ==> #[trigger] styles_of(
                resolved(line_events(opts, line), line.len()),
                position,
            ) == if position == around.0 || position == around.1 {
                styles_of_match(opts[outer].color, opts[outer].index, around, position)
            } else {
                styles_of_match(opts[inner].color, opts[inner].index, within, position)
            },
{
    let events = line_events(opts, line);
    let index = resolved(events, line.len());
    let one = match_events(opts[0].color, opts[0].index, line_spans(opts[0].regex, line)[0]);
    let two = match_events(opts[1].color, opts[1].index, line_spans(opts[1].regex, line)[0]);
    lemma_events_of_one_match(opts[0].color, opts[0].index, line_spans(opts[0].regex, line)[0]);
    lemma_events_of_one_match(opts[1].color, opts[1].index, line_spans(opts[1].regex, line)[0]);
    assert(line_spans(opts[0].regex, line) =~= seq![line_spans(opts[0].regex, line)[0]]);
    assert(line_spans(opts[1].regex, line) =~= seq![line_spans(opts[1].regex, line)[0]]);
    assert(events =~= one + two) by {
        reveal_with_fuel(line_events, 3);
        assert(opts.drop_last().drop_last() =~= Seq::<Opt>::empty());
        assert(opts.drop_last().last() == opts[0]);
        assert(opts.last() == opts[1]);
    }
    assert forall|position: int| 0 <= position < line.len() implies #[trigger] styles_of(
        index,
        position,
    ) == if position == around.0 || position == around.1 {
        styles_of_match(opts[outer].color, opts[outer].index, around, position)
    } else {
        styles_of_match(opts[inner].color, opts[inner].index, within, position)
    } by {
        lemma_styles_at_concat(one, two, position);
        lemma_styles_of_one_match(opts[outer].color, opts[outer].index, around, position);
        lemma_styles_of_one_match(opts[inner].color, opts[inner].index, within, position);
        let from_outer = styles_of_match(opts[outer].color, opts[outer].index, around, position);
        let from_inner = styles_of_match(opts[inner].color, opts[inner].index, within, position);
        if position == around.0 || position == around.1 {
            assert(from_inner =~= Seq::<Style>::empty());
            assert(styles_at(events, position) =~= from_outer);
        } else {
            assert(from_outer =~= Seq::<Style>::empty());
            assert(styles_at(events, position) =~= from_inner);
        }
    }
}

/// Properly nested matches: where two patterns match once each in a line and
/// the match of the one lies strictly inside the match of the other, which
/// ends before the end of the line, the color of the inner pattern is
/// selected where its match starts; where it ends, a reset is followed by
/// the color of the outer pattern again; and where the outer match ends,
/// only a reset is written.
pub proof fn lemma_nested_matches(
    opts: Seq<Opt>,
    line: Seq<char>,
    outer: int,
    inner: int,
    around: (usize, usize),
    within: (usize, usize),
)
    requires
        opts.len() == 2,
        0 <= outer < 2,
        0 <= inner < 2,
        outer != inner,
        line_spans(opts[outer].regex, line) == seq![around],
        line_spans(opts[inner].regex, line) == seq![within],
        around.0 < within.0 <= within.1 < around.1 < line.len(),
    ensures
        line_pieces(opts, line) == literal(line.take(around.0 as int)) + seq![
            Piece::SetForeground(opts[outer].color),
        ] + literal(line.subrange(around.0 as int, within.0 as int)) + seq![
            Piece::SetForeground(opts[inner].color),
        ] + literal(line.subrange(within.0 as int, within.1 as int)) + seq![
            Piece::Reset,
            Piece::SetForeground(opts[outer].color),
        ] + literal(line.subrange(within.1 as int, around.1 as int)) + seq![Piece::Reset] + literal(
            line.skip(around.1 as int),
        ),
        highlighted_line(opts, line) == line.take(around.0 as int) + foreground_code(
            opts[outer].color,
        ) + line.subrange(around.0 as int, within.0 as int) + foreground_code(opts[inner].color)
            + line.subrange(within.0 as int, within.1 as int) + (reset_code() + foreground_code(
            opts[outer].color,
        )) + line.subrange(within.1 as int, around.1 as int) + reset_code() + line.skip(
            around.1 as int,
        ),
{
    let a = opts[outer].color;
    let b = opts[inner].color;
    let a_order = opts[outer].index;
    let b_order = opts[inner].index;
    let len = line.len();
    let index = resolved(line_events(opts, line), len);
    lemma_index_of_nested_matches(opts, line, outer, inner, around, within);
    let none = Seq::<Color>::empty();
    let t0 = literal(line.take(around.0 as int));
    let t1 = literal(line.subrange(around.0 as int, within.0 as int));
    let t2 = literal(line.subrange(within.0 as int, within.1 as int));
    let t3 = literal(line.subrange(within.1 as int, around.1 as int));
    let t4 = literal(line.skip(around.1 as int));
    let set_a = seq![Piece::SetForeground(a)];
    let set_b = seq![Piece::SetForeground(b)];
    let back = seq![Piece::Reset, Piece::SetForeground(a)];
    let reset = seq![Piece::Reset];

    lemma_render_gap(index, line, 0, around.0 as nat);
    assert(line.subrange(0, around.0 as int) =~= line.take(around.0 as int));
    assert(rendered_to(index, line, around.0 as nat) =~= t0);

    lemma_apply_start(none, a, a_order);
    assert(styles_of(index, around.0 as int) == seq![start_of(a, a_order)]);
    lemma_render_from(index, line, around.0 as nat, within.0 as nat);
    let one = none.push(a);
    assert(stack_at(index, within.0 as nat) == one);
    assert(rendered_to(index, line, within.0 as nat) =~= t0 + set_a + t1);

    assert(replay(one) =~= seq![Piece::SetForeground(a)]);
    assert(replay(none) =~= Seq::<Piece>::empty());
    if within.0 == within.1 {
        lemma_zero_length_match(one, b, b_order, within.0);
        assert(styles_of(index, within.0 as int) == seq![
            start_of(b, b_order),
            end_of(b, b_order),
        ]);
        lemma_render_from(index, line, within.0 as nat, around.1 as nat);
        assert(t2 =~= Seq::<Piece>::empty());
        assert(seq![Piece::SetForeground(b), Piece::Reset] + replay(one) =~= set_b + t2 + back);
        assert(rendered_to(index, line, around.1 as nat) =~= t0 + set_a + t1 + set_b + t2 + back
            + t3);
    } else {
        lemma_apply_start(one, b, b_order);
        assert(styles_of(index, within.0 as int) == seq![start_of(b, b_order)]);
        lemma_render_from(index, line, within.0 as nat, within.1 as nat);
        let two = one.push(b);
        lemma_apply_end(two, b, b_order);
        assert(remove_last(two, b) =~= one);
        assert(styles_of(index, within.1 as int) == seq![end_of(b, b_order)]);
        lemma_render_from(index, line, within.1 as nat, around.1 as nat);
        assert(seq![Piece::Reset] + replay(one) =~= back);
        assert(rendered_to(index, line, around.1 as nat) =~= t0 + set_a + t1 + set_b + t2 + back
            + t3);
    }
    assert(stack_at(index, around.1 as nat) == one);
    lemma_apply_end(one, a, a_order);
    assert(remove_last(one, a) =~= none);
    assert(styles_of(index, around.1 as int) == seq![end_of(a, a_order)]);
    lemma_render_from(index, line, around.1 as nat, len);
    assert(line.subrange(around.1 as int, len as int) =~= line.skip(around.1 as int));
    let pieces = t0 + set_a + t1 + set_b + t2 + back + t3 + reset + t4;
    assert(rendered(index, line) =~= pieces);

    lemma_encoded_concat(t0 + set_a + t1 + set_b + t2 + back + t3 + reset, t4);
    lemma_encoded_concat(t0 + set_a + t1 + set_b + t2 + back + t3, reset);
    lemma_encoded_concat(t0 + set_a + t1 + set_b + t2 + back, t3);
    lemma_encoded_concat(t0 + set_a + t1 + set_b + t2, back);
    lemma_encoded_concat(t0 + set_a + t1 + set_b, t2);
    lemma_encoded_concat(t0 + set_a + t1, set_b);
    lemma_encoded_concat(t0 + set_a, t1);
    lemma_encoded_concat(t0, set_a);
    lemma_encoded_one(Piece::SetForeground(a));
    lemma_encoded_one(Piece::SetForeground(b));
    lemma_encoded_one(Piece::Reset);
    assert(back =~= reset + set_a);
    lemma_encoded_concat(reset, set_a);
    lemma_encoded_literal(line.take(around.0 as int));
    lemma_encoded_literal(line.subrange(around.0 as int, within.0 as int));
    lemma_encoded_literal(line.subrange(within.0 as int, within.1 as int));
    lemma_encoded_literal(line.subrange(within.1 as int, around.1 as int));
    lemma_encoded_literal(line.skip(around.1 as int));
}

} // verus!
