//! The event builder: every match of every pattern in a line becomes a start
//! event and an end event.

use crate::offsets::{char_offsets, chars_before};
use crate::pattern::{find_matches, line_spans, matches_of_line, Opt};
use crate::style::{pattern_events, Event, Style};
use vstd::prelude::*;
use vstd::string::*;

verus! {

/// The events of the line `text` under the patterns `opts`: pattern by
/// pattern in the order of `opts`, and for each pattern match by match from
/// left to right, the start of a match directly followed by its end.
pub open spec fn line_events(opts: Seq<Opt>, text: Seq<char>) -> Seq<Event>
    decreases opts.len(),
{
    if opts.len() == 0 {
        Seq::empty()
    } else {
        let opt = opts.last();
        line_events(opts.drop_last(), text) + pattern_events(
            opt.color,
            opt.index,
            line_spans(opt.regex, text),
        )
    }
}

/// Scans `line` with every pattern of `opts` and lists the events of the
/// matches. A match of length zero gives a start and an end at one offset.
/// The matches of one pattern lie in the line, do not overlap, and cover the
/// text that the pattern matched.
pub fn build_events(opts: &[Opt], line: &str) -> (events: Vec<Event>)
    ensures
        events@ == line_events(opts@, line@),
        forall|i: int| 0 <= i < opts.len() ==> matches_of_line(#[trigger] opts[i].regex, line@),
{
    let table = char_offsets(line);
    let mut events: Vec<Event> = Vec::new();
    for i in 0..opts.len()
        invariant
            table.len() == line.spec_bytes().len() + 1,
            forall|offset: int|
                0 <= offset < table.len() ==> table[offset] == chars_before(line@, offset),
            events@ == line_events(opts@.take(i as int), line@),
            forall|k: int| 0 <= k < i ==> matches_of_line(#[trigger] opts[k].regex, line@),
    {
        let opt = &opts[i];
        let spans = find_matches(&opt.regex, line, &table);
        let ghost before = events@;
        for j in 0..spans.len()
            invariant
                spans@ == line_spans(opt.regex, line@),
                events@ == before + pattern_events(opt.color, opt.index, spans@.take(j as int)),
        {
            let span = spans[j];
            events.push(Event { position: span.0, style: Style::start(opt.color, opt.index) });
            events.push(Event { position: span.1, style: Style::end(opt.color, opt.index) });
            proof {
                assert(spans@.take(j + 1).drop_last() =~= spans@.take(j as int));
                assert(events@ =~= before + pattern_events(
                    opt.color,
                    opt.index,
                    spans@.take(j + 1),
                ));
            }
        }
        proof {
            assert(spans@.take(spans.len() as int) =~= spans@);
            assert(opts@.take(i + 1).drop_last() =~= opts@.take(i as int));
            assert(opts@.take(i + 1).last() == opts@[i as int]);
        }
    }
    assert(opts@.take(opts.len() as int) =~= opts@);
    events
}

} // verus!
