//! The highlighter: a line, or a text line by line, with the matches of the
//! patterns shown in their colors.

use crate::builder::{build_events, line_events};
use crate::pattern::Opt;
use crate::render::{encode, encoded, render, rendered, Piece};
use crate::resolver::{resolve, resolved};
use vstd::prelude::*;
use vstd::string::*;

verus! {

/// What is written for the line `line` under the patterns `opts`: its
/// characters and the color changes between them.
pub open spec fn line_pieces(opts: Seq<Opt>, line: Seq<char>) -> Seq<Piece> {
    rendered(resolved(line_events(opts, line), line.len()), line)
}

/// The line `line` with the matches of `opts` shown in their colors.
pub open spec fn highlighted_line(opts: Seq<Opt>, line: Seq<char>) -> Seq<char> {
    encoded(line_pieces(opts, line))
}

/// The length of the first line of `text`, its line feed included; the
/// length of `text` where it holds no line feed.
pub open spec fn first_line_len(text: Seq<char>) -> nat
    decreases text.len(),
{
    if text.len() == 0 {
        0
    } else if text[0] == '\n' {
        1
    } else {
        1 + first_line_len(text.drop_first())
    }
}

/// `text` with every line highlighted by itself. A line ends behind its line
/// feed, which belongs to it; the last line may have none.
pub open spec fn highlighted(opts: Seq<Opt>, text: Seq<char>) -> Seq<char>
    decreases text.len(),
    via highlighted_terminates
{
    if text.len() == 0 {
        Seq::empty()
    } else {
        let len = first_line_len(text) as int;
        highlighted_line(opts, text.take(len)) + highlighted(opts, text.skip(len))
    }
}

#[via_fn]
proof fn highlighted_terminates(opts: Seq<Opt>, text: Seq<char>) {
    lemma_first_line_len_bounds(text);
}

/// The first line is not longer than the text, and not empty unless the text
/// is.
pub proof fn lemma_first_line_len_bounds(text: Seq<char>)
    ensures
        first_line_len(text) <= text.len(),
        text.len() > 0 ==> first_line_len(text) > 0,
    decreases text.len(),
{
    if text.len() > 0 && text[0] != '\n' {
        lemma_first_line_len_bounds(text.drop_first());
    }
}

/// Where the first `count` characters of `text` hold no line feed, the first
/// line goes on behind them.
proof fn lemma_first_line_len_skip(text: Seq<char>, count: int)
    requires
        0 <= count <= text.len(),
        forall|i: int| 0 <= i < count ==> text[i] != '\n',
    ensures
        first_line_len(text) == count + first_line_len(text.skip(count)),
    decreases count,
{
    if count == 0 {
        assert(text.skip(0) =~= text);
    } else {
        let rest = text.drop_first();
        assert forall|i: int| 0 <= i < count - 1 implies rest[i] != '\n' by {
            assert(rest[i] == text[i + 1]);
        }
        lemma_first_line_len_skip(rest, count - 1);
        assert(rest.skip(count - 1) =~= text.skip(count));
    }
}

/// Highlights one line: finds the matches of every pattern, applies their
/// events position by position in the order of the priorities, and writes the
/// characters with the color controls between them.
pub fn hl_line(opts: &[Opt], line: &str) -> (out: String)
    ensures
        out@ == highlighted_line(opts@, line@),
{
    let events = build_events(opts, line);
    let index = resolve(&events, line.unicode_len());
    let (pieces, _) = render(&index, line);
    encode(&pieces)
}

/// Highlights `input` line by line, as `hl_line` does each line, and gives
/// the lines one behind the other. Patterns do not match across lines.
pub fn hl(opts: &[Opt], input: &str) -> (out: String)
    ensures
        out@ == highlighted(opts@, input@),
{
    let mut out = String::new();
    let mut line = String::new();
    let ghost mut start: int = 0;
    assert(input@.skip(0) =~= input@);
    assert(highlighted(opts@, input@) =~= out@ + highlighted(opts@, input@));
    for c in it: input.chars()
        invariant
            it.seq() == input@,
            0 <= start <= it.index(),
            line@ == input@.subrange(start, it.index()),
            forall|i: int| start <= i < it.index() ==> input@[i] != '\n',
            highlighted(opts@, input@) == out@ + highlighted(opts@, input@.skip(start)),
    {
        let ghost at = it.index();
        line.push(c);
        assert(line@ =~= input@.subrange(start, at + 1));
        if c == '\n' {
            let shown = hl_line(opts, line.as_str());
            proof {
                let rest = input@.skip(start);
                assert forall|i: int| 0 <= i < at - start implies rest[i] != '\n' by {
                    assert(rest[i] == input@[start + i]);
                }
                lemma_first_line_len_skip(rest, at - start);
                assert(rest.skip(at - start)[0] == '\n');
                assert(first_line_len(rest) == at - start + 1);
                assert(rest.take(at - start + 1) =~= line@);
                assert(rest.skip(at - start + 1) =~= input@.skip(at + 1));
                start = at + 1;
            }
            out.append(shown.as_str());
            line = String::new();
            assert(line@ =~= input@.subrange(start, at + 1));
            assert(highlighted(opts@, input@) =~= out@ + highlighted(opts@, input@.skip(start)));
        }
    }
    if line.as_str().unicode_len() > 0 {
        let shown = hl_line(opts, line.as_str());
        proof {
            let rest = input@.skip(start);
            let len = input@.len() as int;
            assert forall|i: int| 0 <= i < len - start implies rest[i] != '\n' by {
                assert(rest[i] == input@[start + i]);
            }
            lemma_first_line_len_skip(rest, len - start);
            assert(rest.skip(len - start) =~= Seq::empty());
            assert(rest.take(len - start) =~= line@);
            assert(highlighted(opts@, rest.skip(len - start)) =~= Seq::empty());
        }
        out.append(shown.as_str());
        assert(out@ =~= highlighted(opts@, input@));
    } else {
        assert(input@.skip(start) =~= Seq::empty());
        assert(out@ =~= highlighted(opts@, input@));
    }
    out
}

} // verus!
