//! Pattern entries and the matches of a pattern in one line.

use crate::color::Color;
use crate::offsets::{
    chars_before, lemma_chars_before_bound, lemma_chars_before_monotonic, lemma_span_text,
};
use regex::Regex;
use vstd::prelude::*;
use vstd::string::*;
use vstd::utf8::*;

verus! {

/// The regex crate's compiled regular expression, `regex::Regex`. Nothing
/// is known of what is inside one; what it matches is named `regex_spans`.
#[verifier::external_type_specification]
#[verifier::external_body]
pub struct ExRegex(regex::Regex);

/// The regex crate's error for a pattern that does not compile,
/// `regex::Error`. Nothing is known of what is inside one.
#[verifier::external_type_specification]
#[verifier::external_body]
pub struct ExRegexError(regex::Error);

/// One pattern to highlight: a compiled regular expression, the color that
/// its matches are shown in, and its priority. `index` is the place at which
/// the pattern was declared; among events at one position a lower `index`
/// is applied first.
#[derive(Debug)]
pub struct Opt {
    pub color: Color,
    pub regex: Regex,
    pub index: usize,
}

/// The matches that `regex` finds in `haystack`, from left to right, each as
/// the byte offsets of its start and its end in the UTF-8 form of `haystack`:
/// what `Regex::find_iter` yields.
pub uninterp spec fn regex_spans(regex: Regex, haystack: Seq<char>) -> Seq<(usize, usize)>;

/// The regular expression that `pattern` compiles to, or `None` where
/// `pattern` is not a valid one: what `Regex::new` returns.
pub uninterp spec fn compiled(pattern: Seq<char>) -> Option<Regex>;

/// Whether both ends of `span` are byte offsets at which a character of
/// `text` starts or `text` ends, the start not behind the end.
pub open spec fn span_on_boundaries(text: Seq<char>, span: (usize, usize)) -> bool {
    &&& span.0 <= span.1 <= encode_utf8(text).len()
    &&& is_char_boundary(encode_utf8(text), span.0 as int)
    &&& is_char_boundary(encode_utf8(text), span.1 as int)
}

/// Whether no match of `spans` starts before an earlier one has ended.
pub open spec fn in_order(spans: Seq<(usize, usize)>) -> bool {
    forall|i: int, j: int| 0 <= i < j < spans.len() ==> spans[i].1 <= spans[j].0
}

/// Whether `spans` are matches in a line of `len` characters: each with its
/// start not behind its end and its end not behind the end of the line, and
/// none starting before an earlier one has ended.
pub open spec fn matches_in_line(spans: Seq<(usize, usize)>, len: nat) -> bool {
    &&& forall|i: int| 0 <= i < spans.len() ==> (#[trigger] spans[i]).0 <= spans[i].1 <= len
    &&& in_order(spans)
}

/// Collects what `Regex::find_iter` yields for `haystack`, each match as its
/// pair of `start()` and `end()`.
///
/// Trusted: matching depends on the compiled expression and the haystack
/// alone, so the result is named `regex_spans`. As the regex crate documents
/// for `Match`, `start() <= end()`, and both offsets fall on UTF-8 code point
/// boundaries of the haystack, so that it can be sliced at them. As it
/// documents for `find_iter`, the matches are successive and do not overlap:
/// none starts before an earlier one has ended.
#[verifier::external_body]
pub(crate) fn find_spans(regex: &Regex, haystack: &str) -> (spans: Vec<(usize, usize)>)
    ensures
        spans@ == regex_spans(*regex, haystack@),
        forall|i: int| 0 <= i < spans.len() ==> span_on_boundaries(haystack@, #[trigger] spans[i]),
        in_order(spans@),
{
    regex.find_iter(haystack).map(|found| (found.start(), found.end())).collect()
}

/// Calls `Regex::new` on `pattern`.
///
/// Trusted: whether a pattern compiles, and to what, depends on the pattern
/// alone, so the result is named `compiled(pattern)`.
#[verifier::external_body]
pub(crate) fn compile_pattern(pattern: &str) -> (made: Result<Regex, regex::Error>)
    ensures
        match made {
            Ok(regex) => compiled(pattern@) == Some(regex),
            Err(_) => compiled(pattern@) is None,
        },
{
    Regex::new(pattern)
}

/// A match given by byte offsets, in character offsets.
pub open spec fn char_span(text: Seq<char>, span: (usize, usize)) -> (usize, usize) {
    (chars_before(text, span.0 as int) as usize, chars_before(text, span.1 as int) as usize)
}

/// The matches of `regex` in the line `text`, from left to right, each as the
/// character offset of its start and the character offset just behind its
/// end.
pub open spec fn line_spans(regex: Regex, text: Seq<char>) -> Seq<(usize, usize)> {
    regex_spans(regex, text).map_values(|span: (usize, usize)| char_span(text, span))
}

/// Whether the match of `regex` number `which` in `text` covers, between its
/// character offsets, the characters whose bytes the regular expression
/// matched.
pub open spec fn covers_matched_text(regex: Regex, text: Seq<char>, which: int) -> bool {
    let chars = line_spans(regex, text)[which];
    let bytes = regex_spans(regex, text)[which];
    encode_utf8(text.subrange(chars.0 as int, chars.1 as int)) == encode_utf8(text).subrange(
        bytes.0 as int,
        bytes.1 as int,
    )
}

/// Whether the matches of `regex` in the line `text` are matches in that
/// line, and cover the text that the regular expression matched.
pub open spec fn matches_of_line(regex: Regex, text: Seq<char>) -> bool {
    &&& matches_in_line(line_spans(regex, text), text.len())
    &&& forall|which: int|
        0 <= which < line_spans(regex, text).len() ==> #[trigger] covers_matched_text(
            regex,
            text,
            which,
        )
}

/// Finds the matches of `regex` in `line` and gives them in character
/// offsets. `table` is the line's table from byte to character offsets.
pub(crate) fn find_matches(regex: &Regex, line: &str, table: &Vec<usize>) -> (spans: Vec<
    (usize, usize),
>)
    requires
        table.len() == line.spec_bytes().len() + 1,
        forall|offset: int|
            0 <= offset < table.len() ==> table[offset] == chars_before(line@, offset),
    ensures
        spans@ == line_spans(*regex, line@),
        matches_of_line(*regex, line@),
{
    let found = find_spans(regex, line);
    proof {
        let given = line_spans(*regex, line@);
        assert forall|which: int| 0 <= which < given.len() implies #[trigger] covers_matched_text(
            *regex,
            line@,
            which,
        ) by {
            assert(span_on_boundaries(line@, found[which]));
            lemma_span_text(line@, found[which].0 as int, found[which].1 as int);
        }
        assert forall|i: int| 0 <= i < given.len() implies (#[trigger] given[i]).0 <= given[i].1
            <= line@.len() by {
            assert(span_on_boundaries(line@, found[i]));
            lemma_chars_before_monotonic(line@, found[i].0 as int, found[i].1 as int);
            lemma_chars_before_bound(line@, found[i].0 as int);
            lemma_chars_before_bound(line@, found[i].1 as int);
        }
        assert forall|i: int, j: int| 0 <= i < j < given.len() implies given[i].1
            <= given[j].0 by {
            assert(span_on_boundaries(line@, found[i]));
            assert(span_on_boundaries(line@, found[j]));
            lemma_chars_before_monotonic(line@, found[i].1 as int, found[j].0 as int);
            lemma_chars_before_bound(line@, found[i].1 as int);
            lemma_chars_before_bound(line@, found[j].0 as int);
        }
    }
    let mut spans: Vec<(usize, usize)> = Vec::new();
    for i in 0..found.len()
        invariant
            found@ == regex_spans(*regex, line@),
            forall|i: int| 0 <= i < found.len() ==> span_on_boundaries(line@, #[trigger] found[i]),
            table.len() == line.spec_bytes().len() + 1,
            forall|offset: int|
                0 <= offset < table.len() ==> table[offset] == chars_before(line@, offset),
            spans@ == line_spans(*regex, line@).take(i as int),
    {
        let span = found[i];
        assert(span_on_boundaries(line@, span));
        spans.push((table[span.0], table[span.1]));
        assert(spans@ =~= line_spans(*regex, line@).take(i + 1));
    }
    assert(spans@ =~= line_spans(*regex, line@));
    spans
}

} // verus!
