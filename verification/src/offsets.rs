//! Byte offsets into the UTF-8 form of a text, turned into character offsets.

use vstd::prelude::*;
use vstd::string::*;
use vstd::utf8::*;

verus! {

/// The number of bytes that `c` takes in UTF-8.
pub open spec fn width(c: char) -> int {
    encode_scalar(c as u32).len() as int
}

/// The number of characters of `text` that end at or before byte `offset` of
/// its UTF-8 form. For the byte offset at which a character starts this is
/// that character's index, and for the length in bytes it is the number of
/// characters.
pub open spec fn chars_before(text: Seq<char>, offset: int) -> nat
    decreases text.len(),
{
    if text.len() == 0 || offset < width(text[0]) {
        0
    } else {
        1 + chars_before(text.drop_first(), offset - width(text[0]))
    }
}

/// Every character takes between one and four bytes.
pub proof fn lemma_width_bounds(c: char)
    ensures
        1 <= width(c) <= 4,
{
}

/// No more characters end before a byte offset than there are bytes before it.
pub proof fn lemma_chars_before_bound(text: Seq<char>, offset: int)
    requires
        0 <= offset,
    ensures
        chars_before(text, offset) <= offset,
        chars_before(text, offset) <= text.len(),
    decreases text.len(),
{
    if text.len() > 0 && offset >= width(text[0]) {
        lemma_width_bounds(text[0]);
        lemma_chars_before_bound(text.drop_first(), offset - width(text[0]));
    }
}

/// Further on in the bytes, no fewer characters have ended.
pub proof fn lemma_chars_before_monotonic(text: Seq<char>, near: int, far: int)
    requires
        near <= far,
    ensures
        chars_before(text, near) <= chars_before(text, far),
    decreases text.len(),
{
    if text.len() > 0 && near >= width(text[0]) {
        lemma_chars_before_monotonic(
            text.drop_first(),
            near - width(text[0]),
            far - width(text[0]),
        );
    }
}

/// The first `k` characters of a text are the ones that end at or before the
/// byte offset at which they are over: the character offset of the `k`-th
/// character boundary is `k`.
pub proof fn lemma_chars_before_boundary(text: Seq<char>, k: int)
    requires
        0 <= k <= text.len(),
    ensures
        chars_before(text, encode_utf8(text.take(k)).len() as int) == k,
    decreases k,
{
    if k == 0 {
        if text.len() > 0 {
            lemma_width_bounds(text[0]);
        }
    } else {
        let rest = text.drop_first();
        assert(text.take(k).drop_first() =~= rest.take(k - 1));
        assert(text.take(k)[0] == text[0]);
        lemma_chars_before_boundary(rest, k - 1);
    }
}

/// The UTF-8 form of two texts in a row is the form of the one and then the
/// form of the other.
pub proof fn lemma_encode_concat(first: Seq<char>, second: Seq<char>)
    ensures
        encode_utf8(first + second) == encode_utf8(first) + encode_utf8(second),
    decreases first.len(),
{
    if first.len() == 0 {
        assert(first + second =~= second);
        assert(encode_utf8(first) + encode_utf8(second) =~= encode_utf8(second));
    } else {
        lemma_encode_concat(first.drop_first(), second);
        assert((first + second).drop_first() =~= first.drop_first() + second);
        assert(encode_utf8(first + second) =~= encode_utf8(first) + encode_utf8(second));
    }
}

/// At a character boundary the characters that have ended are those whose
/// bytes lie before it: their UTF-8 form has the length of the byte offset.
pub proof fn lemma_chars_before_fill(text: Seq<char>, offset: int)
    requires
        0 <= offset <= encode_utf8(text).len(),
        is_char_boundary(encode_utf8(text), offset),
    ensures
        chars_before(text, offset) <= text.len(),
        encode_utf8(text.take(chars_before(text, offset) as int)).len() == offset,
    decreases text.len(),
{
    broadcast use encode_utf8_valid_utf8;

    if text.len() == 0 {
        assert(text.take(0) =~= text);
    } else {
        let bytes = encode_utf8(text);
        let rest = text.drop_first();
        let w = width(text[0]);
        lemma_width_bounds(text[0]);
        encode_utf8_first_scalar(text);
        assert(pop_first_scalar(bytes) =~= encode_utf8(rest));
        assert(bytes.len() == w + encode_utf8(rest).len());
        if offset == 0 {
            assert(encode_utf8(text.take(0)) =~= Seq::<u8>::empty());
        } else {
            assert(is_char_boundary(encode_utf8(rest), offset - w));
            assert(offset >= w);
            lemma_chars_before_fill(rest, offset - w);
            let count = chars_before(rest, offset - w) as int;
            assert(text.take(count + 1).drop_first() =~= rest.take(count));
            assert(text.take(count + 1)[0] == text[0]);
        }
    }
}

/// The characters between two character offsets are the characters whose
/// bytes lie between the byte offsets that the two stand for.
pub proof fn lemma_span_text(text: Seq<char>, start: int, end: int)
    requires
        0 <= start <= end <= encode_utf8(text).len(),
        is_char_boundary(encode_utf8(text), start),
        is_char_boundary(encode_utf8(text), end),
    ensures
        chars_before(text, start) <= chars_before(text, end) <= text.len(),
        encode_utf8(
            text.subrange(chars_before(text, start) as int, chars_before(text, end) as int),
        ) == encode_utf8(text).subrange(start, end),
{
    let from = chars_before(text, start) as int;
    let to = chars_before(text, end) as int;
    lemma_chars_before_monotonic(text, start, end);
    lemma_chars_before_fill(text, start);
    lemma_chars_before_fill(text, end);
    let head = text.take(from);
    let middle = text.subrange(from, to);
    let tail = text.skip(to);
    assert(text.take(to) =~= head + middle);
    assert(text =~= text.take(to) + tail);
    lemma_encode_concat(head, middle);
    lemma_encode_concat(text.take(to), tail);
    assert(encode_utf8(middle) =~= encode_utf8(text).subrange(start, end));
}

/// Moving one byte further counts one more character exactly where the new
/// offset is a character boundary.
proof fn lemma_chars_before_step(text: Seq<char>, offset: int)
    requires
        0 <= offset < encode_utf8(text).len(),
    ensures
        chars_before(text, offset + 1) == chars_before(text, offset) + if is_char_boundary(
            encode_utf8(text),
            offset + 1,
        ) {
            1nat
        } else {
            0nat
        },
    decreases text.len(),
{
    broadcast use encode_utf8_valid_utf8;

    let bytes = encode_utf8(text);
    let rest = text.drop_first();
    let w = width(text[0]);
    lemma_width_bounds(text[0]);
    encode_utf8_first_scalar(text);
    assert(pop_first_scalar(bytes) =~= encode_utf8(rest));
    assert(bytes.len() == w + encode_utf8(rest).len());
    assert(is_char_boundary(bytes, offset + 1) == is_char_boundary(
        encode_utf8(rest),
        offset + 1 - w,
    ));
    if offset + 1 < w {
        assert(!is_char_boundary(encode_utf8(rest), offset + 1 - w));
        assert(chars_before(text, offset + 1) == 0);
        assert(chars_before(text, offset) == 0);
    } else if offset + 1 == w {
        if rest.len() > 0 {
            lemma_width_bounds(rest[0]);
        }
        assert(is_char_boundary(encode_utf8(rest), 0));
        assert(chars_before(rest, 0) == 0);
        assert(chars_before(text, offset) == 0);
        assert(chars_before(text, offset + 1) == 1);
    } else {
        lemma_chars_before_step(rest, offset - w);
    }
}

/// The table that turns a byte offset into `text` into a character offset:
/// entry `offset` holds the number of characters that end at or before that
/// byte.
pub fn char_offsets(text: &str) -> (table: Vec<usize>)
    ensures
        table.len() == text.spec_bytes().len() + 1,
        forall|offset: int|
            0 <= offset < table.len() ==> table[offset] == chars_before(text@, offset),
{
    let n = text.as_bytes().len();
    let mut table: Vec<usize> = Vec::new();
    let mut count: usize = 0;
    let mut offset: usize = 0;
    table.push(0);
    proof {
        lemma_chars_before_bound(text@, 0);
    }
    while offset < n
        invariant
            n == text.spec_bytes().len(),
            offset <= n,
            table.len() == offset + 1,
            count == chars_before(text@, offset as int),
            forall|at: int| 0 <= at < table.len() ==> table[at] == chars_before(text@, at),
        decreases n - offset,
    {
        proof {
            lemma_chars_before_step(text@, offset as int);
            lemma_chars_before_bound(text@, offset + 1);
        }
        offset += 1;
        if text.is_char_boundary(offset) {
            count += 1;
        }
        table.push(count);
    }
    table
}

} // verus!
