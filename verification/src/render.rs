//! The render loop: the characters of a line, interleaved with the color
//! changes that the events of each position ask for.

use crate::color::{foreground_code, reset_code, reset_color, set_foreground, Color};
use crate::resolver::EventIndex;
use crate::stack::{remove_last, Stack};
use crate::style::{Operation, Style};
use vstd::prelude::*;
use vstd::string::*;

verus! {

/// One thing that is written to the output: a character of the line, or one
/// of the two color controls.
#[derive(Clone, Copy, Debug, PartialEq, Eq, Structural)]
pub enum Piece {
    /// A character of the line.
    Text(char),
    /// Selects a foreground color.
    SetForeground(Color),
    /// Goes back to the default colors.
    Reset,
}

/// The controls that select each color of `stack` in turn, from the first
/// pushed to the last, so that the last one is the visible one.
pub open spec fn replay(stack: Seq<Color>) -> Seq<Piece> {
    stack.map_values(|color: Color| Piece::SetForeground(color))
}

/// The stack once `style` is applied to `stack`: a start pushes its color, an
/// end removes the last pushed entry of its color.
pub open spec fn stack_after(stack: Seq<Color>, style: Style) -> Seq<Color> {
    match style.operation {
        Operation::Start => stack.push(style.color),
        Operation::End => remove_last(stack, style.color),
    }
}

/// What is written when `style` is applied to `stack`: for a start its color;
/// for an end a reset and then every color that is still on the stack.
pub open spec fn emitted(stack: Seq<Color>, style: Style) -> Seq<Piece> {
    match style.operation {
        Operation::Start => seq![Piece::SetForeground(style.color)],
        Operation::End => seq![Piece::Reset] + replay(remove_last(stack, style.color)),
    }
}

/// The stack once `styles` are applied to `stack` one after the other.
pub open spec fn stack_after_all(stack: Seq<Color>, styles: Seq<Style>) -> Seq<Color>
    decreases styles.len(),
{
    if styles.len() == 0 {
        stack
    } else {
        stack_after(stack_after_all(stack, styles.drop_last()), styles.last())
    }
}

/// What is written while `styles` are applied to `stack` one after the other.
pub open spec fn emitted_all(stack: Seq<Color>, styles: Seq<Style>) -> Seq<Piece>
    decreases styles.len(),
{
    if styles.len() == 0 {
        Seq::empty()
    } else {
        emitted_all(stack, styles.drop_last()) + emitted(
            stack_after_all(stack, styles.drop_last()),
            styles.last(),
        )
    }
}

/// The styles that `index` holds for `position`; none where it has no such
/// position.
pub open spec fn styles_of(index: Seq<Seq<Style>>, position: int) -> Seq<Style> {
    if 0 <= position < index.len() {
        index[position]
    } else {
        Seq::empty()
    }
}

/// The color stack once the events of the first `count` positions have been
/// applied, starting from the empty stack.
pub open spec fn stack_at(index: Seq<Seq<Style>>, count: nat) -> Seq<Color>
    decreases count,
{
    if count == 0 {
        Seq::empty()
    } else {
        stack_after_all(stack_at(index, (count - 1) as nat), styles_of(index, count - 1))
    }
}

/// What is written for the first `count` characters of `line`: before each
/// character what the events of its position emit, then the character.
pub open spec fn rendered_to(index: Seq<Seq<Style>>, line: Seq<char>, count: nat) -> Seq<Piece>
    decreases count,
{
    if count == 0 {
        Seq::empty()
    } else {
        rendered_to(index, line, (count - 1) as nat) + emitted_all(
            stack_at(index, (count - 1) as nat),
            styles_of(index, count - 1),
        ) + seq![Piece::Text(line[count - 1])]
    }
}

/// What is written for `line` under the event index `index`. Events at a
/// position behind the last character are not applied.
pub open spec fn rendered(index: Seq<Seq<Style>>, line: Seq<char>) -> Seq<Piece> {
    rendered_to(index, line, line.len())
}

/// The text that stands for `piece` on a terminal.
pub open spec fn encoded_piece(piece: Piece) -> Seq<char> {
    match piece {
        Piece::Text(c) => seq![c],
        Piece::SetForeground(color) => foreground_code(color),
        Piece::Reset => reset_code(),
    }
}

/// The text that stands for `pieces` on a terminal.
pub open spec fn encoded(pieces: Seq<Piece>) -> Seq<char>
    decreases pieces.len(),
{
    if pieces.len() == 0 {
        Seq::empty()
    } else {
        encoded(pieces.drop_last()) + encoded_piece(pieces.last())
    }
}

/// Appending a character of the line is the same as appending the sequence
/// of that one piece.
proof fn lemma_push_text(pieces: Seq<Piece>, c: char)
    ensures
        pieces.push(Piece::Text(c)) == pieces + seq![Piece::Text(c)],
{
    assert(pieces.push(Piece::Text(c)) =~= pieces + seq![Piece::Text(c)]);
}

/// `String::push` appends the given character to the end of the string.
pub assume_specification[ String::push ](text: &mut String, c: char)
    ensures
        final(text)@ == old(text)@.push(c),
;

/// Applies one event: updates `stack` and appends to `pieces` what has to be
/// written. After an end the whole remaining stack is written again, since a
/// terminal knows no way to take back one color.
pub fn apply(stack: &mut Stack, pieces: &mut Vec<Piece>, style: Style)
    ensures
        final(stack)@ == stack_after(old(stack)@, style),
        final(pieces)@ == old(pieces)@ + emitted(old(stack)@, style),
{
    match style.operation {
        Operation::Start => {
            stack.push(style.color);
            pieces.push(Piece::SetForeground(style.color));
            assert(pieces@ =~= old(pieces)@ + emitted(old(stack)@, style));
        },
        Operation::End => {
            stack.pop(style.color);
            pieces.push(Piece::Reset);
            let items = stack.items();
            for i in 0..items.len()
                invariant
                    items@ == stack@,
                    pieces@ == old(pieces)@ + (seq![Piece::Reset] + replay(stack@.take(i as int))),
            {
                pieces.push(Piece::SetForeground(items[i]));
                assert(pieces@ =~= old(pieces)@ + (seq![Piece::Reset] + replay(
                    stack@.take(i + 1),
                )));
            }
            assert(stack@.take(stack@.len() as int) =~= stack@);
        },
    }
}

/// Walks `line` character by character. Before each character the events of
/// its position are applied in the order of the index; then the character is
/// written. Gives what was written and the color stack at the end of the
/// line.
pub fn render(index: &EventIndex, line: &str) -> (out: (Vec<Piece>, Stack))
    ensures
        out.0@ == rendered(index@, line@),
        out.1@ == stack_at(index@, line@.len()),
{
    let mut stack = Stack::new();
    let mut pieces: Vec<Piece> = Vec::new();
    let mut position: usize = 0;
    for c in it: line.chars()
        invariant
            it.seq() == line@,
            position <= index@.len(),
            position == it.index() || (position == index@.len() && position < it.index()),
            stack@ == stack_at(index@, it.index() as nat),
            pieces@ == rendered_to(index@, line@, it.index() as nat),
    {
        let ghost at = it.index();
        let ghost stack_before = stack@;
        let ghost pieces_before = pieces@;
        if let Some(styles) = index.get(position) {
            for j in 0..styles.len()
                invariant
                    styles@ == styles_of(index@, at),
                    stack@ == stack_after_all(stack_before, styles@.take(j as int)),
                    pieces@ == pieces_before + emitted_all(stack_before, styles@.take(j as int)),
            {
                apply(&mut stack, &mut pieces, styles[j]);
                proof {
                    assert(styles@.take(j + 1).drop_last() =~= styles@.take(j as int));
                    assert(pieces@ =~= pieces_before + emitted_all(
                        stack_before,
                        styles@.take(j + 1),
                    ));
                }
            }
            assert(styles@.take(styles.len() as int) =~= styles@);
            proof {
                index.lemma_len_fits();
            }
            position += 1;
        } else {
            assert(pieces@ =~= pieces_before + emitted_all(stack_before, styles_of(index@, at)));
        }
        pieces.push(Piece::Text(c));
        proof {
            lemma_push_text(pieces_before + emitted_all(stack_before, styles_of(index@, at)), c);
        }
    }
    (pieces, stack)
}

/// Writes `pieces` out as text: a character as itself, a color control as
/// its escape sequence.
pub fn encode(pieces: &Vec<Piece>) -> (text: String)
    ensures
        text@ == encoded(pieces@),
{
    let mut text = String::new();
    for i in 0..pieces.len()
        invariant
            text@ == encoded(pieces@.take(i as int)),
    {
        match pieces[i] {
            Piece::Text(c) => {
                text.push(c);
            },
            Piece::SetForeground(color) => {
                let code = set_foreground(color);
                text.append(code.as_str());
            },
            Piece::Reset => {
                let code = reset_color();
                text.append(code.as_str());
            },
        }
        proof {
            assert(pieces@.take(i + 1).drop_last() =~= pieces@.take(i as int));
        }
    }
    assert(pieces@.take(pieces.len() as int) =~= pieces@);
    text
}

} // verus!
