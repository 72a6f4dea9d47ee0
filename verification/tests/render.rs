use crossterm::style::{ResetColor, SetForegroundColor};
use hl::{apply, build_events, encode, hl, hl_line, render, resolve, Color, Opt, Piece, Stack, Style};
use regex::Regex;

fn opt(color: Color, pattern: &str, index: usize) -> Opt {
    Opt {
        color,
        regex: Regex::new(pattern).unwrap(),
        index,
    }
}

fn set(color: crossterm::style::Color) -> String {
    format!("{}", SetForegroundColor(color))
}

fn reset() -> String {
    format!("{}", ResetColor)
}

fn pieces_of(opts: &[Opt], line: &str) -> (Vec<Piece>, Stack) {
    let events = build_events(opts, line);
    let index = resolve(&events, line.chars().count());
    render(&index, line)
}

fn text(pieces: &mut Vec<Piece>, text: &str) {
    for c in text.chars() {
        pieces.push(Piece::Text(c));
    }
}

#[test]
fn reset_is_escape_bracket_zero_m() {
    assert_eq!(encode(&vec![Piece::Reset]), "\u{1b}[0m");
    assert_eq!(encode(&vec![Piece::Reset]), reset());
}

#[test]
fn named_colors_are_written_as_crossterm_writes_them() {
    let pairs = vec![
        (Color::Red, crossterm::style::Color::Red),
        (Color::Green, crossterm::style::Color::Green),
        (Color::Yellow, crossterm::style::Color::Yellow),
        (Color::Blue, crossterm::style::Color::Blue),
        (Color::Magenta, crossterm::style::Color::Magenta),
        (Color::Cyan, crossterm::style::Color::Cyan),
        (Color::White, crossterm::style::Color::White),
        (Color::AnsiValue(200), crossterm::style::Color::AnsiValue(200)),
        (
            Color::Rgb { r: 1, g: 20, b: 255 },
            crossterm::style::Color::Rgb { r: 1, g: 20, b: 255 },
        ),
    ];
    for (ours, theirs) in pairs {
        assert_eq!(encode(&vec![Piece::SetForeground(ours)]), set(theirs));
    }
    assert_eq!(encode(&vec![Piece::SetForeground(Color::Red)]), "\u{1b}[38;5;9m");
    assert_eq!(
        encode(&vec![Piece::SetForeground(Color::Rgb { r: 1, g: 20, b: 255 })]),
        "\u{1b}[38;2;1;20;255m"
    );
}

#[test]
fn encode_writes_pieces_in_order() {
    let pieces = vec![
        Piece::Text('a'),
        Piece::SetForeground(Color::Blue),
        Piece::Text('é'),
        Piece::Reset,
        Piece::Text('\n'),
    ];
    let expected = format!("a{}é{}\n", set(crossterm::style::Color::Blue), reset());
    assert_eq!(encode(&pieces), expected);
    assert_eq!(encode(&Vec::new()), "");
}

#[test]
fn apply_start_pushes_and_selects_the_color() {
    let mut stack = Stack::new();
    let mut pieces = vec![Piece::Text('x')];
    stack.push(Color::Red);
    apply(&mut stack, &mut pieces, Style::start(Color::Blue, 1));
    assert_eq!(stack.items(), &vec![Color::Red, Color::Blue]);
    assert_eq!(pieces, vec![Piece::Text('x'), Piece::SetForeground(Color::Blue)]);
}

#[test]
fn apply_end_resets_and_replays_the_remaining_stack() {
    let mut stack = Stack::new();
    let mut pieces = Vec::new();
    stack.push(Color::Red);
    stack.push(Color::Blue);
    stack.push(Color::Green);
    apply(&mut stack, &mut pieces, Style::end(Color::Blue, 1));
    assert_eq!(stack.items(), &vec![Color::Red, Color::Green]);
    assert_eq!(
        pieces,
        vec![
            Piece::Reset,
            Piece::SetForeground(Color::Red),
            Piece::SetForeground(Color::Green),
        ]
    );
}

#[test]
fn apply_end_of_absent_color_still_resets_and_replays() {
    let mut stack = Stack::new();
    let mut pieces = Vec::new();
    stack.push(Color::Red);
    apply(&mut stack, &mut pieces, Style::end(Color::Cyan, 0));
    assert_eq!(stack.items(), &vec![Color::Red]);
    assert_eq!(pieces, vec![Piece::Reset, Piece::SetForeground(Color::Red)]);
}

#[test]
fn no_match_identity() {
    let opts = vec![opt(Color::Red, "zzz", 0), opt(Color::Blue, "[0-9]+", 1)];
    assert_eq!(hl_line(&opts, "foo bar baz\n"), "foo bar baz\n");
    assert_eq!(hl_line(&[], "foo é bar"), "foo é bar");
    assert_eq!(hl_line(&opts, ""), "");
    let (pieces, stack) = pieces_of(&opts, "ab");
    assert_eq!(pieces, vec![Piece::Text('a'), Piece::Text('b')]);
    assert!(stack.items().is_empty());
}

#[test]
fn single_match() {
    let opts = vec![opt(Color::Yellow, "bar", 0)];
    let expected = format!(
        "foo {}bar{} baz\n",
        set(crossterm::style::Color::Yellow),
        reset()
    );
    assert_eq!(hl_line(&opts, "foo bar baz\n"), expected);
}

#[test]
fn single_match_behind_wide_characters() {
    let opts = vec![opt(Color::Magenta, "bar", 0)];
    let expected = format!(
        "é€𝄞 {}bar{} é\n",
        set(crossterm::style::Color::Magenta),
        reset()
    );
    assert_eq!(hl_line(&opts, "é€𝄞 bar é\n"), expected);
}

#[test]
fn match_of_wide_characters() {
    let opts = vec![opt(Color::Cyan, "é+", 0)];
    let expected = format!("x{}éé{}y", set(crossterm::style::Color::Cyan), reset());
    assert_eq!(hl_line(&opts, "xééy"), expected);
}

#[test]
fn match_up_to_the_end_of_the_line_is_not_closed() {
    let opts = vec![opt(Color::Red, "bar", 0)];
    let expected = format!("foo {}bar", set(crossterm::style::Color::Red));
    assert_eq!(hl_line(&opts, "foo bar"), expected);
    let (_, stack) = pieces_of(&opts, "foo bar");
    assert_eq!(stack.items(), &vec![Color::Red]);
}

#[test]
fn properly_nested_matches() {
    let opts = vec![opt(Color::Red, "foo bar baz", 0), opt(Color::Green, "bar", 1)];
    let red = set(crossterm::style::Color::Red);
    let green = set(crossterm::style::Color::Green);
    let expected = format!(
        "{red}foo {green}bar{reset}{red} baz{reset}\n",
        red = red,
        green = green,
        reset = reset()
    );
    assert_eq!(hl_line(&opts, "foo bar baz\n"), expected);
    let swapped = vec![opt(Color::Green, "bar", 1), opt(Color::Red, "foo bar baz", 0)];
    assert_eq!(hl_line(&swapped, "foo bar baz\n"), expected);
}

#[test]
fn partial_overlap_in_priority_order() {
    let opts = vec![
        opt(Color::Red, "foo bar baz", 0),
        opt(Color::Blue, "ba", 1),
        opt(Color::Green, "bar", 2),
    ];
    let (pieces, stack) = pieces_of(&opts, "foo bar baz\n");
    let mut expected = vec![Piece::SetForeground(Color::Red)];
    text(&mut expected, "foo ");
    expected.push(Piece::SetForeground(Color::Blue));
    expected.push(Piece::SetForeground(Color::Green));
    text(&mut expected, "ba");
    expected.push(Piece::Reset);
    expected.push(Piece::SetForeground(Color::Red));
    expected.push(Piece::SetForeground(Color::Green));
    text(&mut expected, "r");
    expected.push(Piece::Reset);
    expected.push(Piece::SetForeground(Color::Red));
    text(&mut expected, " ");
    expected.push(Piece::SetForeground(Color::Blue));
    text(&mut expected, "ba");
    expected.push(Piece::Reset);
    expected.push(Piece::SetForeground(Color::Red));
    text(&mut expected, "z");
    expected.push(Piece::Reset);
    text(&mut expected, "\n");
    assert_eq!(pieces, expected);
    assert!(stack.items().is_empty());

    let red = set(crossterm::style::Color::Red);
    let green = set(crossterm::style::Color::Green);
    let blue = set(crossterm::style::Color::Blue);
    let shown = format!(
        "{red}foo {blue}{green}ba{reset}{red}{green}r{reset}{red} {blue}ba{reset}{red}z{reset}\n",
        red = red,
        green = green,
        blue = blue,
        reset = reset()
    );
    assert_eq!(hl_line(&opts, "foo bar baz\n"), shown);
}

#[test]
fn coincident_starts_follow_priority_not_pattern_order() {
    let line = "foo bar baz\n";
    let declared = vec![
        opt(Color::Red, "foo bar baz", 0),
        opt(Color::Blue, "ba", 1),
        opt(Color::Green, "bar", 2),
    ];
    let shuffled = vec![
        opt(Color::Green, "bar", 2),
        opt(Color::Blue, "ba", 1),
        opt(Color::Red, "foo bar baz", 0),
    ];
    assert_eq!(hl_line(&declared, line), hl_line(&shuffled, line));
    assert_eq!(hl_line(&declared, line), hl_line(&declared, line));
    // With the priorities of blue and green exchanged, green comes first.
    let exchanged = vec![
        opt(Color::Red, "foo bar baz", 0),
        opt(Color::Blue, "ba", 2),
        opt(Color::Green, "bar", 1),
    ];
    let green = set(crossterm::style::Color::Green);
    let blue = set(crossterm::style::Color::Blue);
    assert!(hl_line(&exchanged, line).contains(&format!("{}{}ba", green, blue)));
    assert!(hl_line(&declared, line).contains(&format!("{}{}ba", blue, green)));
}

#[test]
fn stack_is_empty_after_a_line_whose_matches_end_in_it() {
    let opts = vec![
        opt(Color::Red, "foo bar baz", 0),
        opt(Color::Blue, "ba", 1),
        opt(Color::Green, "bar", 2),
        opt(Color::Cyan, "x*", 3),
    ];
    for line in ["foo bar baz qux bar bar\n", "qux baz\n", "\n", "bar\n"] {
        let (_, stack) = pieces_of(&opts, line);
        assert!(stack.items().is_empty());
    }
}

#[test]
fn zero_length_match_changes_no_visible_color() {
    let opts = vec![opt(Color::Red, "foo", 0), opt(Color::Blue, "x*", 1)];
    let (pieces, stack) = pieces_of(&opts, "fo");
    // No match of "foo"; the empty matches at 0 and 1 toggle blue on and off.
    assert_eq!(
        pieces,
        vec![
            Piece::SetForeground(Color::Blue),
            Piece::Reset,
            Piece::Text('f'),
            Piece::SetForeground(Color::Blue),
            Piece::Reset,
            Piece::Text('o'),
        ]
    );
    assert!(stack.items().is_empty());

    // Inside a red span the toggle is followed by red again.
    let inside = vec![opt(Color::Red, "ab", 0), opt(Color::Blue, "x*", 1)];
    let (pieces, _) = pieces_of(&inside, "ab\n");
    assert_eq!(
        pieces,
        vec![
            Piece::SetForeground(Color::Red),
            Piece::SetForeground(Color::Blue),
            Piece::Reset,
            Piece::SetForeground(Color::Red),
            Piece::Text('a'),
            Piece::SetForeground(Color::Blue),
            Piece::Reset,
            Piece::SetForeground(Color::Red),
            Piece::Text('b'),
            Piece::Reset,
            Piece::SetForeground(Color::Blue),
            Piece::Reset,
            Piece::Text('\n'),
        ]
    );
}

#[test]
fn render_ignores_positions_that_the_index_lacks() {
    let events = build_events(&[opt(Color::Red, "a", 0)], "aaa");
    let index = resolve(&events, 1);
    let (pieces, stack) = render(&index, "aaa");
    assert_eq!(
        pieces,
        vec![
            Piece::SetForeground(Color::Red),
            Piece::Text('a'),
            Piece::Text('a'),
            Piece::Text('a'),
        ]
    );
    assert_eq!(stack.items(), &vec![Color::Red]);
}

#[test]
fn hl_treats_every_line_by_itself() {
    let opts = vec![opt(Color::Red, "a\\s*b", 0)];
    let red = set(crossterm::style::Color::Red);
    // The pattern could match across the line feed, but lines are matched
    // one by one.
    assert_eq!(hl(&opts, "a\nb\n"), "a\nb\n");
    let expected = format!("{red}a b{reset}\n{red}ab{reset}\nb", red = red, reset = reset());
    assert_eq!(hl(&opts, "a b\nab\nb"), expected);
    assert_eq!(hl(&opts, ""), "");
    assert_eq!(hl(&opts, "\n\n"), "\n\n");
}

#[test]
fn hl_is_the_lines_of_hl_line_in_a_row() {
    let opts = vec![
        opt(Color::Red, "foo bar baz", 0),
        opt(Color::Blue, "ba", 1),
        opt(Color::Green, "bar", 2),
    ];
    let lines = ["foo bar baz qux bar bar\n", "foo bar\n", "é bar\n", "foo bar baz bar"];
    let mut input = String::new();
    let mut expected = String::new();
    for line in lines {
        input.push_str(line);
        expected.push_str(&hl_line(&opts, line));
    }
    assert_eq!(hl(&opts, &input), expected);
}
