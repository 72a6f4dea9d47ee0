use hl::offsets::char_offsets;
use hl::{build_events, resolve, Color, Event, Operation, Opt, Style};
use regex::Regex;

fn opt(color: Color, pattern: &str, index: usize) -> Opt {
    Opt {
        color,
        regex: Regex::new(pattern).unwrap(),
        index,
    }
}

fn start(position: usize, color: Color, order: usize) -> Event {
    Event {
        position,
        style: Style::start(color, order),
    }
}

fn end(position: usize, color: Color, order: usize) -> Event {
    Event {
        position,
        style: Style::end(color, order),
    }
}

#[test]
fn style_constructors_set_the_operation() {
    let opened = Style::start(Color::Cyan, 3);
    assert_eq!(opened.operation, Operation::Start);
    assert_eq!(opened.color, Color::Cyan);
    assert_eq!(opened.order, 3);
    let closed = Style::end(Color::Cyan, 3);
    assert_eq!(closed.operation, Operation::End);
    assert_eq!(closed.color, Color::Cyan);
    assert_eq!(closed.order, 3);
}

#[test]
fn char_offsets_count_characters_not_bytes() {
    // 'a' is one byte, 'é' two, '€' three, '𝄞' four.
    let table = char_offsets("aé€𝄞b");
    assert_eq!(table.len(), 1 + 2 + 3 + 4 + 1 + 1);
    assert_eq!(table[0], 0);
    assert_eq!(table[1], 1);
    assert_eq!(table[3], 2);
    assert_eq!(table[6], 3);
    assert_eq!(table[10], 4);
    assert_eq!(table[11], 5);
    // Inside a character the count is that of the characters before it.
    assert_eq!(table[2], 1);
    assert_eq!(table[8], 3);
}

#[test]
fn char_offsets_of_empty_text() {
    assert_eq!(char_offsets(""), vec![0]);
}

#[test]
fn events_come_pattern_by_pattern_and_match_by_match() {
    let opts = vec![opt(Color::Green, "bar", 2), opt(Color::Blue, "ba", 1)];
    let events = build_events(&opts, "bar baz");
    assert_eq!(
        events,
        vec![
            start(0, Color::Green, 2),
            end(3, Color::Green, 2),
            start(0, Color::Blue, 1),
            end(2, Color::Blue, 1),
            start(4, Color::Blue, 1),
            end(6, Color::Blue, 1),
        ]
    );
}

#[test]
fn events_use_character_offsets() {
    let opts = vec![opt(Color::Red, "bar", 0)];
    let events = build_events(&opts, "é€ bar");
    assert_eq!(events, vec![start(3, Color::Red, 0), end(6, Color::Red, 0)]);
}

#[test]
fn zero_length_match_gives_start_then_end_at_one_offset() {
    let opts = vec![opt(Color::Red, "x*", 0)];
    let events = build_events(&opts, "ab");
    assert_eq!(
        events,
        vec![
            start(0, Color::Red, 0),
            end(0, Color::Red, 0),
            start(1, Color::Red, 0),
            end(1, Color::Red, 0),
            start(2, Color::Red, 0),
            end(2, Color::Red, 0),
        ]
    );
}

#[test]
fn no_match_gives_no_events() {
    let opts = vec![opt(Color::Red, "zzz", 0), opt(Color::Blue, "q", 1)];
    assert!(build_events(&opts, "foo bar").is_empty());
    assert!(build_events(&[], "foo bar").is_empty());
}

#[test]
fn resolve_groups_by_position_and_orders_by_priority() {
    let events = vec![
        start(1, Color::Green, 2),
        end(3, Color::Green, 2),
        start(1, Color::Blue, 1),
        end(3, Color::Blue, 1),
        start(1, Color::Red, 0),
    ];
    let index = resolve(&events, 4);
    assert_eq!(index.len(), 4);
    assert!(index.get(0).unwrap().is_empty());
    assert_eq!(
        index.get(1).unwrap(),
        &vec![
            Style::start(Color::Red, 0),
            Style::start(Color::Blue, 1),
            Style::start(Color::Green, 2),
        ]
    );
    assert!(index.get(2).unwrap().is_empty());
    assert_eq!(
        index.get(3).unwrap(),
        &vec![Style::end(Color::Blue, 1), Style::end(Color::Green, 2)]
    );
}

#[test]
fn resolve_keeps_the_order_within_one_priority() {
    // An end and the next start of one pattern at one position, and the
    // pair of a match of length zero, stay in the order of the list.
    let events = vec![
        end(2, Color::Blue, 1),
        start(2, Color::Blue, 1),
        start(2, Color::Red, 0),
        end(2, Color::Red, 0),
        start(2, Color::Cyan, 1),
    ];
    let index = resolve(&events, 3);
    assert_eq!(
        index.get(2).unwrap(),
        &vec![
            Style::start(Color::Red, 0),
            Style::end(Color::Red, 0),
            Style::end(Color::Blue, 1),
            Style::start(Color::Blue, 1),
            Style::start(Color::Cyan, 1),
        ]
    );
}

#[test]
fn resolve_leaves_out_events_behind_the_line() {
    let events = vec![start(1, Color::Red, 0), end(3, Color::Red, 0)];
    let index = resolve(&events, 3);
    assert_eq!(index.len(), 3);
    assert_eq!(index.get(1).unwrap(), &vec![Style::start(Color::Red, 0)]);
    assert!(index.get(0).unwrap().is_empty());
    assert!(index.get(2).unwrap().is_empty());
}

#[test]
fn resolved_order_does_not_depend_on_the_order_of_the_patterns() {
    let line = "foo bar baz";
    let one = vec![
        opt(Color::Red, "foo bar baz", 0),
        opt(Color::Blue, "ba", 1),
        opt(Color::Green, "bar", 2),
    ];
    let other = vec![
        opt(Color::Green, "bar", 2),
        opt(Color::Red, "foo bar baz", 0),
        opt(Color::Blue, "ba", 1),
    ];
    let first = resolve(&build_events(&one, line), line.len());
    let second = resolve(&build_events(&other, line), line.len());
    for position in 0..line.len() {
        assert_eq!(first.get(position).unwrap(), second.get(position).unwrap());
    }
}
