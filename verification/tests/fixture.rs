use crossterm::style::{ResetColor, SetForegroundColor};
use hl::{hl, Color, Opt, Opts};
use regex::Regex;

#[test]
fn lib_it_works_multi_line() {
    let opts = vec![
        Opt {
            color: Color::Red,
            regex: Regex::new("foo bar baz").unwrap(),
            index: 0,
        },
        Opt {
            color: Color::Blue,
            regex: Regex::new("ba").unwrap(),
            index: 1,
        },
        Opt {
            color: Color::Green,
            regex: Regex::new("bar").unwrap(),
            index: 2,
        },
    ];

    let input = "foo bar baz qux bar bar\nfoo bar\nqux baz\nbar\nfoo bar baz bar\n";
    let output = hl(&opts, input);

    let red = format!("{}", SetForegroundColor(crossterm::style::Color::Red));
    let green = format!("{}", SetForegroundColor(crossterm::style::Color::Green));
    let blue = format!("{}", SetForegroundColor(crossterm::style::Color::Blue));
    let reset = format!("{}", ResetColor);

    let expected = format!(
        "{red}foo {blue}{green}ba{reset}{red}{green}r{reset}{red} {blue}ba{reset}{red}z{reset} qux \
{blue}{green}ba{reset}{green}r{reset} {blue}{green}ba{reset}{green}r{reset}
foo {blue}{green}ba{reset}{green}r{reset}
qux {blue}ba{reset}z
{blue}{green}ba{reset}{green}r{reset}
{red}foo {blue}{green}ba{reset}{red}{green}r{reset}{red} {blue}ba{reset}{red}z{reset} {blue}{green}ba{reset}{green}r{reset}
",
        red = red,
        green = green,
        blue = blue,
        reset = reset
    );

    println!("Output:\n{}{}", &output, reset);
    println!("Expected:\n{}{}", &expected, reset);
    assert_eq!(output, expected);
}

#[test]
fn main_it_works_multi_line() {
    let opts = Opts {
        red: Some(("foo bar baz".to_string(), 0)),
        blue: Some(("ba".to_string(), 1)),
        green: Some(("bar".to_string(), 2)),
        ..Opts::default()
    };

    let input = "foo bar baz qux bar bar
foo bar
qux baz
bar
foo bar baz bar";
    let output = hl(&opts.compile().unwrap(), input);

    let red = format!("{}", SetForegroundColor(crossterm::style::Color::Red));
    let green = format!("{}", SetForegroundColor(crossterm::style::Color::Green));
    let blue = format!("{}", SetForegroundColor(crossterm::style::Color::Blue));
    let reset = format!("{}", ResetColor);

    let expected = format!(
        "{red}foo {blue}{green}ba{reset}{red}{green}r{reset}{red} {blue}ba{reset}{red}z{reset} qux {blue}{green}ba{reset}{green}r{reset} {blue}{green}ba{reset}{green}r{reset}
foo {blue}{green}ba{reset}{green}r{reset}
qux {blue}ba{reset}z
{blue}{green}ba{reset}{green}r{reset}
{red}foo {blue}{green}ba{reset}{red}{green}r{reset}{red} {blue}ba{reset}{red}z{reset} {blue}{green}ba{reset}{green}r",
        red = red,
        green = green,
        blue = blue,
        reset = reset
    );

    println!("Output:\n{}{}", &output, reset);
    println!("Expected:\n{}{}", &expected, reset);
    assert_eq!(output, expected);
}
