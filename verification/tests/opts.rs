use hl::{hl, Color, Opts};

#[test]
fn default_has_no_patterns() {
    let opts = Opts::default();
    assert!(opts.patterns().is_empty());
    assert!(opts.compile().unwrap().is_empty());
}

#[test]
fn patterns_are_listed_in_the_order_of_the_colors() {
    let opts = Opts {
        white: Some(("w".to_string(), 7)),
        red: Some(("r".to_string(), 3)),
        cyan: Some(("c".to_string(), 1)),
        magenta: Some(("m".to_string(), 5)),
        blue: Some(("b".to_string(), 9)),
        yellow: Some(("y".to_string(), 11)),
        green: Some(("g".to_string(), 13)),
    };
    let listed: Vec<(Color, String, usize)> = opts
        .patterns()
        .into_iter()
        .map(|(color, pattern)| (color, pattern.0.clone(), pattern.1))
        .collect();
    assert_eq!(
        listed,
        vec![
            (Color::Red, "r".to_string(), 3),
            (Color::Green, "g".to_string(), 13),
            (Color::Yellow, "y".to_string(), 11),
            (Color::Blue, "b".to_string(), 9),
            (Color::Magenta, "m".to_string(), 5),
            (Color::Cyan, "c".to_string(), 1),
            (Color::White, "w".to_string(), 7),
        ]
    );
}

#[test]
fn absent_colors_are_left_out() {
    let opts = Opts {
        blue: Some(("ba".to_string(), 1)),
        green: Some(("bar".to_string(), 2)),
        ..Opts::default()
    };
    let patterns = opts.patterns();
    assert_eq!(patterns.len(), 2);
    assert_eq!(patterns[0].0, Color::Green);
    assert_eq!(patterns[1].0, Color::Blue);
}

#[test]
fn compile_keeps_color_and_priority_and_compiles_the_source() {
    let opts = Opts {
        blue: Some(("b+a".to_string(), 4)),
        red: Some(("fo*".to_string(), 2)),
        ..Opts::default()
    };
    let compiled = opts.compile().unwrap();
    assert_eq!(compiled.len(), 2);
    assert_eq!(compiled[0].color, Color::Red);
    assert_eq!(compiled[0].index, 2);
    assert_eq!(compiled[0].regex.as_str(), "fo*");
    assert!(compiled[0].regex.is_match("fooo"));
    assert_eq!(compiled[1].color, Color::Blue);
    assert_eq!(compiled[1].index, 4);
    assert_eq!(compiled[1].regex.as_str(), "b+a");
}

#[test]
fn compile_names_the_first_invalid_pattern() {
    let opts = Opts {
        red: Some(("ok".to_string(), 0)),
        yellow: Some(("(unclosed".to_string(), 1)),
        white: Some(("[also bad".to_string(), 2)),
        ..Opts::default()
    };
    let error = opts.compile().unwrap_err();
    assert_eq!(error.pattern, "(unclosed");
}

#[test]
fn compiled_patterns_highlight() {
    let opts = Opts {
        green: Some(("b.r".to_string(), 0)),
        ..Opts::default()
    };
    let output = hl(&opts.compile().unwrap(), "foo bar\n");
    assert_eq!(output, "foo \u{1b}[38;5;10mbar\u{1b}[0m\n");
}
