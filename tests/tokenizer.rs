use sks::command::{parse_command, Command};
use sks::format::{Format, OptSpan, Span, Token};
use sks::highlight::{Segment, Style};

fn strings(v: &[&str]) -> Vec<String> {
    v.iter().map(|s| s.to_string()).collect()
}

fn pairs(v: &[(&str, &str)]) -> Vec<(String, String)> {
    v.iter().map(|(k, x)| (k.to_string(), x.to_string())).collect()
}

#[test]
fn options_and_quoted_argument() {
    let c = parse_command(r#"ls -a --color=auto "my file""#);
    assert_eq!(c.name, "ls");
    assert_eq!(c.options, pairs(&[("a", "")]));
    assert_eq!(c.long_options, pairs(&[("color", "auto")]));
    assert_eq!(c.args, strings(&["my file"]));
}

#[test]
fn plain_arguments_without_options() {
    let c = parse_command("cp src dst");
    assert_eq!(c.name, "cp");
    assert_eq!(c.args, strings(&["src", "dst"]));
    assert!(c.options.is_empty());
    assert!(c.long_options.is_empty());
}

#[test]
fn blank_line_has_empty_name() {
    let c = parse_command("");
    assert_eq!(c.name, "");
    assert!(c.args.is_empty());
    let c = parse_command("   ");
    assert_eq!(c.name, "");
    assert!(c.args.is_empty());
}

#[test]
fn one_leading_blank_before_name() {
    let c = parse_command(" echo hi");
    assert_eq!(c.name, "echo");
    assert_eq!(c.args, strings(&["hi"]));
}

#[test]
fn short_option_takes_following_word() {
    let c = parse_command("grep -e pat file");
    assert_eq!(c.options, pairs(&[("e", "pat")]));
    assert_eq!(c.args, strings(&["file"]));
}

#[test]
fn unterminated_quote_runs_to_end() {
    let c = parse_command("echo \"abc  ");
    assert_eq!(c.args, strings(&["abc  "]));
}

#[test]
fn escaped_quote_stays_inside() {
    let c = parse_command(r#"echo "a\" b" c"#);
    assert_eq!(c.args, strings(&["a\" b", "c"]));
}

#[test]
fn repeated_text_keeps_offsets() {
    let f = Format::from("ab ab -ab");
    assert_eq!(f.get_name(), "ab");
    assert_eq!(f.get_args(), strings(&["ab"]));
    assert_eq!(f.get_options(), pairs(&[("ab", "")]));
    assert_eq!(
        f.tokens().clone(),
        vec![
            Token::Arg(Span { start: 3, end: 5 }),
            Token::Opt(OptSpan { long: false, start: 6, key: Span { start: 7, end: 9 }, value: Span { start: 9, end: 9 } }),
        ]
    );
    assert_eq!(f.len(), 9);
}

#[test]
fn lone_dash_is_an_argument() {
    let c = parse_command("cat - --");
    assert_eq!(c.args, strings(&["-", "--"]));
    assert!(c.options.is_empty());
}

#[test]
fn command_from_format() {
    let f = Format::from("git commit --message=hi -v");
    let c = Command::from(&f);
    assert_eq!(c.name, "git");
    assert_eq!(c.args, strings(&["commit"]));
    assert_eq!(c.long_options, pairs(&[("message", "hi")]));
    assert_eq!(c.options, pairs(&[("v", "")]));
    let d = f.to_command();
    assert_eq!(d.name, c.name);
    assert_eq!(f.get_long_options(), pairs(&[("message", "hi")]));
}

#[test]
fn round_trip_through_line() {
    let c = Command {
        name: "tar".to_string(),
        args: strings(&["out.tar", "dir"]),
        options: pairs(&[("x", ""), ("f", "a.tar")]),
        long_options: pairs(&[("verbose", ""), ("level", "9")]),
    };
    let line = c.to_line();
    assert_eq!(line, "tar out.tar dir -x -f=a.tar --verbose --level=9");
    let back = parse_command(&line);
    assert_eq!(back.name, c.name);
    assert_eq!(back.args, c.args);
    assert_eq!(back.options, c.options);
    assert_eq!(back.long_options, c.long_options);
}

#[test]
fn highlight_segments_cover_line() {
    let f = Format::from("ls x -a");
    assert_eq!(
        f.highlight(None),
        vec![
            Segment { style: Style::Name, start: 0, end: 2 },
            Segment { style: Style::Plain, start: 2, end: 3 },
            Segment { style: Style::Arg, start: 3, end: 4 },
            Segment { style: Style::Plain, start: 4, end: 5 },
            Segment { style: Style::Key, start: 5, end: 7 },
        ]
    );
}

#[test]
fn highlight_stops_at_cursor() {
    let f = Format::from("ls x -a");
    assert_eq!(
        f.highlight(Some(4)),
        vec![
            Segment { style: Style::Name, start: 0, end: 2 },
            Segment { style: Style::Plain, start: 2, end: 3 },
            Segment { style: Style::Arg, start: 3, end: 4 },
        ]
    );
    assert_eq!(f.highlight(Some(1)), vec![Segment { style: Style::Name, start: 0, end: 1 }]);
    assert_eq!(f.highlight(Some(0)), vec![]);
}

#[test]
fn highlight_value_segment() {
    let f = Format::from("x --k=v");
    assert_eq!(
        f.highlight(None),
        vec![
            Segment { style: Style::Name, start: 0, end: 1 },
            Segment { style: Style::Plain, start: 1, end: 2 },
            Segment { style: Style::Key, start: 2, end: 5 },
            Segment { style: Style::Plain, start: 5, end: 6 },
            Segment { style: Style::Value, start: 6, end: 7 },
        ]
    );
}

#[test]
fn transform_without_colour_is_the_text() {
    colored::control::set_override(false);
    let f = Format::from("ls -a --color=auto x");
    assert_eq!(f.transform(None), "ls -a --color=auto x");
    assert_eq!(f.transform(Some(4)), "ls -");
    assert_eq!(f.transform(Some(100)), "ls -a --color=auto x");
}

#[test]
fn transform_with_colour_wraps_styled_text() {
    colored::control::set_override(true);
    let f = Format::from("ls x");
    let out = f.transform(None);
    assert_ne!(out, "ls x");
    assert!(out.contains("ls"));
    assert!(out.contains("\x1b[0m"));
    assert!(out.ends_with("x\x1b[0m"));
}

#[test]
fn negative_number_is_an_argument() {
    let c = parse_command("head -n -5");
    assert_eq!(c.options, pairs(&[("n", "")]));
    assert_eq!(c.args, strings(&["-5"]));
    assert_eq!(sks::command::exit_code(&parse_command("exit -3")), Ok(-3));
}

#[test]
fn any_whitespace_separates() {
    let c = parse_command("a\tb\nc\r d");
    assert_eq!(c.name, "a");
    assert_eq!(c.args, strings(&["b", "c", "d"]));
}

#[test]
fn quoted_option_value_loses_quotes() {
    let c = parse_command("git commit --message=\"two words\"");
    assert_eq!(c.long_options, pairs(&[("message", "two words")]));
}

#[test]
fn argument_with_space_round_trips() {
    let c = Command {
        name: "cp".to_string(),
        args: strings(&["my file", "dst"]),
        options: pairs(&[("r", "")]),
        long_options: vec![],
    };
    let line = c.to_line();
    assert_eq!(line, "cp \"my file\" dst -r");
    let back = parse_command(&line);
    assert_eq!(back.args, c.args);
    assert_eq!(back.options, c.options);
    let x = parse_command("x \"a b\"");
    assert_eq!(x.args, strings(&["a b"]));
}

#[test]
fn transform_codes_per_kind() {
    colored::control::set_override(true);
    let f = Format::from("ls x -k=v");
    assert_eq!(
        f.transform(None),
        "\x1b[92mls\x1b[0m \x1b[96mx\x1b[0m \x1b[1;93m-k\x1b[0m=\x1b[91mv\x1b[0m"
    );
    let g = Format::from("ls   x");
    assert_eq!(g.transform(Some(3)), "\x1b[92mls\x1b[0m ");
}

#[test]
fn unicode_whitespace_separates() {
    let c = parse_command("a\u{0C}b");
    assert_eq!(c.name, "a");
    assert_eq!(c.args, strings(&["b"]));
    let c = parse_command("ls\u{A0}x\u{2003}\u{0B}y");
    assert_eq!(c.name, "ls");
    assert_eq!(c.args, strings(&["x", "y"]));
}

#[test]
fn option_values_with_spaces_round_trip() {
    let c = Command {
        name: "git".to_string(),
        args: vec![],
        options: pairs(&[("x", "a-b")]),
        long_options: pairs(&[("message", "two words"), ("level", "9")]),
    };
    let line = c.to_line();
    assert_eq!(line, "git -x=\"a-b\" --message=\"two words\" --level=9");
    let back = parse_command(&line);
    assert_eq!(back.name, c.name);
    assert!(back.args.is_empty());
    assert_eq!(back.options, c.options);
    assert_eq!(back.long_options, c.long_options);
}
