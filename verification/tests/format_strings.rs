use snafu_bounds::format::{
    argument, consume_count, name_argument, parse_format, Argument, FormatTrait,
};

fn uses(s: &str) -> Vec<(Argument, &'static str)> {
    parse_format(s)
        .unwrap()
        .into_iter()
        .map(|(a, t)| (a, t.name()))
        .collect()
}

#[test]
fn format_arguments_and_flags() {
    assert_eq!(
        uses("{{}} {0} {0:#?} {name:\u{1F980}^+#018.2x} {0:x?}"),
        vec![
            (Argument::Position(0), "Display"),
            (Argument::Position(0), "Debug"),
            (Argument::Name("name".into()), "LowerHex"),
            (Argument::Position(0), "Debug"),
        ]
    );
    assert_eq!(
        uses("{:.*} {} {2:.width$E}"),
        vec![
            (Argument::Position(1), "Display"),
            (Argument::Position(2), "Display"),
            (Argument::Position(2), "UpperExp"),
        ]
    );
}

#[test]
fn text_without_braces_has_no_uses() {
    assert_eq!(uses("operation failed"), vec![]);
    assert_eq!(uses(""), vec![]);
}

#[test]
fn escaped_braces_use_nothing() {
    assert_eq!(uses("{{}}"), vec![]);
    assert_eq!(uses("{{{}}}"), vec![(Argument::Position(0), "Display")]);
    assert_eq!(uses("{{{1:.*}}}"), vec![(Argument::Position(1), "Display")]);
}

#[test]
fn empty_placeholders_take_consecutive_positions() {
    assert_eq!(
        uses("{}{}{}"),
        vec![
            (Argument::Position(0), "Display"),
            (Argument::Position(1), "Display"),
            (Argument::Position(2), "Display"),
        ]
    );
    // An explicit position does not move the implicit one.
    assert_eq!(
        uses("{5} {}"),
        vec![
            (Argument::Position(5), "Display"),
            (Argument::Position(0), "Display"),
        ]
    );
}

#[test]
fn every_format_type_selects_its_trait() {
    let cases = [
        ("{:?}", FormatTrait::Debug),
        ("{:x?}", FormatTrait::Debug),
        ("{:X?}", FormatTrait::Debug),
        ("{:x}", FormatTrait::LowerHex),
        ("{:X}", FormatTrait::UpperHex),
        ("{:o}", FormatTrait::Octal),
        ("{:b}", FormatTrait::Binary),
        ("{:p}", FormatTrait::Pointer),
        ("{:e}", FormatTrait::LowerExp),
        ("{:E}", FormatTrait::UpperExp),
        ("{}", FormatTrait::Display),
    ];
    for (s, t) in cases {
        assert_eq!(parse_format(s).unwrap(), vec![(Argument::Position(0), t)], "{s}");
    }
}

#[test]
fn flags_width_and_precision_are_skipped() {
    assert_eq!(uses("{v:>8}"), vec![(Argument::Name("v".into()), "Display")]);
    assert_eq!(uses("{v:*<8.3}"), vec![(Argument::Name("v".into()), "Display")]);
    assert_eq!(uses("{v:-#010b}"), vec![(Argument::Name("v".into()), "Binary")]);
    assert_eq!(uses("{v:0$}"), vec![(Argument::Name("v".into()), "Display")]);
    assert_eq!(uses("{v:w$.p$e}"), vec![(Argument::Name("v".into()), "LowerExp")]);
    // Trailing whitespace in the argument and the spec is ignored.
    assert_eq!(uses("{v :? }"), vec![(Argument::Name("v".into()), "Debug")]);
}

#[test]
fn unreadable_format_strings_are_refused() {
    for s in [
        "}",
        "{",
        "{0",
        "{:y}",
        "{:.}",
        "{:.x}",
        "{_}",
        "{r#type}",
        "{1a}",
        "{99999999999999999999999}",
        "{:w-$}",
        "a } b",
    ] {
        assert_eq!(parse_format(s), Err(()), "{s}");
    }
}

#[test]
fn keywords_are_accepted_as_names() {
    assert_eq!(uses("{type}"), vec![(Argument::Name("type".into()), "Display")]);
}

#[test]
fn argument_reads_positions_and_names() {
    assert_eq!(argument("42"), Ok(Argument::Position(42)));
    assert_eq!(argument("007"), Ok(Argument::Position(7)));
    assert_eq!(argument("width"), Ok(Argument::Name("width".into())));
    assert_eq!(argument(""), Err(()));
    assert_eq!(argument("_"), Err(()));
    assert_eq!(argument("r#x"), Err(()));
    assert_eq!(argument("a b"), Err(()));
    assert_eq!(argument("18446744073709551616"), Err(()));
}

#[test]
fn consume_count_skips_one_count() {
    assert_eq!(consume_count("12x"), Ok("x"));
    assert_eq!(consume_count("width$.2"), Ok(".2"));
    assert_eq!(consume_count("0$x"), Ok("x"));
    assert_eq!(consume_count(".5"), Ok(".5"));
    assert_eq!(consume_count("x"), Ok("x"));
    assert_eq!(consume_count("a.b$"), Ok("a.b$"));
    assert_eq!(consume_count("_$"), Err(()));
}

#[test]
fn name_argument_decides_from_the_lexing() {
    assert_eq!(name_argument("width", true), Ok(Argument::Name("width".into())));
    assert_eq!(name_argument("width", false), Err(()));
    assert_eq!(name_argument("_", true), Err(()));
    assert_eq!(name_argument("r#type", true), Err(()));
    assert_eq!(name_argument("r", true), Ok(Argument::Name("r".into())));
}

#[test]
fn text_without_braces_around_a_format_changes_nothing() {
    for s in ["{} {x:?}", "{{}} {0:.*}", "{", "a } b", "{:y}", ""] {
        let alone = parse_format(s);
        for t in ["", "plain text", "width: 3.5$"] {
            assert_eq!(parse_format(&format!("{t}{s}")), alone, "{t}{s}");
            assert_eq!(parse_format(&format!("{s}{t}")), alone, "{s}{t}");
        }
    }
}

#[test]
fn consume_count_again_skips_nothing() {
    for s in ["12x", ".5", "x", "a.b$", "", "123", "7.2$"] {
        let once = consume_count(s).unwrap();
        assert_eq!(consume_count(once), Ok(once), "{s}");
    }
}

#[test]
fn star_precision_takes_the_next_position() {
    assert_eq!(
        uses("{:.*} {}"),
        vec![(Argument::Position(1), "Display"), (Argument::Position(2), "Display")]
    );
    assert_eq!(
        uses("{} {:.*}"),
        vec![(Argument::Position(0), "Display"), (Argument::Position(2), "Display")]
    );
}

#[test]
fn explicit_arguments_keep_the_cursor() {
    assert_eq!(
        uses("{name}{}{3}{}"),
        vec![
            (Argument::Name("name".into()), "Display"),
            (Argument::Position(0), "Display"),
            (Argument::Position(3), "Display"),
            (Argument::Position(1), "Display"),
        ]
    );
}

#[test]
fn accepted_arguments_are_not_empty() {
    assert_eq!(argument(""), Err(()));
    assert_eq!(argument(" "), Err(()));
}

#[test]
fn each_placeholder_gives_one_use() {
    // Counts and escapes add no use; one use per placeholder, in order.
    assert_eq!(
        uses("{a:w$.p$} {{x}} {:.*} {3:b}"),
        vec![
            (Argument::Name("a".into()), "Display"),
            (Argument::Position(1), "Display"),
            (Argument::Position(3), "Binary"),
        ]
    );
    // A `.*` precision takes the implicit position even with an explicit value.
    assert_eq!(
        uses("{0:.*} {}"),
        vec![(Argument::Position(0), "Display"), (Argument::Position(1), "Display")]
    );
}
