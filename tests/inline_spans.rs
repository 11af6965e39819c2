use djot::{finalize, Annot, Container, Match, Parser};

fn parse(s: &str) -> Vec<Match> {
    let mut p = Parser::new(s.to_string());
    p.feed(0, s.len());
    p.get_matches()
}

fn open(c: Container) -> Annot {
    Annot::Open(c)
}

fn close(c: Container) -> Annot {
    Annot::Close(c)
}

#[test]
fn strong_pair() {
    assert_eq!(
        parse("*hi*"),
        vec![
            (0, 1, open(Container::Strong)),
            (1, 3, Annot::Str),
            (3, 4, close(Container::Strong)),
        ]
    );
}

#[test]
fn unmatched_star_is_literal() {
    assert_eq!(parse("no*match"), vec![(0, 8, Annot::Str)]);
}

#[test]
fn code_span() {
    assert_eq!(
        parse("`code`"),
        vec![
            (0, 1, open(Container::Verbatim)),
            (1, 5, Annot::Str),
            (5, 6, close(Container::Verbatim)),
        ]
    );
}

#[test]
fn code_span_fence_length_must_match() {
    assert_eq!(
        parse("``a`b``"),
        vec![
            (0, 2, open(Container::Verbatim)),
            (2, 5, Annot::Str),
            (5, 7, close(Container::Verbatim)),
        ]
    );
}

#[test]
fn explicit_link() {
    assert_eq!(
        parse("[text](url)"),
        vec![
            (0, 1, open(Container::Linktext)),
            (1, 5, Annot::Str),
            (5, 6, close(Container::Linktext)),
            (6, 7, open(Container::Destination)),
            (7, 10, Annot::Str),
            (10, 11, close(Container::Destination)),
        ]
    );
}

#[test]
fn explicit_image() {
    assert_eq!(
        parse("![a](b)"),
        vec![
            (0, 1, Annot::ImageMarker),
            (1, 2, open(Container::Imagetext)),
            (2, 3, Annot::Str),
            (3, 4, close(Container::Imagetext)),
            (4, 5, open(Container::Destination)),
            (5, 6, Annot::Str),
            (6, 7, close(Container::Destination)),
        ]
    );
}

#[test]
fn reference_link() {
    assert_eq!(
        parse("[a][b]"),
        vec![
            (0, 1, open(Container::Linktext)),
            (1, 2, Annot::Str),
            (2, 3, close(Container::Linktext)),
            (3, 4, open(Container::Reference)),
            (4, 5, Annot::Str),
            (5, 6, close(Container::Reference)),
        ]
    );
}

#[test]
fn destination_interior_is_literal() {
    assert_eq!(
        parse("[a](b_c_d)"),
        vec![
            (0, 1, open(Container::Linktext)),
            (1, 2, Annot::Str),
            (2, 3, close(Container::Linktext)),
            (3, 4, open(Container::Destination)),
            (4, 9, Annot::Str),
            (9, 10, close(Container::Destination)),
        ]
    );
}

#[test]
fn footnote_reference() {
    assert_eq!(parse("[^1]"), vec![(0, 4, Annot::FootnoteReference)]);
}

#[test]
fn unclosed_bracket_is_literal() {
    assert_eq!(parse("[a"), vec![(0, 2, Annot::Str)]);
}

#[test]
fn hard_break_trims_blanks() {
    assert_eq!(
        parse("a \\\nb"),
        vec![
            (0, 1, Annot::Str),
            (2, 3, Annot::Escape),
            (3, 4, Annot::Hardbreak),
            (4, 5, Annot::Str),
        ]
    );
}

#[test]
fn escaped_punctuation() {
    assert_eq!(parse("\\*"), vec![(0, 1, Annot::Escape), (1, 2, Annot::Str)]);
}

#[test]
fn escaped_space_is_nbsp() {
    assert_eq!(
        parse("a\\ b"),
        vec![
            (0, 1, Annot::Str),
            (1, 2, Annot::Escape),
            (2, 3, Annot::Nbsp),
            (3, 4, Annot::Str),
        ]
    );
}

#[test]
fn backslash_before_letter_is_literal() {
    assert_eq!(parse("\\a"), vec![(0, 2, Annot::Str)]);
}

#[test]
fn email_autolink() {
    assert_eq!(
        parse("<user@example.com>"),
        vec![
            (0, 1, open(Container::Email)),
            (1, 17, Annot::Str),
            (17, 18, close(Container::Email)),
        ]
    );
}

#[test]
fn url_autolink() {
    assert_eq!(
        parse("<http://x.y>"),
        vec![
            (0, 1, open(Container::Url)),
            (1, 11, Annot::Str),
            (11, 12, close(Container::Url)),
        ]
    );
}

#[test]
fn angle_without_autolink_is_literal() {
    assert_eq!(parse("<a b>"), vec![(0, 5, Annot::Str)]);
}

#[test]
fn ellipses() {
    assert_eq!(
        parse("a...b"),
        vec![(0, 1, Annot::Str), (1, 4, Annot::Ellipses), (4, 5, Annot::Str)]
    );
}

#[test]
fn empty_emphasis_is_rejected() {
    assert_eq!(parse("**"), vec![(0, 2, Annot::Str)]);
}

#[test]
fn subscript_and_superscript() {
    assert_eq!(
        parse("H~2~O"),
        vec![
            (0, 1, Annot::Str),
            (1, 2, open(Container::Subscript)),
            (2, 3, Annot::Str),
            (3, 4, close(Container::Subscript)),
            (4, 5, Annot::Str),
        ]
    );
    assert_eq!(
        parse("^a^"),
        vec![
            (0, 1, open(Container::Superscript)),
            (1, 2, Annot::Str),
            (2, 3, close(Container::Superscript)),
        ]
    );
}

#[test]
fn nested_emph_in_strong() {
    assert_eq!(
        parse("*a _b_ c*"),
        vec![
            (0, 1, open(Container::Strong)),
            (1, 3, Annot::Str),
            (3, 4, open(Container::Emph)),
            (4, 5, Annot::Str),
            (5, 6, close(Container::Emph)),
            (6, 8, Annot::Str),
            (8, 9, close(Container::Strong)),
        ]
    );
}

#[test]
fn closing_marker_forces_close() {
    assert_eq!(
        parse("*a *}"),
        vec![
            (0, 1, open(Container::Strong)),
            (1, 3, Annot::Str),
            (3, 5, close(Container::Strong)),
        ]
    );
}

#[test]
fn space_after_delimiter_does_not_open() {
    assert_eq!(parse("a * b"), vec![(0, 5, Annot::Str)]);
}

#[test]
fn unrecognised_specials_are_literal() {
    assert_eq!(parse("a{b:c=d+e'f\"g-h"), vec![(0, 15, Annot::Str)]);
}

#[test]
fn trailing_softbreak_dropped() {
    assert_eq!(parse("a\n"), vec![(0, 1, Annot::Str)]);
}

#[test]
fn crlf_is_one_softbreak() {
    assert_eq!(
        parse("a\r\nb"),
        vec![(0, 1, Annot::Str), (1, 3, Annot::Softbreak), (3, 4, Annot::Str)]
    );
}

#[test]
fn feeding_line_by_line() {
    let mut p = Parser::new("*a\nb*".to_string());
    p.feed(0, 3);
    p.feed(3, 5);
    assert_eq!(
        p.get_matches(),
        vec![
            (0, 1, open(Container::Strong)),
            (1, 2, Annot::Str),
            (2, 3, Annot::Softbreak),
            (3, 4, Annot::Str),
            (4, 5, close(Container::Strong)),
        ]
    );
}

#[test]
fn empty_input() {
    assert_eq!(parse(""), vec![]);
}

#[test]
fn spans_cover_input_without_gaps() {
    let s = "*hi* and [x](y) `c` <a@b>";
    let spans = parse(s);
    let mut at = 0;
    for (sp, ep, _) in &spans {
        assert_eq!(*sp, at);
        assert!(ep > sp);
        at = *ep;
    }
    assert_eq!(at, s.len());
}

#[test]
fn open_and_close_annotations_balance() {
    let spans = parse("*a _b [c](d) ~e~_ f*");
    let mut stack: Vec<Container> = Vec::new();
    for (_, _, a) in &spans {
        match a {
            Annot::Open(c) => stack.push(*c),
            Annot::Close(c) => assert_eq!(stack.pop(), Some(*c)),
            _ => {}
        }
    }
    assert!(stack.is_empty());
}

#[test]
fn finalize_twice_is_finalize_once() {
    let spans = vec![
        (0, 1, Annot::Str),
        (1, 2, Annot::Str),
        (2, 3, Annot::Escape),
        (3, 4, Annot::Str),
        (4, 6, Annot::Str),
        (6, 7, Annot::Softbreak),
    ];
    let once = finalize(&spans);
    assert_eq!(
        once,
        vec![(0, 2, Annot::Str), (2, 3, Annot::Escape), (3, 6, Annot::Str)]
    );
    assert_eq!(finalize(&once), once);
}

#[test]
fn finalize_keeps_non_adjacent_literals_apart() {
    let spans = vec![(0, 1, Annot::Str), (2, 3, Annot::Str)];
    assert_eq!(finalize(&spans), spans);
}

#[test]
fn hard_break_drops_all_blank_run() {
    assert_eq!(
        parse(" \t\\\nb"),
        vec![(2, 3, Annot::Escape), (3, 4, Annot::Hardbreak), (4, 5, Annot::Str)]
    );
}

#[test]
fn reference_image() {
    assert_eq!(
        parse("![a][b]"),
        vec![
            (0, 1, Annot::ImageMarker),
            (1, 2, open(Container::Imagetext)),
            (2, 3, Annot::Str),
            (3, 4, close(Container::Imagetext)),
            (4, 5, open(Container::Reference)),
            (5, 6, Annot::Str),
            (6, 7, close(Container::Reference)),
        ]
    );
}

#[test]
fn nested_parens_in_destination() {
    assert_eq!(
        parse("[a](b(c)d)"),
        vec![
            (0, 1, open(Container::Linktext)),
            (1, 2, Annot::Str),
            (2, 3, close(Container::Linktext)),
            (3, 4, open(Container::Destination)),
            (4, 9, Annot::Str),
            (9, 10, close(Container::Destination)),
        ]
    );
}

#[test]
fn close_marker_only_inside_range() {
    let mut p = Parser::new("a *}".to_string());
    p.feed(0, 3);
    p.feed(3, 4);
    assert_eq!(p.get_matches(), vec![(0, 4, Annot::Str)]);
}

#[test]
fn two_sessions_agree() {
    let s = "*a* [b](c) `d` <e@f>";
    assert_eq!(parse(s), parse(s));
}

#[test]
fn unclosed_code_span_is_literal() {
    assert_eq!(parse("`"), vec![(0, 1, Annot::Str)]);
    assert_eq!(parse("a ``b"), vec![(0, 5, Annot::Str)]);
}

#[test]
fn email_with_empty_local_part() {
    assert_eq!(
        parse("<@x>"),
        vec![
            (0, 1, open(Container::Email)),
            (1, 3, Annot::Str),
            (3, 4, close(Container::Email)),
        ]
    );
}

#[test]
fn emphasis_closer_in_destination_is_literal() {
    assert_eq!(
        parse("[*a](b*)"),
        vec![
            (0, 1, open(Container::Linktext)),
            (1, 3, Annot::Str),
            (3, 4, close(Container::Linktext)),
            (4, 5, open(Container::Destination)),
            (5, 7, Annot::Str),
            (7, 8, close(Container::Destination)),
        ]
    );
}

#[test]
fn emphasis_closer_in_reference_key_is_literal() {
    assert_eq!(
        parse("[*a][b*]"),
        vec![
            (0, 1, open(Container::Linktext)),
            (1, 3, Annot::Str),
            (3, 4, close(Container::Linktext)),
            (4, 5, open(Container::Reference)),
            (5, 7, Annot::Str),
            (7, 8, close(Container::Reference)),
        ]
    );
}
