use html_parser_rs::{Diagnostic, Event, Lexer};

fn start(name: &str) -> Event {
    Event::StartElement(name.to_string())
}

fn end(name: &str) -> Event {
    Event::EndElement(name.to_string())
}

fn text(content: &str) -> Event {
    Event::TextContent(content.to_string())
}

fn attr(key: &str, value: &str) -> Event {
    Event::Attribute(key.to_string(), value.to_string())
}

fn run(input: &str) -> Lexer {
    let mut lexer = Lexer::new(input.to_string());
    lexer.parse();
    lexer
}

#[test]
fn well_formed_nesting() {
    let lexer = run("<a><b>text</b></a>");
    assert_eq!(
        lexer.events(),
        vec![start("a"), start("b"), text("text"), end("b"), end("a")]
    );
    assert!(lexer.diagnostics().is_empty());
    assert!(lexer.open_tags().is_empty());
    assert_eq!(lexer.remaining(), 0);
}

#[test]
fn self_closing_with_attribute() {
    let lexer = run("<img src=\"x.png\"/>");
    assert_eq!(
        lexer.events(),
        vec![start("img"), attr("src", "x.png"), end("img")]
    );
    assert!(lexer.open_tags().is_empty());
    assert!(lexer.diagnostics().is_empty());
}

#[test]
fn boolean_attribute_leaves_tag_open() {
    let lexer = run("<input disabled>");
    assert_eq!(
        lexer.events(),
        vec![start("input"), attr("disabled", "")]
    );
    assert_eq!(lexer.open_tags().to_vec(), vec!["input".to_string()]);
    assert!(lexer.diagnostics().is_empty());
}

#[test]
fn mismatched_close_is_reported_and_closes_nothing() {
    let lexer = run("<a></b>");
    assert_eq!(lexer.events(), vec![start("a"), end("b")]);
    assert_eq!(
        lexer.diagnostics().to_vec(),
        vec![Diagnostic::MismatchedCloseTag]
    );
    assert_eq!(lexer.open_tags().to_vec(), vec!["a".to_string()]);
}

#[test]
fn newlines_and_tabs_in_text_are_deleted() {
    let lexer = run("<p>a\nb</p>");
    assert_eq!(
        lexer.events(),
        vec![start("p"), text("ab"), end("p")]
    );
    let lexer = run("<p>a\tb\n\nc</p>");
    assert_eq!(
        lexer.events(),
        vec![start("p"), text("abc"), end("p")]
    );
}

#[test]
fn same_input_gives_same_events() {
    let input = "<ul class=list>\n  <li>one</li>\n  <li>two</li>\n</ul></x> tail";
    let first = run(input);
    let second = run(input);
    assert_eq!(first.events(), second.events());
    assert_eq!(
        first.diagnostics().to_vec(),
        second.diagnostics().to_vec()
    );
    assert_eq!(first.open_tags().to_vec(), second.open_tags().to_vec());
    assert_eq!(
        format!("{:?}", first.events()),
        format!("{:?}", second.events())
    );
}

#[test]
fn empty_input_gives_nothing() {
    let lexer = run("");
    assert!(lexer.events().is_empty());
    assert!(lexer.diagnostics().is_empty());
    assert!(lexer.open_tags().is_empty());
}

#[test]
fn parse_returns_the_events() {
    let mut lexer = Lexer::new("<a>x</a>".to_string());
    assert_eq!(lexer.parse(), vec![start("a"), text("x"), end("a")]);
    assert_eq!(lexer.events(), vec![start("a"), text("x"), end("a")]);
}

#[test]
fn parsing_again_changes_nothing() {
    let mut lexer = Lexer::new("<a>x</b>".to_string());
    assert_eq!(lexer.parse(), vec![start("a"), text("x"), end("b")]);
    assert_eq!(lexer.parse(), vec![start("a"), text("x"), end("b")]);
    assert_eq!(lexer.remaining(), 0);
    assert_eq!(
        lexer.diagnostics().to_vec(),
        vec![Diagnostic::MismatchedCloseTag]
    );
}

#[test]
fn whitespace_only_input_gives_nothing() {
    let lexer = run(" \n\t  \r\n");
    assert!(lexer.events().is_empty());
    assert!(lexer.diagnostics().is_empty());
    assert_eq!(lexer.remaining(), 0);
}

#[test]
fn text_is_trimmed_but_inner_spaces_stay() {
    let lexer = run("<p>  hello  world \t\n </p>");
    assert_eq!(
        lexer.events(),
        vec![start("p"), text("hello  world"), end("p")]
    );
}

#[test]
fn whitespace_between_tags_emits_no_text() {
    let lexer = run("<a>\n   <b>\n\t</b>\n</a>\n");
    assert_eq!(
        lexer.events(),
        vec![start("a"), start("b"), end("b"), end("a")]
    );
    assert!(lexer.diagnostics().is_empty());
}

#[test]
fn text_before_and_after_tags() {
    let lexer = run("hi<a>there</a>bye");
    assert_eq!(
        lexer.events(),
        vec![text("hi"), start("a"), text("there"), end("a"), text("bye")]
    );
}

#[test]
fn unquoted_value_stops_at_whitespace_gt_and_slash() {
    let lexer = run("<a href=x.html id=7>");
    assert_eq!(
        lexer.events(),
        vec![start("a"), attr("href", "x.html"), attr("id", "7")]
    );
    assert!(lexer.diagnostics().is_empty());

    let lexer = run("<a k=v/>");
    assert_eq!(
        lexer.events(),
        vec![start("a"), attr("k", "v"), end("a")]
    );
    assert!(lexer.open_tags().is_empty());
}

#[test]
fn quoted_value_keeps_spaces_slashes_and_gt() {
    let lexer = run("<a title=\"a b/c>d\" x>");
    assert_eq!(
        lexer.events(),
        vec![start("a"), attr("title", "a b/c>d"), attr("x", "")]
    );
    assert!(lexer.diagnostics().is_empty());
}

#[test]
fn empty_quoted_value() {
    let lexer = run("<a b=\"\">");
    assert_eq!(lexer.events(), vec![start("a"), attr("b", "")]);
    assert!(lexer.diagnostics().is_empty());
}

#[test]
fn keys_may_hold_dash_and_underscore() {
    let lexer = run("<div data-id=\"1\" aria_label=x>");
    assert_eq!(
        lexer.events(),
        vec![start("div"), attr("data-id", "1"), attr("aria_label", "x")]
    );
}

#[test]
fn attributes_come_before_nested_events() {
    let lexer = run("<a x=1 y>t<b z></b></a>");
    assert_eq!(
        lexer.events(),
        vec![
            start("a"),
            attr("x", "1"),
            attr("y", ""),
            text("t"),
            start("b"),
            attr("z", ""),
            end("b"),
            end("a"),
        ]
    );
}

#[test]
fn space_before_the_closing_bracket_reads_an_empty_attribute() {
    let lexer = run("<a >");
    assert_eq!(lexer.events(), vec![start("a"), attr("", "")]);
    assert!(lexer.diagnostics().is_empty());
    assert_eq!(lexer.open_tags().to_vec(), vec!["a".to_string()]);

    let lexer = run("<img src=\"x.png\" />");
    assert_eq!(
        lexer.events(),
        vec![start("img"), attr("src", "x.png"), end("img")]
    );
}

#[test]
fn slash_inside_a_start_tag_is_malformed_and_left_as_text() {
    let lexer = run("<a href=a/b>");
    assert_eq!(
        lexer.events(),
        vec![start("a"), attr("href", "a"), text("/b>")]
    );
    assert_eq!(
        lexer.diagnostics().to_vec(),
        vec![Diagnostic::MalformedStartTag]
    );
    assert_eq!(lexer.open_tags().to_vec(), vec!["a".to_string()]);
}

#[test]
fn start_tag_cut_off_by_end_of_input() {
    let lexer = run("<a");
    assert_eq!(lexer.events(), vec![start("a")]);
    assert_eq!(
        lexer.diagnostics().to_vec(),
        vec![Diagnostic::MalformedStartTag]
    );

    let lexer = run("<a b=\"c");
    assert_eq!(lexer.events(), vec![start("a"), attr("b", "c")]);
    assert_eq!(
        lexer.diagnostics().to_vec(),
        vec![Diagnostic::MalformedStartTag]
    );
    assert_eq!(lexer.remaining(), 0);
}

#[test]
fn symbol_that_begins_no_attribute_ends_the_start_tag() {
    let lexer = run("<a\"x\">");
    assert_eq!(lexer.events(), vec![start("a"), text("\"x\">")]);
    assert_eq!(
        lexer.diagnostics().to_vec(),
        vec![Diagnostic::MalformedStartTag]
    );

    let lexer = run("<a <b>");
    assert_eq!(
        lexer.events(),
        vec![start("a"), attr("", ""), start("b")]
    );
    assert_eq!(
        lexer.diagnostics().to_vec(),
        vec![Diagnostic::MalformedStartTag]
    );
    assert_eq!(
        lexer.open_tags().to_vec(),
        vec!["a".to_string(), "b".to_string()]
    );
}

#[test]
fn close_tag_with_extra_content_is_malformed() {
    let lexer = run("<a></a x>");
    assert_eq!(
        lexer.events(),
        vec![start("a"), end("a"), text("x>")]
    );
    assert_eq!(
        lexer.diagnostics().to_vec(),
        vec![Diagnostic::MalformedCloseTag]
    );
    assert!(lexer.open_tags().is_empty());
}

#[test]
fn close_tag_may_hold_whitespace_before_the_bracket() {
    let lexer = run("<a></a  >");
    assert_eq!(lexer.events(), vec![start("a"), end("a")]);
    assert!(lexer.diagnostics().is_empty());
}

#[test]
fn close_tag_cut_off_by_end_of_input() {
    let lexer = run("</a");
    assert_eq!(lexer.events(), vec![end("a")]);
    assert_eq!(
        lexer.diagnostics().to_vec(),
        vec![
            Diagnostic::MismatchedCloseTag,
            Diagnostic::MalformedCloseTag
        ]
    );
}

#[test]
fn close_tag_without_open_element_is_mismatched() {
    let lexer = run("</a>");
    assert_eq!(lexer.events(), vec![end("a")]);
    assert_eq!(
        lexer.diagnostics().to_vec(),
        vec![Diagnostic::MismatchedCloseTag]
    );
    assert!(lexer.open_tags().is_empty());
}

#[test]
fn close_tag_matches_the_innermost_element_only() {
    let lexer = run("<a><b></a></b>");
    assert_eq!(
        lexer.events(),
        vec![start("a"), start("b"), end("a"), end("b")]
    );
    assert_eq!(
        lexer.diagnostics().to_vec(),
        vec![Diagnostic::MismatchedCloseTag]
    );
    assert_eq!(lexer.open_tags().to_vec(), vec!["a".to_string()]);
}

#[test]
fn multi_byte_text_and_names() {
    let lexer = run("<p>h\u{e9}llo \u{4e16}\u{754c}</p>");
    assert_eq!(
        lexer.events(),
        vec![start("p"), text("h\u{e9}llo \u{4e16}\u{754c}"), end("p")]
    );

    let lexer = run("<\u{65e5}\u{672c} \u{540d}=\"\u{5024}\"/>");
    assert_eq!(
        lexer.events(),
        vec![
            start("\u{65e5}\u{672c}"),
            attr("\u{540d}", "\u{5024}"),
            end("\u{65e5}\u{672c}")
        ]
    );
    assert!(lexer.diagnostics().is_empty());
}

#[test]
fn unicode_whitespace_is_skipped_and_trimmed() {
    let lexer = run("\u{a0}<a>\u{2003}x\u{3000}</a>");
    assert_eq!(
        lexer.events(),
        vec![start("a"), text("x"), end("a")]
    );
}

#[test]
fn tag_names_may_hold_digits() {
    let lexer = run("<h1>t</h1>");
    assert_eq!(
        lexer.events(),
        vec![start("h1"), text("t"), end("h1")]
    );
    assert!(lexer.diagnostics().is_empty());
}

#[test]
fn no_orphan_self_close_is_ever_reported() {
    for input in ["</a/>", "<a/>", "/>", "<a></a/>", "<//>", "<"] {
        let lexer = run(input);
        assert!(!lexer
            .diagnostics()
            .contains(&Diagnostic::OrphanSelfClose));
    }
}

#[test]
fn lone_bracket_is_an_unnamed_start_tag() {
    let lexer = run("<");
    assert_eq!(lexer.events(), vec![start("")]);
    assert_eq!(
        lexer.diagnostics().to_vec(),
        vec![Diagnostic::MalformedStartTag]
    );
}
