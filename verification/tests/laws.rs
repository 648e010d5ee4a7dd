use html_parser_rs::{Diagnostic, Event, Lexer};

const SAMPLES: [&str; 16] = [
    "",
    "   ",
    "plain text",
    "<a><b>text</b></a>",
    "<img src=\"x.png\"/>",
    "<input disabled>",
    "<a></b>",
    "<p>a\nb\tc</p>",
    "<a href=a/b>",
    "<a \"x\">",
    "<a b=\"unclosed",
    "</",
    "<<<>>>",
    "<a = ==>",
    "<ul class=list>\n  <li>one</li>\n  <li>two</li>\n</ul></x> tail",
    "<\u{65e5}\u{672c} \u{540d}=\u{5024}>\u{3000}\u{6587}\u{5b57}\n\u{5217}</\u{65e5}\u{672c}>",
];

fn run(input: &str) -> Lexer {
    let mut lexer = Lexer::new(input.to_string());
    lexer.parse();
    lexer
}

#[test]
fn every_run_consumes_the_whole_input() {
    for input in SAMPLES {
        assert_eq!(run(input).remaining(), 0, "input {input:?}");
    }
}

#[test]
fn every_attribute_follows_a_start_or_an_attribute() {
    for input in SAMPLES {
        let lexer = run(input);
        let events = lexer.events();
        for (i, event) in events.iter().enumerate() {
            if matches!(event, Event::Attribute(_, _)) {
                assert!(i > 0, "input {input:?}");
                assert!(
                    matches!(
                        events[i - 1],
                        Event::StartElement(_) | Event::Attribute(_, _)
                    ),
                    "input {input:?}"
                );
            }
        }
    }
}

#[test]
fn every_text_is_non_empty_and_normalized() {
    for input in SAMPLES {
        let lexer = run(input);
        for event in lexer.events() {
            if let Event::TextContent(content) = event {
                assert!(!content.is_empty(), "input {input:?}");
                assert!(!content.contains('\n'), "input {input:?}");
                assert!(!content.contains('\t'), "input {input:?}");
                assert_eq!(content.trim(), content, "input {input:?}");
            }
        }
    }
}

#[test]
fn no_run_reports_an_orphan_self_close() {
    for input in SAMPLES {
        let lexer = run(input);
        assert!(
            !lexer.diagnostics().contains(&Diagnostic::OrphanSelfClose),
            "input {input:?}"
        );
    }
}

#[test]
fn two_runs_on_one_input_agree() {
    for input in SAMPLES {
        let first = run(input);
        let second = run(input);
        assert_eq!(first.events(), second.events());
        assert_eq!(first.diagnostics(), second.diagnostics());
        assert_eq!(first.open_tags(), second.open_tags());
    }
}

#[test]
fn a_start_tag_opens_one_element_unless_it_closes_itself() {
    let lexer = run("<a><b><c/>");
    assert_eq!(
        lexer.open_tags().to_vec(),
        vec!["a".to_string(), "b".to_string()]
    );
    assert_eq!(
        lexer.events().last(),
        Some(&Event::EndElement("c".to_string()))
    );
}

#[test]
fn an_end_tag_closes_one_element_at_most() {
    let lexer = run("<a><b></b>");
    assert_eq!(lexer.open_tags().to_vec(), vec!["a".to_string()]);
    let lexer = run("<a><b></c>");
    assert_eq!(
        lexer.open_tags().to_vec(),
        vec!["a".to_string(), "b".to_string()]
    );
}

#[test]
fn odd_start_tags_still_terminate() {
    let lexer = run("<a = ==>");
    assert_eq!(
        lexer.events(),
        vec![
            Event::StartElement("a".to_string()),
            Event::Attribute("".to_string(), "".to_string()),
            Event::Attribute("".to_string(), "=".to_string()),
        ]
    );
    assert!(lexer.diagnostics().is_empty());

    let lexer = run("<<<>>>");
    assert_eq!(
        lexer.events(),
        vec![
            Event::StartElement("".to_string()),
            Event::StartElement("".to_string()),
            Event::StartElement("".to_string()),
            Event::TextContent(">>".to_string()),
        ]
    );
    assert_eq!(
        lexer.diagnostics().to_vec(),
        vec![Diagnostic::MalformedStartTag, Diagnostic::MalformedStartTag]
    );
}
