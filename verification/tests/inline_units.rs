use common_mark_rust::inline::{parse_inline, InlineContent};
use common_mark_rust::lrd_table::LRDTable;

fn chars(s: &str) -> Vec<char> {
    s.chars().collect()
}

fn describe(ics: &[InlineContent]) -> Vec<String> {
    ics.iter()
        .map(|ic| match ic {
            InlineContent::Text(r) => format!("text {}..{}", r.start, r.end),
            InlineContent::Code(r) => format!("code {}..{}", r.start, r.end),
            InlineContent::Softbreak => String::from("soft"),
            InlineContent::Hardbreak => String::from("hard"),
            other => format!("{:?}", other),
        })
        .collect()
}

fn parsed(s: &str) -> Vec<String> {
    describe(&parse_inline(&chars(s), &LRDTable::new()))
}

#[test]
fn code_spans_split_text() {
    assert_eq!(parsed("a `b` c"), vec!["text 0..2", "code 3..4", "text 5..7"]);
}

#[test]
fn code_span_content_loses_one_space_each_side() {
    assert_eq!(parsed("`` a ` b ``"), vec!["code 3..8"]);
    assert_eq!(parsed("` `"), vec!["code 1..2"]);
    assert_eq!(parsed("`  `"), vec!["code 1..3"]);
    assert_eq!(parsed("` a`"), vec!["code 1..3"]);
}

#[test]
fn unmatched_backticks_stay_text() {
    assert_eq!(parsed("``x"), vec!["text 0..2", "text 2..3"]);
    assert_eq!(parsed("`x``"), vec!["text 0..1", "text 1..2", "text 2..4"]);
}

#[test]
fn line_feeds_make_soft_and_hard_breaks() {
    assert_eq!(parsed("a  \nb"), vec!["text 0..1", "hard", "text 4..5"]);
    assert_eq!(parsed("a \nb "), vec!["text 0..1", "soft", "text 3..4"]);
    assert_eq!(parsed("a\n\nb"), vec!["text 0..1", "soft", "soft", "text 3..4"]);
}

#[test]
fn code_spans_may_cross_lines() {
    assert_eq!(parsed("`a\nb` c"), vec!["code 1..4", "text 5..7"]);
}

#[test]
fn plain_text_is_one_text() {
    assert_eq!(parsed("just words  "), vec!["text 0..10"]);
    assert_eq!(parsed(""), Vec::<String>::new());
}

#[test]
fn backslashes_escape_punctuation_and_line_feeds() {
    assert_eq!(parsed("a\\*b"), vec!["text 0..1", "text 2..3", "text 3..4"]);
    assert_eq!(parsed("a\\\nb"), vec!["text 0..1", "hard", "text 3..4"]);
    assert_eq!(parsed("a\\b"), vec!["text 0..3"]);
    assert_eq!(parsed("a\\ \nb"), vec!["text 0..2", "soft", "text 4..5"]);
    assert_eq!(parsed("\\`x`"), vec!["text 1..2", "text 2..3", "text 3..4"]);
}

#[test]
fn angle_brackets_make_autolinks_html_or_text() {
    assert_eq!(
        describe(&parse_inline(&chars("a <http://x.y> b"), &LRDTable::new())),
        vec!["text 0..2", "AutoLink(3..13, false)", "text 14..16"]
    );
    assert_eq!(parsed("<foo@bar.com>"), vec!["AutoLink(1..12, true)"]);
    assert_eq!(parsed("x <b>y</b>"), vec!["text 0..2", "HTMLTag(2..5)", "text 5..6", "HTMLTag(6..10)"]);
    assert_eq!(parsed("1 < 2"), vec!["text 0..2", "text 2..3", "text 3..5"]);
}

#[test]
fn runs_that_cannot_close_stay_text() {
    // an unmatched run at the start
    assert_eq!(parsed("*a"), vec!["text 0..1", "text 1..2"]);
    assert_eq!(parsed("__ab  "), vec!["text 0..2", "text 2..4"]);
    // underscores inside a word
    assert_eq!(parsed("a_b_c"), vec!["text 0..1", "text 1..2", "text 2..3", "text 3..4", "text 4..5"]);
    // a run after a space
    assert_eq!(parsed("x **y"), vec!["text 0..2", "text 2..4", "text 4..5"]);
}

#[test]
fn matched_runs_make_emphasis() {
    let text = chars("*a*");
    let r = parse_inline(&text, &LRDTable::new());
    assert_eq!(r.len(), 1);
    match &r[0] {
        InlineContent::Emph(v) => assert_eq!(describe(v), vec!["text 1..2"]),
        other => panic!("{:?}", other),
    }
}

#[test]
fn bracketed_text_then_destination_is_a_link() {
    let text = chars("[a](b)");
    let r = parse_inline(&text, &LRDTable::new());
    assert_eq!(r.len(), 1);
    match &r[0] {
        InlineContent::InlineLink(false, Some(d), None, v) => {
            assert_eq!((d.start, d.end), (4, 5));
            assert_eq!(describe(v), vec!["text 1..2"]);
        }
        other => panic!("{:?}", other),
    }
    let text = chars("[a b](<c d> \"t\")");
    let r = parse_inline(&text, &LRDTable::new());
    assert_eq!(r.len(), 1);
    match &r[0] {
        InlineContent::InlineLink(false, Some(d), Some(t), v) => {
            assert_eq!((d.start, d.end), (7, 10));
            assert_eq!((t.start, t.end), (13, 14));
            assert_eq!(describe(v), vec!["text 1..4"]);
        }
        other => panic!("{:?}", other),
    }
    let text = chars("[](b)");
    let r = parse_inline(&text, &LRDTable::new());
    assert_eq!(r.len(), 1);
    match &r[0] {
        InlineContent::InlineLink(false, Some(_), None, v) => assert!(v.is_empty()),
        other => panic!("{:?}", other),
    }
}

#[test]
fn emphasis_holds_an_unclosed_bracket_as_text() {
    let text = chars("*[a*");
    let r = parse_inline(&text, &LRDTable::new());
    assert_eq!(r.len(), 1);
    match &r[0] {
        InlineContent::Emph(v) => assert_eq!(describe(v), vec!["text 1..2", "text 2..3"]),
        other => panic!("{:?}", other),
    }
    let text = chars("**a**");
    let r = parse_inline(&text, &LRDTable::new());
    assert_eq!(r.len(), 1);
    match &r[0] {
        InlineContent::Strong(v) => assert_eq!(describe(v), vec!["text 2..3"]),
        other => panic!("{:?}", other),
    }
}

#[test]
fn one_delimiter_each_side_makes_emphasis() {
    for s in ["_a b_", "*.a,*", "_x_"] {
        let text = chars(s);
        let r = parse_inline(&text, &LRDTable::new());
        assert_eq!(r.len(), 1, "{}", s);
        match &r[0] {
            InlineContent::Emph(v) => {
                assert_eq!(describe(v), vec![format!("text 1..{}", text.len() - 1)])
            }
            other => panic!("{:?}", other),
        }
    }
    assert_eq!(parsed("* a*"), vec!["text 0..1", "text 1..3", "text 3..4"]);
}
