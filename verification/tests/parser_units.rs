use common_mark_rust::parsers::{
    parse_attribute, parse_autolink, parse_cdata_section, parse_closing_tag, parse_declaration, parse_email,
    parse_html_comment, parse_html_tag, parse_inline_suffix, parse_link_destination, parse_link_label,
    parse_link_title, parse_opening_tag, parse_processing_instruction, parse_reference_link, parse_scheme,
    parse_uri_autolink, ReferenceLinkType,
};
use common_mark_rust::peekable_char_indices::{BorrowedStringPCI, PeekableCharIndices};

fn chars(s: &str) -> Vec<char> {
    s.chars().collect()
}

#[test]
fn schemes_have_two_to_thirty_two_characters() {
    let t = chars("http://x");
    let mut it = BorrowedStringPCI::new(&t);
    assert_eq!(parse_scheme(&mut it), Some(0..4));
    assert_eq!(it.offset(), 4);

    let t = chars("a:");
    assert_eq!(parse_scheme(&mut BorrowedStringPCI::new(&t)), None);
    let t = chars("1ab:");
    assert_eq!(parse_scheme(&mut BorrowedStringPCI::new(&t)), None);
    let long: String = std::iter::repeat('a').take(33).collect();
    let t = chars(&long);
    assert_eq!(parse_scheme(&mut BorrowedStringPCI::new(&t)), None);
    let ok: String = std::iter::repeat('a').take(32).collect();
    let t = chars(&ok);
    assert_eq!(parse_scheme(&mut BorrowedStringPCI::new(&t)), Some(0..32));
}

#[test]
fn uri_and_email_autolinks() {
    let t = chars("http://foo.bar>x");
    let mut it = BorrowedStringPCI::new(&t);
    assert_eq!(parse_uri_autolink(&mut it), Some(0..14));
    assert_eq!(it.offset(), 15);

    let t = chars("http://foo bar>");
    assert_eq!(parse_uri_autolink(&mut BorrowedStringPCI::new(&t)), None);

    let t = chars("foo@bar.com>");
    let mut it = BorrowedStringPCI::new(&t);
    assert_eq!(parse_email(&mut it), Some(0..11));
    assert_eq!(it.offset(), 12);

    let t = chars("foo@-bar.com>");
    assert_eq!(parse_email(&mut BorrowedStringPCI::new(&t)), None);
}

#[test]
fn autolinks_tell_uris_from_emails() {
    let t = chars("foo@bar.com>");
    assert_eq!(parse_autolink(&mut BorrowedStringPCI::new(&t)), Some((0..11, true)));
    let t = chars("mailto:foo@bar.com>");
    assert_eq!(parse_autolink(&mut BorrowedStringPCI::new(&t)), Some((0..18, false)));
    let t = chars("nope");
    let mut it = BorrowedStringPCI::new(&t);
    assert_eq!(parse_autolink(&mut it), None);
    assert_eq!(it.offset(), 0);
}

#[test]
fn link_labels() {
    let t = chars("[foo] x");
    let mut it = BorrowedStringPCI::new(&t);
    assert_eq!(parse_link_label(&mut it), Some(0..5));
    assert_eq!(it.offset(), 5);
    let t = chars("[]");
    assert_eq!(parse_link_label(&mut BorrowedStringPCI::new(&t)), None);
    let t = chars("[ \n ]");
    assert_eq!(parse_link_label(&mut BorrowedStringPCI::new(&t)), None);
    let t = chars("[a[b]");
    assert_eq!(parse_link_label(&mut BorrowedStringPCI::new(&t)), None);
    let t = chars("[a\\]b]");
    assert_eq!(parse_link_label(&mut BorrowedStringPCI::new(&t)), Some(0..6));
}

#[test]
fn link_destinations() {
    let t = chars("<a b>");
    let mut it = BorrowedStringPCI::new(&t);
    assert_eq!(parse_link_destination(&mut it), Some(1..4));
    assert_eq!(it.offset(), 5);

    let t = chars("/url) x");
    let mut it = BorrowedStringPCI::new(&t);
    assert_eq!(parse_link_destination(&mut it), Some(0..4));
    assert_eq!(it.offset(), 4);

    let t = chars("a(b)c d");
    assert_eq!(parse_link_destination(&mut BorrowedStringPCI::new(&t)), Some(0..5));
    let t = chars("a(b");
    assert_eq!(parse_link_destination(&mut BorrowedStringPCI::new(&t)), None);
    let t = chars(" a");
    assert_eq!(parse_link_destination(&mut BorrowedStringPCI::new(&t)), None);
    let t = chars("<a\nb>");
    assert_eq!(parse_link_destination(&mut BorrowedStringPCI::new(&t)), None);
}

#[test]
fn link_titles() {
    let t = chars("\"ti\\\"tle\" x");
    let mut it = BorrowedStringPCI::new(&t);
    assert_eq!(parse_link_title(&mut it), Some(1..8));
    assert_eq!(it.offset(), 9);
    let t = chars("'a'");
    assert_eq!(parse_link_title(&mut BorrowedStringPCI::new(&t)), Some(1..2));
    let t = chars("(a)");
    assert_eq!(parse_link_title(&mut BorrowedStringPCI::new(&t)), Some(1..2));
    let t = chars("(a(b)");
    assert_eq!(parse_link_title(&mut BorrowedStringPCI::new(&t)), None);
    let t = chars("\"open");
    assert_eq!(parse_link_title(&mut BorrowedStringPCI::new(&t)), None);
}

#[test]
fn inline_link_suffixes() {
    let t = chars("(/uri \"title\")");
    let mut it = BorrowedStringPCI::new(&t);
    assert_eq!(parse_inline_suffix(&mut it), Some((Some(1..5), Some(7..12))));
    assert_eq!(it.offset(), 14);
    let t = chars("()");
    assert_eq!(parse_inline_suffix(&mut BorrowedStringPCI::new(&t)), Some((None, None)));
    let t = chars("( /a )");
    assert_eq!(parse_inline_suffix(&mut BorrowedStringPCI::new(&t)), Some((Some(2..4), None)));
    let t = chars("(/a\"t\")");
    assert_eq!(parse_inline_suffix(&mut BorrowedStringPCI::new(&t)), Some((Some(1..6), None)));
    let t = chars("(/a \"t\"x)");
    assert_eq!(parse_inline_suffix(&mut BorrowedStringPCI::new(&t)), None);
    let t = chars("(/a \"t\" x)");
    assert_eq!(parse_inline_suffix(&mut BorrowedStringPCI::new(&t)), None);
}

#[test]
fn reference_link_suffixes() {
    let t = chars("[]");
    assert!(matches!(parse_reference_link(&mut BorrowedStringPCI::new(&t)), Some(ReferenceLinkType::Collapsed)));
    let t = chars("[bar] x");
    match parse_reference_link(&mut BorrowedStringPCI::new(&t)) {
        Some(ReferenceLinkType::Full(r)) => assert_eq!(r, 0..5),
        other => panic!("unexpected {:?}", other),
    }
    let t = chars("(x)");
    assert!(parse_reference_link(&mut BorrowedStringPCI::new(&t)).is_none());
}

#[test]
fn html_tags() {
    let t = chars("a href=\"x\">rest");
    let mut it = BorrowedStringPCI::new(&t);
    assert_eq!(parse_html_tag(&mut it), Some(1..11));
    assert_eq!(it.offset(), 11);
    let t = chars("/div >");
    assert_eq!(parse_html_tag(&mut BorrowedStringPCI::new(&t)), Some(1..6));
    let t = chars("br/>");
    assert_eq!(parse_html_tag(&mut BorrowedStringPCI::new(&t)), Some(1..4));
    let t = chars("3>");
    assert_eq!(parse_html_tag(&mut BorrowedStringPCI::new(&t)), None);
    let t = chars("a b='x>");
    assert_eq!(parse_html_tag(&mut BorrowedStringPCI::new(&t)), None);
}

#[test]
fn tag_parts() {
    let t = chars("div class='x'>");
    assert_eq!(parse_opening_tag(&mut BorrowedStringPCI::new(&t)), Some(0..14));
    let t = chars("div>");
    assert_eq!(parse_closing_tag(&mut BorrowedStringPCI::new(&t)), Some(0..4));
    let t = chars(" class='x'>");
    let mut it = BorrowedStringPCI::new(&t);
    assert_eq!(parse_attribute(&mut it), Some(9));
    assert_eq!(it.offset(), 10);
    let t = chars(" disabled>");
    let mut it = BorrowedStringPCI::new(&t);
    assert_eq!(parse_attribute(&mut it), Some(9));
    assert_eq!(it.offset(), 9);
    let t = chars(">");
    assert_eq!(parse_attribute(&mut BorrowedStringPCI::new(&t)), None);
}

#[test]
fn comments_instructions_declarations_and_cdata() {
    let t = chars("!-- c -->x");
    assert_eq!(parse_html_tag(&mut BorrowedStringPCI::new(&t)), Some(1..9));
    let t = chars("!-->");
    assert_eq!(parse_html_tag(&mut BorrowedStringPCI::new(&t)), Some(1..4));
    let t = chars("?php x ?>");
    assert_eq!(parse_html_tag(&mut BorrowedStringPCI::new(&t)), Some(1..9));
    let t = chars("!DOCTYPE html>");
    assert_eq!(parse_html_tag(&mut BorrowedStringPCI::new(&t)), Some(1..14));
    let t = chars("![CDATA[a]]>");
    assert_eq!(parse_html_tag(&mut BorrowedStringPCI::new(&t)), Some(1..12));

    let t = chars("-- c -->");
    assert_eq!(parse_html_comment(&mut BorrowedStringPCI::new(&t)), Some(0..8));
    let t = chars("php ?>");
    assert_eq!(parse_processing_instruction(&mut BorrowedStringPCI::new(&t)), Some(0..6));
    let t = chars("DOCTYPE html>");
    assert_eq!(parse_declaration(&mut BorrowedStringPCI::new(&t)), Some(0..13));
    let t = chars("[CDATA[a]]>");
    assert_eq!(parse_cdata_section(&mut BorrowedStringPCI::new(&t)), Some(0..11));
    let t = chars("[CDATA[a]>");
    assert_eq!(parse_cdata_section(&mut BorrowedStringPCI::new(&t)), None);
}

#[test]
fn email_needs_a_local_part() {
    let t = chars("@b>");
    assert_eq!(parse_email(&mut BorrowedStringPCI::new(&t)), None);
    let t = chars("a@b>");
    assert_eq!(parse_email(&mut BorrowedStringPCI::new(&t)), Some(0..3));
}
