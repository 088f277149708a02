use common_mark_rust::char_class::{hex_digit_upper, hex_value, to_ascii_lowercase};
use common_mark_rust::chars::{
    push_character_in_uri, push_chars_with_entities_and_bs, push_html_reserved_char, UnicodeCategory,
};
use common_mark_rust::entities::{chars_eq_str, named_entity};
use common_mark_rust::peekable_char_indices::BorrowedStringPCI;
use common_mark_rust::string_normalize::{normalize_label, UnicodeCaseFold};
use common_mark_rust::text::{ends_with_char, push_char, push_decimal, str_to_chars};

fn chars(s: &str) -> Vec<char> {
    s.chars().collect()
}

fn rendered(s: &str, in_url: bool) -> String {
    let text = chars(s);
    let pci = BorrowedStringPCI::new(&text);
    let mut out = String::from(">");
    push_chars_with_entities_and_bs(&pci, &mut out, in_url);
    out
}

fn label(s: &str) -> String {
    let text = chars(s);
    normalize_label(&BorrowedStringPCI::new(&text))
}

#[test]
fn push_char_appends_one_character() {
    let mut s = String::from("ab");
    push_char(&mut s, 'c');
    push_char(&mut s, 'é');
    assert_eq!(s, "abcé");
}

#[test]
fn ends_with_char_looks_at_the_last_character() {
    assert!(ends_with_char(&String::from("abc"), 'c'));
    assert!(!ends_with_char(&String::from("abc"), 'b'));
    assert!(!ends_with_char(&String::new(), 'c'));
}

#[test]
fn str_to_chars_keeps_every_character_in_order() {
    assert_eq!(str_to_chars("añ\tb"), vec!['a', 'ñ', '\t', 'b']);
    assert_eq!(str_to_chars(""), Vec::<char>::new());
}

#[test]
fn push_decimal_writes_the_digits() {
    let mut s = String::from("n=");
    push_decimal(0, &mut s);
    push_decimal(1234, &mut s);
    push_decimal(u64::MAX, &mut s);
    assert_eq!(s, "n=0123418446744073709551615");
}

#[test]
fn hex_digits_read_and_write() {
    assert_eq!(hex_value('f'), 15);
    assert_eq!(hex_value('A'), 10);
    assert_eq!(hex_value('7'), 7);
    assert_eq!(hex_digit_upper(11), 'B');
    assert_eq!(hex_digit_upper(3), '3');
}

#[test]
fn ascii_lowercase_leaves_other_characters() {
    assert_eq!(to_ascii_lowercase('Q'), 'q');
    assert_eq!(to_ascii_lowercase('q'), 'q');
    assert_eq!(to_ascii_lowercase('É'), 'É');
}

#[test]
fn html_reserved_characters_are_escaped() {
    let mut s = String::new();
    for c in ['<', 'a', '>', '&', '"', '\''] {
        push_html_reserved_char(c, &mut s);
    }
    assert_eq!(s, "&lt;a&gt;&amp;&quot;'");
}

#[test]
fn uri_characters_are_percent_encoded() {
    let mut s = String::new();
    for c in ['a', '/', ' ', 'ä', '€', '\u{1F600}', '&', '[', '\\'] {
        push_character_in_uri(c, &mut s);
    }
    assert_eq!(s, "a/%20%C3%A4%E2%82%AC%F0%9F%98%80&amp;%5B%5C");
}

#[test]
fn text_with_escapes_and_references() {
    assert_eq!(rendered("a\\*b &amp; &#65; &#x41;", false), ">a*b &amp; A A");
    assert_eq!(rendered("&copy &nosuch; &#; \\q", false), ">&amp;copy &amp;nosuch; &amp;#; \\q");
    assert_eq!(rendered("<\"x\">", false), ">&lt;&quot;x&quot;&gt;");
    assert_eq!(rendered("&#0; &#99999999;", false), ">\u{FFFD} &amp;#99999999;");
}

#[test]
fn text_in_a_url_is_percent_encoded() {
    assert_eq!(rendered("/f&ouml;o bar", true), ">/f%C3%B6o%20bar");
    assert_eq!(rendered("a\\_b", true), ">a_b");
}

/// Text without markup characters comes out as it went in (a law of the library).
#[test]
fn plain_text_is_unchanged() {
    assert_eq!(rendered("just words, 42 of them.", false), ">just words, 42 of them.");
}

#[test]
fn named_entities_are_found_by_name() {
    assert_eq!(named_entity(&chars("amp")), Some("&"));
    assert_eq!(named_entity(&chars("ouml")), Some("ö"));
    assert_eq!(named_entity(&chars("frac34")), Some("¾"));
    assert_eq!(named_entity(&chars("nosuch")), None);
    assert_eq!(named_entity(&chars("")), None);
    assert!(chars_eq_str(&chars("amp"), "amp"));
    assert!(!chars_eq_str(&chars("am"), "amp"));
}

#[test]
fn unicode_punctuation_and_symbols() {
    assert!('!'.is_unicode_punctuation());
    assert!('\u{2014}'.is_unicode_punctuation());
    assert!(!'$'.is_unicode_punctuation());
    assert!('$'.is_unicode_symbol());
    assert!('€'.is_unicode_symbol());
    assert!(!'a'.is_unicode_punctuation());
    assert!(!'a'.is_unicode_symbol());
}

#[test]
fn case_folding_yields_the_folded_characters() {
    let mut it = 'ß'.unicode_case_fold();
    assert_eq!(it.next(), Some('s'));
    assert_eq!(it.next(), Some('s'));
    assert_eq!(it.next(), None);
    let mut it = 'A'.unicode_case_fold();
    assert_eq!(it.next(), Some('a'));
    assert_eq!(it.next(), None);
}

#[test]
fn labels_are_normalized() {
    assert_eq!(label("[  Foo\n  BAR  ]"), "foo bar");
    assert_eq!(label("[foo]"), "foo");
    assert_eq!(label("[\n\tx\t]"), "x");
}

/// Two labels that differ only in the case of their letters name the same definition (a law of
/// the library).
#[test]
fn labels_ignore_case() {
    assert_eq!(label("[Straße]"), label("[STRASSE]"));
    assert_eq!(label("[ÄbC]"), label("[äBc]"));
}
