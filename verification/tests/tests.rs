use common_mark_rust::block_structure::LineState;
use common_mark_rust::markdown_to_html;
use common_mark_rust::peekable_char_indices::{BorrowedStringPCI, PeekableCharIndices};

fn chars(s: &str) -> Vec<char> {
    s.chars().collect()
}

#[test]
fn my_test_frac_sym() {
    assert_eq!(markdown_to_html("&frac34; "), "<p>¾</p>\n");
}

#[test]
fn my_test_ouml_sym() {
    assert_eq!(markdown_to_html("&ouml; "), "<p>ö</p>\n");
}

#[test]
fn my_test_simple() {
    assert_eq!(markdown_to_html("a"), "<p>a</p>\n");
}

#[test]
fn my_test_tick() {
    assert_eq!(markdown_to_html("\\`"), "<p>`</p>\n");
}

#[test]
fn my_test_chars() {
    assert_eq!(
        markdown_to_html("&nbsp &x; &#; &#x;"),
        "<p>&amp;nbsp &amp;x; &amp;#; &amp;#x;</p>\n"
    )
}

#[test]
fn test_ls_1() {
    let line = chars(" \ta");
    let mut my_iter = LineState::new(&line);

    assert_eq!(my_iter.offset(), 0);
    assert_eq!(my_iter.peek(), Some(' '));
    assert_eq!(my_iter.offset(), 0);
    my_iter.consume_indent_until_sfls_ge(2);
    assert_eq!(my_iter.offset(), 2);
    assert_eq!(my_iter.effective_column_number, 4);
    assert_eq!(my_iter.space_from_last_structure, 4);
    assert_eq!(my_iter.peek(), Some('a'));
    assert_eq!(my_iter.next(), Some('a'));
    assert!(my_iter.is_blank_line());
    assert!(my_iter.is_empty());
}

#[test]
fn test_pci_1() {
    let text = chars("abcde");
    let mut my_iter = BorrowedStringPCI::new(&text);

    assert_eq!(my_iter.offset(), 0);
    assert_eq!(my_iter.peek(), Some('a'));
    assert_eq!(my_iter.offset(), 0);
    assert_eq!(my_iter.next(), Some('a'));
    assert_eq!(my_iter.offset(), 1);
    assert_eq!(my_iter.peek(), Some('b'));
    assert_eq!(my_iter.peek(), Some('b'));
}
