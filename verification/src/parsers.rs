//!  The contract for calling parsers is generally like so:
//!  - the callee can modify the incoming iterator whether it succeeds or fails. This means that it is
//!    the callers responsibility to clone the iterator and "backtrack" in the case of failure.
use vstd::prelude::*;
use crate::char_class::{
    class_has, find_char, in_class, is_ascii_control, is_whitespace, lemma_find_char_bounds,
    lemma_skip_class_bounds, lemma_skip_class_through, skip_class, spec_is_ascii_alphabetic,
    spec_is_ascii_alphanumeric, spec_is_ascii_control, spec_is_whitespace, CharClass,
};
use crate::peekable_char_indices::{BorrowedStringPCI, PeekableCharIndices};
use std::ops::Range;

verus! {

/// `r` mirrors the scan outcome `s`: on a match ending at `e`, `r` is `start..e` and the
/// cursor stopped at `e`; on no match, `r` is `None`.
pub open spec fn range_result(r: Option<Range<usize>>, s: Option<int>, start: int, fin: int) -> bool {
    match s {
        Some(e) => r matches Some(rg) && rg.start == start && rg.end == e && fin == e,
        None => r is None,
    }
}

pub open spec fn range_is(r: Range<usize>, s: int, e: int) -> bool {
    r.start == s && r.end == e
}

pub open spec fn min_len(t: Seq<char>, i: int) -> int {
    if i < t.len() {
        i
    } else {
        t.len() as int
    }
}

/*************************** schemes and autolinks ****************************/

/// A scheme is an ASCII letter followed by 1 to 31 ASCII letters, digits, `+`, `.` or `-`
/// (2 to 32 characters in all); the result is where it ends.
pub open spec fn spec_parse_scheme(t: Seq<char>, p: int) -> Option<int> {
    if 0 <= p < t.len() && spec_is_ascii_alphabetic(t[p]) {
        let run = skip_class(t, p + 1, CharClass::Scheme) - (p + 1);
        if 1 <= run <= 31 {
            Some(p + 1 + run)
        } else {
            None
        }
    } else {
        None
    }
}

/// A URI scheme: 2 to 32 characters, an ASCII letter and then ASCII letters, digits, `+`, `.`
/// or `-`.
pub fn parse_scheme(char_iter: &mut BorrowedStringPCI) -> (r: Option<Range<usize>>)
    requires
        old(char_iter).wf(),
    ensures
        final(char_iter).wf(),
        final(char_iter).iter@ == old(char_iter).iter@,
        range_result(
            r,
            spec_parse_scheme(old(char_iter).iter@, old(char_iter).peeked as int),
            old(char_iter).peeked as int,
            final(char_iter).peeked as int,
        ),
{
    let ghost t = char_iter.iter@;
    let ghost p = char_iter.peeked as int;
    let range_bottom = char_iter.offset();
    if char_iter.next_if_in(CharClass::Alphabetic).is_none() {
        return None;
    }
    let mut char_count: usize = 1;
    loop
        invariant
            char_iter.wf(),
            char_iter.iter@ == t,
            p == range_bottom,
            1 <= char_count <= 33,
            char_iter.peeked == p + char_count,
            spec_is_ascii_alphabetic(t[p]),
            forall|k: int| p + 1 <= k < char_iter.peeked ==> class_has(CharClass::Scheme, #[trigger] t[k]),
        ensures
            char_iter.wf(),
            char_iter.iter@ == t,
            1 <= char_count <= 33,
            char_iter.peeked == p + char_count,
            forall|k: int| p + 1 <= k < char_iter.peeked ==> class_has(CharClass::Scheme, #[trigger] t[k]),
            char_count == 33 || char_iter.peeked == t.len() || !class_has(CharClass::Scheme, t[char_iter.peeked as int]),
        decreases 33 - char_count,
    {
        if char_count > 32 {
            break ;
        }
        if char_iter.next_if_in(CharClass::Scheme).is_none() {
            break ;
        }
        char_count = char_count + 1;
    }
    proof {
        lemma_skip_class_through(t, p + 1, char_iter.peeked as int, CharClass::Scheme);
        if char_count < 33 {
            assert(skip_class(t, char_iter.peeked as int, CharClass::Scheme) == char_iter.peeked);
        } else {
            lemma_skip_class_bounds(t, char_iter.peeked as int, CharClass::Scheme);
        }
    }
    if 2 <= char_count && char_count <= 32 {
        return Some(range_bottom..char_iter.offset());
    }
    None
}

/// A URI autolink body: a scheme, `:`, then characters other than ASCII controls, space,
/// line feed, `<` and `>`, up to a closing `>`; the result is the index of that `>`.
pub open spec fn spec_parse_uri_autolink(t: Seq<char>, p: int) -> Option<int> {
    match spec_parse_scheme(t, p) {
        Some(e) => if e < t.len() && t[e] == ':' {
            let k = skip_class(t, e + 1, CharClass::UriBody);
            if k < t.len() && t[k] == '>' {
                Some(k)
            } else {
                None
            }
        } else {
            None
        },
        None => None,
    }
}

pub fn parse_uri_autolink(char_iter: &mut BorrowedStringPCI) -> (r: Option<Range<usize>>)
    requires
        old(char_iter).wf(),
    ensures
        final(char_iter).wf(),
        final(char_iter).iter@ == old(char_iter).iter@,
        match spec_parse_uri_autolink(old(char_iter).iter@, old(char_iter).peeked as int) {
            Some(k) => r matches Some(rg) && range_is(rg, old(char_iter).peeked as int, k)
                && final(char_iter).peeked == k + 1,
            None => r is None,
        },
{
    let ghost t = char_iter.iter@;
    let range_bottom = char_iter.offset();
    parse_scheme(char_iter)?;
    char_iter.next_if_char_eq(':')?;
    char_iter.consume_while_in(CharClass::UriBody);
    proof {
        lemma_skip_class_bounds(t, char_iter.peeked as int, CharClass::UriBody);
    }
    match char_iter.next_and_index() {
        Some((ci, c)) => {
            if c == '>' {
                Some(range_bottom..ci)
            } else {
                None
            }
        },
        None => None,
    }
}

/// One domain label of an email address: an ASCII letter or digit followed by letters, digits
/// and `-`, at most 63 characters, not ending in `-`; the result is where it ends.
pub open spec fn spec_email_label(t: Seq<char>, i: int) -> Option<int> {
    if 0 <= i < t.len() && spec_is_ascii_alphanumeric(t[i]) {
        let e = skip_class(t, i, CharClass::AlphanumericOrHyphen);
        if e - i <= 63 && t[e - 1] != '-' {
            Some(e)
        } else {
            None
        }
    } else {
        None
    }
}

/// Domain labels separated by `.`; the result is where the last one ends.
pub open spec fn spec_email_labels(t: Seq<char>, i: int) -> Option<int>
    decreases t.len() - i,
{
    match spec_email_label(t, i) {
        Some(e) => if e > i && e < t.len() && t[e] == '.' {
            spec_email_labels(t, e + 1)
        } else {
            Some(e)
        },
        None => None,
    }
}

/// An email autolink body: one or more local characters, `@`, domain labels and a closing
/// `>`; the result is the index of that `>`.
pub open spec fn spec_parse_email(t: Seq<char>, p: int) -> Option<int> {
    let a = skip_class(t, p, CharClass::EmailLocal);
    if a > p && a < t.len() && t[a] == '@' {
        match spec_email_labels(t, a + 1) {
            Some(k) => if k < t.len() && t[k] == '>' {
                Some(k)
            } else {
                None
            },
            None => None,
        }
    } else {
        None
    }
}

proof fn lemma_email_label(t: Seq<char>, i: int)
    requires
        0 <= i <= t.len(),
    ensures
        spec_email_label(t, i) matches Some(e) ==> i < e <= t.len(),
{
    if 0 <= i < t.len() && spec_is_ascii_alphanumeric(t[i]) {
        lemma_skip_class_bounds(t, i, CharClass::AlphanumericOrHyphen);
    }
}

fn parse_email_label(char_iter: &mut BorrowedStringPCI) -> (r: Option<usize>)
    requires
        old(char_iter).wf(),
    ensures
        final(char_iter).wf(),
        final(char_iter).iter@ == old(char_iter).iter@,
        match spec_email_label(old(char_iter).iter@, old(char_iter).peeked as int) {
            Some(e) => r == Some(e as usize) && final(char_iter).peeked == e,
            None => r is None,
        },
{
    let ghost t = char_iter.iter@;
    let ghost i = char_iter.peeked as int;
    let c_0 = match char_iter.next_and_index() {
        Some((_, c)) => c,
        None => return None,
    };
    if !in_class(CharClass::Alphanumeric, c_0) {
        return None;
    }
    let mut char_count: usize = 1;
    let mut last_is_hyphen = false;
    loop
        invariant
            char_iter.wf(),
            char_iter.iter@ == t,
            0 <= i < t.len(),
            spec_is_ascii_alphanumeric(t[i]),
            1 <= char_count <= 64,
            char_iter.peeked == i + char_count,
            forall|k: int| i <= k < char_iter.peeked ==> class_has(CharClass::AlphanumericOrHyphen, #[trigger] t[k]),
            last_is_hyphen == (t[char_iter.peeked - 1] == '-'),
        ensures
            char_iter.wf(),
            char_iter.iter@ == t,
            1 <= char_count <= 64,
            char_iter.peeked == i + char_count,
            forall|k: int| i <= k < char_iter.peeked ==> class_has(CharClass::AlphanumericOrHyphen, #[trigger] t[k]),
            last_is_hyphen == (t[char_iter.peeked - 1] == '-'),
            char_count == 64 || char_iter.peeked == t.len() || !class_has(CharClass::AlphanumericOrHyphen, t[char_iter.peeked as int]),
        decreases 64 - char_count,
    {
        if char_count > 63 {
            break ;
        }
        match char_iter.next_if_in(CharClass::AlphanumericOrHyphen) {
            Some(c) => {
                last_is_hyphen = c == '-';
                char_count = char_count + 1;
            },
            None => break ,
        }
    }
    proof {
        lemma_skip_class_through(t, i, char_iter.peeked as int, CharClass::AlphanumericOrHyphen);
        lemma_skip_class_bounds(t, char_iter.peeked as int, CharClass::AlphanumericOrHyphen);
    }
    if char_count <= 63 && !last_is_hyphen {
        return Some(char_iter.offset());
    }
    None
}

/// An e-mail address, as this pattern has it:
/// `[a-zA-Z0-9.!#$%&'*+/=?^_`{|}~-]+@[a-zA-Z0-9](?:[a-zA-Z0-9-]{0,61}[a-zA-Z0-9])?(?:\.[a-zA-Z0-9](?:[a-zA-Z0-9-]{0,61}[a-zA-Z0-9])?)*`
pub fn parse_email(char_iter: &mut BorrowedStringPCI) -> (r: Option<Range<usize>>)
    requires
        old(char_iter).wf(),
    ensures
        final(char_iter).wf(),
        final(char_iter).iter@ == old(char_iter).iter@,
        match spec_parse_email(old(char_iter).iter@, old(char_iter).peeked as int) {
            Some(k) => r matches Some(rg) && range_is(rg, old(char_iter).peeked as int, k)
                && final(char_iter).peeked == k + 1,
            None => r is None,
        },
{
    let ghost t = char_iter.iter@;
    let range_start = char_iter.offset();
    char_iter.consume_while_in(CharClass::EmailLocal);
    if char_iter.offset() == range_start {
        return None;
    }
    let c_0 = match char_iter.next_and_index() {
        Some((_, c)) => c,
        None => return None,
    };
    if c_0 != '@' {
        return None;
    }
    let ghost a1 = char_iter.peeked as int;
    proof {
        lemma_email_label(t, char_iter.peeked as int);
    }
    parse_email_label(char_iter)?;
    loop
        invariant
            char_iter.wf(),
            char_iter.iter@ == t,
            t == old(char_iter).iter@,
            range_start == old(char_iter).peeked,
            0 <= a1 <= t.len(),
            spec_parse_email(t, range_start as int) == (match spec_email_labels(t, a1) {
                Some(k) => if k < t.len() && t[k] == '>' { Some(k) } else { None },
                None => None,
            }),
            spec_email_labels(t, a1) == (if char_iter.peeked < t.len() && t[char_iter.peeked as int] == '.' {
                spec_email_labels(t, char_iter.peeked + 1)
            } else {
                Some(char_iter.peeked as int)
            }),
        ensures
            char_iter.wf(),
            char_iter.iter@ == t,
            spec_email_labels(t, a1) == Some(char_iter.peeked as int),
        decreases t.len() - char_iter.peeked,
    {
        if char_iter.next_if_char_eq('.').is_none() {
            break ;
        }
        proof {
            lemma_email_label(t, char_iter.peeked as int);
        }
        match parse_email_label(char_iter) {
            Some(_) => {},
            None => {
                return None;
            },
        }
    }
    let range_end = char_iter.offset();
    match char_iter.next_if_char_eq('>') {
        Some(_) => Some(range_start..range_end),
        None => None,
    }
}

pub fn parse_autolink(char_iter: &mut BorrowedStringPCI) -> (r: Option<(Range<usize>, bool)>)
    requires
        old(char_iter).wf(),
    ensures
        final(char_iter).wf(),
        final(char_iter).iter@ == old(char_iter).iter@,
        match spec_parse_uri_autolink(old(char_iter).iter@, old(char_iter).peeked as int) {
            Some(k) => r matches Some((rg, is_email)) && !is_email && range_is(rg, old(char_iter).peeked as int, k)
                && final(char_iter).peeked == k + 1,
            None => match spec_parse_email(old(char_iter).iter@, old(char_iter).peeked as int) {
                Some(k) => r matches Some((rg, is_email)) && is_email && range_is(rg, old(char_iter).peeked as int, k)
                    && final(char_iter).peeked == k + 1,
                None => r is None && final(char_iter).peeked == old(char_iter).peeked,
            },
        },
{
    let mut al_iter = *char_iter;
    let mut em_iter = *char_iter;
    if let Some(al_range) = parse_uri_autolink(&mut al_iter) {
        *char_iter = al_iter;
        Some((al_range, false))
    } else {
        let email_range = parse_email(&mut em_iter)?;
        *char_iter = em_iter;
        Some((email_range, true))
    }
}


/******************************* link parts *********************************/

/// Scans a link label after its `[`: at most 1000 characters (a backslash and the character it
/// escapes count 2), no unescaped `[`, up to a `]`, with a non-whitespace character before it.
/// The result is the index just past the `]`.
pub open spec fn spec_label_scan(t: Seq<char>, i: int, count: int, non_space: bool) -> Option<int>
    decreases t.len() - i,
{
    if count > 1000 || i < 0 || i >= t.len() {
        None
    } else if t[i] == '\\' {
        spec_label_scan(t, min_len(t, i + 2), count + 2, true)
    } else if t[i] == '[' {
        None
    } else if t[i] == ']' {
        if non_space {
            Some(i + 1)
        } else {
            None
        }
    } else {
        spec_label_scan(t, i + 1, count + 1, non_space || !spec_is_whitespace(t[i]))
    }
}

pub open spec fn spec_parse_link_label(t: Seq<char>, p: int) -> Option<int> {
    if 0 <= p < t.len() && t[p] == '[' {
        spec_label_scan(t, p + 1, 0, false)
    } else {
        None
    }
}

proof fn lemma_label_scan_bounds(t: Seq<char>, i: int, count: int, non_space: bool)
    requires
        0 <= i,
    ensures
        spec_label_scan(t, i, count, non_space) matches Some(e) ==> i < e <= t.len() && t[e - 1] == ']',
    decreases t.len() - i,
{
    if !(count > 1000 || i >= t.len()) {
        if t[i] == '\\' {
            lemma_label_scan_bounds(t, min_len(t, i + 2), count + 2, true);
        } else if t[i] != '[' && t[i] != ']' {
            lemma_label_scan_bounds(t, i + 1, count + 1, non_space || !spec_is_whitespace(t[i]));
        }
    }
}

/// A link label runs from its `[` to its `]`.
pub proof fn lemma_link_label_bounds(t: Seq<char>, p: int)
    ensures
        spec_parse_link_label(t, p) matches Some(e) ==> 0 <= p && p + 2 <= e <= t.len() && t[p] == '['
            && t[e - 1] == ']',
{
    if 0 <= p < t.len() && t[p] == '[' {
        lemma_label_scan_bounds(t, p + 1, 0, false);
    }
}

/// A link label, brackets included, as a range; the cursor stops after the `]`.
pub fn parse_link_label(char_iter: &mut BorrowedStringPCI) -> (r: Option<Range<usize>>)
    requires
        old(char_iter).wf(),
    ensures
        final(char_iter).wf(),
        final(char_iter).iter@ == old(char_iter).iter@,
        range_result(
            r,
            spec_parse_link_label(old(char_iter).iter@, old(char_iter).peeked as int),
            old(char_iter).peeked as int,
            final(char_iter).peeked as int,
        ),
{
    let ghost t = char_iter.iter@;
    let range_bottom = char_iter.offset();
    char_iter.next_if_char_eq('[')?;
    let mut non_space_encountered = false;
    let mut char_count: usize = 0;
    loop
        invariant
            char_iter.wf(),
            char_iter.iter@ == t,
            t == old(char_iter).iter@,
            range_bottom == old(char_iter).peeked,
            range_bottom < t.len() && t[range_bottom as int] == '[',
            char_count <= 1002,
            spec_parse_link_label(t, range_bottom as int) == spec_label_scan(
                t,
                char_iter.peeked as int,
                char_count as int,
                non_space_encountered,
            ),
        decreases t.len() - char_iter.peeked,
    {
        if char_count > 1000 {
            return None;
        }
        let c = match char_iter.next_and_index() {
            Some((_, c)) => c,
            None => return None,
        };
        if c == '\\' {
            char_count = char_count + 2;
            char_iter.next_and_index();
        } else if c == '[' {
            return None;
        } else if c == ']' {
            if non_space_encountered {
                return Some(range_bottom..char_iter.offset());
            } else {
                return None;
            }
        } else {
            char_count = char_count + 1;
        }
        non_space_encountered = non_space_encountered || !is_whitespace(c);
    }
}

/// Scans a link destination in angle brackets after its `<`: no line feed and no unescaped `<`
/// or `>` before the closing `>`, and no backslash before a line feed. The result is the index
/// of the closing `>`.
pub open spec fn spec_angle_dest_scan(t: Seq<char>, i: int) -> Option<int>
    decreases t.len() - i,
{
    if i < 0 || i >= t.len() {
        None
    } else if t[i] == '\\' {
        if i + 1 < t.len() && t[i + 1] == '\n' {
            None
        } else {
            spec_angle_dest_scan(t, min_len(t, i + 2))
        }
    } else if t[i] == '<' || t[i] == '\n' {
        None
    } else if t[i] == '>' {
        Some(i)
    } else {
        spec_angle_dest_scan(t, i + 1)
    }
}

/// What a bare destination may hold at a point where `depth` parentheses are open.
pub open spec fn bare_dest_char(c: char, depth: int) -> bool {
    c != ' ' && c != '\t' && !spec_is_ascii_control(c) && (c != ')' || depth > 0)
}

/// Scans a bare link destination: no space, tab or ASCII control, parentheses balanced; a
/// backslash before whitespace or a control character ends it there. The result is where it
/// ends.
pub open spec fn spec_bare_dest_scan(t: Seq<char>, i: int, depth: int) -> Option<int>
    decreases t.len() - i,
{
    if 0 <= i < t.len() && bare_dest_char(t[i], depth) {
        if t[i] == '(' {
            spec_bare_dest_scan(t, i + 1, depth + 1)
        } else if t[i] == ')' {
            spec_bare_dest_scan(t, i + 1, depth - 1)
        } else if t[i] == '\\' && i + 1 < t.len() {
            if spec_is_whitespace(t[i + 1]) || spec_is_ascii_control(t[i + 1]) {
                Some(i + 1)
            } else {
                spec_bare_dest_scan(t, i + 2, depth)
            }
        } else {
            spec_bare_dest_scan(t, i + 1, depth)
        }
    } else if depth == 0 {
        Some(i)
    } else {
        None
    }
}

/// A link destination: `(start, end, where the cursor stops)`.
pub open spec fn spec_parse_link_destination(t: Seq<char>, p: int) -> Option<(int, int, int)> {
    if p < 0 || p >= t.len() {
        None
    } else if spec_is_whitespace(t[p]) || spec_is_ascii_control(t[p]) {
        None
    } else if t[p] == '<' {
        match spec_angle_dest_scan(t, p + 1) {
            Some(k) => Some((p + 1, k, k + 1)),
            None => None,
        }
    } else {
        match spec_bare_dest_scan(t, p, 0) {
            Some(e) => Some((p, e, e)),
            None => None,
        }
    }
}

/// A destination in angle brackets is the text between them, when that text holds no `<`,
/// `>`, backslash or line feed; the cursor stops after the `>`.
pub proof fn law_angle_destination(t: Seq<char>, p: int, k: int)
    requires
        0 <= p < k < t.len(),
        t[p] == '<',
        t[k] == '>',
        forall|i: int| p < i < k ==> #[trigger] t[i] != '<' && t[i] != '>' && t[i] != '\\' && t[i] != '\n',
    ensures
        spec_parse_link_destination(t, p) == Some((p + 1, k, k + 1)),
{
    lemma_angle_scan_plain(t, p + 1, k);
    assert(!spec_is_whitespace('<') && !spec_is_ascii_control('<'));
}

proof fn lemma_angle_scan_plain(t: Seq<char>, i: int, k: int)
    requires
        0 <= i <= k < t.len(),
        t[k] == '>',
        forall|j: int| i <= j < k ==> #[trigger] t[j] != '<' && t[j] != '>' && t[j] != '\\' && t[j] != '\n',
    ensures
        spec_angle_dest_scan(t, i) == Some(k),
    decreases k - i,
{
    if i < k {
        lemma_angle_scan_plain(t, i + 1, k);
    }
}

/// A bare destination of characters that are neither whitespace, control characters,
/// parentheses nor backslashes runs up to the first space or the end of the text.
pub proof fn law_bare_destination(t: Seq<char>, p: int, e: int)
    requires
        0 <= p < e <= t.len(),
        t[p] != '<',
        forall|i: int|
            p <= i < e ==> !spec_is_whitespace(#[trigger] t[i]) && !spec_is_ascii_control(t[i]) && t[i] != '('
                && t[i] != ')' && t[i] != '\\',
        e == t.len() || t[e] == ' ',
    ensures
        spec_parse_link_destination(t, p) == Some((p, e, e)),
{
    lemma_bare_scan_plain(t, p, e);
}

proof fn lemma_bare_scan_plain(t: Seq<char>, i: int, e: int)
    requires
        0 <= i <= e <= t.len(),
        forall|j: int|
            i <= j < e ==> !spec_is_whitespace(#[trigger] t[j]) && !spec_is_ascii_control(t[j]) && t[j] != '('
                && t[j] != ')' && t[j] != '\\',
        e == t.len() || t[e] == ' ',
    ensures
        spec_bare_dest_scan(t, i, 0) == Some(e),
    decreases e - i,
{
    if i < e {
        assert(t[i] != ' ' && t[i] != '\t') by {
            assert(spec_is_whitespace(' ') && spec_is_whitespace('\t'));
        }
        lemma_bare_scan_plain(t, i + 1, e);
    }
}

proof fn lemma_bare_dest_scan_bounds(t: Seq<char>, i: int, depth: int)
    requires
        0 <= i <= t.len(),
    ensures
        spec_bare_dest_scan(t, i, depth) matches Some(e) ==> i <= e <= t.len(),
    decreases t.len() - i,
{
    if 0 <= i < t.len() && bare_dest_char(t[i], depth) {
        if t[i] == '(' {
            lemma_bare_dest_scan_bounds(t, i + 1, depth + 1);
        } else if t[i] == ')' {
            lemma_bare_dest_scan_bounds(t, i + 1, depth - 1);
        } else if t[i] == '\\' && i + 1 < t.len() {
            if !(spec_is_whitespace(t[i + 1]) || spec_is_ascii_control(t[i + 1])) {
                lemma_bare_dest_scan_bounds(t, i + 2, depth);
            }
        } else {
            lemma_bare_dest_scan_bounds(t, i + 1, depth);
        }
    }
}

proof fn lemma_angle_dest_scan_bounds(t: Seq<char>, i: int)
    requires
        0 <= i,
    ensures
        spec_angle_dest_scan(t, i) matches Some(k) ==> i <= k < t.len() && t[k] == '>',
    decreases t.len() - i,
{
    if 0 <= i < t.len() {
        if t[i] == '\\' {
            if !(i + 1 < t.len() && t[i + 1] == '\n') {
                lemma_angle_dest_scan_bounds(t, min_len(t, i + 2));
            }
        } else if !(t[i] == '<' || t[i] == '\n' || t[i] == '>') {
            lemma_angle_dest_scan_bounds(t, i + 1);
        }
    }
}

pub proof fn lemma_link_destination_bounds(t: Seq<char>, p: int)
    requires
        0 <= p <= t.len(),
    ensures
        spec_parse_link_destination(t, p) matches Some((s, e, q)) ==> p <= s <= e <= q <= t.len(),
{
    if 0 <= p < t.len() {
        lemma_angle_dest_scan_bounds(t, p + 1);
        lemma_bare_dest_scan_bounds(t, p, 0);
    }
}

pub fn parse_link_destination(char_iter: &mut BorrowedStringPCI) -> (r: Option<Range<usize>>)
    requires
        old(char_iter).wf(),
    ensures
        final(char_iter).wf(),
        final(char_iter).iter@ == old(char_iter).iter@,
        match spec_parse_link_destination(old(char_iter).iter@, old(char_iter).peeked as int) {
            Some((s, e, q)) => r matches Some(rg) && range_is(rg, s, e) && final(char_iter).peeked == q,
            None => r is None,
        },
{
    let ghost t = char_iter.iter@;
    let c_0 = char_iter.peek()?;
    if is_whitespace(c_0) || is_ascii_control(c_0) {
        return None;
    }
    let mut range_bottom = char_iter.offset();
    if c_0 == '<' {
        char_iter.next_and_index();
        range_bottom = char_iter.offset();
        loop
            invariant
                char_iter.wf(),
                char_iter.iter@ == t,
                t == old(char_iter).iter@,
                old(char_iter).peeked < t.len(),
                t[old(char_iter).peeked as int] == '<',
                range_bottom == old(char_iter).peeked + 1,
                spec_angle_dest_scan(t, range_bottom as int) == spec_angle_dest_scan(t, char_iter.peeked as int),
            decreases t.len() - char_iter.peeked,
        {
            let (ci, c) = match char_iter.next_and_index() {
                Some(x) => x,
                None => return None,
            };
            if c == '\\' {
                if let Some(n) = char_iter.peek() {
                    if n == '\n' {
                        return None;
                    }
                }
                char_iter.next_and_index();
            } else if c == '<' || c == '\n' {
                return None;
            } else if c == '>' {
                return Some(range_bottom..ci);
            }
        }
    }
    let mut paren_stack: usize = 0;
    let ghost p = range_bottom as int;
    loop
        invariant
            char_iter.wf(),
            char_iter.iter@ == t,
            t == old(char_iter).iter@,
            p == old(char_iter).peeked,
            p == range_bottom,
            p < t.len(),
            t[p] != '<',
            !spec_is_whitespace(t[p]) && !spec_is_ascii_control(t[p]),
            paren_stack <= char_iter.peeked,
            spec_bare_dest_scan(t, p, 0) == spec_bare_dest_scan(t, char_iter.peeked as int, paren_stack as int),
        ensures
            char_iter.wf(),
            char_iter.iter@ == t,
            spec_bare_dest_scan(t, p, 0) == (if paren_stack == 0 { Some(char_iter.peeked as int) } else { None::<int> }),
        decreases t.len() - char_iter.peeked,
    {
        let c = match char_iter.peek() {
            Some(c) => c,
            None => break ,
        };
        if !(c != ' ' && c != '\t' && !is_ascii_control(c) && (c != ')' || paren_stack > 0)) {
            break ;
        }
        char_iter.next_and_index();
        if c == '(' {
            paren_stack = paren_stack + 1;
        } else if c == ')' {
            paren_stack = paren_stack - 1;
        } else if c == '\\' {
            if let Some(cpbs) = char_iter.peek() {
                if is_whitespace(cpbs) || is_ascii_control(cpbs) {
                    return Some(range_bottom..char_iter.offset());
                }
                char_iter.next_and_index();
            }
        }
    }
    if paren_stack == 0 {
        return Some(range_bottom..char_iter.offset());
    }
    None
}

/// Scans a link title after its opening delimiter `open`, up to the matching `close`; `open`
/// itself may not appear unescaped, and a backslash escapes the next character. The result is
/// the index of `close`.
pub open spec fn spec_title_scan(t: Seq<char>, i: int, open: char, close: char) -> Option<int>
    decreases t.len() - i,
{
    if i < 0 || i >= t.len() {
        None
    } else if t[i] == close {
        Some(i)
    } else if t[i] == open {
        None
    } else if t[i] == '\\' {
        spec_title_scan(t, min_len(t, i + 2), open, close)
    } else {
        spec_title_scan(t, i + 1, open, close)
    }
}

/// A link title in `"`, `'` or parentheses; the result is the index of its closing delimiter
/// (the title's text runs from just after the opening one up to there).
pub open spec fn spec_parse_link_title(t: Seq<char>, p: int) -> Option<int> {
    if p < 0 || p >= t.len() {
        None
    } else if t[p] == '"' || t[p] == '\'' {
        spec_title_scan(t, p + 1, t[p], t[p])
    } else if t[p] == '(' {
        spec_title_scan(t, p + 1, '(', ')')
    } else {
        None
    }
}

pub proof fn lemma_title_scan_bounds(t: Seq<char>, i: int, open: char, close: char)
    requires
        0 <= i,
    ensures
        spec_title_scan(t, i, open, close) matches Some(k) ==> i <= k < t.len() && t[k] == close,
    decreases t.len() - i,
{
    if 0 <= i < t.len() && t[i] != close && t[i] != open {
        if t[i] == '\\' {
            lemma_title_scan_bounds(t, min_len(t, i + 2), open, close);
        } else {
            lemma_title_scan_bounds(t, i + 1, open, close);
        }
    }
}

/// A link title ends at a closing delimiter after its opening one.
pub proof fn lemma_link_title_bounds(t: Seq<char>, p: int)
    ensures
        spec_parse_link_title(t, p) matches Some(k) ==> 0 <= p < k < t.len(),
{
    if 0 <= p < t.len() {
        if t[p] == '"' || t[p] == '\'' {
            lemma_title_scan_bounds(t, p + 1, t[p], t[p]);
        } else if t[p] == '(' {
            lemma_title_scan_bounds(t, p + 1, '(', ')');
        }
    }
}

/// A link title in `"`, `'` or `(`..`)`; the range it gives is the text between the delimiters.
pub fn parse_link_title(char_iter: &mut BorrowedStringPCI) -> (r: Option<Range<usize>>)
    requires
        old(char_iter).wf(),
    ensures
        final(char_iter).wf(),
        final(char_iter).iter@ == old(char_iter).iter@,
        match spec_parse_link_title(old(char_iter).iter@, old(char_iter).peeked as int) {
            Some(k) => r matches Some(rg) && range_is(rg, old(char_iter).peeked + 1, k)
                && final(char_iter).peeked == k + 1,
            None => r is None,
        },
{
    let ghost t = char_iter.iter@;
    let c_0 = match char_iter.next_and_index() {
        Some((_, c)) => c,
        None => return None,
    };
    if !(c_0 == '"' || c_0 == '\'' || c_0 == '(') {
        return None;
    }
    let range_bottom = char_iter.offset();
    let matching_delimiter = if c_0 == '(' {
        ')'
    } else {
        c_0
    };
    loop
        invariant
            char_iter.wf(),
            char_iter.iter@ == t,
            t == old(char_iter).iter@,
            range_bottom == old(char_iter).peeked + 1,
            spec_parse_link_title(t, old(char_iter).peeked as int) == spec_title_scan(
                t,
                char_iter.peeked as int,
                c_0,
                matching_delimiter,
            ),
        ensures
            char_iter.wf(),
            char_iter.iter@ == t,
            spec_parse_link_title(t, old(char_iter).peeked as int) == spec_title_scan(
                t,
                char_iter.peeked as int,
                c_0,
                matching_delimiter,
            ),
            char_iter.peeked == t.len() || t[char_iter.peeked as int] == matching_delimiter,
        decreases t.len() - char_iter.peeked,
    {
        let c = match char_iter.peek() {
            Some(c) => c,
            None => break ,
        };
        if c == matching_delimiter {
            break ;
        }
        char_iter.next_and_index();
        if c == c_0 {
            return None;
        }
        if c == '\\' {
            char_iter.next_and_index();
        }
    }
    let range_top = char_iter.offset();
    let c_closing = match char_iter.next_and_index() {
        Some((_, c)) => c,
        None => return None,
    };
    if c_closing == matching_delimiter {
        return Some(range_bottom..range_top);
    }
    None
}

/// What follows a link's `]` when it is an inline link: `(destination, title, where it ends)`,
/// each part as `(start, end)`.
pub open spec fn spec_parse_inline_suffix(t: Seq<char>, p: int) -> Option<
    (Option<(int, int)>, Option<(int, int)>, int),
> {
    if !(0 <= p < t.len() && t[p] == '(') {
        None
    } else {
        let a = skip_class(t, p + 1, CharClass::SpaceTabNewline);
        if a < t.len() && t[a] == ')' {
            Some((None, None, a + 1))
        } else {
            match spec_parse_link_destination(t, a) {
                None => None,
                Some((ds, de, q)) => {
                    let b = skip_class(t, q, CharClass::SpaceTabNewline);
                    if b < t.len() && t[b] == ')' {
                        Some((Some((ds, de)), None, b + 1))
                    } else if b == q {
                        None
                    } else {
                        match spec_parse_link_title(t, b) {
                            None => None,
                            Some(k) => {
                                let c = skip_class(t, k + 1, CharClass::SpaceTabNewline);
                                if c < t.len() && t[c] == ')' {
                                    Some((Some((ds, de)), Some((b + 1, k)), c + 1))
                                } else {
                                    None
                                }
                            },
                        }
                    }
                },
            }
        }
    }
}

pub open spec fn opt_range_is(r: Option<Range<usize>>, s: Option<(int, int)>) -> bool {
    match s {
        Some((a, b)) => r matches Some(rg) && range_is(rg, a, b),
        None => r is None,
    }
}

/// The parts of an inline link's suffix lie in the text, and the suffix is not empty.
pub proof fn lemma_inline_suffix_bounds(t: Seq<char>, p: int)
    requires
        0 <= p <= t.len(),
    ensures
        spec_parse_inline_suffix(t, p) matches Some((d, ti, q)) ==> {
            &&& p < q <= t.len()
            &&& (d matches Some((s, e)) ==> 0 <= s <= e <= t.len())
            &&& (ti matches Some((s, e)) ==> 0 <= s <= e <= t.len())
        },
{
    if 0 <= p < t.len() && t[p] == '(' {
        let a = skip_class(t, p + 1, CharClass::SpaceTabNewline);
        lemma_skip_class_bounds(t, p + 1, CharClass::SpaceTabNewline);
        lemma_link_destination_bounds(t, a);
        if let Some((ds, de, q)) = spec_parse_link_destination(t, a) {
            let b = skip_class(t, q, CharClass::SpaceTabNewline);
            lemma_skip_class_bounds(t, q, CharClass::SpaceTabNewline);
            if 0 <= b < t.len() {
                if t[b] == '"' || t[b] == '\'' {
                    lemma_title_scan_bounds(t, b + 1, t[b], t[b]);
                } else if t[b] == '(' {
                    lemma_title_scan_bounds(t, b + 1, '(', ')');
                }
            }
            if let Some(k) = spec_parse_link_title(t, b) {
                lemma_skip_class_bounds(t, k + 1, CharClass::SpaceTabNewline);
            }
        }
    }
}

pub type InlineLinkSuffix = (Option<Range<usize>>, Option<Range<usize>>);

pub fn parse_inline_suffix(char_iter: &mut BorrowedStringPCI) -> (r: Option<InlineLinkSuffix>)
    requires
        old(char_iter).wf(),
    ensures
        final(char_iter).wf(),
        final(char_iter).iter@ == old(char_iter).iter@,
        match spec_parse_inline_suffix(old(char_iter).iter@, old(char_iter).peeked as int) {
            Some((d, ti, q)) => r matches Some((rd, rt)) && opt_range_is(rd, d) && opt_range_is(rt, ti)
                && final(char_iter).peeked == q,
            None => r is None,
        },
{
    let ghost t = char_iter.iter@;
    char_iter.next_if_char_eq('(')?;
    char_iter.consume_while_in(CharClass::SpaceTabNewline);
    if char_iter.next_if_char_eq(')').is_some() {
        return Some((None, None));
    }
    let dest_range = parse_link_destination(char_iter)?;
    let post_dest_offset = char_iter.offset();
    char_iter.consume_while_in(CharClass::SpaceTabNewline);
    if char_iter.next_if_char_eq(')').is_some() {
        return Some((Some(dest_range), None));
    }
    if char_iter.offset() == post_dest_offset {
        return None;
    }
    let tit_range = parse_link_title(char_iter)?;
    char_iter.consume_while_in(CharClass::SpaceTabNewline);
    char_iter.next_if_char_eq(')')?;
    Some((Some(dest_range), Some(tit_range)))
}

#[derive(Debug)]
pub enum ReferenceLinkType {
    Full(Range<usize>),
    Collapsed,
}

/// What follows a link's `]` when it refers to a definition: `[]`, or a full label.
pub fn parse_reference_link(char_iter: &mut BorrowedStringPCI) -> (r: Option<ReferenceLinkType>)
    requires
        old(char_iter).wf(),
    ensures
        final(char_iter).wf(),
        final(char_iter).iter@ == old(char_iter).iter@,
        ({
            let t = old(char_iter).iter@;
            let p = old(char_iter).peeked as int;
            if p + 1 < t.len() && t[p] == '[' && t[p + 1] == ']' {
                r matches Some(ReferenceLinkType::Collapsed) && final(char_iter).peeked == p + 2
            } else {
                match spec_parse_link_label(t, p) {
                    Some(e) => r matches Some(ReferenceLinkType::Full(rg)) && range_is(rg, p, e)
                        && final(char_iter).peeked == e,
                    None => r is None,
                }
            }
        }),
{
    let mut check_for_collapsed_iter = *char_iter;
    if check_for_collapsed_iter.next_if_char_eq('[').is_some()
        && check_for_collapsed_iter.next_if_char_eq(']').is_some() {
        *char_iter = check_for_collapsed_iter;
        return Some(ReferenceLinkType::Collapsed);
    }
    let lab_range = parse_link_label(char_iter)?;
    Some(ReferenceLinkType::Full(lab_range))
}


/******************************** raw HTML **********************************/

/// An attribute (after the tag name): whitespace, a name, and an optional value. The result is
/// `(the offset the parser reports, where the cursor stops)`; an unterminated quoted value makes
/// the attribute end after its name.
pub open spec fn spec_parse_attribute(t: Seq<char>, i: int) -> Option<(int, int)> {
    let a = skip_class(t, i, CharClass::SpaceTabNewline);
    if a >= t.len() || a <= i {
        None
    } else if !(spec_is_ascii_alphabetic(t[a]) || t[a] == '_' || t[a] == ':') {
        None
    } else {
        let b = skip_class(t, a + 1, CharClass::AttributeName);
        let c = skip_class(t, b, CharClass::SpaceTabNewline);
        if !(c < t.len() && t[c] == '=') {
            Some((b, b))
        } else {
            let d = skip_class(t, c + 1, CharClass::SpaceTabNewline);
            if d >= t.len() {
                None
            } else if t[d] == '"' || t[d] == '\'' {
                match find_char(t, d + 1, t[d]) {
                    Some(k) => Some((k, k + 1)),
                    None => Some((b, b)),
                }
            } else {
                let e = skip_class(t, d, CharClass::UnquotedValue);
                Some((e, e))
            }
        }
    }
}

pub proof fn lemma_attribute_progress(t: Seq<char>, i: int)
    requires
        0 <= i <= t.len(),
    ensures
        spec_parse_attribute(t, i) matches Some((v, q)) ==> i < q <= t.len(),
{
    lemma_skip_class_bounds(t, i, CharClass::SpaceTabNewline);
    let a = skip_class(t, i, CharClass::SpaceTabNewline);
    if a < t.len() && a > i {
        lemma_skip_class_bounds(t, a + 1, CharClass::AttributeName);
        let b = skip_class(t, a + 1, CharClass::AttributeName);
        lemma_skip_class_bounds(t, b, CharClass::SpaceTabNewline);
        let c = skip_class(t, b, CharClass::SpaceTabNewline);
        if c < t.len() && t[c] == '=' {
            lemma_skip_class_bounds(t, c + 1, CharClass::SpaceTabNewline);
            let d = skip_class(t, c + 1, CharClass::SpaceTabNewline);
            if d < t.len() {
                lemma_find_char_bounds(t, d + 1, t[d]);
                lemma_skip_class_bounds(t, d, CharClass::UnquotedValue);
            }
        }
    }
}

/// An HTML attribute, with its value if it has one (see `spec_parse_attribute`).
pub fn parse_attribute(char_iter: &mut BorrowedStringPCI) -> (r: Option<usize>)
    requires
        old(char_iter).wf(),
    ensures
        final(char_iter).wf(),
        final(char_iter).iter@ == old(char_iter).iter@,
        match spec_parse_attribute(old(char_iter).iter@, old(char_iter).peeked as int) {
            Some((v, q)) => r == Some(v as usize) && final(char_iter).peeked == q,
            None => r is None,
        },
{
    let ghost t = char_iter.iter@;
    let start = char_iter.offset();
    char_iter.consume_while_in(CharClass::SpaceTabNewline);
    let ws_seen = char_iter.offset() > start;
    let c_post_ws = match char_iter.next_and_index() {
        Some((_, c)) => c,
        None => return None,
    };
    if !ws_seen || !(crate::char_class::is_ascii_alphabetic(c_post_ws) || c_post_ws == '_'
        || c_post_ws == ':') {
        return None;
    }
    char_iter.consume_while_in(CharClass::AttributeName);
    let pre_val_iter = *char_iter;
    char_iter.consume_while_in(CharClass::SpaceTabNewline);
    if char_iter.next_if_char_eq('=').is_none() {
        *char_iter = pre_val_iter;
        return Some(char_iter.offset());
    }
    char_iter.consume_while_in(CharClass::SpaceTabNewline);
    let first_c_of_val = char_iter.peek()?;
    if first_c_of_val == '"' || first_c_of_val == '\'' {
        char_iter.next_and_index();
        let ghost d1 = char_iter.peeked as int;
        loop
            invariant
                char_iter.wf(),
                char_iter.iter@ == t,
                t == old(char_iter).iter@,
                pre_val_iter.wf(),
                pre_val_iter.iter@ == t,
                spec_parse_attribute(t, old(char_iter).peeked as int) == (match find_char(t, d1, first_c_of_val) {
                    Some(k) => Some((k, k + 1)),
                    None => Some((pre_val_iter.peeked as int, pre_val_iter.peeked as int)),
                }),
                0 <= d1 <= char_iter.peeked,
                find_char(t, d1, first_c_of_val) == find_char(t, char_iter.peeked as int, first_c_of_val),
            ensures
                char_iter.wf(),
                char_iter.iter@ == t,
                find_char(t, d1, first_c_of_val) is None,
            decreases t.len() - char_iter.peeked,
        {
            match char_iter.next_and_index() {
                Some((ci, c)) => {
                    if c == first_c_of_val {
                        return Some(ci);
                    }
                },
                None => break ,
            }
        }
        *char_iter = pre_val_iter;
        return Some(char_iter.offset());
    }
    char_iter.consume_while_in(CharClass::UnquotedValue);
    Some(char_iter.offset())
}

/// Attributes one after another, as long as they parse; the result is where the last ends.
pub open spec fn spec_attributes(t: Seq<char>, i: int) -> int
    decreases t.len() - i,
{
    match spec_parse_attribute(t, i) {
        Some((v, q)) => if i < q <= t.len() {
            spec_attributes(t, q)
        } else {
            i
        },
        None => i,
    }
}

/// An opening tag after its first letter: the rest of the name, attributes, optional
/// whitespace, an optional `/` and `>`. The result is where it ends.
pub open spec fn spec_parse_opening_tag(t: Seq<char>, i: int) -> Option<int> {
    let a = skip_class(t, i, CharClass::AlphanumericOrHyphen);
    let b = spec_attributes(t, a);
    let c = skip_class(t, b, CharClass::SpaceTabNewline);
    let d = if c < t.len() && t[c] == '/' {
        c + 1
    } else {
        c
    };
    if d < t.len() && t[d] == '>' {
        Some(d + 1)
    } else {
        None
    }
}

// These functions are called based on lookahead by callers, so opening brackets are consumed
// closing brackets are not though.
pub fn parse_opening_tag(char_iter: &mut BorrowedStringPCI) -> (r: Option<Range<usize>>)
    requires
        old(char_iter).wf(),
    ensures
        final(char_iter).wf(),
        final(char_iter).iter@ == old(char_iter).iter@,
        range_result(
            r,
            spec_parse_opening_tag(old(char_iter).iter@, old(char_iter).peeked as int),
            old(char_iter).peeked as int,
            final(char_iter).peeked as int,
        ),
{
    let ghost t = char_iter.iter@;
    let range_bottom = char_iter.offset();
    char_iter.consume_while_in(CharClass::AlphanumericOrHyphen);
    let ghost a = char_iter.peeked as int;
    loop
        invariant
            char_iter.wf(),
            char_iter.iter@ == t,
            spec_attributes(t, a) == spec_attributes(t, char_iter.peeked as int),
        ensures
            char_iter.wf(),
            char_iter.iter@ == t,
            spec_attributes(t, a) == char_iter.peeked,
        decreases t.len() - char_iter.peeked,
    {
        proof {
            lemma_attribute_progress(t, char_iter.peeked as int);
        }
        let mut attribute_iter = *char_iter;
        if parse_attribute(&mut attribute_iter).is_none() {
            break ;
        }
        *char_iter = attribute_iter;
    }
    char_iter.consume_while_in(CharClass::SpaceTabNewline);
    char_iter.next_if_char_eq('/');
    match char_iter.next_if_char_eq('>') {
        Some(_) => Some(range_bottom..char_iter.offset()),
        None => None,
    }
}

/// A closing tag after its `/`: name characters, optional whitespace and `>`.
pub open spec fn spec_parse_closing_tag(t: Seq<char>, i: int) -> Option<int> {
    let a = skip_class(t, i, CharClass::AlphanumericOrHyphen);
    let b = skip_class(t, a, CharClass::SpaceTabNewline);
    if b < t.len() && t[b] == '>' {
        Some(b + 1)
    } else {
        None
    }
}

pub fn parse_closing_tag(char_iter: &mut BorrowedStringPCI) -> (r: Option<Range<usize>>)
    requires
        old(char_iter).wf(),
    ensures
        final(char_iter).wf(),
        final(char_iter).iter@ == old(char_iter).iter@,
        range_result(
            r,
            spec_parse_closing_tag(old(char_iter).iter@, old(char_iter).peeked as int),
            old(char_iter).peeked as int,
            final(char_iter).peeked as int,
        ),
{
    let range_bottom = char_iter.offset();
    char_iter.consume_while_in(CharClass::AlphanumericOrHyphen);
    char_iter.consume_while_in(CharClass::SpaceTabNewline);
    match char_iter.next_if_char_eq('>') {
        Some(_) => Some(range_bottom..char_iter.offset()),
        None => None,
    }
}

/// Scans the body of a comment for `-->` (a `>` after at least two `-`); `dashes` is how many
/// `-` came just before `i`. The result is the index after the `>`.
pub open spec fn spec_comment_scan(t: Seq<char>, i: int, dashes: int) -> Option<int>
    decreases t.len() - i,
{
    if i < 0 || i >= t.len() {
        None
    } else if t[i] == '-' {
        spec_comment_scan(t, i + 1, dashes + 1)
    } else if t[i] == '>' && dashes >= 2 {
        Some(i + 1)
    } else {
        spec_comment_scan(t, i + 1, 0)
    }
}

/// A comment after its `<!`: `--`, then `>` or `->` at once, or anything up to `-->`.
pub open spec fn spec_parse_html_comment(t: Seq<char>, i: int) -> Option<int> {
    if i < 0 || i + 1 >= t.len() || t[i] != '-' || t[i + 1] != '-' {
        None
    } else {
        let j = i + 2;
        if j < t.len() && t[j] == '>' {
            Some(j + 1)
        } else if j < t.len() && t[j] == '-' {
            if j + 1 < t.len() && t[j + 1] == '>' {
                Some(j + 2)
            } else {
                spec_comment_scan(t, j + 1, 1)
            }
        } else {
            spec_comment_scan(t, j, 0)
        }
    }
}

pub fn parse_html_comment(char_iter: &mut BorrowedStringPCI) -> (r: Option<Range<usize>>)
    requires
        old(char_iter).wf(),
    ensures
        final(char_iter).wf(),
        final(char_iter).iter@ == old(char_iter).iter@,
        range_result(
            r,
            spec_parse_html_comment(old(char_iter).iter@, old(char_iter).peeked as int),
            old(char_iter).peeked as int,
            final(char_iter).peeked as int,
        ),
{
    let ghost t = char_iter.iter@;
    let range_bottom = char_iter.offset();
    let c_0 = match char_iter.next_and_index() {
        Some((_, c)) => c,
        None => return None,
    };
    let c_1 = match char_iter.next_and_index() {
        Some((_, c)) => c,
        None => return None,
    };
    if c_0 != '-' || c_1 != '-' {
        return None;
    }
    let mut dash_count: usize = 0;
    if char_iter.next_if_char_eq('>').is_some() {
        return Some(range_bottom..char_iter.offset());
    }
    if char_iter.next_if_char_eq('-').is_some() {
        dash_count = dash_count + 1;
        if char_iter.next_if_char_eq('>').is_some() {
            return Some(range_bottom..char_iter.offset());
        }
    }
    loop
        invariant
            char_iter.wf(),
            char_iter.iter@ == t,
            t == old(char_iter).iter@,
            range_bottom == old(char_iter).peeked,
            dash_count <= char_iter.peeked,
            spec_parse_html_comment(t, range_bottom as int) == spec_comment_scan(
                t,
                char_iter.peeked as int,
                dash_count as int,
            ),
        decreases t.len() - char_iter.peeked,
    {
        let c = match char_iter.next_and_index() {
            Some((_, c)) => c,
            None => return None,
        };
        if c == '-' {
            dash_count = dash_count + 1;
        } else if c == '>' && dash_count >= 2 {
            return Some(range_bottom..char_iter.offset());
        } else {
            dash_count = 0;
        }
    }
}

/// Scans a processing instruction for `?>`; `seen_qm` says whether a `?` came just before `i`.
pub open spec fn spec_pi_scan(t: Seq<char>, i: int, seen_qm: bool) -> Option<int>
    decreases t.len() - i,
{
    if i < 0 || i >= t.len() {
        None
    } else if t[i] == '?' {
        spec_pi_scan(t, i + 1, true)
    } else if t[i] == '>' && seen_qm {
        Some(i + 1)
    } else {
        spec_pi_scan(t, i + 1, false)
    }
}

pub fn parse_processing_instruction(char_iter: &mut BorrowedStringPCI) -> (r: Option<Range<usize>>)
    requires
        old(char_iter).wf(),
    ensures
        final(char_iter).wf(),
        final(char_iter).iter@ == old(char_iter).iter@,
        range_result(
            r,
            spec_pi_scan(old(char_iter).iter@, old(char_iter).peeked as int, false),
            old(char_iter).peeked as int,
            final(char_iter).peeked as int,
        ),
{
    let ghost t = char_iter.iter@;
    let range_bottom = char_iter.offset();
    let mut seen_qm = false;
    loop
        invariant
            char_iter.wf(),
            char_iter.iter@ == t,
            t == old(char_iter).iter@,
            range_bottom == old(char_iter).peeked,
            spec_pi_scan(t, range_bottom as int, false) == spec_pi_scan(
                t,
                char_iter.peeked as int,
                seen_qm,
            ),
        decreases t.len() - char_iter.peeked,
    {
        let c = match char_iter.next_and_index() {
            Some((_, c)) => c,
            None => return None,
        };
        if c == '?' {
            seen_qm = true;
        } else if c == '>' && seen_qm {
            return Some(range_bottom..char_iter.offset());
        } else {
            seen_qm = false;
        }
    }
}

/// A declaration after its `<!`: an ASCII letter, then anything up to the first `>`.
pub open spec fn spec_parse_declaration(t: Seq<char>, i: int) -> Option<int> {
    if i < 0 || i >= t.len() || !spec_is_ascii_alphabetic(t[i]) {
        None
    } else {
        match find_char(t, i + 1, '>') {
            Some(k) => Some(k + 1),
            None => None,
        }
    }
}

/// An HTML declaration (`<!` already consumed): a letter, then anything up to and with `>`.
pub fn parse_declaration(char_iter: &mut BorrowedStringPCI) -> (r: Option<Range<usize>>)
    requires
        old(char_iter).wf(),
    ensures
        final(char_iter).wf(),
        final(char_iter).iter@ == old(char_iter).iter@,
        range_result(
            r,
            spec_parse_declaration(old(char_iter).iter@, old(char_iter).peeked as int),
            old(char_iter).peeked as int,
            final(char_iter).peeked as int,
        ),
{
    let ghost t = char_iter.iter@;
    let range_bottom = char_iter.offset();
    let char_0 = match char_iter.next_and_index() {
        Some((_, c)) => c,
        None => return None,
    };
    if !crate::char_class::is_ascii_alphabetic(char_0) {
        return None;
    }
    loop
        invariant
            char_iter.wf(),
            char_iter.iter@ == t,
            t == old(char_iter).iter@,
            range_bottom == old(char_iter).peeked,
            range_bottom < t.len() && spec_is_ascii_alphabetic(t[range_bottom as int]),
            char_iter.peeked >= 1,
            find_char(t, range_bottom + 1, '>') == find_char(t, char_iter.peeked as int, '>'),
        decreases t.len() - char_iter.peeked,
    {
        let c = match char_iter.next_and_index() {
            Some((_, c)) => c,
            None => return None,
        };
        if c == '>' {
            return Some(range_bottom..char_iter.offset());
        }
    }
}

pub open spec fn cdata_opening() -> Seq<char> {
    seq!['[', 'C', 'D', 'A', 'T', 'A', '[']
}

/// Scans a CDATA section for `]]>`; `brackets` is how many `]` came just before `i`.
pub open spec fn spec_cdata_scan(t: Seq<char>, i: int, brackets: int) -> Option<int>
    decreases t.len() - i,
{
    if i < 0 || i >= t.len() {
        None
    } else if t[i] == ']' {
        spec_cdata_scan(t, i + 1, brackets + 1)
    } else if t[i] == '>' && brackets >= 2 {
        Some(i + 1)
    } else {
        spec_cdata_scan(t, i + 1, 0)
    }
}

/// A CDATA section after its `<!`: `[CDATA[`, then anything up to `]]>`.
pub open spec fn spec_parse_cdata_section(t: Seq<char>, i: int) -> Option<int> {
    if 0 <= i && i + 7 <= t.len() && t.subrange(i, i + 7) == cdata_opening() {
        spec_cdata_scan(t, i + 7, 0)
    } else {
        None
    }
}

pub fn parse_cdata_section(char_iter: &mut BorrowedStringPCI) -> (r: Option<Range<usize>>)
    requires
        old(char_iter).wf(),
    ensures
        final(char_iter).wf(),
        final(char_iter).iter@ == old(char_iter).iter@,
        range_result(
            r,
            spec_parse_cdata_section(old(char_iter).iter@, old(char_iter).peeked as int),
            old(char_iter).peeked as int,
            final(char_iter).peeked as int,
        ),
{
    let ghost t = char_iter.iter@;
    let range_bottom = char_iter.offset();
    let to_match = ['[', 'C', 'D', 'A', 'T', 'A', '['];
    let mut k: usize = 0;
    while k < 7
        invariant
            char_iter.wf(),
            char_iter.iter@ == t,
            t == old(char_iter).iter@,
            range_bottom == old(char_iter).peeked,
            to_match@ == cdata_opening(),
            k <= 7,
            char_iter.peeked == range_bottom + k,
            forall|m: int| 0 <= m < k ==> t[range_bottom + m] == #[trigger] cdata_opening()[m],
        decreases 7 - k,
    {
        let c_in = match char_iter.next_and_index() {
            Some((_, c)) => c,
            None => return None,
        };
        if c_in != to_match[k] {
            return None;
        }
        k = k + 1;
    }
    assert(t.subrange(range_bottom as int, range_bottom + 7) == cdata_opening());
    let mut r_brack_count: usize = 0;
    loop
        invariant
            char_iter.wf(),
            char_iter.iter@ == t,
            t == old(char_iter).iter@,
            range_bottom == old(char_iter).peeked,
            r_brack_count <= char_iter.peeked,
            spec_parse_cdata_section(t, range_bottom as int) == spec_cdata_scan(
                t,
                char_iter.peeked as int,
                r_brack_count as int,
            ),
        decreases t.len() - char_iter.peeked,
    {
        let c = match char_iter.next_and_index() {
            Some((_, c)) => c,
            None => return None,
        };
        if c == ']' {
            r_brack_count = r_brack_count + 1;
        } else if c == '>' && r_brack_count >= 2 {
            return Some(range_bottom..char_iter.offset());
        } else {
            r_brack_count = 0;
        }
    }
}

/// Raw HTML after its `<`: `(where the tag's reported range starts, where it ends)`.
pub open spec fn spec_parse_html_tag(t: Seq<char>, p: int) -> Option<(int, int)> {
    if p < 0 || p >= t.len() {
        None
    } else {
        let q = p + 1;
        let end = if t[p] == '/' {
            spec_parse_closing_tag(t, q)
        } else if t[p] == '?' {
            spec_pi_scan(t, q, false)
        } else if t[p] == '!' {
            if q >= t.len() {
                None
            } else if t[q] == '-' {
                spec_parse_html_comment(t, q)
            } else if t[q] == '[' {
                spec_parse_cdata_section(t, q)
            } else {
                spec_parse_declaration(t, q)
            }
        } else if spec_is_ascii_alphabetic(t[p]) {
            spec_parse_opening_tag(t, q)
        } else {
            None
        };
        match end {
            Some(e) => Some((q, e)),
            None => None,
        }
    }
}

/// An inline HTML tag; the range it gives starts after the tag's first two characters, so the
/// caller steps back two characters for the tag's start.
pub fn parse_html_tag(char_iter: &mut BorrowedStringPCI) -> (r: Option<Range<usize>>)
    requires
        old(char_iter).wf(),
    ensures
        final(char_iter).wf(),
        final(char_iter).iter@ == old(char_iter).iter@,
        match spec_parse_html_tag(old(char_iter).iter@, old(char_iter).peeked as int) {
            Some((s, e)) => r matches Some(rg) && range_is(rg, s, e) && final(char_iter).peeked == e,
            None => r is None,
        },
{
    let c = match char_iter.next_and_index() {
        Some((_, c)) => c,
        None => return None,
    };
    if c == '/' {
        parse_closing_tag(char_iter)
    } else if c == '?' {
        parse_processing_instruction(char_iter)
    } else if c == '!' {
        let n = char_iter.peek()?;
        if n == '-' {
            parse_html_comment(char_iter)
        } else if n == '[' {
            parse_cdata_section(char_iter)
        } else {
            parse_declaration(char_iter)
        }
    } else if crate::char_class::is_ascii_alphabetic(c) {
        parse_opening_tag(char_iter)
    } else {
        None
    }
}

} // verus!

verus! {

/// A URI autolink's body lies after its start and before the end of the text.
pub proof fn lemma_uri_autolink_bounds(t: Seq<char>, p: int)
    requires
        0 <= p <= t.len(),
    ensures
        spec_parse_uri_autolink(t, p) matches Some(k) ==> p < k < t.len(),
{
    if let Some(e) = spec_parse_scheme(t, p) {
        lemma_skip_class_bounds(t, p + 1, CharClass::Scheme);
        if e < t.len() {
            lemma_skip_class_bounds(t, e + 1, CharClass::UriBody);
        }
    }
}

proof fn lemma_email_labels_bounds(t: Seq<char>, i: int)
    requires
        0 <= i,
    ensures
        spec_email_labels(t, i) matches Some(e) ==> i < e,
    decreases t.len() - i,
{
    if i <= t.len() {
        lemma_email_label(t, i);
    }
    if let Some(e) = spec_email_label(t, i) {
        if e > i && e < t.len() && t[e] == '.' {
            lemma_email_labels_bounds(t, e + 1);
        }
    }
}

/// An email autolink's body lies after its start and before the end of the text.
pub proof fn lemma_email_bounds(t: Seq<char>, p: int)
    requires
        0 <= p <= t.len(),
    ensures
        spec_parse_email(t, p) matches Some(k) ==> p < k < t.len(),
{
    lemma_skip_class_bounds(t, p, CharClass::EmailLocal);
    let a = skip_class(t, p, CharClass::EmailLocal);
    if a < t.len() && t[a] == '@' {
        lemma_email_labels_bounds(t, a + 1);
    }
}

proof fn lemma_comment_scan_bounds(t: Seq<char>, i: int, dashes: int)
    requires
        0 <= i,
    ensures
        spec_comment_scan(t, i, dashes) matches Some(e) ==> i < e,
    decreases t.len() - i,
{
    if 0 <= i < t.len() {
        if t[i] == '-' {
            lemma_comment_scan_bounds(t, i + 1, dashes + 1);
        } else if !(t[i] == '>' && dashes >= 2) {
            lemma_comment_scan_bounds(t, i + 1, 0);
        }
    }
}

proof fn lemma_pi_scan_bounds(t: Seq<char>, i: int, seen_qm: bool)
    requires
        0 <= i,
    ensures
        spec_pi_scan(t, i, seen_qm) matches Some(e) ==> i < e,
    decreases t.len() - i,
{
    if 0 <= i < t.len() {
        if t[i] == '?' {
            lemma_pi_scan_bounds(t, i + 1, true);
        } else if !(t[i] == '>' && seen_qm) {
            lemma_pi_scan_bounds(t, i + 1, false);
        }
    }
}

proof fn lemma_cdata_scan_bounds(t: Seq<char>, i: int, brackets: int)
    requires
        0 <= i,
    ensures
        spec_cdata_scan(t, i, brackets) matches Some(e) ==> i < e,
    decreases t.len() - i,
{
    if 0 <= i < t.len() {
        if t[i] == ']' {
            lemma_cdata_scan_bounds(t, i + 1, brackets + 1);
        } else if !(t[i] == '>' && brackets >= 2) {
            lemma_cdata_scan_bounds(t, i + 1, 0);
        }
    }
}

proof fn lemma_attributes_bounds(t: Seq<char>, i: int)
    requires
        0 <= i,
    ensures
        i <= spec_attributes(t, i),
    decreases t.len() - i,
{
    if let Some((v, q)) = spec_parse_attribute(t, i) {
        if i < q <= t.len() {
            lemma_attributes_bounds(t, q);
        }
    }
}

/// Raw HTML that starts at `p` ends after it.
pub proof fn lemma_html_tag_bounds(t: Seq<char>, p: int)
    requires
        0 <= p <= t.len(),
    ensures
        spec_parse_html_tag(t, p) matches Some((s, e)) ==> s == p + 1 && p < e,
{
    if p < t.len() {
        let q = p + 1;
        lemma_skip_class_bounds(t, q, CharClass::AlphanumericOrHyphen);
        let a = skip_class(t, q, CharClass::AlphanumericOrHyphen);
        lemma_attributes_bounds(t, a);
        let b = spec_attributes(t, a);
        if b <= t.len() {
            lemma_skip_class_bounds(t, b, CharClass::SpaceTabNewline);
        }
        lemma_pi_scan_bounds(t, q, false);
        lemma_comment_scan_bounds(t, q + 2, 0);
        lemma_comment_scan_bounds(t, q + 3, 1);
        lemma_cdata_scan_bounds(t, q + 7, 0);
        lemma_find_char_bounds(t, q + 1, '>');
    }
}

} // verus!
