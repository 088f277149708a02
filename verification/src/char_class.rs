use vstd::prelude::*;

verus! {

pub open spec fn spec_is_ascii_alphabetic(c: char) -> bool {
    ('a' <= c && c <= 'z') || ('A' <= c && c <= 'Z')
}

pub open spec fn spec_is_ascii_digit(c: char) -> bool {
    '0' <= c && c <= '9'
}

pub open spec fn spec_is_ascii_alphanumeric(c: char) -> bool {
    spec_is_ascii_alphabetic(c) || spec_is_ascii_digit(c)
}

pub open spec fn spec_is_ascii_hexdigit(c: char) -> bool {
    spec_is_ascii_digit(c) || ('a' <= c && c <= 'f') || ('A' <= c && c <= 'F')
}

/// ASCII control characters: U+0000 to U+001F and U+007F.
pub open spec fn spec_is_ascii_control(c: char) -> bool {
    (c as u32) <= 0x1F || (c as u32) == 0x7F
}

/// The 32 ASCII punctuation characters `!"#$%&'()*+,-./:;<=>?@[\]^_`{|}~`.
pub open spec fn spec_is_ascii_punctuation(c: char) -> bool {
    ('!' <= c && c <= '/') || (':' <= c && c <= '@') || ('[' <= c && c <= '`') || ('{' <= c
        && c <= '~')
}

/// Characters with the Unicode `White_Space` property (as `char::is_whitespace`).
pub open spec fn spec_is_whitespace(c: char) -> bool {
    let u = c as u32;
    (0x09 <= u && u <= 0x0D) || u == 0x20 || u == 0x85 || u == 0xA0 || u == 0x1680 || (0x2000
        <= u && u <= 0x200A) || u == 0x2028 || u == 0x2029 || u == 0x202F || u == 0x205F || u
        == 0x3000
}

pub fn is_ascii_alphabetic(c: char) -> (r: bool)
    ensures
        r == spec_is_ascii_alphabetic(c),
{
    ('a' <= c && c <= 'z') || ('A' <= c && c <= 'Z')
}

pub fn is_ascii_digit(c: char) -> (r: bool)
    ensures
        r == spec_is_ascii_digit(c),
{
    '0' <= c && c <= '9'
}

pub fn is_ascii_alphanumeric(c: char) -> (r: bool)
    ensures
        r == spec_is_ascii_alphanumeric(c),
{
    is_ascii_alphabetic(c) || is_ascii_digit(c)
}

pub fn is_ascii_hexdigit(c: char) -> (r: bool)
    ensures
        r == spec_is_ascii_hexdigit(c),
{
    is_ascii_digit(c) || ('a' <= c && c <= 'f') || ('A' <= c && c <= 'F')
}

pub fn is_ascii_control(c: char) -> (r: bool)
    ensures
        r == spec_is_ascii_control(c),
{
    (c as u32) <= 0x1F || (c as u32) == 0x7F
}

pub fn is_ascii_punctuation(c: char) -> (r: bool)
    ensures
        r == spec_is_ascii_punctuation(c),
{
    ('!' <= c && c <= '/') || (':' <= c && c <= '@') || ('[' <= c && c <= '`') || ('{' <= c
        && c <= '~')
}

pub fn is_whitespace(c: char) -> (r: bool)
    ensures
        r == spec_is_whitespace(c),
{
    let u = c as u32;
    (0x09 <= u && u <= 0x0D) || u == 0x20 || u == 0x85 || u == 0xA0 || u == 0x1680 || (0x2000
        <= u && u <= 0x200A) || u == 0x2028 || u == 0x2029 || u == 0x202F || u == 0x205F || u
        == 0x3000
}

/// The value of a hexadecimal digit.
pub open spec fn spec_hex_value(c: char) -> u32 {
    if spec_is_ascii_digit(c) {
        (c as u32 - '0' as u32) as u32
    } else if 'a' <= c && c <= 'f' {
        (c as u32 - 'a' as u32 + 10) as u32
    } else {
        (c as u32 - 'A' as u32 + 10) as u32
    }
}

pub fn hex_value(c: char) -> (r: u32)
    requires
        spec_is_ascii_hexdigit(c),
    ensures
        r == spec_hex_value(c),
        r < 16,
        spec_is_ascii_digit(c) ==> r < 10,
{
    if '0' <= c && c <= '9' {
        c as u32 - '0' as u32
    } else if 'a' <= c && c <= 'f' {
        c as u32 - 'a' as u32 + 10
    } else {
        c as u32 - 'A' as u32 + 10
    }
}

/// The uppercase hexadecimal digit for `v < 16`.
pub open spec fn spec_hex_digit_upper(v: u32) -> char {
    if v < 10 {
        (v + '0' as u32) as char
    } else {
        (v - 10 + 'A' as u32) as char
    }
}

pub fn hex_digit_upper(v: u32) -> (c: char)
    requires
        v < 16,
    ensures
        c == spec_hex_digit_upper(v),
{
    if v == 0 { '0' }
    else if v == 1 { '1' }
    else if v == 2 { '2' }
    else if v == 3 { '3' }
    else if v == 4 { '4' }
    else if v == 5 { '5' }
    else if v == 6 { '6' }
    else if v == 7 { '7' }
    else if v == 8 { '8' }
    else if v == 9 { '9' }
    else if v == 10 { 'A' }
    else if v == 11 { 'B' }
    else if v == 12 { 'C' }
    else if v == 13 { 'D' }
    else if v == 14 { 'E' }
    else { 'F' }
}

/// ASCII uppercase letters mapped to lowercase; everything else unchanged.
pub open spec fn spec_to_ascii_lowercase(c: char) -> char {
    if 'A' <= c && c <= 'Z' {
        ((c as u32) + 32) as char
    } else {
        c
    }
}

pub fn to_ascii_lowercase(c: char) -> (r: char)
    ensures
        r == spec_to_ascii_lowercase(c),
{
    if 'A' <= c && c <= 'Z' {
        char_from_ascii((c as u32 + 32) as u8)
    } else {
        c
    }
}

/// The character of an ASCII byte.
pub fn char_from_ascii(b: u8) -> (c: char)
    requires
        b < 128,
    ensures
        c as u32 == b as u32,
{
    b as char
}

} // verus!

verus! {

/// The sets of characters that the parsers skip over or test for.
#[derive(Debug, Clone, Copy, PartialEq, Eq)]
pub enum CharClass {
    /// space or tab
    SpaceTab,
    /// space, tab or line feed
    SpaceTabNewline,
    /// an ASCII letter
    Alphabetic,
    /// an ASCII letter or digit
    Alphanumeric,
    /// an ASCII letter, digit or `-`
    AlphanumericOrHyphen,
    /// an ASCII letter, digit, `_`, `.`, `:` or `-`
    AttributeName,
    /// anything but space, tab, line feed, `"`, `'`, `=`, `<`, `>` and `` ` ``
    UnquotedValue,
    /// an ASCII letter, digit, `+`, `.` or `-`
    Scheme,
    /// an ASCII letter, digit or one of ``.!#$%&'*+/=?^_`{|}~-``
    EmailLocal,
    /// an ASCII hexadecimal digit
    HexDigit,
    /// an ASCII decimal digit
    Digit,
    /// anything but an ASCII control character, space, line feed, `<` and `>`
    UriBody,
}

pub open spec fn spec_is_space_tab(c: char) -> bool {
    c == ' ' || c == '\t'
}

pub open spec fn spec_is_space_tab_newline(c: char) -> bool {
    c == ' ' || c == '\t' || c == '\n'
}

pub open spec fn class_has(cls: CharClass, c: char) -> bool {
    match cls {
        CharClass::SpaceTab => spec_is_space_tab(c),
        CharClass::SpaceTabNewline => spec_is_space_tab_newline(c),
        CharClass::Alphabetic => spec_is_ascii_alphabetic(c),
        CharClass::Alphanumeric => spec_is_ascii_alphanumeric(c),
        CharClass::AlphanumericOrHyphen => spec_is_ascii_alphanumeric(c) || c == '-',
        CharClass::AttributeName => spec_is_ascii_alphanumeric(c) || c == '_' || c == '.' || c
            == ':' || c == '-',
        CharClass::UnquotedValue => !(spec_is_space_tab_newline(c) || c == '"' || c == '\''
            || c == '=' || c == '<' || c == '>' || c == '`'),
        CharClass::Scheme => spec_is_ascii_alphanumeric(c) || c == '+' || c == '.' || c == '-',
        CharClass::EmailLocal => spec_is_ascii_alphanumeric(c) || c == '.' || c == '!' || c
            == '#' || c == '$' || c == '%' || c == '&' || c == '\'' || c == '*' || c == '+' || c
            == '/' || c == '=' || c == '?' || c == '^' || c == '_' || c == '`' || c == '{' || c
            == '|' || c == '}' || c == '~' || c == '-',
        CharClass::HexDigit => spec_is_ascii_hexdigit(c),
        CharClass::Digit => spec_is_ascii_digit(c),
        CharClass::UriBody => !(spec_is_ascii_control(c) || c == ' ' || c == '\n' || c == '<'
            || c == '>'),
    }
}

pub fn in_class(cls: CharClass, c: char) -> (r: bool)
    ensures
        r == class_has(cls, c),
{
    match cls {
        CharClass::SpaceTab => c == ' ' || c == '\t',
        CharClass::SpaceTabNewline => c == ' ' || c == '\t' || c == '\n',
        CharClass::Alphabetic => is_ascii_alphabetic(c),
        CharClass::Alphanumeric => is_ascii_alphanumeric(c),
        CharClass::AlphanumericOrHyphen => is_ascii_alphanumeric(c) || c == '-',
        CharClass::AttributeName => is_ascii_alphanumeric(c) || c == '_' || c == '.' || c == ':'
            || c == '-',
        CharClass::UnquotedValue => !(c == ' ' || c == '\t' || c == '\n' || c == '"' || c
            == '\'' || c == '=' || c == '<' || c == '>' || c == '`'),
        CharClass::Scheme => is_ascii_alphanumeric(c) || c == '+' || c == '.' || c == '-',
        CharClass::EmailLocal => is_ascii_alphanumeric(c) || c == '.' || c == '!' || c == '#'
            || c == '$' || c == '%' || c == '&' || c == '\'' || c == '*' || c == '+' || c == '/'
            || c == '=' || c == '?' || c == '^' || c == '_' || c == '`' || c == '{' || c == '|'
            || c == '}' || c == '~' || c == '-',
        CharClass::HexDigit => is_ascii_hexdigit(c),
        CharClass::Digit => is_ascii_digit(c),
        CharClass::UriBody => !(is_ascii_control(c) || c == ' ' || c == '\n' || c == '<' || c
            == '>'),
    }
}

/// The index of the first character at or after `i` that is not in `cls`
/// (the text's length when there is none).
pub open spec fn skip_class(t: Seq<char>, i: int, cls: CharClass) -> int
    decreases t.len() - i,
{
    if 0 <= i < t.len() && class_has(cls, t[i]) {
        skip_class(t, i + 1, cls)
    } else {
        i
    }
}

pub proof fn lemma_skip_class_bounds(t: Seq<char>, i: int, cls: CharClass)
    requires
        0 <= i <= t.len(),
    ensures
        i <= skip_class(t, i, cls) <= t.len(),
        forall|k: int| i <= k < skip_class(t, i, cls) ==> class_has(cls, #[trigger] t[k]),
        skip_class(t, i, cls) == t.len() || !class_has(cls, t[skip_class(t, i, cls)]),
    decreases t.len() - i,
{
    if i < t.len() && class_has(cls, t[i]) {
        lemma_skip_class_bounds(t, i + 1, cls);
    }
}

/// Skipping over a stretch that is wholly in `cls` lands where skipping from its end lands.
pub proof fn lemma_skip_class_through(t: Seq<char>, i: int, j: int, cls: CharClass)
    requires
        0 <= i <= j <= t.len(),
        forall|k: int| i <= k < j ==> class_has(cls, #[trigger] t[k]),
    ensures
        skip_class(t, i, cls) == skip_class(t, j, cls),
    decreases j - i,
{
    if i < j {
        lemma_skip_class_through(t, i + 1, j, cls);
    }
}

/// The index of the first occurrence of `c` at or after `i`, if any.
pub open spec fn find_char(t: Seq<char>, i: int, c: char) -> Option<int>
    decreases t.len() - i,
{
    if i < 0 || i >= t.len() {
        None
    } else if t[i] == c {
        Some(i)
    } else {
        find_char(t, i + 1, c)
    }
}

pub proof fn lemma_find_char_bounds(t: Seq<char>, i: int, c: char)
    requires
        0 <= i,
    ensures
        find_char(t, i, c) matches Some(k) ==> i <= k < t.len() && t[k] == c && forall|m: int|
            i <= m < k ==> #[trigger] t[m] != c,
        find_char(t, i, c) is None ==> forall|m: int| i <= m < t.len() ==> #[trigger] t[m] != c,
    decreases t.len() - i,
{
    if i < t.len() && t[i] != c {
        lemma_find_char_bounds(t, i + 1, c);
    }
}

} // verus!
