use vstd::prelude::*;
use crate::char_class::{
    class_has, hex_digit_upper, hex_value, in_class, is_ascii_alphanumeric, is_ascii_digit,
    is_ascii_hexdigit, is_ascii_punctuation, lemma_find_char_bounds, lemma_skip_class_bounds,
    lemma_skip_class_through,
    find_char, skip_class, spec_hex_digit_upper, spec_hex_value, spec_is_ascii_alphanumeric,
    spec_is_ascii_hexdigit, spec_is_ascii_punctuation, CharClass,
};
use crate::entities::{named_entity, spec_named_entity};
use crate::peekable_char_indices::{BorrowedStringPCI, PeekableCharIndices};
use crate::text::push_char;
use vstd::utf8::{
    encode_scalar, has_width_1_encoding, has_width_2_encoding, has_width_3_encoding, is_scalar,
    last_continuation_byte, leading_byte_width_1, leading_byte_width_2, leading_byte_width_3,
    leading_byte_width_4, second_last_continuation_byte, third_last_continuation_byte,
};

verus! {

pub const REPLACEMENT_CHARACTER: char = '\u{FFFD}';

/// Unicode general categories P (punctuation) and S (symbols), which decide how `*` and `_`
/// flank.
pub trait UnicodeCategory {
    fn is_unicode_punctuation(&self) -> bool;

    fn is_unicode_symbol(&self) -> bool;
}

/// Characters of the Unicode punctuation categories (`P*`) that this library knows of: the
/// ASCII and Latin-1 ones, General Punctuation, Supplemental Punctuation and CJK punctuation.
pub open spec fn spec_is_unicode_punctuation(c: char) -> bool {
    let u = c as u32;
    (spec_is_ascii_punctuation(c) && !(c == '$' || c == '+' || c == '<' || c == '=' || c == '>'
        || c == '^' || c == '`' || c == '|' || c == '~')) || u == 0xA1 || u == 0xA7 || u == 0xAB
        || u == 0xB6 || u == 0xB7 || u == 0xBB || u == 0xBF || u == 0x37E || u == 0x387 || (0x2010
        <= u && u <= 0x2027) || (0x2030 <= u && u <= 0x2043) || (0x2045 <= u && u <= 0x2051) || (
    0x2053 <= u && u <= 0x205E) || (0x2E00 <= u && u <= 0x2E4F) || (0x3001 <= u && u <= 0x3003)
        || (0x3008 <= u && u <= 0x3011) || (0x3014 <= u && u <= 0x301F) || (0xFF01 <= u && u
        <= 0xFF03) || (0xFF05 <= u && u <= 0xFF0A) || (0xFF0C <= u && u <= 0xFF0F)
}

/// Characters of the Unicode symbol categories (`S*`) that this library knows of: the ASCII and
/// Latin-1 ones, currency, letterlike and arrow symbols, mathematical operators, technical and
/// geometric symbols and dingbats.
pub open spec fn spec_is_unicode_symbol(c: char) -> bool {
    let u = c as u32;
    c == '$' || c == '+' || c == '<' || c == '=' || c == '>' || c == '^' || c == '`' || c == '|'
        || c == '~' || (0xA2 <= u && u <= 0xA6) || u == 0xA8 || u == 0xA9 || u == 0xAC || (0xAE
        <= u && u <= 0xB1) || u == 0xB4 || u == 0xB8 || u == 0xD7 || u == 0xF7 || (0x20A0 <= u
        && u <= 0x20C0) || (0x2100 <= u && u <= 0x2101) || (0x2190 <= u && u <= 0x2307) || (0x230C
        <= u && u <= 0x2328) || (0x232B <= u && u <= 0x2426) || (0x2500 <= u && u <= 0x2767) || (
    0x2794 <= u && u <= 0x27C4) || (0x2B00 <= u && u <= 0x2B73)
}

impl UnicodeCategory for char {
    fn is_unicode_punctuation(&self) -> (r: bool)
        ensures
            r == spec_is_unicode_punctuation(*self),
    {
        let c = *self;
        let u = c as u32;
        (is_ascii_punctuation(c) && !(c == '$' || c == '+' || c == '<' || c == '=' || c == '>'
            || c == '^' || c == '`' || c == '|' || c == '~')) || u == 0xA1 || u == 0xA7 || u
            == 0xAB || u == 0xB6 || u == 0xB7 || u == 0xBB || u == 0xBF || u == 0x37E || u == 0x387
            || (0x2010 <= u && u <= 0x2027) || (0x2030 <= u && u <= 0x2043) || (0x2045 <= u && u
            <= 0x2051) || (0x2053 <= u && u <= 0x205E) || (0x2E00 <= u && u <= 0x2E4F) || (0x3001
            <= u && u <= 0x3003) || (0x3008 <= u && u <= 0x3011) || (0x3014 <= u && u <= 0x301F)
            || (0xFF01 <= u && u <= 0xFF03) || (0xFF05 <= u && u <= 0xFF0A) || (0xFF0C <= u && u
            <= 0xFF0F)
    }

    fn is_unicode_symbol(&self) -> (r: bool)
        ensures
            r == spec_is_unicode_symbol(*self),
    {
        let c = *self;
        let u = c as u32;
        c == '$' || c == '+' || c == '<' || c == '=' || c == '>' || c == '^' || c == '`' || c
            == '|' || c == '~' || (0xA2 <= u && u <= 0xA6) || u == 0xA8 || u == 0xA9 || u == 0xAC
            || (0xAE <= u && u <= 0xB1) || u == 0xB4 || u == 0xB8 || u == 0xD7 || u == 0xF7 || (
        0x20A0 <= u && u <= 0x20C0) || (0x2100 <= u && u <= 0x2101) || (0x2190 <= u && u
            <= 0x2307) || (0x230C <= u && u <= 0x2328) || (0x232B <= u && u <= 0x2426) || (0x2500
            <= u && u <= 0x2767) || (0x2794 <= u && u <= 0x27C4) || (0x2B00 <= u && u <= 0x2B73)
    }
}

/// The HTML text for one character: `<`, `>`, `&` and `"` become references.
pub open spec fn spec_html_escape(c: char) -> Seq<char> {
    if c == '<' {
        "&lt;"@
    } else if c == '>' {
        "&gt;"@
    } else if c == '&' {
        "&amp;"@
    } else if c == '"' {
        "&quot;"@
    } else {
        seq![c]
    }
}

pub fn push_html_reserved_char(c: char, string_builder: &mut String)
    ensures
        final(string_builder)@ == old(string_builder)@ + spec_html_escape(c),
{
    if c == '<' {
        string_builder.append("&lt;");
    } else if c == '>' {
        string_builder.append("&gt;");
    } else if c == '&' {
        string_builder.append("&amp;");
    } else if c == '"' {
        string_builder.append("&quot;");
    } else {
        push_char(string_builder, c);
    }
}

/// Characters that may stand in a URL as they are: ASCII letters, digits and
/// ``!#$&'()*+,/:;=?@-._~``.
pub open spec fn spec_uri_safe(c: char) -> bool {
    spec_is_ascii_alphanumeric(c) || c == '!' || c == '#' || c == '$' || c == '&' || c == '\''
        || c == '(' || c == ')' || c == '*' || c == '+' || c == ',' || c == '/' || c == ':' || c
        == ';' || c == '=' || c == '?' || c == '@' || c == '-' || c == '.' || c == '_' || c == '~'
}

/// `%XY` for each byte, with uppercase hexadecimal digits.
pub open spec fn spec_percent_encode(bytes: Seq<u8>) -> Seq<char>
    decreases bytes.len(),
{
    if bytes.len() == 0 {
        seq![]
    } else {
        spec_percent_encode(bytes.drop_last()) + seq![
            '%',
            spec_hex_digit_upper((bytes.last() >> 4u8) as u32),
            spec_hex_digit_upper((bytes.last() & 0xFu8) as u32),
        ]
    }
}

/// The URL text for one character: a safe character as HTML text, any other as its UTF-8
/// bytes percent-encoded.
pub open spec fn spec_uri_char(c: char) -> Seq<char> {
    if spec_uri_safe(c) {
        spec_html_escape(c)
    } else {
        spec_percent_encode(encode_scalar(c as u32))
    }
}

fn push_percent_byte(b: u8, string_builder: &mut String, Ghost(done): Ghost<Seq<u8>>)
    requires
        old(string_builder)@ == spec_percent_encode(done),
    ensures
        final(string_builder)@ == spec_percent_encode(done.push(b)),
{
    assert(b >> 4u8 < 16u8) by (bit_vector);
    assert(b & 0xFu8 < 16u8) by (bit_vector);
    push_char(string_builder, '%');
    push_char(string_builder, hex_digit_upper((b >> 4u8) as u32));
    push_char(string_builder, hex_digit_upper((b & 0xFu8) as u32));
    assert(done.push(b).drop_last() =~= done);
}

pub fn push_character_in_uri(c: char, string_builder: &mut String)
    ensures
        final(string_builder)@ == old(string_builder)@ + spec_uri_char(c),
{
    if is_ascii_alphanumeric(c) || c == '!' || c == '#' || c == '$' || c == '&' || c == '\''
        || c == '(' || c == ')' || c == '*' || c == '+' || c == ',' || c == '/' || c == ':' || c
        == ';' || c == '=' || c == '?' || c == '@' || c == '-' || c == '.' || c == '_' || c
        == '~' {
        push_html_reserved_char(c, string_builder);
    } else {
        // other characters are percent-encoded as UTF-8
        let scalar = c as u32;
        let ghost bytes = encode_scalar(scalar);
        let mut encoded = String::new();
        let ghost empty: Seq<u8> = seq![];
        assert(spec_percent_encode(empty) =~= Seq::<char>::empty());
        if scalar <= 0x7F {
            push_percent_byte(leading_byte_width_1_exec(scalar), &mut encoded, Ghost(empty));
            assert(empty.push(leading_byte_width_1(scalar)) =~= bytes);
        } else if scalar <= 0x7FF {
            let b1 = leading_byte_width_2_exec(scalar);
            push_percent_byte(b1, &mut encoded, Ghost(empty));
            let ghost s1 = seq![b1];
            assert(empty.push(b1) =~= s1);
            push_percent_byte(last_continuation_byte_exec(scalar), &mut encoded, Ghost(s1));
            assert(s1.push(last_continuation_byte(scalar)) =~= bytes);
        } else if scalar <= 0xFFFF {
            let b1 = leading_byte_width_3_exec(scalar);
            let b2 = second_last_continuation_byte_exec(scalar);
            push_percent_byte(b1, &mut encoded, Ghost(empty));
            let ghost s1 = seq![b1];
            let ghost s2 = seq![b1, b2];
            assert(empty.push(b1) =~= s1);
            assert(s1.push(b2) =~= s2);
            push_percent_byte(b2, &mut encoded, Ghost(s1));
            push_percent_byte(last_continuation_byte_exec(scalar), &mut encoded, Ghost(s2));
            assert(s2.push(last_continuation_byte(scalar)) =~= bytes);
        } else {
            let b1 = leading_byte_width_4_exec(scalar);
            let b2 = third_last_continuation_byte_exec(scalar);
            let b3 = second_last_continuation_byte_exec(scalar);
            let ghost s1 = seq![b1];
            let ghost s2 = seq![b1, b2];
            let ghost s3 = seq![b1, b2, b3];
            assert(empty.push(b1) =~= s1);
            assert(s1.push(b2) =~= s2);
            assert(s2.push(b3) =~= s3);
            push_percent_byte(b1, &mut encoded, Ghost(empty));
            push_percent_byte(b2, &mut encoded, Ghost(s1));
            push_percent_byte(b3, &mut encoded, Ghost(s2));
            push_percent_byte(last_continuation_byte_exec(scalar), &mut encoded, Ghost(s3));
            assert(s3.push(last_continuation_byte(scalar)) =~= bytes);
        }
        string_builder.append(encoded.as_str());
    }
}

fn leading_byte_width_1_exec(scalar: u32) -> (b: u8)
    ensures
        b == leading_byte_width_1(scalar),
{
    (scalar & 0x7F) as u8
}

fn leading_byte_width_2_exec(scalar: u32) -> (b: u8)
    ensures
        b == leading_byte_width_2(scalar),
{
    0xC0 | ((scalar >> 6) & 0x1F) as u8
}

fn leading_byte_width_3_exec(scalar: u32) -> (b: u8)
    ensures
        b == leading_byte_width_3(scalar),
{
    0xE0 | ((scalar >> 12) & 0x0F) as u8
}

fn leading_byte_width_4_exec(scalar: u32) -> (b: u8)
    ensures
        b == leading_byte_width_4(scalar),
{
    0xF0 | ((scalar >> 18) & 0x7) as u8
}

fn last_continuation_byte_exec(scalar: u32) -> (b: u8)
    ensures
        b == last_continuation_byte(scalar),
{
    0x80 | (scalar & 0x3F) as u8
}

fn second_last_continuation_byte_exec(scalar: u32) -> (b: u8)
    ensures
        b == second_last_continuation_byte(scalar),
{
    0x80 | ((scalar >> 6) & 0x3F) as u8
}

fn third_last_continuation_byte_exec(scalar: u32) -> (b: u8)
    ensures
        b == third_last_continuation_byte(scalar),
{
    0x80 | ((scalar >> 12) & 0x3F) as u8
}


/// How a character of text is written: as URL text inside a link destination, as HTML text
/// elsewhere.
pub open spec fn spec_push_fn(c: char, in_url: bool) -> Seq<char> {
    if in_url {
        spec_uri_char(c)
    } else {
        spec_html_escape(c)
    }
}

pub open spec fn spec_push_all(s: Seq<char>, in_url: bool) -> Seq<char>
    decreases s.len(),
{
    if s.len() == 0 {
        seq![]
    } else {
        spec_push_all(s.drop_last(), in_url) + spec_push_fn(s.last(), in_url)
    }
}

pub open spec fn pow_nat(b: nat, n: nat) -> nat
    decreases n,
{
    if n == 0 {
        1
    } else {
        pow_nat(b, (n - 1) as nat) * b
    }
}

/// The number that the digits `s` spell in `base`.
pub open spec fn spec_digits_value(s: Seq<char>, base: nat) -> nat
    decreases s.len(),
{
    if s.len() == 0 {
        0
    } else {
        spec_digits_value(s.drop_last(), base) * base + spec_hex_value(s.last()) as nat
    }
}

/// The character a numeric reference gives: the code point itself, or U+FFFD for 0 and for
/// what is not a Unicode scalar value.
pub open spec fn spec_numeric_char(v: int) -> char {
    if v != 0 && 0 < v <= 0x10FFFF && is_scalar(v as u32) {
        (v as u32) as char
    } else {
        REPLACEMENT_CHARACTER
    }
}

/// A numeric reference's digits from `s` on, up to `;`: 1 to 6 hexadecimal digits, or 1 to 7
/// decimal ones. The result is the character and where the reference ends.
pub open spec fn spec_numeric_reference(t: Seq<char>, s: int, hex: bool) -> Option<(Seq<char>, int)> {
    let cls = if hex {
        CharClass::HexDigit
    } else {
        CharClass::Digit
    };
    let max = if hex {
        6int
    } else {
        7int
    };
    let d = skip_class(t, s, cls);
    if 1 <= d - s <= max && d < t.len() && t[d] == ';' {
        Some(
            (
                seq![
                    spec_numeric_char(
                        spec_digits_value(t.subrange(s, d), if hex {
                            16nat
                        } else {
                            10nat
                        }) as int,
                    ),
                ],
                d + 1,
            ),
        )
    } else {
        None
    }
}

/// A character reference after its `&`: numeric (`#` or `#x`) or named; the result is what it
/// stands for and where it ends.
pub open spec fn spec_char_reference(t: Seq<char>, j: int) -> Option<(Seq<char>, int)> {
    if 0 <= j < t.len() && t[j] == '#' {
        if j + 1 < t.len() && (t[j + 1] == 'x' || t[j + 1] == 'X') {
            spec_numeric_reference(t, j + 2, true)
        } else {
            spec_numeric_reference(t, j + 1, false)
        }
    } else {
        match find_char(t, j, ';') {
            Some(k) => match spec_named_entity(t.subrange(j, k)) {
                Some(v) => Some((v, k + 1)),
                None => None,
            },
            None => None,
        }
    }
}

/// One step of writing text as HTML from index `i`: what it writes and where the next step
/// starts. A backslash before ASCII punctuation disappears, a character reference is replaced,
/// `%XY` stays as it is inside URLs, and every other character is written as `spec_push_fn`
/// says.
pub open spec fn spec_text_step(t: Seq<char>, i: int, in_url: bool) -> (Seq<char>, int) {
    if t[i] == '%' {
        if in_url && i + 2 < t.len() && spec_is_ascii_hexdigit(t[i + 1]) && spec_is_ascii_hexdigit(
            t[i + 2],
        ) {
            (seq!['%', t[i + 1], t[i + 2]], i + 3)
        } else {
            (spec_push_fn('%', in_url), i + 1)
        }
    } else if t[i] == '\\' {
        (
            if i + 1 < t.len() && spec_is_ascii_punctuation(t[i + 1]) {
                Seq::<char>::empty()
            } else {
                spec_push_fn('\\', in_url)
            },
            i + 1,
        )
    } else if t[i] == '&' {
        match spec_char_reference(t, i + 1) {
            Some((v, j)) => (spec_push_all(v, in_url), j),
            None => (spec_push_fn('&', in_url), i + 1),
        }
    } else {
        (spec_push_fn(t[i], in_url), i + 1)
    }
}

/// Text as HTML from index `i` on: the steps of `spec_text_step` one after another.
pub open spec fn spec_text_to_html(t: Seq<char>, i: int, in_url: bool) -> Seq<char>
    decreases t.len() - i,
{
    if i < 0 || i >= t.len() {
        seq![]
    } else {
        let (o, j) = spec_text_step(t, i, in_url);
        if i < j <= t.len() {
            o + spec_text_to_html(t, j, in_url)
        } else {
            seq![]
        }
    }
}

fn push_char_fn(c: char, string_builder: &mut String, in_url: bool)
    ensures
        final(string_builder)@ == old(string_builder)@ + spec_push_fn(c, in_url),
{
    if in_url {
        push_character_in_uri(c, string_builder);
    } else {
        push_html_reserved_char(c, string_builder);
    }
}

fn push_all_chars(v: &str, string_builder: &mut String, in_url: bool)
    ensures
        final(string_builder)@ == old(string_builder)@ + spec_push_all(v@, in_url),
{
    let ghost before = string_builder@;
    for c in it: v.chars()
        invariant
            it.seq() == v@,
            string_builder@ == before + spec_push_all(v@.take(it.index() as int), in_url),
    {
        let ghost k = it.index() as int;
        assert(v@.take(k + 1).drop_last() =~= v@.take(k));
        push_char_fn(c, string_builder, in_url);
    }
    assert(v@.take(v@.len() as int) =~= v@);
}

/// The character for a numeric reference's value, as `char::from_u32` gives it.
#[verifier::external_body]
pub(crate) fn char_from_u32(v: u32) -> (r: Option<char>)
    ensures
        is_scalar(v) ==> r == Some(v as char),
        !is_scalar(v) ==> r is None,
{
    char::from_u32(v)
}

pub proof fn lemma_pow_step(b: nat, n: nat, acc: nat, d: nat)
    requires
        acc < pow_nat(b, n),
        d < b,
    ensures
        acc * b + d < pow_nat(b, n + 1),
{
    assert(pow_nat(b, n + 1) == pow_nat(b, n) * b);
    assert(acc * b + d < pow_nat(b, n) * b) by (nonlinear_arith)
        requires
            acc < pow_nat(b, n),
            d < b,
    ;
}

pub proof fn lemma_pow_monotone(b: nat, n: nat, m: nat)
    requires
        b >= 1,
        n <= m,
    ensures
        pow_nat(b, n) <= pow_nat(b, m),
    decreases m - n,
{
    if n < m {
        lemma_pow_monotone(b, n, (m - 1) as nat);
        assert(pow_nat(b, (m - 1) as nat) <= pow_nat(b, (m - 1) as nat) * b) by (nonlinear_arith)
            requires
                b >= 1,
        ;
    }
}

pub proof fn lemma_char_reference_bounds(t: Seq<char>, j: int)
    requires
        0 <= j <= t.len(),
    ensures
        spec_char_reference(t, j) matches Some((v, k)) ==> j < k <= t.len(),
{
    if 0 <= j < t.len() && t[j] == '#' {
        if j + 2 <= t.len() {
            lemma_skip_class_bounds(t, j + 2, CharClass::HexDigit);
        }
        lemma_skip_class_bounds(t, j + 1, CharClass::Digit);
    } else {
        lemma_find_char_bounds(t, j, ';');
    }
}

fn numeric_reference(it: &mut BorrowedStringPCI, hex: bool) -> (r: Option<char>)
    requires
        old(it).wf(),
    ensures
        final(it).wf(),
        final(it).iter@ == old(it).iter@,
        match spec_numeric_reference(old(it).iter@, old(it).peeked as int, hex) {
            Some((v, j)) => r matches Some(c) && v == seq![c] && final(it).peeked == j,
            None => r is None,
        },
{
    let ghost t = it.iter@;
    let ghost s = it.peeked as int;
    let ghost base: nat = if hex {
        16
    } else {
        10
    };
    let cls = if hex {
        CharClass::HexDigit
    } else {
        CharClass::Digit
    };
    let max: usize = if hex {
        7
    } else {
        8
    };
    let mut count: usize = 0;
    let mut acc: u32 = 0;
    proof {
        reveal_with_fuel(pow_nat, 8);
        assert(pow_nat(16, 6) == 16777216);
        assert(pow_nat(10, 7) == 10000000);
    }
    loop
        invariant
            it.wf(),
            it.iter@ == t,
            t == old(it).iter@,
            s == old(it).peeked,
            base == (if hex { 16nat } else { 10nat }),
            cls == (if hex { CharClass::HexDigit } else { CharClass::Digit }),
            max == (if hex { 7usize } else { 8usize }),
            pow_nat(16, 6) == 16777216,
            pow_nat(10, 7) == 10000000,
            count < max,
            it.peeked == s + count,
            forall|k: int| s <= k < it.peeked ==> class_has(cls, #[trigger] t[k]),
            acc == spec_digits_value(t.subrange(s, s + count), base),
            acc < pow_nat(base, count as nat),
        decreases t.len() - it.peeked,
    {
        let c = match it.next_and_index() {
            Some((_, c)) => c,
            None => {
                proof {
                    lemma_skip_class_through(t, s, t.len() as int, cls);
                }
                return None;
            },
        };
        if c == ';' {
            proof {
                lemma_skip_class_through(t, s, s + count, cls);
            }
            if count == 0 {
                return None;
            }
            let out = if acc != 0 {
                match char_from_u32(acc) {
                    Some(ch) => ch,
                    None => REPLACEMENT_CHARACTER,
                }
            } else {
                REPLACEMENT_CHARACTER
            };
            return Some(out);
        } else if in_class(cls, c) {
            let v = hex_value(c);
            proof {
                lemma_pow_step(base, count as nat, acc as nat, v as nat);
                assert(t.subrange(s, s + count + 1).drop_last() =~= t.subrange(s, s + count));
            }
            if count + 1 >= max {
                proof {
                    lemma_skip_class_through(t, s, s + count + 1, cls);
                    lemma_skip_class_bounds(t, s + count + 1, cls);
                }
                return None;
            }
            proof {
                lemma_pow_monotone(base, (count + 1) as nat, (max - 1) as nat);
            }
            count = count + 1;
            if hex {
                acc = acc * 16 + v;
            } else {
                acc = acc * 10 + v;
            }
        } else {
            proof {
                lemma_skip_class_through(t, s, s + count, cls);
            }
            return None;
        }
    }
}

pub enum ResultChar {
    Single(char),
    Array(&'static str),
}

/// A character reference after its `&`: what it stands for, with the cursor after its `;`.
fn char_reference(it: &mut BorrowedStringPCI) -> (r: Option<ResultChar>)
    requires
        old(it).wf(),
    ensures
        final(it).wf(),
        final(it).iter@ == old(it).iter@,
        match spec_char_reference(old(it).iter@, old(it).peeked as int) {
            Some((v, j)) => final(it).peeked == j && match r {
                Some(ResultChar::Single(c)) => v == seq![c],
                Some(ResultChar::Array(a)) => v == a@,
                None => false,
            },
            None => r is None,
        },
{
    let ghost t = it.iter@;
    if it.next_if_char_eq('#').is_some() {
        let hex = match it.peek() {
            Some(c) => c == 'x' || c == 'X',
            None => false,
        };
        if hex {
            it.next_and_index();
        }
        match numeric_reference(it, hex) {
            Some(c) => Some(ResultChar::Single(c)),
            None => None,
        }
    } else {
        let start = it.offset();
        proof {
            lemma_find_char_bounds(t, start as int, ';');
        }
        loop
            invariant
                it.wf(),
                it.iter@ == t,
                t == old(it).iter@,
                start == old(it).peeked,
                !(0 <= start < t.len() && t[start as int] == '#'),
                start <= it.peeked,
                find_char(t, start as int, ';') == find_char(t, it.peeked as int, ';'),
            decreases t.len() - it.peeked,
        {
            let (ci, c) = match it.next_and_index() {
                Some(x) => x,
                None => return None,
            };
            if c == ';' {
                let name = slice_subrange(it.iter, start, ci);
                return match named_entity(name) {
                    Some(v) => Some(ResultChar::Array(v)),
                    None => None,
                };
            }
        }
    }
}

/// The characters of `s` from `from` up to `to`.
fn slice_subrange<'a>(s: &'a [char], from: usize, to: usize) -> (r: &'a [char])
    requires
        from <= to <= s@.len(),
    ensures
        r@ == s@.subrange(from as int, to as int),
{
    vstd::slice::slice_subrange(s, from, to)
}

pub fn push_chars_with_entities_and_bs(
    peekable_char_indices: &BorrowedStringPCI,
    string_builder: &mut String,
    in_url: bool,
)
    requires
        peekable_char_indices.wf(),
    ensures
        final(string_builder)@ == old(string_builder)@ + spec_text_to_html(
            peekable_char_indices.iter@,
            peekable_char_indices.peeked as int,
            in_url,
        ),
{
    let ghost t = peekable_char_indices.iter@;
    let ghost p = peekable_char_indices.peeked as int;
    let mut peekable_char_indices = *peekable_char_indices;
    loop
        invariant
            peekable_char_indices.wf(),
            peekable_char_indices.iter@ == t,
            old(string_builder)@ + spec_text_to_html(t, p, in_url) == string_builder@
                + spec_text_to_html(t, peekable_char_indices.peeked as int, in_url),
        ensures
            old(string_builder)@ + spec_text_to_html(t, p, in_url) == string_builder@,
        decreases t.len() - peekable_char_indices.peeked,
    {
        let ghost i = peekable_char_indices.peeked as int;
        let ghost before = string_builder@;
        let c = match peekable_char_indices.next_and_index() {
            Some((_, c)) => c,
            None => {
                assert(string_builder@ + spec_text_to_html(t, i, in_url) =~= string_builder@);
                break ;
            },
        };
        if c == '%' {
            let mut percent_iter = peekable_char_indices;
            let mut done = false;
            if in_url {
                if let Some(hex_char_0) = percent_iter.next_if_in(CharClass::HexDigit) {
                    if let Some(hex_char_1) = percent_iter.next_if_in(CharClass::HexDigit) {
                        let ghost before = string_builder@;
                        push_char(string_builder, '%');
                        push_char(string_builder, hex_char_0);
                        push_char(string_builder, hex_char_1);
                        assert(string_builder@ =~= before + seq!['%', t[i + 1], t[i + 2]]);
                        peekable_char_indices = percent_iter;
                        done = true;
                    }
                }
            }
            if !done {
                push_char_fn(c, string_builder, in_url);
            }
        } else if c == '\\' {
            let escapes = match peekable_char_indices.peek() {
                Some(n) => is_ascii_punctuation(n),
                None => false,
            };
            if !escapes {
                push_char_fn('\\', string_builder, in_url);
            } else {
                assert(string_builder@ + Seq::<char>::empty() =~= string_builder@);
            }
        } else if c == '&' {
            let amp_iter = peekable_char_indices;
            proof {
                lemma_char_reference_bounds(t, i + 1);
            }
            match char_reference(&mut peekable_char_indices) {
                Some(ResultChar::Array(chars_out)) => {
                    push_all_chars(chars_out, string_builder, in_url);
                },
                Some(ResultChar::Single(ch)) => {
                    proof {
                        let e = Seq::<char>::empty();
                        assert(seq![ch].drop_last() =~= e);
                        assert(spec_push_all(e, in_url) =~= e);
                        assert(spec_push_all(seq![ch], in_url) =~= spec_push_all(e, in_url) + spec_push_fn(ch, in_url));
                        assert(spec_push_all(seq![ch], in_url) =~= spec_push_fn(ch, in_url));
                    }
                    push_char_fn(ch, string_builder, in_url);
                },
                None => {
                    push_char_fn('&', string_builder, in_url);
                    peekable_char_indices = amp_iter;
                },
            }
        } else {
            push_char_fn(c, string_builder, in_url);
        }
        proof {
            let (o, j) = spec_text_step(t, i, in_url);
            assert(string_builder@ =~= before + o);
            assert(peekable_char_indices.peeked == j);
            assert(before + (o + spec_text_to_html(t, j, in_url)) =~= (before + o)
                + spec_text_to_html(t, j, in_url));
        }
    }
}

} // verus!

verus! {

proof fn lemma_push_all_prepend(c: char, r: Seq<char>, in_url: bool)
    ensures
        spec_push_all(seq![c] + r, in_url) == spec_push_fn(c, in_url) + spec_push_all(r, in_url),
    decreases r.len(),
{
    let s = seq![c] + r;
    if r.len() == 0 {
        assert(s =~= seq![c]);
        assert(s.drop_last() =~= Seq::<char>::empty());
        assert(s.last() == c);
        assert(spec_push_all(s, in_url) == spec_push_all(s.drop_last(), in_url) + spec_push_fn(c, in_url));
        assert(spec_push_all(s, in_url) =~= spec_push_fn(c, in_url));
        assert(spec_push_fn(c, in_url) + spec_push_all(r, in_url) =~= spec_push_fn(c, in_url));
    } else {
        lemma_push_all_prepend(c, r.drop_last(), in_url);
        assert(s.drop_last() =~= seq![c] + r.drop_last());
        assert(s.last() == r.last());
        assert(spec_push_all(s, in_url) == spec_push_all(s.drop_last(), in_url) + spec_push_fn(r.last(), in_url));
        assert(spec_push_all(r, in_url) == spec_push_all(r.drop_last(), in_url) + spec_push_fn(r.last(), in_url));
        assert(spec_push_fn(c, in_url) + spec_push_all(r, in_url) =~= spec_push_fn(c, in_url) + spec_push_all(
            r.drop_last(),
            in_url,
        ) + spec_push_fn(r.last(), in_url));
    }
}

proof fn lemma_plain_text_html(t: Seq<char>, i: int)
    requires
        0 <= i <= t.len(),
        forall|k: int| 0 <= k < t.len() ==> #[trigger] t[k] != '&' && t[k] != '\\',
    ensures
        spec_text_to_html(t, i, false) == spec_push_all(t.subrange(i, t.len() as int), false),
    decreases t.len() - i,
{
    if i == t.len() {
        assert(t.subrange(i, t.len() as int) =~= Seq::<char>::empty());
    } else {
        lemma_plain_text_html(t, i + 1);
        assert(t.subrange(i, t.len() as int) =~= seq![t[i]] + t.subrange(i + 1, t.len() as int));
        lemma_push_all_prepend(t[i], t.subrange(i + 1, t.len() as int), false);
    }
}

/// In a URL, ASCII letters and digits and each of ``!#$&'()*+,/:;=?@-._~`` are written as they
/// are, never percent-encoded: `&` as `&amp;` for HTML, every other one as itself.
pub proof fn law_uri_keeps_safe_chars(c: char)
    requires
        ('a' <= c && c <= 'z') || ('A' <= c && c <= 'Z') || ('0' <= c && c <= '9') || c == '!' || c == '#'
            || c == '$' || c == '&' || c == '\'' || c == '(' || c == ')' || c == '*' || c == '+' || c == ','
            || c == '/' || c == ':' || c == ';' || c == '=' || c == '?' || c == '@' || c == '-' || c == '.'
            || c == '_' || c == '~',
    ensures
        spec_uri_char(c) == (if c == '&' {
            "&amp;"@
        } else {
            seq![c]
        }),
{
}

/// Any other ASCII character (a space, `"`, `<`, `%`, `[`, ...) goes into a URL as `%` and its
/// code in two uppercase hexadecimal digits.
pub proof fn law_uri_encodes_other_ascii(c: char)
    requires
        (c as u32) < 0x80,
        !(('a' <= c && c <= 'z') || ('A' <= c && c <= 'Z') || ('0' <= c && c <= '9') || c == '!' || c == '#'
            || c == '$' || c == '&' || c == '\'' || c == '(' || c == ')' || c == '*' || c == '+' || c == ','
            || c == '/' || c == ':' || c == ';' || c == '=' || c == '?' || c == '@' || c == '-' || c == '.'
            || c == '_' || c == '~'),
    ensures
        ({
            let r = spec_uri_char(c);
            let hi = (c as u32) / 16;
            let lo = (c as u32) % 16;
            &&& r.len() == 3
            &&& r[0] == '%'
            &&& r[1] as u32 == (if hi < 10 {
                48 + hi
            } else {
                55 + hi
            })
            &&& r[2] as u32 == (if lo < 10 {
                48 + lo
            } else {
                55 + lo
            })
        }),
{
    let u = c as u32;
    let b = u as u8;
    assert((u & 0x7F) as u8 == b) by (bit_vector)
        requires
            u < 0x80,
            b == u as u8,
    ;
    assert(encode_scalar(u) =~= seq![b]);
    assert(b >> 4u8 == (u / 16) as u8) by (bit_vector)
        requires
            u < 0x80,
            b == u as u8,
    ;
    assert(b & 0xFu8 == (u % 16) as u8) by (bit_vector)
        requires
            u < 0x80,
            b == u as u8,
    ;
    let one: Seq<u8> = seq![b];
    assert(one.drop_last() =~= Seq::<u8>::empty());
    assert(spec_percent_encode(Seq::<u8>::empty()) =~= Seq::<char>::empty());
}

/// Text holding no `&` and no backslash is written to HTML with its reserved characters
/// escaped and nothing else changed.
pub proof fn law_plain_text_is_escaped(t: Seq<char>)
    requires
        forall|k: int| 0 <= k < t.len() ==> #[trigger] t[k] != '&' && t[k] != '\\',
    ensures
        spec_text_to_html(t, 0, false) == spec_push_all(t, false),
{
    lemma_plain_text_html(t, 0);
    assert(t.subrange(0, t.len() as int) =~= t);
}

/// Text written with its reserved characters escaped holds no `<`, `>` or `"`: it cannot open
/// a tag or close an attribute.
pub proof fn law_escaped_text_has_no_markup(t: Seq<char>)
    ensures
        forall|k: int| 0 <= k < spec_push_all(t, false).len() ==> {
            let c = #[trigger] spec_push_all(t, false)[k];
            c != '<' && c != '>' && c != '"'
        },
    decreases t.len(),
{
    if t.len() > 0 {
        law_escaped_text_has_no_markup(t.drop_last());
        reveal_strlit("&lt;");
        reveal_strlit("&gt;");
        reveal_strlit("&amp;");
        reveal_strlit("&quot;");
        let a = spec_push_all(t.drop_last(), false);
        let b = spec_html_escape(t.last());
        assert forall|k: int| 0 <= k < (a + b).len() implies {
            let c = #[trigger] (a + b)[k];
            c != '<' && c != '>' && c != '"'
        } by {
            if k < a.len() {
                assert((a + b)[k] == a[k]);
            } else {
                assert((a + b)[k] == b[k - a.len()]);
            }
        }
    }
}

} // verus!
