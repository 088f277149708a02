use vstd::prelude::*;
use crate::char_class::{lemma_skip_class_bounds, skip_class, spec_to_ascii_lowercase, CharClass};
use crate::peekable_char_indices::{BorrowedStringPCI, PeekableCharIndices};
use crate::chars::char_from_u32;
use crate::text::{ends_with_char, push_char};

verus! {

/// The (at most three) characters that one character folds to, handed out one by one.
#[derive(Clone, Copy)]
pub struct UnicodeCaseFoldIter {
    pub chars: [char; 3],
    pub char_count: usize,
    pub current_offset: usize,
}

impl UnicodeCaseFoldIter {
    /// The characters not handed out yet.
    pub open spec fn remaining(&self) -> Seq<char> {
        self.chars@.subrange(self.current_offset as int, self.char_count as int)
    }

    pub open spec fn wf(&self) -> bool {
        self.current_offset <= self.char_count <= 3
    }

    /// The next folded character, if any is left.
    pub fn next(&mut self) -> (r: Option<char>)
        requires
            old(self).wf(),
        ensures
            final(self).wf(),
            old(self).remaining().len() > 0 ==> r == Some(old(self).remaining()[0]) && final(self).remaining() == old(self).remaining().drop_first(),
            old(self).remaining().len() == 0 ==> r is None && final(self).remaining() == old(self).remaining(),
    {
        if self.current_offset >= self.char_count {
            None
        } else {
            let out = self.chars[self.current_offset];
            self.current_offset = self.current_offset + 1;
            assert(self.remaining() =~= old(self).remaining().drop_first());
            Some(out)
        }
    }
}

/// Simple case folding of one code point (the identity where none applies): capitals of ASCII,
/// Latin-1, Latin Extended-A and Additional, Greek (with tonos), Cyrillic (with its
/// supplement), Armenian and fullwidth Latin fold to their small letters.
pub open spec fn spec_fold_code(u: u32) -> u32 {
    if (0x41 <= u && u <= 0x5A) || (0xC0 <= u && u <= 0xDE && u != 0xD7) {
        (u + 32) as u32
    } else if u == 0xB5 {
        0x3BC
    } else if (0x100 <= u && u <= 0x137) || (0x14A <= u && u <= 0x177) {
        if u % 2 == 0 {
            (u + 1) as u32
        } else {
            u
        }
    } else if (0x139 <= u && u <= 0x148) || (0x179 <= u && u <= 0x17E) {
        if u % 2 == 1 {
            (u + 1) as u32
        } else {
            u
        }
    } else if u == 0x178 {
        0xFF
    } else if u == 0x17F {
        0x73
    } else if (0x391 <= u && u <= 0x3A9 && u != 0x3A2) || (0x410 <= u && u <= 0x42F) {
        (u + 32) as u32
    } else if u == 0x3C2 {
        0x3C3
    } else if 0x400 <= u && u <= 0x40F {
        (u + 80) as u32
    } else if u == 0x386 {
        0x3AC
    } else if 0x388 <= u && u <= 0x38A {
        (u + 37) as u32
    } else if u == 0x38C {
        0x3CC
    } else if 0x38E <= u && u <= 0x38F {
        (u + 63) as u32
    } else if (0x3D8 <= u && u <= 0x3EF) || (0x460 <= u && u <= 0x481) || (0x48A <= u && u <= 0x4BF) || (0x4D0
        <= u && u <= 0x52F) || (0x1E00 <= u && u <= 0x1E95) || (0x1EA0 <= u && u <= 0x1EFF) {
        if u % 2 == 0 {
            (u + 1) as u32
        } else {
            u
        }
    } else if 0x4C1 <= u && u <= 0x4CE {
        if u % 2 == 1 {
            (u + 1) as u32
        } else {
            u
        }
    } else if u == 0x4C0 {
        0x4CF
    } else if 0x531 <= u && u <= 0x556 {
        (u + 48) as u32
    } else if 0xFF21 <= u && u <= 0xFF3A {
        (u + 32) as u32
    } else {
        u
    }
}

/// Case folding of one character: `ß` and `ẞ` fold to `ss`, others by `spec_fold_code`.
pub open spec fn spec_case_fold(c: char) -> Seq<char> {
    let u = c as u32;
    if u == 0xDF || u == 0x1E9E {
        seq!['s', 's']
    } else {
        seq![spec_fold_code(u) as char]
    }
}

pub trait UnicodeCaseFold {
    fn unicode_case_fold(&self) -> UnicodeCaseFoldIter;
}

impl UnicodeCaseFold for char {
    fn unicode_case_fold(&self) -> (r: UnicodeCaseFoldIter)
        ensures
            r.wf(),
            r.remaining() == spec_case_fold(*self),
    {
        let ch: char = *self;
        let u = ch as u32;
        proof {
            vstd::utf8::char_is_scalar(ch);
        }
        if u == 0xDF || u == 0x1E9E {
            let r = UnicodeCaseFoldIter { chars: ['s', 's', ' '], char_count: 2, current_offset: 0 };
            assert(r.remaining() =~= spec_case_fold(*self));
            r
        } else {
            let f = fold_code(u);
            let c = match char_from_u32(f) {
                Some(c) => c,
                None => ch,
            };
            let r = UnicodeCaseFoldIter { chars: [c, ' ', ' '], char_count: 1, current_offset: 0 };
            assert(r.remaining() =~= spec_case_fold(*self));
            r
        }
    }
}

fn fold_code(u: u32) -> (r: u32)
    requires
        u <= 0x10FFFF,
    ensures
        r == spec_fold_code(u),
{
    if (0x41 <= u && u <= 0x5A) || (0xC0 <= u && u <= 0xDE && u != 0xD7) {
        u + 32
    } else if u == 0xB5 {
        0x3BC
    } else if (0x100 <= u && u <= 0x137) || (0x14A <= u && u <= 0x177) {
        if u % 2 == 0 {
            u + 1
        } else {
            u
        }
    } else if (0x139 <= u && u <= 0x148) || (0x179 <= u && u <= 0x17E) {
        if u % 2 == 1 {
            u + 1
        } else {
            u
        }
    } else if u == 0x178 {
        0xFF
    } else if u == 0x17F {
        0x73
    } else if (0x391 <= u && u <= 0x3A9 && u != 0x3A2) || (0x410 <= u && u <= 0x42F) {
        u + 32
    } else if u == 0x3C2 {
        0x3C3
    } else if 0x400 <= u && u <= 0x40F {
        u + 80
    } else if u == 0x386 {
        0x3AC
    } else if 0x388 <= u && u <= 0x38A {
        u + 37
    } else if u == 0x38C {
        0x3CC
    } else if 0x38E <= u && u <= 0x38F {
        u + 63
    } else if (0x3D8 <= u && u <= 0x3EF) || (0x460 <= u && u <= 0x481) || (0x48A <= u && u <= 0x4BF) || (0x4D0
        <= u && u <= 0x52F) || (0x1E00 <= u && u <= 0x1E95) || (0x1EA0 <= u && u <= 0x1EFF) {
        if u % 2 == 0 {
            u + 1
        } else {
            u
        }
    } else if 0x4C1 <= u && u <= 0x4CE {
        if u % 2 == 1 {
            u + 1
        } else {
            u
        }
    } else if u == 0x4C0 {
        0x4CF
    } else if 0x531 <= u && u <= 0x556 {
        u + 48
    } else if 0xFF21 <= u && u <= 0xFF3A {
        u + 32
    } else {
        u
    }
}

/// Spaces, tabs and line feeds, which a label collapses.
pub open spec fn is_label_space(c: char) -> bool {
    c == ' ' || c == '\n' || c == '\t'
}

/// Folds the characters of a label, each run of spaces, tabs and line feeds before a further
/// character becoming one space; `seen_space` says whether such a run is pending.
pub open spec fn spec_fold_label(s: Seq<char>, seen_space: bool) -> Seq<char>
    decreases s.len(),
{
    if s.len() == 0 {
        seq![]
    } else if is_label_space(s[0]) {
        spec_fold_label(s.drop_first(), true)
    } else {
        (if seen_space {
            seq![' ']
        } else {
            Seq::<char>::empty()
        }) + spec_case_fold(s[0]) + spec_fold_label(s.drop_first(), false)
    }
}

/// The normal form of a link label `[...]`: leading spaces and tabs dropped, whitespace runs
/// collapsed to one space, characters case-folded, and the closing `]` removed.
pub open spec fn spec_normalize_label(s: Seq<char>) -> Seq<char> {
    let k = skip_class(s, 1, CharClass::SpaceTabNewline);
    let f = spec_fold_label(s.subrange(k, s.len() as int), false).drop_last();
    if f.len() > 0 && f.last() == ' ' {
        f.drop_last()
    } else {
        f
    }
}

pub fn normalize_label(char_iter: &BorrowedStringPCI) -> (lab_out: String)
    requires
        char_iter.wf(),
        char_iter.peeked < char_iter.iter@.len(),
        char_iter.iter@[char_iter.peeked as int] == '[',
        char_iter.iter@.last() == ']',
    ensures
        lab_out@ == spec_normalize_label(
            char_iter.iter@.subrange(char_iter.peeked as int, char_iter.iter@.len() as int),
        ),
{
    let ghost t = char_iter.iter@;
    let ghost s = t.subrange(char_iter.peeked as int, t.len() as int);
    let mut lab_out = String::new();
    let mut char_iter = *char_iter;
    let ghost p = char_iter.peeked as int;
    char_iter.next_if_char_eq('[');
    char_iter.consume_while_in(CharClass::SpaceTabNewline);
    let ghost k = char_iter.peeked as int;
    proof {
        lemma_skip_class_bounds(t, p + 1, CharClass::SpaceTabNewline);
        lemma_skip_class_shift(t, p, 1, CharClass::SpaceTabNewline);
    }
    let mut seen_space = false;
    loop
        invariant
            char_iter.wf(),
            char_iter.iter@ == t,
            p + 1 <= k <= char_iter.peeked <= t.len(),
            spec_fold_label(t.subrange(k, t.len() as int), false) == lab_out@ + spec_fold_label(
                t.subrange(char_iter.peeked as int, t.len() as int),
                seen_space,
            ),
        ensures
            spec_fold_label(t.subrange(k, t.len() as int), false) == lab_out@,
        decreases t.len() - char_iter.peeked,
    {
        let ghost i = char_iter.peeked as int;
        let ghost before = lab_out@;
        let ghost rest = t.subrange(i, t.len() as int);
        let c = match char_iter.next_and_index() {
            Some((_, c)) => c,
            None => {
                assert(lab_out@ + spec_fold_label(rest, seen_space) =~= lab_out@);
                break ;
            },
        };
        assert(rest.drop_first() =~= t.subrange(i + 1, t.len() as int));
        if c == ' ' || c == '\n' || c == '\t' {
            seen_space = true;
        } else {
            let ghost sp = seen_space;
            if seen_space {
                seen_space = false;
                push_char(&mut lab_out, ' ');
            }
            let mut fold = c.unicode_case_fold();
            let ghost folded = spec_case_fold(c);
            let ghost mid = lab_out@;
            loop
                invariant
                    fold.wf(),
                    lab_out@ + fold.remaining() == mid + folded,
                ensures
                    lab_out@ == mid + folded,
                decreases fold.remaining().len(),
            {
                let ghost r0 = fold.remaining();
                match fold.next() {
                    Some(cl) => {
                        push_char(&mut lab_out, cl);
                        assert(lab_out@ + fold.remaining() =~= mid + folded);
                    },
                    None => {
                        assert(lab_out@ =~= mid + folded);
                        break ;
                    },
                }
            }
            assert(mid =~= before + (if sp { seq![' '] } else { Seq::<char>::empty() }));
            assert(before + ((if sp { seq![' '] } else { Seq::<char>::empty() }) + folded
                + spec_fold_label(rest.drop_first(), false)) =~= lab_out@ + spec_fold_label(
                rest.drop_first(),
                false,
            ));
        }
    }
    proof {
        assert(s.subrange(k - p, s.len() as int) =~= t.subrange(k, t.len() as int));
        lemma_fold_label_nonempty(t.subrange(k, t.len() as int), false);
    }
    pop_char(&mut lab_out);
    // a space before the closing bracket is dropped too
    if ends_with_char(&lab_out, ' ') {
        pop_char(&mut lab_out);
    }
    lab_out
}

proof fn lemma_fold_label_nonempty(s: Seq<char>, seen_space: bool)
    requires
        s.len() > 0,
        !is_label_space(s.last()),
    ensures
        spec_fold_label(s, seen_space).len() > 0,
    decreases s.len(),
{
    if is_label_space(s[0]) {
        assert(s.drop_first().last() == s.last());
        lemma_fold_label_nonempty(s.drop_first(), true);
    } else {
        assert(spec_case_fold(s[0]).len() > 0);
    }
}

/// Skipping in a suffix of a text lands at the matching place of the whole text.
proof fn lemma_skip_class_shift(t: Seq<char>, p: int, i: int, cls: CharClass)
    requires
        0 <= p <= t.len(),
        0 <= i,
    ensures
        skip_class(t.subrange(p, t.len() as int), i, cls) == skip_class(t, p + i, cls) - p,
    decreases t.len() - p - i,
{
    let s = t.subrange(p, t.len() as int);
    if 0 <= i < s.len() && crate::char_class::class_has(cls, s[i]) {
        lemma_skip_class_shift(t, p, i + 1, cls);
    }
}

/// Removes the last character of a `String`, if any.
#[verifier::external_body]
fn pop_char(s: &mut String)
    requires
        old(s)@.len() > 0,
    ensures
        final(s)@ == old(s)@.drop_last(),
{
    s.pop();
}

} // verus!

verus! {

/// Two characters a label treats alike: both collapsing spaces or neither, with the same case
/// folding.
pub open spec fn fold_alike(x: char, y: char) -> bool {
    is_label_space(x) == is_label_space(y) && spec_case_fold(x) == spec_case_fold(y)
}

proof fn lemma_ascii_case_fold_alike(x: char, y: char)
    requires
        spec_to_ascii_lowercase(x) == spec_to_ascii_lowercase(y),
    ensures
        fold_alike(x, y),
{
    if x != y {
        if 'A' <= x && x <= 'Z' {
            assert(!('A' <= y && y <= 'Z'));
            assert(y as u32 == x as u32 + 32);
        } else {
            assert('A' <= y && y <= 'Z');
            assert(x as u32 == y as u32 + 32);
        }
    }
}

proof fn lemma_fold_label_alike(a: Seq<char>, b: Seq<char>, seen_space: bool)
    requires
        a.len() == b.len(),
        forall|i: int| 0 <= i < a.len() ==> fold_alike(#[trigger] a[i], b[i]),
    ensures
        spec_fold_label(a, seen_space) == spec_fold_label(b, seen_space),
    decreases a.len(),
{
    if a.len() > 0 {
        assert(fold_alike(a[0], b[0]));
        assert forall|i: int| 0 <= i < a.drop_first().len() implies fold_alike(
            #[trigger] a.drop_first()[i],
            b.drop_first()[i],
        ) by {
            assert(fold_alike(a[i + 1], b[i + 1]));
        }
        lemma_fold_label_alike(a.drop_first(), b.drop_first(), true);
        lemma_fold_label_alike(a.drop_first(), b.drop_first(), false);
    }
}

proof fn lemma_skip_spaces_alike(a: Seq<char>, b: Seq<char>, i: int)
    requires
        a.len() == b.len(),
        forall|k: int| 0 <= k < a.len() ==> fold_alike(#[trigger] a[k], b[k]),
    ensures
        skip_class(a, i, CharClass::SpaceTabNewline) == skip_class(b, i, CharClass::SpaceTabNewline),
    decreases a.len() - i,
{
    if 0 <= i < a.len() {
        assert(fold_alike(a[i], b[i]));
        lemma_skip_spaces_alike(a, b, i + 1);
    }
}

/// Labels that agree character by character up to ASCII case normalize to the same label, so
/// a link matches its definition whatever the case of either.
pub proof fn law_label_ignores_ascii_case(a: Seq<char>, b: Seq<char>)
    requires
        a.len() == b.len(),
        forall|i: int| 0 <= i < a.len() ==> spec_to_ascii_lowercase(#[trigger] a[i]) == spec_to_ascii_lowercase(b[i]),
    ensures
        spec_normalize_label(a) == spec_normalize_label(b),
{
    assert forall|i: int| 0 <= i < a.len() implies fold_alike(#[trigger] a[i], b[i]) by {
        lemma_ascii_case_fold_alike(a[i], b[i]);
    }
    if a.len() == 0 {
        assert(a =~= b);
    } else {
        lemma_skip_spaces_alike(a, b, 1);
        let k = skip_class(a, 1, CharClass::SpaceTabNewline);
        lemma_skip_class_bounds(a, 1, CharClass::SpaceTabNewline);
        let sa = a.subrange(k, a.len() as int);
        let sb = b.subrange(k, b.len() as int);
        assert forall|i: int| 0 <= i < sa.len() implies fold_alike(#[trigger] sa[i], sb[i]) by {
            assert(fold_alike(a[k + i], b[k + i]));
        }
        lemma_fold_label_alike(sa, sb, false);
    }
}

} // verus!
