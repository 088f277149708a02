//! The block structure of a document: which lines open, continue and close which blocks.
use vstd::prelude::*;
use crate::ast_types::{inline_text, is_container, AbstractSyntaxTree, Block, HTMLEndCondition, ListType, NodeId};
use crate::char_class::{
    class_has, find_char, is_ascii_alphabetic, is_ascii_digit, lemma_find_char_bounds, lemma_skip_class_bounds,
    lemma_skip_class_through, skip_class,
    spec_is_ascii_alphabetic, spec_is_ascii_digit, spec_to_ascii_lowercase, to_ascii_lowercase, CharClass,
};
use crate::chars::{lemma_pow_monotone, lemma_pow_step, pow_nat, spec_digits_value};
use crate::inline_str_collection::{spaces, spec_trim_end, LeafContainerInline};
use crate::inline::bracketed_label;
use crate::lrd_table::{spec_define_all, LinkDefinition, LRDTable};
use crate::string_normalize::spec_normalize_label;
use crate::parsers::{
    lemma_link_destination_bounds, parse_closing_tag, parse_link_destination, parse_link_label, parse_link_title,
    parse_opening_tag, spec_parse_closing_tag, spec_parse_link_destination, spec_parse_link_label,
    spec_parse_link_title, spec_parse_opening_tag,
};
use crate::peekable_char_indices::{BorrowedStringPCI, PeekableCharIndices};
use std::ops::Range;

verus! {

/// Column and space count after a character: a tab runs to the next multiple of four, a space
/// adds one, and anything else ends the run of spaces.
pub open spec fn col_step(ecn: int, sfls: int, c: char) -> (int, int) {
    if c == '\t' {
        (ecn + (4 - ecn % 4), sfls + (4 - ecn % 4))
    } else if c == ' ' {
        (ecn + 1, sfls + 1)
    } else {
        (ecn + 1, 0)
    }
}

/// Column and space count after the characters of `s`.
pub open spec fn cols_after(ecn: int, sfls: int, s: Seq<char>) -> (int, int)
    decreases s.len(),
{
    if s.len() == 0 {
        (ecn, sfls)
    } else {
        let (e, f) = cols_after(ecn, sfls, s.drop_last());
        col_step(e, f, s.last())
    }
}

/// Where skipping spaces and tabs from `p` (at column `e`, with `f` columns of space since the
/// last structure) stops, with the column and the space count there: at `n` or more columns of
/// space, at the end of the line, or before another character.
pub open spec fn indent_stop(t: Seq<char>, p: int, e: int, f: int, n: int) -> (int, int, int)
    decreases t.len() - p,
{
    if f >= n || p < 0 || p >= t.len() || !class_has(CharClass::SpaceTab, t[p]) {
        (p, e, f)
    } else {
        let (e1, f1) = col_step(e, f, t[p]);
        indent_stop(t, p + 1, e1, f1, n)
    }
}

/// A cursor over one line that keeps track of the column it stands at (tabs stop every four
/// columns) and of the width of the spaces and tabs since the last structure it passed.
#[derive(Debug, Clone, Copy)]
pub struct LineState<'a> {
    pub base_line: &'a [char],
    pub char_iter: BorrowedStringPCI<'a>,
    pub effective_column_number: usize,
    pub space_from_last_structure: usize,
}

impl<'a> PeekableCharIndices for LineState<'a> {
    open spec fn text(&self) -> Seq<char> {
        self.char_iter.iter@
    }

    open spec fn pos(&self) -> int {
        self.char_iter.peeked as int
    }

    open spec fn wf(&self) -> bool {
        &&& self.char_iter.peeked <= self.char_iter.iter@.len()
        &&& self.char_iter.iter@ == self.base_line@
        &&& self.effective_column_number <= 4 * self.char_iter.peeked
        &&& self.space_from_last_structure <= self.effective_column_number
        &&& 4 * self.base_line@.len() + 64 <= usize::MAX
    }

    proof fn lemma_wf_bounds(&self) {
        vstd::slice::axiom_spec_len(self.base_line);
    }

    fn next_and_index(&mut self) -> (r: Option<(usize, char)>)
        ensures
            final(self).base_line == old(self).base_line,
            r matches Some((_, c)) ==> (final(self).effective_column_number as int,
            final(self).space_from_last_structure as int) == col_step(
                old(self).effective_column_number as int,
                old(self).space_from_last_structure as int,
                c,
            ),
            r is None ==> *final(self) == *old(self),
    {
        if self.char_iter.peeked >= self.char_iter.iter.len() {
            return None;
        }
        let out = match self.char_iter.next_and_index() {
            Some(o) => o,
            None => {
                return None;
            },
        };
        let w = 4 - (self.effective_column_number % 4);
        if out.1 == '\t' {
            self.space_from_last_structure = self.space_from_last_structure + w;
            self.effective_column_number = self.effective_column_number + w;
        } else if out.1 == ' ' {
            self.space_from_last_structure = self.space_from_last_structure + 1;
            self.effective_column_number = self.effective_column_number + 1;
        } else {
            self.space_from_last_structure = 0;
            self.effective_column_number = self.effective_column_number + 1;
        }
        Some(out)
    }

    fn peek_and_index(&self) -> (r: Option<(usize, char)>) {
        self.char_iter.peek_and_index()
    }

    fn offset(&self) -> (r: usize) {
        self.char_iter.offset()
    }
}

/// The rest of a line is blank: nothing but spaces and tabs.
pub open spec fn rest_is_blank(t: Seq<char>, p: int) -> bool {
    skip_class(t, p, CharClass::SpaceTab) >= t.len()
}

impl<'a> LineState<'a> {
    /// A cursor at the start of `line_in`, at column zero.
    pub fn new(line_in: &'a [char]) -> (r: Self)
        requires
            4 * line_in@.len() + 64 <= usize::MAX,
        ensures
            r.wf(),
            r.base_line == line_in,
            r.pos() == 0,
            r.effective_column_number == 0,
            r.space_from_last_structure == 0,
    {
        LineState {
            base_line: line_in,
            char_iter: BorrowedStringPCI::new(line_in),
            effective_column_number: 0,
            space_from_last_structure: 0,
        }
    }

    /// The next character, if any.
    pub fn next(&mut self) -> (r: Option<char>)
        requires
            old(self).wf(),
        ensures
            final(self).wf(),
            final(self).base_line == old(self).base_line,
            old(self).pos() < old(self).text().len() ==> r == Some(old(self).text()[old(self).pos()])
                && final(self).pos() == old(self).pos() + 1,
            r matches Some(c) ==> (final(self).effective_column_number as int,
            final(self).space_from_last_structure as int) == col_step(
                old(self).effective_column_number as int,
                old(self).space_from_last_structure as int,
                c,
            ),
            old(self).pos() >= old(self).text().len() ==> r is None && *final(self) == *old(self),
    {
        match self.next_and_index() {
            Some((_, c)) => Some(c),
            None => None,
        }
    }

    /// Skips the spaces and tabs that come next.
    pub fn consume_indent(&mut self)
        requires
            old(self).wf(),
        ensures
            final(self).wf(),
            final(self).base_line == old(self).base_line,
            final(self).pos() == skip_class(old(self).text(), old(self).pos(), CharClass::SpaceTab),
    {
        self.consume_while_in(CharClass::SpaceTab);
    }

    /// Skips one space or tab, if one comes next.
    pub fn consume_one_space(&mut self) -> (r: bool)
        requires
            old(self).wf(),
        ensures
            final(self).wf(),
            final(self).base_line == old(self).base_line,
            r == (old(self).pos() < old(self).text().len() && class_has(
                CharClass::SpaceTab,
                old(self).text()[old(self).pos()],
            )),
            r ==> final(self).pos() == old(self).pos() + 1 && (
            final(self).effective_column_number as int,
            final(self).space_from_last_structure as int,
            ) == col_step(
                old(self).effective_column_number as int,
                old(self).space_from_last_structure as int,
                old(self).text()[old(self).pos()],
            ),
            !r ==> *final(self) == *old(self),
    {
        let c = match self.peek() {
            Some(c) => c,
            None => {
                return false;
            },
        };
        if c == ' ' || c == '\t' {
            self.next_and_index();
            true
        } else {
            false
        }
    }

    /// Skips spaces and tabs until the space since the last structure reaches `n` columns (or
    /// something else comes next).
    pub fn consume_indent_until_sfls_ge(&mut self, n: usize)
        requires
            old(self).wf(),
        ensures
            final(self).wf(),
            final(self).base_line == old(self).base_line,
            old(self).pos() <= final(self).pos(),
            forall|k: int| old(self).pos() <= k < final(self).pos() ==> class_has(CharClass::SpaceTab, #[trigger] old(self).text()[k]),
            (final(self).effective_column_number as int, final(self).space_from_last_structure as int)
                == cols_after(
                old(self).effective_column_number as int,
                old(self).space_from_last_structure as int,
                old(self).text().subrange(old(self).pos(), final(self).pos()),
            ),
            final(self).space_from_last_structure >= n || final(self).pos() >= final(self).text().len()
                || !class_has(CharClass::SpaceTab, final(self).text()[final(self).pos()]),
            (final(self).pos(), final(self).effective_column_number as int, final(self).space_from_last_structure as int)
                == indent_stop(
                old(self).text(),
                old(self).pos(),
                old(self).effective_column_number as int,
                old(self).space_from_last_structure as int,
                n as int,
            ),
    {
        let ghost p0 = self.pos();
        let ghost t = self.text();
        proof {
            assert(t.subrange(p0, p0) =~= Seq::<char>::empty());
        }
        loop
            invariant
                self.wf(),
                self.base_line == old(self).base_line,
                t == self.text(),
                p0 == old(self).pos(),
                p0 <= self.pos(),
                forall|k: int| p0 <= k < self.pos() ==> class_has(CharClass::SpaceTab, #[trigger] t[k]),
                (self.effective_column_number as int, self.space_from_last_structure as int) == cols_after(
                    old(self).effective_column_number as int,
                    old(self).space_from_last_structure as int,
                    t.subrange(p0, self.pos()),
                ),
                indent_stop(
                    t,
                    self.pos(),
                    self.effective_column_number as int,
                    self.space_from_last_structure as int,
                    n as int,
                ) == indent_stop(
                    t,
                    p0,
                    old(self).effective_column_number as int,
                    old(self).space_from_last_structure as int,
                    n as int,
                ),
            ensures
                self.space_from_last_structure >= n || self.pos() >= t.len() || !class_has(
                    CharClass::SpaceTab,
                    t[self.pos()],
                ),
            decreases t.len() - self.pos(),
        {
            if self.space_from_last_structure >= n {
                break ;
            }
            let ghost before = *self;
            if !self.consume_one_space() {
                break ;
            }
            proof {
                assert(t.subrange(p0, self.pos()).drop_last() =~= t.subrange(p0, before.pos()));
            }
        }
    }

    /// Whether nothing but spaces and tabs is left.
    pub fn is_blank_line(&self) -> (r: bool)
        requires
            self.wf(),
        ensures
            r == rest_is_blank(self.text(), self.pos()),
    {
        let mut self_clone = *self;
        self_clone.consume_indent();
        proof {
            lemma_skip_class_bounds(self.text(), self.pos(), CharClass::SpaceTab);
        }
        self_clone.is_empty()
    }

    /// The part of the line not yet handed out.
    pub fn get_remaining_str(&self) -> (r: &'a [char])
        requires
            self.wf(),
        ensures
            r@ == self.base_line@.subrange(self.pos(), self.base_line@.len() as int),
    {
        vstd::slice::slice_subrange(self.base_line, self.char_iter.offset(), self.base_line.len())
    }
}

} // verus!

verus! {

/// How often `c` occurs in `s`.
pub open spec fn count_char(s: Seq<char>, c: char) -> nat
    decreases s.len(),
{
    if s.len() == 0 {
        0
    } else {
        count_char(s.drop_last(), c) + if s.last() == c {
            1nat
        } else {
            0nat
        }
    }
}

/// A thematic break: three or more of one of `-`, `*`, `_`, with only spaces and tabs
/// besides, to the end of the line.
pub open spec fn spec_thematic_break(t: Seq<char>, p: int) -> bool {
    &&& 0 <= p < t.len()
    &&& (t[p] == '-' || t[p] == '*' || t[p] == '_')
    &&& forall|k: int| p <= k < t.len() ==> #[trigger] t[k] == t[p] || t[k] == ' ' || t[k] == '\t'
    &&& count_char(t.subrange(p, t.len() as int), t[p]) >= 3
}

/// Whether the rest of the line is a thematic break.
pub fn thematic_break_encountered(char_iter: &mut LineState) -> (r: bool)
    requires
        old(char_iter).wf(),
    ensures
        final(char_iter).wf(),
        final(char_iter).base_line == old(char_iter).base_line,
        r == spec_thematic_break(old(char_iter).text(), old(char_iter).pos()),
{
    let ghost t = char_iter.text();
    let ghost p0 = char_iter.pos();
    let br_sym = match char_iter.peek() {
        Some(c) => c,
        None => {
            return false;
        },
    };
    if !(br_sym == '-' || br_sym == '*' || br_sym == '_') {
        return false;
    }
    char_iter.next();
    let mut c_count: usize = 1;
    proof {
        assert(t.subrange(p0, p0 + 1).drop_last() =~= Seq::<char>::empty());
        assert(t.subrange(p0, p0 + 1).last() == br_sym);
        assert(count_char(Seq::<char>::empty(), br_sym) == 0);
    }
    loop
        invariant
            char_iter.wf(),
            char_iter.base_line == old(char_iter).base_line,
            t == char_iter.text(),
            p0 == old(char_iter).pos(),
            0 <= p0 < char_iter.pos() <= t.len(),
            t[p0] == br_sym,
            forall|k: int| p0 <= k < char_iter.pos() ==> #[trigger] t[k] == br_sym || t[k] == ' ' || t[k] == '\t',
            c_count == count_char(t.subrange(p0, char_iter.pos()), br_sym),
            c_count <= char_iter.pos() - p0,
        ensures
            char_iter.pos() == t.len() || !(t[char_iter.pos()] == br_sym || t[char_iter.pos()] == ' '
                || t[char_iter.pos()] == '\t'),
        decreases t.len() - char_iter.pos(),
    {
        let c = match char_iter.peek() {
            Some(c) => c,
            None => {
                break ;
            },
        };
        if !(c == br_sym || c == ' ' || c == '\t') {
            break ;
        }
        let ghost before = char_iter.pos();
        char_iter.next();
        proof {
            assert(t.subrange(p0, char_iter.pos()).drop_last() =~= t.subrange(p0, before));
        }
        if c == br_sym {
            c_count = c_count + 1;
        }
    }
    char_iter.is_empty() && c_count >= 3
}

/// After a list marker: the end of the line, or a space or tab.
pub open spec fn marker_ends_at(t: Seq<char>, q: int) -> bool {
    q >= t.len() || t[q] == ' ' || t[q] == '\t'
}

/// The number of ASCII digits from `p` on.
pub open spec fn digit_run(t: Seq<char>, p: int) -> int {
    skip_class(t, p, CharClass::Digit) - p
}

/// The list item, if any, whose marker starts at `p`: a bullet (`-`, `*`, `+`), or one to
/// nine ASCII digits and `.` or `)`, followed by the end of the line or a space or tab.
pub open spec fn spec_list_marker(t: Seq<char>, p: int) -> Option<ListType> {
    if !(0 <= p < t.len()) {
        None
    } else if t[p] == '-' || t[p] == '*' || t[p] == '+' {
        if marker_ends_at(t, p + 1) {
            Some(ListType::UnorderedList(t[p]))
        } else {
            None
        }
    } else {
        let d = digit_run(t, p);
        if 1 <= d <= 9 && p + d < t.len() && (t[p + d] == '.' || t[p + d] == ')') && marker_ends_at(
            t,
            p + d + 1,
        ) {
            Some(ListType::OrderedList(t[p + d], spec_digits_value(t.subrange(p, p + d), 10) as u32))
        } else {
            None
        }
    }
}

proof fn lemma_digits_value_step(s: Seq<char>, c: char)
    requires
        spec_is_ascii_digit(c),
    ensures
        spec_digits_value(s.push(c), 10) == spec_digits_value(s, 10) * 10 + (c as u32 - '0' as u32),
{
    assert(s.push(c).drop_last() =~= s);
}

/// What follows a list item's marker of width `mw` that ends at `m` (at column `e`, after
/// `sb` columns of space before the marker): the item's content indent, and the position, column
/// and space count where its content starts. One to four columns of space after the marker
/// belong to it; with none (the line ends there) or five or more, it takes one column.
pub open spec fn item_content(t: Seq<char>, m: int, e: int, sb: int, mw: int) -> (int, int, int, int) {
    let (q, e2, f2) = indent_stop(t, m, e, 0, 5);
    if q >= t.len() {
        (sb + mw + 1, q, e2, f2)
    } else if 1 <= f2 <= 4 {
        (sb + mw + f2, q, e2, 0)
    } else if 0 <= m < t.len() && class_has(CharClass::SpaceTab, t[m]) {
        let (e3, f3) = col_step(e, 0, t[m]);
        (sb + mw + 1, m + 1, e3, f3 - 1)
    } else {
        (sb + mw + 1, m, e, 0)
    }
}

/// What a list item's marker leaves: the content starts after one to four columns of spaces,
/// or one column when the line ends there or five or more follow. Gives the item's content
/// indent, counted from `space_before`.
fn list_item_indent(line_state: &mut LineState, space_before: usize, marker_width: usize) -> (r: usize)
    requires
        old(line_state).wf(),
        space_before <= 4 * old(line_state).text().len(),
        marker_width <= 10,
        old(line_state).space_from_last_structure == 0,
        marker_ends_at(old(line_state).text(), old(line_state).pos()),
    ensures
        final(line_state).wf(),
        final(line_state).base_line == old(line_state).base_line,
        old(line_state).pos() <= final(line_state).pos(),
        space_before + marker_width + 1 <= r <= space_before + marker_width + 4,
        (
            r as int,
            final(line_state).pos(),
            final(line_state).effective_column_number as int,
            final(line_state).space_from_last_structure as int,
        ) == item_content(
            old(line_state).text(),
            old(line_state).pos(),
            old(line_state).effective_column_number as int,
            space_before as int,
            marker_width as int,
        ),
{
    proof {
        line_state.lemma_wf_bounds();
    }
    let post_li_iter = *line_state;
    line_state.consume_indent_until_sfls_ge(5);
    if line_state.is_empty() {
        return space_before + marker_width + 1;
    }
    let space_after = line_state.space_from_last_structure;
    if 1 <= space_after && space_after <= 4 {
        line_state.space_from_last_structure = 0;
        space_before + marker_width + space_after
    } else {
        *line_state = post_li_iter;
        if line_state.consume_one_space() {
            line_state.space_from_last_structure = line_state.space_from_last_structure - 1;
        }
        space_before + marker_width + 1
    }
}

/// The width of the list item marker at `p`: one for a bullet, the digits and the delimiter for
/// an ordered list.
pub open spec fn marker_width(t: Seq<char>, p: int) -> int {
    if t[p] == '-' || t[p] == '*' || t[p] == '+' {
        1
    } else {
        digit_run(t, p) + 1
    }
}

/// The list item whose marker comes next, with the list kind it belongs to; the cursor moves to
/// the item's content.
pub fn list_item_encountered(line_state: &mut LineState) -> (r: Option<(ListType, Block<Vec<char>>)>)
    requires
        old(line_state).wf(),
    ensures
        final(line_state).wf(),
        final(line_state).base_line == old(line_state).base_line,
        old(line_state).pos() <= final(line_state).pos(),
        r is Some ==> old(line_state).pos() < final(line_state).pos(),
        match spec_list_marker(old(line_state).text(), old(line_state).pos()) {
            Some(lt) => {
                let mw = marker_width(old(line_state).text(), old(line_state).pos());
                &&& r matches Some((rlt, b))
                &&& rlt == lt
                &&& b matches Block::ListItem(c, w) && c && w > old(line_state).space_from_last_structure && (
                    w as int,
                    final(line_state).pos(),
                    final(line_state).effective_column_number as int,
                    final(line_state).space_from_last_structure as int,
                ) == item_content(
                    old(line_state).text(),
                    old(line_state).pos() + mw,
                    old(line_state).effective_column_number + mw,
                    old(line_state).space_from_last_structure as int,
                    mw,
                )
            },
            None => r is None,
        },
{
    let ghost t = line_state.text();
    let ghost p0 = line_state.pos();
    proof {
        line_state.lemma_wf_bounds();
    }
    let space_before = line_state.space_from_last_structure;
    let c_0 = match line_state.next() {
        Some(c) => c,
        None => {
            return None;
        },
    };
    if c_0 == '-' || c_0 == '*' || c_0 == '+' {
        let ends = match line_state.peek() {
            Some(c) => c == ' ' || c == '\t',
            None => true,
        };
        if !ends {
            return None;
        }
        let w = list_item_indent(line_state, space_before, 1);
        return Some((ListType::UnorderedList(c_0), Block::ListItem(true, w)));
    }
    if !is_ascii_digit(c_0) {
        proof {
            lemma_skip_class_bounds(t, p0, CharClass::Digit);
        }
        return None;
    }
    let mut digit_count: usize = 1;
    let mut count: u32 = (c_0 as u32) - ('0' as u32);
    proof {
        assert(t.subrange(p0, p0 + 1) =~= Seq::<char>::empty().push(c_0));
        lemma_digits_value_step(Seq::<char>::empty(), c_0);
        reveal_with_fuel(pow_nat, 2);
        assert(Seq::<char>::empty().push(c_0) =~= seq![c_0]);
    }
    loop
        invariant
            line_state.wf(),
            line_state.base_line == old(line_state).base_line,
            t == line_state.text(),
            p0 == old(line_state).pos(),
            line_state.pos() == p0 + digit_count,
            line_state.effective_column_number == old(line_state).effective_column_number + digit_count,
            line_state.space_from_last_structure == 0,
            1 <= digit_count <= 10,
            forall|k: int| p0 <= k < line_state.pos() ==> spec_is_ascii_digit(#[trigger] t[k]),
            digit_count <= 9 ==> count == spec_digits_value(t.subrange(p0, line_state.pos()), 10),
            digit_count <= 9 ==> count < pow_nat(10, digit_count as nat),
        ensures
            digit_count <= 9 ==> (line_state.pos() >= t.len() || !spec_is_ascii_digit(t[line_state.pos()])),
        decreases t.len() - line_state.pos(),
    {
        let c = match line_state.peek() {
            Some(c) => c,
            None => {
                break ;
            },
        };
        if !is_ascii_digit(c) || digit_count >= 10 {
            break ;
        }
        let ghost before = line_state.pos();
        line_state.next();
        if digit_count < 9 {
            proof {
                assert(t.subrange(p0, line_state.pos()) =~= t.subrange(p0, before).push(c));
                lemma_digits_value_step(t.subrange(p0, before), c);
                lemma_pow_step(10, digit_count as nat, count as nat, (c as u32 - '0' as u32) as nat);
                reveal_with_fuel(pow_nat, 10);
                assert(pow_nat(10, 9) == 1000000000);
                lemma_pow_monotone(10, digit_count as nat + 1, 9);
            }
            count = count * 10 + ((c as u32) - ('0' as u32));
        }
        digit_count = digit_count + 1;
    }
    proof {
        lemma_skip_class_bounds(t, p0, CharClass::Digit);
        lemma_skip_class_through(t, p0, line_state.pos(), CharClass::Digit);
        lemma_skip_class_bounds(t, line_state.pos(), CharClass::Digit);
    }
    if digit_count > 9 {
        return None;
    }
    let c = match line_state.peek() {
        Some(c) => c,
        None => {
            return None;
        },
    };
    if !(c == '.' || c == ')') {
        return None;
    }
    line_state.next();
    let ends = match line_state.peek() {
        Some(c) => c == ' ' || c == '\t',
        None => true,
    };
    if !ends {
        return None;
    }
    let w = list_item_indent(line_state, space_before, digit_count + 1);
    Some((ListType::OrderedList(c, count), Block::ListItem(true, w)))
}

/// Whether a block quote marker comes next; the cursor then moves past it and one space after
/// it, if any.
pub fn block_quote_encountered(line_state: &mut LineState) -> (r: bool)
    requires
        old(line_state).wf(),
    ensures
        final(line_state).wf(),
        final(line_state).base_line == old(line_state).base_line,
        r == (old(line_state).pos() < old(line_state).text().len() && old(line_state).text()[old(line_state).pos()]
            == '>'),
        r ==> old(line_state).pos() < final(line_state).pos(),
        r ==> {
            let t = old(line_state).text();
            let p = old(line_state).pos();
            let (e1, f1) = col_step(
                old(line_state).effective_column_number as int,
                old(line_state).space_from_last_structure as int,
                '>',
            );
            if p + 1 < t.len() && class_has(CharClass::SpaceTab, t[p + 1]) {
                let (e2, f2) = col_step(e1, f1, t[p + 1]);
                &&& final(line_state).pos() == p + 2
                &&& final(line_state).effective_column_number == e2
                &&& final(line_state).space_from_last_structure == f2 - 1
            } else {
                &&& final(line_state).pos() == p + 1
                &&& final(line_state).effective_column_number == e1
                &&& final(line_state).space_from_last_structure == f1
            }
        },
        !r ==> *final(line_state) == *old(line_state),
{
    match line_state.peek() {
        Some(c) => if c != '>' {
            return false;
        },
        None => {
            return false;
        },
    }
    line_state.next();
    if line_state.consume_one_space() {
        line_state.space_from_last_structure = line_state.space_from_last_structure - 1;
    }
    true
}

} // verus!

verus! {

/// The length of the run of `c` that starts at `p`.
pub open spec fn run_of(t: Seq<char>, p: int, c: char) -> int
    decreases t.len() - p,
{
    if 0 <= p < t.len() && t[p] == c {
        1 + run_of(t, p + 1, c)
    } else {
        0
    }
}

pub proof fn lemma_run_of_bounds(t: Seq<char>, p: int, c: char)
    requires
        0 <= p,
    ensures
        0 <= run_of(t, p, c),
        p <= t.len() ==> p + run_of(t, p, c) <= t.len(),
    decreases t.len() - p,
{
    if 0 <= p < t.len() && t[p] == c {
        lemma_run_of_bounds(t, p + 1, c);
    }
}

pub proof fn lemma_run_of(t: Seq<char>, p: int, q: int, c: char)
    requires
        0 <= p <= q <= t.len(),
        forall|k: int| p <= k < q ==> #[trigger] t[k] == c,
        q >= t.len() || t[q] != c,
    ensures
        run_of(t, p, c) == q - p,
    decreases q - p,
{
    if p < q {
        lemma_run_of(t, p + 1, q, c);
    }
}

/// Where the run of characters other than spaces and tabs that starts at `i` ends.
pub open spec fn skip_word(t: Seq<char>, i: int) -> int
    decreases t.len() - i,
{
    if 0 <= i < t.len() && t[i] != ' ' && t[i] != '\t' {
        skip_word(t, i + 1)
    } else {
        i
    }
}

proof fn lemma_skip_word(t: Seq<char>, i: int, j: int)
    requires
        0 <= i <= j <= t.len(),
        forall|k: int| i <= k < j ==> #[trigger] t[k] != ' ' && t[k] != '\t',
        j >= t.len() || t[j] == ' ' || t[j] == '\t',
    ensures
        skip_word(t, i) == j,
    decreases j - i,
{
    if i < j {
        lemma_skip_word(t, i + 1, j);
    }
}

/// A code fence at `p`: its character and length, three or more backticks or tildes; after
/// backticks no other backtick may follow on the line.
pub open spec fn spec_fence(t: Seq<char>, p: int) -> Option<(char, int)> {
    if 0 <= p < t.len() && (t[p] == '`' || t[p] == '~') {
        let k = run_of(t, p, t[p]);
        if k >= 3 && (t[p] == '`' ==> forall|j: int| p + k <= j < t.len() ==> #[trigger] t[j] != '`') {
            Some((t[p], k))
        } else {
            None
        }
    } else {
        None
    }
}

/// A fence's info string: the first word after the fence and the spaces before it.
pub open spec fn fence_info(t: Seq<char>, after_fence: int) -> Seq<char> {
    let a = skip_class(t, after_fence, CharClass::SpaceTab);
    t.subrange(a, skip_word(t, a))
}

proof fn lemma_skip_word_bounds(t: Seq<char>, i: int)
    requires
        0 <= i <= t.len(),
    ensures
        i <= skip_word(t, i) <= t.len(),
        forall|k: int| i <= k < skip_word(t, i) ==> #[trigger] t[k] != ' ' && t[k] != '\t',
        skip_word(t, i) == t.len() || t[skip_word(t, i)] == ' ' || t[skip_word(t, i)] == '\t',
    decreases t.len() - i,
{
    if i < t.len() && t[i] != ' ' && t[i] != '\t' {
        lemma_skip_word_bounds(t, i + 1);
    }
}

/// A fence's info string is one word: it holds no space or tab, only spaces and tabs stand
/// between the fence and it, and a space, a tab or the end of the line follows it.
pub proof fn law_fence_info_is_one_word(t: Seq<char>, after_fence: int)
    requires
        0 <= after_fence <= t.len(),
    ensures
        forall|k: int|
            0 <= k < fence_info(t, after_fence).len() ==> #[trigger] fence_info(t, after_fence)[k] != ' '
                && fence_info(t, after_fence)[k] != '\t',
        ({
            let a = skip_class(t, after_fence, CharClass::SpaceTab);
            let e = a + fence_info(t, after_fence).len();
            &&& after_fence <= a <= e <= t.len()
            &&& fence_info(t, after_fence) == t.subrange(a, e)
            &&& forall|k: int| after_fence <= k < a ==> #[trigger] t[k] == ' ' || t[k] == '\t'
            &&& e == t.len() || t[e] == ' ' || t[e] == '\t'
        }),
{
    let a = skip_class(t, after_fence, CharClass::SpaceTab);
    lemma_skip_class_bounds(t, after_fence, CharClass::SpaceTab);
    lemma_skip_word_bounds(t, a);
    assert forall|k: int| after_fence <= k < a implies #[trigger] t[k] == ' ' || t[k] == '\t' by {
        assert(class_has(CharClass::SpaceTab, t[k]));
    }
}

/// The fenced code block that an opening fence here starts (empty and open, with its fence
/// character, info string, indentation and fence length).
pub fn fenced_code_block_encountered(line_state: &mut LineState) -> (r: Option<Block<Vec<char>>>)
    requires
        old(line_state).wf(),
    ensures
        final(line_state).wf(),
        final(line_state).base_line == old(line_state).base_line,
        match spec_fence(old(line_state).text(), old(line_state).pos()) {
            Some((c, k)) => r matches Some(Block::FencedCodeBlock(content, open, ch, info, indent, count)) && {
                &&& content@.len() == 0
                &&& open
                &&& ch == c
                &&& count == k
                &&& indent == old(line_state).space_from_last_structure
                &&& info@ == fence_info(old(line_state).text(), old(line_state).pos() + k)
            },
            None => r is None,
        },
{
    let ghost t = line_state.text();
    let ghost p0 = line_state.pos();
    proof {
        line_state.lemma_wf_bounds();
    }
    let pre_space_count = line_state.space_from_last_structure;
    let start_offset = line_state.offset();
    let fence_char = match line_state.peek() {
        Some(c) => c,
        None => {
            return None;
        },
    };
    if !(fence_char == '`' || fence_char == '~') {
        return None;
    }
    line_state.consume_while_char_eq(fence_char);
    let tick_count = line_state.offset() - start_offset;
    proof {
        lemma_run_of(t, p0, line_state.pos(), fence_char);
    }
    if tick_count < 3 {
        return None;
    }
    let ghost after_fence = line_state.pos();
    line_state.consume_indent();
    proof {
        lemma_skip_class_bounds(t, after_fence, CharClass::SpaceTab);
    }
    let inf_str_start = line_state.offset();
    loop
        invariant
            line_state.wf(),
            line_state.base_line == old(line_state).base_line,
            t == line_state.text(),
            inf_str_start <= line_state.pos() <= t.len(),
            p0 + tick_count <= inf_str_start,
            run_of(t, p0, fence_char) == tick_count,
            0 <= p0 < t.len(),
            t[p0] == fence_char,
            p0 == old(line_state).pos(),
            t == old(line_state).text(),
            forall|k: int| inf_str_start <= k < line_state.pos() ==> #[trigger] t[k] != ' ' && t[k] != '\t' && (
            fence_char == '`' ==> t[k] != '`'),
        ensures
            line_state.pos() >= t.len() || t[line_state.pos()] == ' ' || t[line_state.pos()] == '\t',
        decreases t.len() - line_state.pos(),
    {
        let c = match line_state.peek() {
            Some(c) => c,
            None => {
                break ;
            },
        };
        if c == ' ' || c == '\t' {
            break ;
        }
        if fence_char == '`' && c == '`' {
            proof {
                assert(t[line_state.pos()] == '`');
            }
            return None;
        }
        line_state.next();
    }
    let inf_str_end = line_state.offset();
    proof {
        lemma_skip_word(t, inf_str_start as int, inf_str_end as int);
    }
    if fence_char == '`' {
        loop
            invariant
                line_state.wf(),
                line_state.base_line == old(line_state).base_line,
                t == line_state.text(),
                inf_str_end <= line_state.pos() <= t.len(),
                p0 + tick_count <= inf_str_end,
                fence_char == '`',
                run_of(t, p0, fence_char) == tick_count,
                0 <= p0 < t.len(),
                t[p0] == fence_char,
                p0 == old(line_state).pos(),
                t == old(line_state).text(),
                forall|k: int| inf_str_end <= k < line_state.pos() ==> #[trigger] t[k] != '`',
            ensures
                line_state.pos() >= t.len(),
            decreases t.len() - line_state.pos(),
        {
            let ghost before = line_state.pos();
            match line_state.next() {
                Some(c) => if c == '`' {
                    proof {
                        assert(t[before] == '`');
                    }
                    return None;
                },
                None => {
                    break ;
                },
            }
        }
        proof {
            assert forall|j: int| p0 + tick_count <= j < t.len() implies #[trigger] t[j] != '`' by {
                if j < inf_str_start {
                    assert(class_has(CharClass::SpaceTab, t[j]));
                }
            }
        }
    }
    let info_slice = vstd::slice::slice_subrange(line_state.base_line, inf_str_start, inf_str_end);
    let info = <Vec<char> as LeafContainerInline>::from_extra_space_and_line(0, info_slice);
    proof {
        assert(info@ =~= fence_info(t, after_fence));
    }
    Some(Block::FencedCodeBlock(Vec::new(), true, fence_char, info, pre_space_count, tick_count))
}

/// An ATX heading marker at `p`: one to six `#`, then the end of the line or a space or tab.
/// The result is the heading level.
pub open spec fn spec_atx_start(t: Seq<char>, p: int) -> Option<int> {
    let k = run_of(t, p, '#');
    if 1 <= k <= 6 && marker_ends_at(t, p + k) {
        Some(k)
    } else {
        None
    }
}

/// Where a run of spaces and tabs that ends at `hi` starts, going back no further than `lo`.
pub open spec fn rskip_space(t: Seq<char>, lo: int, hi: int) -> int
    decreases hi - lo,
{
    if hi > lo && (t[hi - 1] == ' ' || t[hi - 1] == '\t') {
        rskip_space(t, lo, hi - 1)
    } else {
        hi
    }
}

/// Where a run of `#` that ends at `hi` starts, going back no further than `lo`.
pub open spec fn rskip_pound(t: Seq<char>, lo: int, hi: int) -> int
    decreases hi - lo,
{
    if hi > lo && t[hi - 1] == '#' {
        rskip_pound(t, lo, hi - 1)
    } else {
        hi
    }
}

proof fn lemma_rskip_bounds(t: Seq<char>, lo: int, hi: int)
    requires
        lo <= hi,
    ensures
        lo <= rskip_space(t, lo, hi) <= hi,
        lo <= rskip_pound(t, lo, hi) <= hi,
    decreases hi - lo,
{
    if hi > lo {
        lemma_rskip_bounds(t, lo, hi - 1);
    }
}

/// Where the text of an ATX heading that starts at `s` ends: before trailing spaces, and
/// before a closing run of `#` that spaces set apart (or that is all there is) and the spaces
/// before it.
pub open spec fn atx_content_end(t: Seq<char>, s: int) -> int {
    let e1 = rskip_space(t, s, t.len() as int);
    let h = rskip_pound(t, s, e1);
    if h == e1 {
        e1
    } else if h == s || t[h - 1] == ' ' || t[h - 1] == '\t' {
        rskip_space(t, s, h)
    } else {
        e1
    }
}

/// The text of an ATX heading whose marker of `k` characters starts at `p`.
pub open spec fn atx_heading_text(t: Seq<char>, p: int, k: int) -> Seq<char> {
    let s = skip_class(t, p + k, CharClass::SpaceTab);
    t.subrange(s, atx_content_end(t, s))
}

proof fn lemma_rskip_space_stop(t: Seq<char>, lo: int, hi: int)
    requires
        lo <= hi <= t.len(),
    ensures
        rskip_space(t, lo, hi) == lo || (t[rskip_space(t, lo, hi) - 1] != ' ' && t[rskip_space(t, lo, hi) - 1]
            != '\t'),
    decreases hi - lo,
{
    if hi > lo && (t[hi - 1] == ' ' || t[hi - 1] == '\t') {
        lemma_rskip_space_stop(t, lo, hi - 1);
    }
}

/// The text of an ATX heading lies in the line and ends with neither a space nor a tab.
pub proof fn lemma_atx_heading_text(t: Seq<char>, p: int, k: int)
    requires
        0 <= p,
        spec_atx_start(t, p) == Some(k),
    ensures
        ({
            let s = skip_class(t, p + k, CharClass::SpaceTab);
            let e = atx_content_end(t, s);
            &&& p + k <= s <= e <= t.len()
            &&& e > s ==> t[e - 1] != ' ' && t[e - 1] != '\t'
        }),
{
    lemma_run_of_bounds(t, p, '#');
    let s = skip_class(t, p + k, CharClass::SpaceTab);
    lemma_skip_class_bounds(t, p + k, CharClass::SpaceTab);
    lemma_rskip_bounds(t, s, t.len() as int);
    lemma_rskip_space_stop(t, s, t.len() as int);
    let e1 = rskip_space(t, s, t.len() as int);
    lemma_rskip_bounds(t, s, e1);
    let h = rskip_pound(t, s, e1);
    lemma_rskip_bounds(t, s, h);
    lemma_rskip_space_stop(t, s, h);
}

/// The ATX heading that starts here: its level, and its text without the surrounding spaces
/// and the closing run of `#`.
pub fn atx_heading_encountered(line_state: &mut LineState) -> (r: Option<Block<Vec<char>>>)
    requires
        old(line_state).wf(),
    ensures
        final(line_state).wf(),
        final(line_state).base_line == old(line_state).base_line,
        match spec_atx_start(old(line_state).text(), old(line_state).pos()) {
            Some(k) => r matches Some(Block::Heading(il, level)) && level == k && il@ == atx_heading_text(
                old(line_state).text(),
                old(line_state).pos(),
                k,
            ),
            None => r is None,
        },
{
    let ghost t = line_state.text();
    let ghost p0 = line_state.pos();
    proof {
        line_state.lemma_wf_bounds();
    }
    let pound_count = line_state.consume_while_char_eq('#');
    proof {
        lemma_run_of(t, p0, line_state.pos(), '#');
        lemma_skip_class_bounds(t, line_state.pos(), CharClass::SpaceTab);
    }
    if !(1 <= pound_count && pound_count <= 6) {
        return None;
    }
    if !line_state.is_empty() && !line_state.consume_one_space() {
        return None;
    }
    line_state.consume_indent();
    let line = line_state.base_line;
    let s = line_state.offset();
    proof {
        vstd::slice::axiom_spec_len(line);
        assert(line@ == t);
        lemma_rskip_bounds(t, s as int, t.len() as int);
    }
    let mut e1 = line.len();
    while e1 > s && (line[e1 - 1] == ' ' || line[e1 - 1] == '\t')
        invariant
            line@ == t,
            s <= e1 <= t.len(),
            rskip_space(t, s as int, e1 as int) == rskip_space(t, s as int, t.len() as int),
        decreases e1,
    {
        e1 = e1 - 1;
    }
    proof {
        lemma_rskip_bounds(t, s as int, e1 as int);
    }
    let mut h = e1;
    while h > s && line[h - 1] == '#'
        invariant
            line@ == t,
            s <= h <= e1 <= t.len(),
            rskip_pound(t, s as int, h as int) == rskip_pound(t, s as int, e1 as int),
        decreases h,
    {
        h = h - 1;
    }
    let end = if h == e1 {
        e1
    } else if h == s || line[h - 1] == ' ' || line[h - 1] == '\t' {
        let mut e2 = h;
        proof {
            lemma_rskip_bounds(t, s as int, h as int);
        }
        while e2 > s && (line[e2 - 1] == ' ' || line[e2 - 1] == '\t')
            invariant
                line@ == t,
                s <= e2 <= h <= t.len(),
                rskip_space(t, s as int, e2 as int) == rskip_space(t, s as int, h as int),
            decreases e2,
        {
            e2 = e2 - 1;
        }
        e2
    } else {
        e1
    };
    let text = vstd::slice::slice_subrange(line, s, end);
    let il_out = <Vec<char> as LeafContainerInline>::from_extra_space_and_line(0, text);
    proof {
        assert(il_out@ =~= t.subrange(s as int, end as int));
    }
    Some(Block::Heading(il_out, pound_count))
}

} // verus!

verus! {

/// `s` stands at `p` in `t`, the letters of `t` taken in lower case.
pub open spec fn ci_prefix(t: Seq<char>, p: int, s: Seq<char>) -> bool {
    &&& 0 <= p
    &&& p + s.len() <= t.len()
    &&& forall|i: int| 0 <= i < s.len() ==> spec_to_ascii_lowercase(#[trigger] t[p + i]) == s[i]
}

/// `s` stands at `p` in `t`, character for character.
pub open spec fn exact_prefix(t: Seq<char>, p: int, s: Seq<char>) -> bool {
    &&& 0 <= p
    &&& p + s.len() <= t.len()
    &&& forall|i: int| 0 <= i < s.len() ==> #[trigger] t[p + i] == s[i]
}

/// `n` occurs in `h`.
pub open spec fn seq_contains(h: Seq<char>, n: Seq<char>) -> bool {
    exists|i: int| #[trigger] exact_prefix(h, i, n)
}

fn starts_with_ci(t: &[char], p: usize, s: &str) -> (r: bool)
    ensures
        r == ci_prefix(t@, p as int, s@),
{
    proof {
        vstd::slice::axiom_spec_len(t);
    }
    let n = s.unicode_len();
    if p > t.len() || n > t.len() - p {
        return false;
    }
    let mut i: usize = 0;
    while i < n
        invariant
            n == s@.len(),
            t@.len() <= usize::MAX,
            p + n <= t@.len(),
            i <= n,
            forall|j: int| 0 <= j < i ==> spec_to_ascii_lowercase(#[trigger] t@[p + j]) == s@[j],
        decreases n - i,
    {
        if to_ascii_lowercase(t[p + i]) != s.get_char(i) {
            return false;
        }
        i = i + 1;
    }
    true
}

fn starts_with_exact(t: &[char], p: usize, s: &str) -> (r: bool)
    ensures
        r == exact_prefix(t@, p as int, s@),
{
    proof {
        vstd::slice::axiom_spec_len(t);
    }
    let n = s.unicode_len();
    if p > t.len() || n > t.len() - p {
        return false;
    }
    let mut i: usize = 0;
    while i < n
        invariant
            n == s@.len(),
            t@.len() <= usize::MAX,
            p + n <= t@.len(),
            i <= n,
            forall|j: int| 0 <= j < i ==> #[trigger] t@[p + j] == s@[j],
        decreases n - i,
    {
        if t[p + i] != s.get_char(i) {
            return false;
        }
        i = i + 1;
    }
    true
}

/// Whether `n` occurs in `h`.
pub fn contains_str(h: &[char], n: &str) -> (r: bool)
    ensures
        r == seq_contains(h@, n@),
{
    if n.unicode_len() == 0 {
        assert(exact_prefix(h@, 0, n@));
        return true;
    }
    let mut i: usize = 0;
    while i < h.len()
        invariant
            i <= h@.len(),
            n@.len() > 0,
            forall|j: int| 0 <= j < i ==> !#[trigger] exact_prefix(h@, j, n@),
        decreases h@.len() - i,
    {
        if starts_with_exact(h, i, n) {
            return true;
        }
        i = i + 1;
    }
    assert forall|j: int| !#[trigger] exact_prefix(h@, j, n@) by {
        if 0 <= j < i {
        }
    }
    false
}

/// After a tag name: the end of the line, a space, a tab or `>`.
pub open spec fn tag_name_ends(t: Seq<char>, q: int) -> bool {
    q >= t.len() || t[q] == ' ' || t[q] == '\t' || t[q] == '>'
}

/// The tag name `s` (compared in lower case) stands at `q`, followed by the end of the line, a
/// space, a tab, `>` or `/>`.
pub open spec fn tag_at(t: Seq<char>, q: int, s: Seq<char>) -> bool {
    let a = q + s.len();
    ci_prefix(t, q, s) && (tag_name_ends(t, a) || (a + 1 < t.len() && t[a] == '/' && t[a + 1] == '>'))
}

fn tag_at_exec(t: &[char], q: usize, s: &str) -> (r: bool)
    ensures
        r == tag_at(t@, q as int, s@),
{
    proof {
        vstd::slice::axiom_spec_len(t);
    }
    if !starts_with_ci(t, q, s) {
        return false;
    }
    let a = q + s.unicode_len();
    if a >= t.len() {
        return true;
    }
    let c = t[a];
    c == ' ' || c == '\t' || c == '>' || (a + 1 < t.len() && c == '/' && t[a + 1] == '>')
}

/// One of the tags whose block runs to its closing tag (`pre`, `script`, `style`, `textarea`)
/// opens at `p`.
pub open spec fn special_tag_at(t: Seq<char>, p: int) -> bool {
    ||| ci_prefix(t, p, "<pre"@) && tag_name_ends(t, p + 4)
    ||| ci_prefix(t, p, "<script"@) && tag_name_ends(t, p + 7)
    ||| ci_prefix(t, p, "<style"@) && tag_name_ends(t, p + 6)
    ||| ci_prefix(t, p, "<textarea"@) && tag_name_ends(t, p + 9)
}

fn special_tag_exec(t: &[char], p: usize) -> (r: bool)
    ensures
        r == special_tag_at(t@, p as int),
{
    proof {
        vstd::slice::axiom_spec_len(t);
        reveal_strlit("<pre");
        reveal_strlit("<script");
        reveal_strlit("<style");
        reveal_strlit("<textarea");
    }
    (starts_with_ci(t, p, "<pre") && tag_name_ends_exec(t, p + 4)) || (starts_with_ci(t, p, "<script")
        && tag_name_ends_exec(t, p + 7)) || (starts_with_ci(t, p, "<style") && tag_name_ends_exec(t, p + 6))
        || (starts_with_ci(t, p, "<textarea") && tag_name_ends_exec(t, p + 9))
}

/// One of the block-level tag names (compared in lower case) stands at `q`, followed by the
/// end of the line, a space, a tab, `>` or `/>`.
pub open spec fn block_tag_at(t: Seq<char>, q: int) -> bool {
    tag_at(t, q, "address"@)
    || tag_at(t, q, "article"@)
    || tag_at(t, q, "aside"@)
    || tag_at(t, q, "base"@)
    || tag_at(t, q, "basefont"@)
    || tag_at(t, q, "blockquote"@)
    || tag_at(t, q, "body"@)
    || tag_at(t, q, "caption"@)
    || tag_at(t, q, "center"@)
    || tag_at(t, q, "col"@)
    || tag_at(t, q, "colgroup"@)
    || tag_at(t, q, "dd"@)
    || tag_at(t, q, "details"@)
    || tag_at(t, q, "dialog"@)
    || tag_at(t, q, "dir"@)
    || tag_at(t, q, "div"@)
    || tag_at(t, q, "dl"@)
    || tag_at(t, q, "dt"@)
    || tag_at(t, q, "fieldset"@)
    || tag_at(t, q, "figcaption"@)
    || tag_at(t, q, "figure"@)
    || tag_at(t, q, "footer"@)
    || tag_at(t, q, "form"@)
    || tag_at(t, q, "frame"@)
    || tag_at(t, q, "frameset"@)
    || tag_at(t, q, "h1"@)
    || tag_at(t, q, "h2"@)
    || tag_at(t, q, "h3"@)
    || tag_at(t, q, "h4"@)
    || tag_at(t, q, "h5"@)
    || tag_at(t, q, "h6"@)
    || tag_at(t, q, "head"@)
    || tag_at(t, q, "header"@)
    || tag_at(t, q, "hr"@)
    || tag_at(t, q, "html"@)
    || tag_at(t, q, "iframe"@)
    || tag_at(t, q, "legend"@)
    || tag_at(t, q, "li"@)
    || tag_at(t, q, "link"@)
    || tag_at(t, q, "main"@)
    || tag_at(t, q, "menu"@)
    || tag_at(t, q, "menuitem"@)
    || tag_at(t, q, "nav"@)
    || tag_at(t, q, "noframes"@)
    || tag_at(t, q, "ol"@)
    || tag_at(t, q, "optgroup"@)
    || tag_at(t, q, "option"@)
    || tag_at(t, q, "p"@)
    || tag_at(t, q, "param"@)
    || tag_at(t, q, "search"@)
    || tag_at(t, q, "section"@)
    || tag_at(t, q, "summary"@)
    || tag_at(t, q, "table"@)
    || tag_at(t, q, "tbody"@)
    || tag_at(t, q, "td"@)
    || tag_at(t, q, "tfoot"@)
    || tag_at(t, q, "th"@)
    || tag_at(t, q, "thead"@)
    || tag_at(t, q, "title"@)
    || tag_at(t, q, "tr"@)
    || tag_at(t, q, "track"@)
    || tag_at(t, q, "ul"@)
}

fn block_tag_at_exec(t: &[char], q: usize) -> (r: bool)
    ensures
        r == block_tag_at(t@, q as int),
{
    tag_at_exec(t, q, "address")
    || tag_at_exec(t, q, "article")
    || tag_at_exec(t, q, "aside")
    || tag_at_exec(t, q, "base")
    || tag_at_exec(t, q, "basefont")
    || tag_at_exec(t, q, "blockquote")
    || tag_at_exec(t, q, "body")
    || tag_at_exec(t, q, "caption")
    || tag_at_exec(t, q, "center")
    || tag_at_exec(t, q, "col")
    || tag_at_exec(t, q, "colgroup")
    || tag_at_exec(t, q, "dd")
    || tag_at_exec(t, q, "details")
    || tag_at_exec(t, q, "dialog")
    || tag_at_exec(t, q, "dir")
    || tag_at_exec(t, q, "div")
    || tag_at_exec(t, q, "dl")
    || tag_at_exec(t, q, "dt")
    || tag_at_exec(t, q, "fieldset")
    || tag_at_exec(t, q, "figcaption")
    || tag_at_exec(t, q, "figure")
    || tag_at_exec(t, q, "footer")
    || tag_at_exec(t, q, "form")
    || tag_at_exec(t, q, "frame")
    || tag_at_exec(t, q, "frameset")
    || tag_at_exec(t, q, "h1")
    || tag_at_exec(t, q, "h2")
    || tag_at_exec(t, q, "h3")
    || tag_at_exec(t, q, "h4")
    || tag_at_exec(t, q, "h5")
    || tag_at_exec(t, q, "h6")
    || tag_at_exec(t, q, "head")
    || tag_at_exec(t, q, "header")
    || tag_at_exec(t, q, "hr")
    || tag_at_exec(t, q, "html")
    || tag_at_exec(t, q, "iframe")
    || tag_at_exec(t, q, "legend")
    || tag_at_exec(t, q, "li")
    || tag_at_exec(t, q, "link")
    || tag_at_exec(t, q, "main")
    || tag_at_exec(t, q, "menu")
    || tag_at_exec(t, q, "menuitem")
    || tag_at_exec(t, q, "nav")
    || tag_at_exec(t, q, "noframes")
    || tag_at_exec(t, q, "ol")
    || tag_at_exec(t, q, "optgroup")
    || tag_at_exec(t, q, "option")
    || tag_at_exec(t, q, "p")
    || tag_at_exec(t, q, "param")
    || tag_at_exec(t, q, "search")
    || tag_at_exec(t, q, "section")
    || tag_at_exec(t, q, "summary")
    || tag_at_exec(t, q, "table")
    || tag_at_exec(t, q, "tbody")
    || tag_at_exec(t, q, "td")
    || tag_at_exec(t, q, "tfoot")
    || tag_at_exec(t, q, "th")
    || tag_at_exec(t, q, "thead")
    || tag_at_exec(t, q, "title")
    || tag_at_exec(t, q, "tr")
    || tag_at_exec(t, q, "track")
    || tag_at_exec(t, q, "ul")
}

fn tag_name_ends_exec(t: &[char], q: usize) -> (r: bool)
    ensures
        r == tag_name_ends(t@, q as int),
{
    q >= t.len() || t[q] == ' ' || t[q] == '\t' || t[q] == '>'
}

} // verus!

verus! {

/// Where the tag name starts after a `<` at `p`: past a `/` when there is one.
pub open spec fn after_lt(t: Seq<char>, p: int) -> int {
    if p + 1 < t.len() && t[p + 1] == '/' {
        p + 2
    } else {
        p + 1
    }
}

/// A complete opening or closing tag at `p`, with nothing but spaces and tabs after it.
pub open spec fn complete_tag_line(t: Seq<char>, p: int) -> bool {
    let q = after_lt(t, p);
    if q == p + 2 {
        match spec_parse_closing_tag(t, q) {
            Some(e) => rest_is_blank(t, e),
            None => false,
        }
    } else {
        q < t.len() && spec_is_ascii_alphabetic(t[q]) && match spec_parse_opening_tag(t, q + 1) {
            Some(e) => rest_is_blank(t, e),
            None => false,
        }
    }
}

/// Which of the seven kinds of HTML block starts at `p`, if any: a `pre`, `script`, `style` or
/// `textarea` tag, a comment, a processing instruction, a declaration, a CDATA section, a
/// block-level tag, or (not when it would interrupt a paragraph) any complete tag alone on its
/// line.
pub open spec fn html_start_kind(t: Seq<char>, p: int, open_par_exists: bool) -> Option<int> {
    if special_tag_at(t, p) {
        Some(1)
    } else if ci_prefix(t, p, "<!--"@) {
        Some(2)
    } else if ci_prefix(t, p, "<?"@) {
        Some(3)
    } else if ci_prefix(t, p, "<!"@) && p + 2 < t.len() && spec_is_ascii_alphabetic(t[p + 2]) {
        Some(4)
    } else if exact_prefix(t, p, "<![CDATA["@) {
        Some(5)
    } else if 0 <= p < t.len() && t[p] == '<' && block_tag_at(t, after_lt(t, p)) {
        Some(6)
    } else if !open_par_exists && 0 <= p < t.len() && t[p] == '<' && complete_tag_line(t, p) {
        Some(7)
    } else {
        None
    }
}

/// The strings whose presence on a line ends an HTML block of the first five kinds.
pub open spec fn html_end_strs(kind: int) -> Seq<Seq<char>> {
    if kind == 1 {
        seq!["</pre>"@, "</script>"@, "</style>"@, "</textarea>"@]
    } else if kind == 2 {
        seq!["-->"@]
    } else if kind == 3 {
        seq!["?>"@]
    } else if kind == 4 {
        seq![">"@]
    } else {
        seq!["]]>"@]
    }
}

pub open spec fn strs_view(v: Seq<&'static str>) -> Seq<Seq<char>> {
    v.map_values(|s: &'static str| s@)
}

/// One of `strs` occurs in `h`.
pub open spec fn contains_any(h: Seq<char>, strs: Seq<Seq<char>>) -> bool {
    exists|i: int| 0 <= i < strs.len() && seq_contains(h, #[trigger] strs[i])
}

fn end_strs_exec(kind: usize) -> (r: Vec<&'static str>)
    ensures
        strs_view(r@) == html_end_strs(kind as int),
{
    let mut v: Vec<&'static str> = Vec::new();
    if kind == 1 {
        v.push("</pre>");
        v.push("</script>");
        v.push("</style>");
        v.push("</textarea>");
    } else if kind == 2 {
        v.push("-->");
    } else if kind == 3 {
        v.push("?>");
    } else if kind == 4 {
        v.push(">");
    } else {
        v.push("]]>");
    }
    assert(strs_view(v@) =~= html_end_strs(kind as int));
    v
}

/// Whether one of `strs` occurs in `h`.
pub fn contains_any_exec(h: &[char], strs: &Vec<&'static str>) -> (r: bool)
    ensures
        r == contains_any(h@, strs_view(strs@)),
{
    let mut i: usize = 0;
    while i < strs.len()
        invariant
            i <= strs@.len(),
            forall|j: int| 0 <= j < i ==> !seq_contains(h@, #[trigger] strs_view(strs@)[j]),
        decreases strs@.len() - i,
    {
        if contains_str(h, strs[i]) {
            assert(seq_contains(h@, strs_view(strs@)[i as int]));
            return true;
        }
        i = i + 1;
    }
    false
}

fn complete_tag_line_exec(t: &[char], p: usize) -> (r: bool)
    requires
        p < t@.len(),
    ensures
        r == complete_tag_line(t@, p as int),
{
    proof {
        vstd::slice::axiom_spec_len(t);
    }
    let mut tag_finder = BorrowedStringPCI::new(t);
    tag_finder.peeked = p + 1;
    let is_closing = tag_finder.next_if_char_eq('/').is_some();
    if is_closing {
        if parse_closing_tag(&mut tag_finder).is_none() {
            return false;
        }
    } else if tag_finder.next_if_in(CharClass::Alphabetic).is_some() {
        if parse_opening_tag(&mut tag_finder).is_none() {
            return false;
        }
    } else {
        return false;
    }
    tag_finder.consume_while_in(CharClass::SpaceTab);
    tag_finder.is_empty()
}

/// The HTML block that starts here, if any: the line (indented as it was) is its first line,
/// and a block of the first five kinds is closed at once when the line already holds its end.
pub fn html_start_encountered(
    line_state: &mut LineState,
    open_par_exists: bool,
    space_from_last_structure: usize,
) -> (r: Option<Block<Vec<char>>>)
    requires
        old(line_state).wf(),
    ensures
        *final(line_state) == *old(line_state),
        match html_start_kind(old(line_state).text(), old(line_state).pos(), open_par_exists) {
            None => r is None,
            Some(kind) => r matches Some(Block::HTMLBlock(text, is_open, cond)) && {
                let t = old(line_state).text();
                &&& text@ == spaces(space_from_last_structure as nat) + t.subrange(old(line_state).pos(), t.len() as int)
                &&& kind <= 5 ==> (cond matches HTMLEndCondition::ContainsStrings(v) && strs_view(v@)
                    == html_end_strs(kind) && is_open == !contains_any(text@, html_end_strs(kind)))
                &&& kind > 5 ==> cond is BlankLine && is_open
            },
        },
{
    let t = line_state.base_line;
    let p = line_state.offset();
    proof {
        reveal_strlit("<!--");
        reveal_strlit("<?");
        reveal_strlit("<!");
        reveal_strlit("<![CDATA[");
    }
    let kind: usize = if special_tag_exec(t, p) {
        1
    } else if starts_with_ci(t, p, "<!--") {
        2
    } else if starts_with_ci(t, p, "<?") {
        3
    } else if starts_with_ci(t, p, "<!") && p + 2 < t.len() && is_ascii_alphabetic(t[p + 2]) {
        4
    } else if starts_with_exact(t, p, "<![CDATA[") {
        5
    } else if p < t.len() && t[p] == '<' && block_tag_at_exec(
        t,
        if p + 1 < t.len() && t[p + 1] == '/' {
            p + 2
        } else {
            p + 1
        },
    ) {
        6
    } else if !open_par_exists && p < t.len() && t[p] == '<' && complete_tag_line_exec(t, p) {
        7
    } else {
        0
    };
    if kind == 0 {
        return None;
    }
    let text = <Vec<char> as LeafContainerInline>::from_extra_space_and_line(
        space_from_last_structure,
        line_state.get_remaining_str(),
    );
    if kind <= 5 {
        let strs = end_strs_exec(kind);
        let closed = contains_any_exec(text.as_slice(), &strs);
        Some(Block::HTMLBlock(text, !closed, HTMLEndCondition::ContainsStrings(strs)))
    } else {
        Some(Block::HTMLBlock(text, true, HTMLEndCondition::BlankLine))
    }
}

} // verus!

verus! {

/// Where the parse stands between lines: which block the current line continues, whether an
/// open paragraph lies above it, and what a blank line would close or loosen.
#[derive(Debug)]
pub struct ParsingState {
    pub open_block_id: NodeId,
    pub open_par_above: bool,
    /// The open paragraph a line may continue lazily.
    pub lcpi_op: Option<NodeId>,
    /// The block quote depth at which the last blank line was seen; it decides which list a
    /// following item loosens.
    pub blank_line_depth: Option<usize>,
    /// The shallowest open block quote that the current line did not continue.
    pub snmoqio: Option<NodeId>,
    /// The deepest container the current line continued.
    pub dmgci: NodeId,
    pub deepest_quote: usize,
    pub line_number: usize,
}

impl ParsingState {
    /// The state refers to nodes of `ast`: the deepest matched container is a container, and the
    /// lazily continuable paragraph is an open paragraph.
    pub open spec fn wf(&self, ast: AbstractSyntaxTree<Vec<char>>) -> bool {
        &&& self.open_block_id.0 < ast.size()
        &&& self.dmgci.0 < ast.size()
        &&& is_container(ast.block_of(self.dmgci.0 as int))
        &&& (self.lcpi_op matches Some(id) ==> id.0 < ast.size() && ast.block_of(id.0 as int) matches Block::Paragraph(
            _,
            true,
        ))
        &&& (self.snmoqio matches Some(id) ==> id.0 < ast.size())
    }
}

/// The blocks of `ast` are unchanged but for their open, closed or tight flags and the text
/// of its leaves.
pub open spec fn same_shape(a: AbstractSyntaxTree<Vec<char>>, b: AbstractSyntaxTree<Vec<char>>) -> bool {
    &&& a.size() == b.size()
    &&& forall|i: int| 0 <= i < a.size() ==> (#[trigger] a.children_of(i)) == b.children_of(i)
}

/// Where `check_tree_state` stands on its way down the last children: the line's cursor
/// (position, column, width of the spaces since the last structure) when there is a line,
/// whether every container so far was continued, and the fields of the parsing state it sets.
pub ghost struct TreeWalk {
    pub line: Option<(int, int, int)>,
    pub still: bool,
    pub open_block: NodeId,
    pub par_above: bool,
    pub snmoqio: Option<NodeId>,
    pub dmgci: NodeId,
    pub deepest_quote: usize,
}

/// The cursor of a line state.
pub open spec fn line_cursor(ls: LineState) -> (int, int, int) {
    (ls.pos(), ls.effective_column_number as int, ls.space_from_last_structure as int)
}

/// The text of a line, if there is one.
pub open spec fn walk_text(lso: Option<LineState>) -> Seq<char> {
    match lso {
        Some(ls) => ls.text(),
        None => Seq::empty(),
    }
}

/// The walk before the document's children: nothing continued yet but the document.
pub open spec fn walk_start(lso: Option<LineState>) -> TreeWalk {
    TreeWalk {
        line: match lso {
            Some(ls) => Some(line_cursor(ls)),
            None => None,
        },
        still: true,
        open_block: NodeId(0),
        par_above: false,
        snmoqio: None,
        dmgci: NodeId(0),
        deepest_quote: 0,
    }
}

/// The cursor after a block quote marker `>` at `p` and the one space or tab after it.
pub open spec fn quote_marker_end(t: Seq<char>, p: int, e: int, f: int) -> (int, int, int) {
    let (e1, f1) = col_step(e, f, '>');
    if p + 1 < t.len() && class_has(CharClass::SpaceTab, t[p + 1]) {
        let (e2, f2) = col_step(e1, f1, t[p + 1]);
        (p + 2, e2, f2 - 1)
    } else {
        (p + 1, e1, f1)
    }
}

/// One step of the walk, onto node `id`. While every container above was continued, an open
/// block quote is continued by at most three columns of indentation and `>`, an open list item
/// of indentation `w` by `w` columns or a blank rest of line, and a list always; an open
/// paragraph, fenced block or HTML block is where the line may go on, as is an indented code
/// block when four columns of indentation or a blank rest follow; the walk stops continuing at
/// anything else. Past that, it only notes the first open block quote.
pub open spec fn walk_step(ast: AbstractSyntaxTree<Vec<char>>, t: Seq<char>, id: NodeId, w: TreeWalk) -> TreeWalk {
    if w.still && w.line is Some {
        let (p, e, f) = w.line->0;
        let stop = TreeWalk { still: false, ..w };
        match ast.block_of(id.0 as int) {
            Block::BlockQuote(open) => if !open {
                stop
            } else {
                let (p1, e1, f1) = indent_stop(t, p, e, f, 4);
                if f1 <= 3 && p1 < t.len() && t[p1] == '>' {
                    TreeWalk {
                        line: Some(quote_marker_end(t, p1, e1, f1)),
                        open_block: id,
                        deepest_quote: ast.depth_of(id.0 as int),
                        dmgci: id,
                        ..w
                    }
                } else {
                    TreeWalk {
                        line: Some((p1, e1, f1)),
                        still: false,
                        snmoqio: if w.snmoqio is None {
                            Some(id)
                        } else {
                            w.snmoqio
                        },
                        ..w
                    }
                }
            },
            Block::List(..) => TreeWalk { open_block: id, ..w },
            Block::ListItem(open, wi) => if !open {
                stop
            } else {
                let (p1, e1, f1) = indent_stop(t, p, e, f, wi as int);
                if f1 >= wi || p1 >= t.len() {
                    TreeWalk {
                        line: Some((p1, e1, f1 - (if wi < f1 {
                            wi as int
                        } else {
                            f1
                        }))),
                        open_block: id,
                        dmgci: id,
                        ..w
                    }
                } else {
                    stop
                }
            },
            Block::Paragraph(_, open) => if open {
                TreeWalk { still: false, open_block: id, par_above: true, ..w }
            } else {
                stop
            },
            Block::IndentedCodeBlock(..) => {
                let (p1, e1, f1) = indent_stop(t, p, e, f, 4);
                TreeWalk {
                    line: Some((p1, e1, f1)),
                    still: false,
                    open_block: if f1 >= 4 || p1 >= t.len() {
                        id
                    } else {
                        w.open_block
                    },
                    ..w
                }
            },
            Block::FencedCodeBlock(_, open, ..) => if open {
                TreeWalk { still: false, open_block: id, ..w }
            } else {
                stop
            },
            Block::HTMLBlock(_, open, _) => if open {
                TreeWalk { still: false, open_block: id, ..w }
            } else {
                stop
            },
            _ => stop,
        }
    } else {
        match ast.block_of(id.0 as int) {
            Block::BlockQuote(true) => if w.snmoqio is None {
                TreeWalk { snmoqio: Some(id), ..w }
            } else {
                w
            },
            _ => w,
        }
    }
}

/// The walk from node `node` down the last children to the end of the chain.
pub open spec fn tree_walk(ast: AbstractSyntaxTree<Vec<char>>, t: Seq<char>, node: int, w: TreeWalk) -> TreeWalk
    decreases ast.size() - node,
{
    if 0 <= node < ast.size() && ast.children_of(node).len() > 0 && node < ast.children_of(node).last().0
        < ast.size() {
        let nx = ast.children_of(node).last();
        tree_walk(ast, t, nx.0 as int, walk_step(ast, t, nx, w))
    } else {
        w
    }
}

/// The node at the end of the chain of last children from `node`.
pub open spec fn chain_end(ast: AbstractSyntaxTree<Vec<char>>, node: int) -> int
    decreases ast.size() - node,
{
    if 0 <= node < ast.size() && ast.children_of(node).len() > 0 && node < ast.children_of(node).last().0
        < ast.size() {
        chain_end(ast, ast.children_of(node).last().0 as int)
    } else {
        node
    }
}

/// Follows the last children down from the document, checking which open blocks the line
/// continues (consuming their markers and indentation) and noting the open paragraph at the end
/// of the chain. Without a line (after the last one) it only notes that paragraph.
pub fn check_tree_state<'a>(
    ast: &AbstractSyntaxTree<Vec<char>>,
    parsing_state: &mut ParsingState,
    line_state_op: Option<LineState<'a>>,
) -> (r: Option<LineState<'a>>)
    requires
        ast.wf(),
        old(parsing_state).line_number < usize::MAX,
        line_state_op matches Some(ls) ==> ls.wf(),
    ensures
        final(parsing_state).wf(*ast),
        final(parsing_state).line_number == old(parsing_state).line_number + 1,
        final(parsing_state).blank_line_depth == old(parsing_state).blank_line_depth,
        match line_state_op {
            Some(ls) => r matches Some(ls2) && ls2.wf() && ls2.base_line == ls.base_line && ls.pos() <= ls2.pos(),
            None => r is None,
        },
        ast.children_of(0).len() == 0 ==> r == line_state_op && final(parsing_state).open_block_id == NodeId(0)
            && final(parsing_state).dmgci == NodeId(0) && final(parsing_state).lcpi_op is None
            && !final(parsing_state).open_par_above,
        ast.children_of(0) == seq![NodeId(1)] && ast.children_of(1).len() == 0 && (ast.block_of(1) matches Block::Paragraph(
            _,
            true,
        )) ==> {
            &&& final(parsing_state).lcpi_op == Some(NodeId(1))
            &&& final(parsing_state).dmgci == NodeId(0)
            &&& r == line_state_op
            &&& line_state_op is Some ==> final(parsing_state).open_par_above && final(parsing_state).open_block_id
                == NodeId(1)
        },
        ast.children_of(0) == seq![NodeId(1)] && ast.children_of(1).len() == 0 && (ast.block_of(1) matches Block::FencedCodeBlock(
            _,
            true,
            ..,
        )) ==> {
            &&& final(parsing_state).lcpi_op is None
            &&& final(parsing_state).dmgci == NodeId(0)
            &&& !final(parsing_state).open_par_above
            &&& r == line_state_op
            &&& line_state_op is Some ==> final(parsing_state).open_block_id == NodeId(1)
        },
        ({
            let w = tree_walk(*ast, walk_text(line_state_op), 0, walk_start(line_state_op));
            let e = chain_end(*ast, 0);
            &&& final(parsing_state).open_block_id == w.open_block
            &&& final(parsing_state).open_par_above == w.par_above
            &&& final(parsing_state).snmoqio == w.snmoqio
            &&& final(parsing_state).dmgci == w.dmgci
            &&& final(parsing_state).deepest_quote == w.deepest_quote
            &&& w.line == match r {
                Some(ls2) => Some(line_cursor(ls2)),
                None => None,
            }
            &&& final(parsing_state).lcpi_op == (if ast.block_of(e) matches Block::Paragraph(_, true) {
                Some(NodeId(e as usize))
            } else {
                None
            })
        }),
{
    let ghost t = walk_text(line_state_op);
    let ghost w0 = walk_start(line_state_op);
    let ghost one_fence = ast.children_of(0) == seq![NodeId(1)] && ast.children_of(1).len() == 0 && (ast.block_of(1) matches Block::FencedCodeBlock(
        _,
        true,
        ..,
    ));
    let ghost one_par = ast.children_of(0) == seq![NodeId(1)] && ast.children_of(1).len() == 0 && (ast.block_of(1) matches Block::Paragraph(
        _,
        true,
    ));
    parsing_state.line_number = parsing_state.line_number + 1;
    parsing_state.open_par_above = false;
    parsing_state.lcpi_op = None;
    parsing_state.deepest_quote = 0;
    parsing_state.snmoqio = None;
    parsing_state.open_block_id = ast.get_head_id();
    parsing_state.dmgci = ast.get_head_id();
    let mut line_op = line_state_op;
    let mut current_block_id = ast.get_head_id();
    let mut ccs_still_satisfied = true;
    proof {
        assert(ast.node_wf(0));
    }
    loop
        invariant
            ast.wf(),
            current_block_id.0 < ast.size(),
            parsing_state.wf(*ast),
            parsing_state.lcpi_op is None,
            parsing_state.line_number == old(parsing_state).line_number + 1,
            parsing_state.blank_line_depth == old(parsing_state).blank_line_depth,
            match line_state_op {
                Some(ls) => line_op matches Some(ls2) && ls2.wf() && ls2.base_line == ls.base_line && ls.pos()
                    <= ls2.pos(),
                None => line_op is None,
            },
            ast.children_of(0).len() == 0 ==> current_block_id == NodeId(0) && line_op == line_state_op
                && parsing_state.open_block_id == NodeId(0) && parsing_state.dmgci == NodeId(0)
                && !parsing_state.open_par_above,
            one_par == (ast.children_of(0) == seq![NodeId(1)] && ast.children_of(1).len() == 0 && (ast.block_of(
                1,
            ) matches Block::Paragraph(_, true))),
            one_par ==> line_op == line_state_op && parsing_state.dmgci == NodeId(0) && (
            (current_block_id == NodeId(0) && ccs_still_satisfied) || (current_block_id == NodeId(1) && (
            line_state_op is Some ==> parsing_state.open_par_above && parsing_state.open_block_id == NodeId(1)))),
            one_fence == (ast.children_of(0) == seq![NodeId(1)] && ast.children_of(1).len() == 0 && (ast.block_of(
                1,
            ) matches Block::FencedCodeBlock(_, true, ..))),
            one_fence ==> line_op == line_state_op && parsing_state.dmgci == NodeId(0) && !parsing_state.open_par_above
                && ((current_block_id == NodeId(0) && ccs_still_satisfied) || (current_block_id == NodeId(1) && (
            line_state_op is Some ==> parsing_state.open_block_id == NodeId(1)))),
            tree_walk(*ast, t, 0, w0) == tree_walk(
                *ast,
                t,
                current_block_id.0 as int,
                TreeWalk {
                    line: match line_op {
                        Some(l) => Some(line_cursor(l)),
                        None => None,
                    },
                    still: ccs_still_satisfied,
                    open_block: parsing_state.open_block_id,
                    par_above: parsing_state.open_par_above,
                    snmoqio: parsing_state.snmoqio,
                    dmgci: parsing_state.dmgci,
                    deepest_quote: parsing_state.deepest_quote,
                },
            ),
            chain_end(*ast, 0) == chain_end(*ast, current_block_id.0 as int),
            line_op matches Some(l) ==> l.text() == t,
        ensures
            ast.children_of(current_block_id.0 as int).len() == 0,
        decreases ast.size() - current_block_id.0,
    {
        let next_block_id = match ast.get_last_child_id(current_block_id) {
            Some(n) => n,
            None => {
                break ;
            },
        };
        proof {
            assert(ast.node_wf(current_block_id.0 as int));
            let cs = ast.children_of(current_block_id.0 as int);
            assert(cs[cs.len() - 1] == next_block_id);
        }
        let ghost w_before = TreeWalk {
            line: match line_op {
                Some(l) => Some(line_cursor(l)),
                None => None,
            },
            still: ccs_still_satisfied,
            open_block: parsing_state.open_block_id,
            par_above: parsing_state.open_par_above,
            snmoqio: parsing_state.snmoqio,
            dmgci: parsing_state.dmgci,
            deepest_quote: parsing_state.deepest_quote,
        };
        let ghost cur0 = current_block_id.0 as int;
        current_block_id = next_block_id;
        let still = ccs_still_satisfied;
        match line_op {
            Some(mut line_state) if still => {
                let ghost ls0 = line_state;
                match ast.get_block_ref(current_block_id) {
                    Block::BlockQuote(is_open) => {
                        if !*is_open {
                            ccs_still_satisfied = false;
                        } else {
                            line_state.consume_indent_until_sfls_ge(4);
                            if line_state.space_from_last_structure <= 3 && block_quote_encountered(&mut line_state) {
                                parsing_state.open_block_id = current_block_id;
                                parsing_state.deepest_quote = ast.get_block_depth(current_block_id);
                                parsing_state.dmgci = current_block_id;
                            } else {
                                ccs_still_satisfied = false;
                                if parsing_state.snmoqio.is_none() {
                                    parsing_state.snmoqio = Some(current_block_id);
                                }
                            }
                        }
                    },
                    Block::List(..) => {
                        parsing_state.open_block_id = current_block_id;
                    },
                    Block::ListItem(continuable, indent_amount) => {
                        if !*continuable {
                            ccs_still_satisfied = false;
                        } else {
                            let old_line_state = line_state;
                            line_state.consume_indent_until_sfls_ge(*indent_amount);
                            if line_state.space_from_last_structure >= *indent_amount || line_state.is_empty() {
                                let sfls = line_state.space_from_last_structure;
                                line_state.space_from_last_structure = sfls - if *indent_amount < sfls {
                                    *indent_amount
                                } else {
                                    sfls
                                };
                                parsing_state.open_block_id = current_block_id;
                                parsing_state.dmgci = current_block_id;
                            } else {
                                ccs_still_satisfied = false;
                                line_state = old_line_state;
                            }
                        }
                    },
                    Block::Paragraph(_, is_open) => {
                        ccs_still_satisfied = false;
                        if *is_open {
                            parsing_state.open_block_id = current_block_id;
                            parsing_state.open_par_above = true;
                        }
                    },
                    Block::IndentedCodeBlock(..) => {
                        ccs_still_satisfied = false;
                        line_state.consume_indent_until_sfls_ge(4);
                        if line_state.space_from_last_structure >= 4 || line_state.is_empty() {
                            parsing_state.open_block_id = current_block_id;
                        }
                    },
                    Block::FencedCodeBlock(_, is_open, ..) => {
                        ccs_still_satisfied = false;
                        if *is_open {
                            parsing_state.open_block_id = current_block_id;
                        }
                    },
                    Block::HTMLBlock(_, is_open, _) => {
                        ccs_still_satisfied = false;
                        if *is_open {
                            parsing_state.open_block_id = current_block_id;
                        }
                    },
                    _ => {
                        ccs_still_satisfied = false;
                    },
                }
                line_op = Some(line_state);
            },
            _ => {
                // looking down the tree past where the continuation conditions still hold
                let is_open_quote = match ast.get_block_ref(current_block_id) {
                    Block::BlockQuote(b) => *b,
                    _ => false,
                };
                if parsing_state.snmoqio.is_none() && is_open_quote {
                    parsing_state.snmoqio = Some(current_block_id);
                }
            },
        }
        proof {
            let w_after = TreeWalk {
                line: match line_op {
                    Some(l) => Some(line_cursor(l)),
                    None => None,
                },
                still: ccs_still_satisfied,
                open_block: parsing_state.open_block_id,
                par_above: parsing_state.open_par_above,
                snmoqio: parsing_state.snmoqio,
                dmgci: parsing_state.dmgci,
                deepest_quote: parsing_state.deepest_quote,
            };
            assert(w_after == walk_step(*ast, t, next_block_id, w_before));
            assert(tree_walk(*ast, t, cur0, w_before) == tree_walk(*ast, t, next_block_id.0 as int, w_after));
        }
    }
    let is_open_par = match ast.get_block_ref(current_block_id) {
        Block::Paragraph(_, b) => *b,
        _ => false,
    };
    parsing_state.lcpi_op = if is_open_par {
        Some(current_block_id)
    } else {
        None
    };
    line_op
}

} // verus!

verus! {

/// Where a link title that may follow a definition's destination ends: the title's range
/// and where the definition then ends (after the title, trailing spaces and the line feed).
/// `after` is where the title would start; it must end its line.
pub open spec fn spec_definition_title(t: Seq<char>, after: int) -> Option<(int, int, int)> {
    match spec_parse_link_title(t, after) {
        Some(k) => {
            let u = skip_class(t, k + 1, CharClass::SpaceTab);
            if u >= t.len() {
                Some((after + 1, k, u))
            } else if t[u] == '\n' {
                Some((after + 1, k, u + 1))
            } else {
                None
            }
        },
        None => None,
    }
}

/// A link reference definition at the start of `t`: `[label]:`, optional spaces with at most
/// one line feed, a destination, and an optional title that, when spaces or a line feed set
/// it apart, must end its line; without a title the destination must end its line. The
/// result is the label's end (it starts at 0), the destination's range, the title's range and
/// where the definition ends.
pub open spec fn spec_definition(t: Seq<char>) -> Option<(int, (int, int), Option<(int, int)>, int)> {
    match spec_parse_link_label(t, 0) {
        Some(le) => if le < t.len() && t[le] == ':' {
            let p = skip_class(t, le + 1, CharClass::SpaceTabNewline);
            match spec_parse_link_destination(t, p) {
                Some((ds, de, q)) => {
                    let s = skip_class(t, q, CharClass::SpaceTab);
                    let after = if s < t.len() && t[s] == '\n' {
                        s + 1
                    } else {
                        s
                    };
                    let at_line_end = s >= t.len() || t[s] == '\n';
                    match (if after > q {
                        spec_definition_title(t, after)
                    } else {
                        None
                    }) {
                        Some((ts, te, e)) => Some((le, (ds, de), Some((ts, te)), e)),
                        None => if at_line_end {
                            Some((le, (ds, de), None, after))
                        } else {
                            None
                        },
                    }
                },
                None => None,
            }
        } else {
            None
        },
        None => None,
    }
}

proof fn lemma_definition_bounds(t: Seq<char>)
    ensures
        spec_definition(t) matches Some((le, (ds, de), ti, e)) ==> {
            &&& 0 < le < e <= t.len()
            &&& t[0] == '[' && t[le - 1] == ']'
            &&& 0 <= ds <= de <= e
            &&& (ti matches Some((ts, te)) ==> 0 <= ts <= te <= e)
        },
{
    if let Some(le) = spec_parse_link_label(t, 0) {
        crate::parsers::lemma_link_label_bounds(t, 0);
        if le < t.len() && t[le] == ':' {
            let p = skip_class(t, le + 1, CharClass::SpaceTabNewline);
            lemma_skip_class_bounds(t, le + 1, CharClass::SpaceTabNewline);
            lemma_link_destination_bounds(t, p);
            if let Some((ds, de, q)) = spec_parse_link_destination(t, p) {
                lemma_skip_class_bounds(t, q, CharClass::SpaceTab);
                let s = skip_class(t, q, CharClass::SpaceTab);
                let after = if s < t.len() && t[s] == '\n' {
                    s + 1
                } else {
                    s
                };
                if after > q {
                    if let Some(k) = spec_parse_link_title(t, after) {
                        crate::parsers::lemma_link_title_bounds(t, after);
                        lemma_skip_class_bounds(t, k + 1, CharClass::SpaceTab);
                    }
                }
            }
        }
    }
}

/// A definition's title as kept: an empty title counts as none.
pub open spec fn def_title(t: Seq<char>, ti: Option<(int, int)>) -> Option<Seq<char>> {
    match ti {
        Some((ts, te)) => if ts != te {
            Some(t.subrange(ts, te))
        } else {
            None
        },
        None => None,
    }
}

/// The link reference definitions at the start of a paragraph's text, each as its normalized
/// label with its destination and title, and the text that is left after them.
pub open spec fn spec_split_definitions(t: Seq<char>) -> (
    Seq<(Seq<char>, (Seq<char>, Option<Seq<char>>))>,
    Seq<char>,
)
    decreases t.len(),
{
    match spec_definition(t) {
        Some((le, (ds, de), ti, e)) => if 0 < e <= t.len() {
            let rest = spec_split_definitions(t.skip(e));
            (
                seq![(spec_normalize_label(t.subrange(0, le)), (t.subrange(ds, de), def_title(t, ti)))] + rest.0,
                rest.1,
            )
        } else {
            (seq![], t)
        },
        None => (seq![], t),
    }
}

/// The link reference definition at the start of `text`, as `spec_definition` gives it.
fn next_definition(text: &[char]) -> (r: Option<(Range<usize>, Range<usize>, Option<Range<usize>>, usize)>)
    ensures
        match spec_definition(text@) {
            Some((le, (ds, de), ti, e)) => r matches Some((l, d, rti, re)) && l.start == 0 && l.end == le
                && d.start == ds && d.end == de && re == e && match ti {
                Some((ts, te)) => rti matches Some(tr) && tr.start == ts && tr.end == te,
                None => rti is None,
            },
            None => r is None,
        },
{
    proof {
        vstd::slice::axiom_spec_len(text);
        lemma_definition_bounds(text@);
    }
    let ghost t = text@;
    let mut it = BorrowedStringPCI::new(text);
    let label_range = match parse_link_label(&mut it) {
        Some(r) => r,
        None => {
            return None;
        },
    };
    if it.next_if_char_eq(':').is_none() {
        return None;
    }
    // optional spaces, tabs and one line ending
    it.consume_while_in(CharClass::SpaceTabNewline);
    let mut dest_it = it;
    let dest_range = match parse_link_destination(&mut dest_it) {
        Some(r) => r,
        None => {
            return None;
        },
    };
    proof {
        lemma_link_destination_bounds(t, it.peeked as int);
    }
    it = dest_it;
    let offset_before_spaces = it.offset();
    it.consume_while_in(CharClass::SpaceTab);
    let at_line_end = it.next_if_char_eq('\n').is_some() || it.is_empty();
    // the title, when spaces or a line ending separate it from the destination, must end the line
    let mut find_link_title_iter = it;
    let mut title: Option<Range<usize>> = None;
    if it.offset() > offset_before_spaces {
        if let Some(link_title_range) = parse_link_title(&mut find_link_title_iter) {
            find_link_title_iter.consume_while_in(CharClass::SpaceTab);
            let ends = match find_link_title_iter.peek() {
                Some(c) => c == '\n',
                None => true,
            };
            if ends {
                find_link_title_iter.next_and_index();
                title = Some(link_title_range);
            }
        }
    }
    if title.is_some() {
        it = find_link_title_iter;
    } else if !at_line_end {
        return None;
    }
    let split_at = it.offset();
    Some((label_range, dest_range, title, split_at))
}

/// The characters of `t` in `r`.
fn copy_range(t: &[char], r: Range<usize>) -> (v: Vec<char>)
    requires
        r.start <= r.end <= t@.len(),
    ensures
        v@ == t@.subrange(r.start as int, r.end as int),
{
    let s = vstd::slice::slice_subrange(t, r.start, r.end);
    let v = <Vec<char> as LeafContainerInline>::from_extra_space_and_line(0, s);
    assert(v@ =~= s@);
    v
}

/// Closes the paragraph that the line could have continued: the link reference definitions at
/// its start go to `lrd_table` (the first definition of a label wins), and what is left stays
/// as its text.
pub fn close_paragraph(
    ast: &mut AbstractSyntaxTree<Vec<char>>,
    parsing_state: &mut ParsingState,
    lrd_table: &mut LRDTable,
)
    requires
        old(ast).wf(),
        old(parsing_state).wf(*old(ast)),
        old(lrd_table).wf(),
    ensures
        final(ast).wf(),
        final(lrd_table).wf(),
        same_shape(*old(ast), *final(ast)),
        final(parsing_state).wf(*final(ast)),
        final(parsing_state).lcpi_op is None,
        !final(parsing_state).open_par_above,
        final(parsing_state).open_block_id == old(parsing_state).open_block_id,
        final(parsing_state).dmgci == old(parsing_state).dmgci,
        final(parsing_state).snmoqio == old(parsing_state).snmoqio,
        final(parsing_state).blank_line_depth == old(parsing_state).blank_line_depth,
        final(parsing_state).deepest_quote == old(parsing_state).deepest_quote,
        final(parsing_state).line_number == old(parsing_state).line_number,
        forall|i: int| 0 <= i < old(ast).size() && Some(NodeId(i as usize)) != old(parsing_state).lcpi_op
            ==> #[trigger] final(ast).block_of(i) == old(ast).block_of(i),
        old(parsing_state).lcpi_op matches Some(id) ==> final(ast).block_of(id.0 as int) matches Block::Paragraph(_, false),
        same_kinds(*old(ast), *final(ast)),
        forall|l: Seq<char>| old(lrd_table).labels().contains(l) ==> #[trigger] final(lrd_table).labels().contains(l),
        match old(parsing_state).lcpi_op {
            Some(id) => {
                let t = inline_text(old(ast).block_of(id.0 as int));
                let (defs, rest) = spec_split_definitions(t);
                &&& final(ast).block_of(id.0 as int) matches Block::Paragraph(v, false) && v@ == rest
                &&& final(lrd_table).defs() == spec_define_all(old(lrd_table).defs(), defs)
                &&& (t.len() == 0 || t[0] != '[') ==> rest == t && final(lrd_table).defs() == old(lrd_table).defs()
            },
            None => final(ast).nodes@ == old(ast).nodes@ && final(lrd_table).defs() == old(lrd_table).defs(),
        },
{
    let open_par_id = match parsing_state.lcpi_op {
        Some(id) => id,
        None => {
            parsing_state.open_par_above = false;
            return ;
        },
    };
    let mut inline: Vec<char> = Vec::new();
    let ghost before = *ast;
    match ast.get_block(open_par_id) {
        Block::Paragraph(il, _) => {
            std::mem::swap(il, &mut inline);
        },
        _ => {},
    }
    proof {
        ast.lemma_same_kind_keeps_wf(&before, open_par_id.0 as int);
    }
    let ghost orig = inline_text(before.block_of(open_par_id.0 as int));
    proof {
        reveal_with_fuel(spec_split_definitions, 2);
        if orig.len() == 0 || orig[0] != '[' {
            assert(spec_definition(orig) is None);
        }
    }
    loop
        invariant
            lrd_table.wf(),
            forall|l: Seq<char>| old(lrd_table).labels().contains(l) ==> #[trigger] lrd_table.labels().contains(l),
            spec_split_definitions(inline@).1 == spec_split_definitions(orig).1,
            spec_define_all(lrd_table.defs(), spec_split_definitions(inline@).0) == spec_define_all(
                old(lrd_table).defs(),
                spec_split_definitions(orig).0,
            ),
        ensures
            spec_split_definitions(inline@).0.len() == 0,
            spec_split_definitions(inline@).1 == inline@,
        decreases inline@.len(),
    {
        let ghost t = inline@;
        proof {
            lemma_definition_bounds(t);
        }
        let (label_range, dest_range, title_range, split_at) = match next_definition(inline.as_slice()) {
            Some(x) => x,
            None => {
                proof {
                    assert(spec_split_definitions(t).0.len() == 0);
                    assert(spec_split_definitions(t).1 == t);
                }
                break ;
            },
        };
        let label = match bracketed_label(inline.as_slice(), label_range.start, label_range.end) {
            Some(l) => l,
            None => {
                break ;
            },
        };
        let dest = copy_range(inline.as_slice(), dest_range);
        let title = match title_range {
            Some(tr) => if tr.start != tr.end {
                Some(copy_range(inline.as_slice(), tr))
            } else {
                None
            },
            None => None,
        };
        let ghost before_lrd = *lrd_table;
        let def = LinkDefinition { dest, title };
        let ghost d = (label@, crate::lrd_table::def_view(def));
        lrd_table.entry_or_insert(label, def);
        proof {
            assert forall|l: Seq<char>| old(lrd_table).labels().contains(l) implies #[trigger] lrd_table.labels().contains(l) by {
                assert(before_lrd.labels().contains(l));
                if !(lrd_table.labels() == before_lrd.labels()) {
                    let j = before_lrd.labels().index_of(l);
                    assert(lrd_table.labels()[j] == l);
                }
            }
            let rest = spec_split_definitions(t.skip(split_at as int));
            assert(spec_split_definitions(t).0 == seq![d] + rest.0);
            assert((seq![d] + rest.0).skip(1) =~= rest.0);
            assert((seq![d] + rest.0)[0] == d);
        }
        inline.remove_up_to(split_at);
    }
    let ghost before_rep = *ast;
    proof {
        assert(ast.node_wf(open_par_id.0 as int));
    }
    ast.replace_block(open_par_id, Block::Paragraph(inline, false));
    proof {
        assert forall|i: int| 0 <= i < before.size() implies (#[trigger] before.children_of(i)) == ast.children_of(i) by {
            assert(before.node_wf(open_par_id.0 as int));
        }
    }
    parsing_state.lcpi_op = None;
    parsing_state.open_par_above = false;
}

} // verus!

verus! {

/// The variant of a block, as a number.
pub open spec fn kind_of(b: Block<Vec<char>>) -> int {
    match b {
        Block::Document => 0,
        Block::BlockQuote(_) => 1,
        Block::List(..) => 2,
        Block::ListItem(..) => 3,
        Block::Heading(..) => 4,
        Block::Paragraph(..) => 5,
        Block::ThematicBreak => 6,
        Block::IndentedCodeBlock(..) => 7,
        Block::FencedCodeBlock(..) => 8,
        Block::HTMLBlock(..) => 9,
    }
}

/// `b` has every node of `a`, each of the same variant.
pub open spec fn same_kinds(a: AbstractSyntaxTree<Vec<char>>, b: AbstractSyntaxTree<Vec<char>>) -> bool {
    &&& b.size() >= a.size()
    &&& forall|i: int| 0 <= i < a.size() ==> kind_of(#[trigger] b.block_of(i)) == kind_of(a.block_of(i))
}

/// `b` has every node of `a`, each of the same variant, and paragraphs unchanged.
pub open spec fn keeps_kinds(a: AbstractSyntaxTree<Vec<char>>, b: AbstractSyntaxTree<Vec<char>>) -> bool {
    &&& b.size() >= a.size()
    &&& forall|i: int| 0 <= i < a.size() ==> kind_of(#[trigger] b.block_of(i)) == kind_of(a.block_of(i))
    &&& forall|i: int| 0 <= i < a.size() && a.block_of(i) is Paragraph ==> #[trigger] b.block_of(i) == a.block_of(i)
}

proof fn lemma_keeps_kinds_wf(ps: ParsingState, a: AbstractSyntaxTree<Vec<char>>, b: AbstractSyntaxTree<Vec<char>>)
    requires
        ps.wf(a),
        keeps_kinds(a, b),
    ensures
        ps.wf(b),
{
    assert(kind_of(b.block_of(ps.dmgci.0 as int)) == kind_of(a.block_of(ps.dmgci.0 as int)));
    if let Some(id) = ps.lcpi_op {
        assert(b.block_of(id.0 as int) == a.block_of(id.0 as int));
    }
}

proof fn lemma_keeps_kinds_trans(
    a: AbstractSyntaxTree<Vec<char>>,
    b: AbstractSyntaxTree<Vec<char>>,
    c: AbstractSyntaxTree<Vec<char>>,
)
    requires
        keeps_kinds(a, b),
        keeps_kinds(b, c),
    ensures
        keeps_kinds(a, c),
{
    assert forall|i: int| 0 <= i < a.size() implies kind_of(#[trigger] c.block_of(i)) == kind_of(a.block_of(i)) by {
        assert(kind_of(b.block_of(i)) == kind_of(a.block_of(i)));
    }
    assert forall|i: int| 0 <= i < a.size() && a.block_of(i) is Paragraph implies #[trigger] c.block_of(i)
        == a.block_of(i) by {
        assert(b.block_of(i) == a.block_of(i));
    }
}

/// Appends a line of code: `extra_space` spaces, the line and a line feed.
pub fn push_code_line(chars: &mut Vec<char>, extra_space: usize, line: &[char])
    ensures
        final(chars)@ == old(chars)@ + spaces(extra_space as nat) + line@ + seq!['\n'],
{
    let mut line_out = <Vec<char> as LeafContainerInline>::from_extra_space_and_line(extra_space, line);
    line_out.push('\n');
    chars.append(&mut line_out);
}

/// Adds a node under `parent` (a container).
fn add_block(ast: &mut AbstractSyntaxTree<Vec<char>>, parent: NodeId, block: Block<Vec<char>>) -> (id: NodeId)
    requires
        old(ast).wf(),
        parent.0 < old(ast).size(),
        is_container(old(ast).block_of(parent.0 as int)),
        !(block is Document),
        old(ast).size() + 1 < usize::MAX,
    ensures
        final(ast).wf(),
        final(ast).size() == old(ast).size() + 1,
        id.0 == old(ast).size(),
        final(ast).block_of(id.0 as int) == block,
        keeps_kinds(*old(ast), *final(ast)),
        final(ast).children_of(parent.0 as int) == old(ast).children_of(parent.0 as int).push(id),
        final(ast).children_of(id.0 as int) == Seq::<NodeId>::empty(),
        forall|i: int| 0 <= i < old(ast).size() && i != parent.0 ==> #[trigger] final(ast).children_of(i)
            == old(ast).children_of(i),
        forall|i: int| 0 <= i < old(ast).size() ==> #[trigger] final(ast).block_of(i) == old(ast).block_of(i),
{
    ast.add_new_node(parent, block)
}

/// A blank line in the open block: it ends an HTML block that ends at a blank line, closes an
/// empty list item, and is kept for later in an indented code block. Says whether the line is
/// done with (not so in a fenced code block or in an HTML block that ends at a given string,
/// which take the line as content).
fn blank_line_in_open_block(
    ast: &mut AbstractSyntaxTree<Vec<char>>,
    parsing_state: &ParsingState,
    line_state: LineState,
) -> (done: bool)
    requires
        old(ast).wf(),
        parsing_state.wf(*old(ast)),
        line_state.wf(),
    ensures
        final(ast).wf(),
        keeps_kinds(*old(ast), *final(ast)),
        final(ast).size() == old(ast).size(),
        same_shape(*old(ast), *final(ast)),
        old(ast).block_of(parsing_state.open_block_id.0 as int) is FencedCodeBlock ==> !done && final(ast).nodes@
            == old(ast).nodes@,
        forall|i: int|
            0 <= i < old(ast).size() && i != parsing_state.open_block_id.0 ==> #[trigger] final(ast).nodes@[i]
                == old(ast).nodes@[i],
        match old(ast).block_of(parsing_state.open_block_id.0 as int) {
            Block::IndentedCodeBlock(c, u) => {
                let t = line_state.text();
                let (q, _, f) = indent_stop(
                    t,
                    line_state.pos(),
                    line_state.effective_column_number as int,
                    line_state.space_from_last_structure as int,
                    4,
                );
                let extra = if f < 4 {
                    0
                } else {
                    f - 4
                };
                &&& done
                &&& final(ast).block_of(parsing_state.open_block_id.0 as int) matches Block::IndentedCodeBlock(c2, u2)
                    && c2@ == c@ && u2@ == u@ + spaces(extra as nat) + t.subrange(q, t.len() as int) + seq!['\n']
            },
            Block::FencedCodeBlock(..) => !done,
            Block::HTMLBlock(h, o, cond) => {
                &&& done == (!o || cond is BlankLine)
                &&& final(ast).block_of(parsing_state.open_block_id.0 as int) == Block::HTMLBlock(
                    h,
                    o && cond is ContainsStrings,
                    cond,
                )
            },
            Block::ListItem(cont, w) => {
                &&& done
                &&& final(ast).block_of(parsing_state.open_block_id.0 as int) == Block::<Vec<char>>::ListItem(
                    cont && old(ast).children_of(parsing_state.open_block_id.0 as int).len() > 0,
                    w,
                )
            },
            _ => done && final(ast).nodes@ == old(ast).nodes@,
        },
{
    let mut line_state = line_state;
    let open = parsing_state.open_block_id;
    let has_no_children = ast.has_no_children(open);
    let ghost before = *ast;
    let done = match ast.get_block(open) {
        Block::IndentedCodeBlock(_, unrealized) => {
            line_state.consume_indent_until_sfls_ge(4);
            let sfls = line_state.space_from_last_structure;
            let extra = if sfls < 4 {
                0
            } else {
                sfls - 4
            };
            push_code_line(unrealized, extra, line_state.get_remaining_str());
            true
        },
        Block::FencedCodeBlock(..) => false,
        Block::HTMLBlock(_, is_open, cond) => {
            if *is_open {
                match cond {
                    HTMLEndCondition::ContainsStrings(_) => false,
                    HTMLEndCondition::BlankLine => {
                        *is_open = false;
                        true
                    },
                }
            } else {
                true
            }
        },
        Block::ListItem(continuable, _) => {
            if has_no_children {
                *continuable = false;
            }
            true
        },
        _ => true,
    };
    proof {
        ast.lemma_same_kind_keeps_wf(&before, open.0 as int);
        assert forall|i: int| 0 <= i < before.size() implies (#[trigger] before.children_of(i)) == ast.children_of(i) by {
        }
        assert forall|i: int| 0 <= i < before.size() implies kind_of(#[trigger] ast.block_of(i)) == kind_of(before.block_of(i)) by {
        }
    }
    done
}

/// A line that, from `p` on (at column `e`, after `f` columns of space), closes a fenced code
/// block of `marker` characters and at least `count` of them: after at most three columns of
/// indentation, a fence of that character, long enough, with no info string.
pub open spec fn closing_fence(t: Seq<char>, p: int, e: int, f: int, marker: char, count: int) -> bool {
    let (q, _, f2) = indent_stop(t, p, e, f, 4);
    &&& f2 <= 3
    &&& spec_fence(t, q) matches Some((c, k)) && c == marker && k >= count && fence_info(t, q + k).len() == 0
}

/// A run holds only its character, and the next one differs.
proof fn lemma_run_of_chars(t: Seq<char>, p: int, c: char)
    requires
        0 <= p <= t.len(),
    ensures
        forall|j: int| p <= j < p + run_of(t, p, c) ==> #[trigger] t[j] == c,
        p + run_of(t, p, c) == t.len() || t[p + run_of(t, p, c)] != c,
    decreases t.len() - p,
{
    if p < t.len() && t[p] == c {
        lemma_run_of_chars(t, p + 1, c);
    }
}

/// A code fence is a run of three or more backticks or tildes, all of one character; two
/// backticks make none, and neither does a backtick fence with a backtick later on its line.
pub proof fn law_fence_shape(t: Seq<char>, p: int)
    requires
        0 <= p < t.len(),
    ensures
        spec_fence(t, p) matches Some((c, k)) ==> {
            &&& c == t[p]
            &&& c == '`' || c == '~'
            &&& k >= 3
            &&& p + k <= t.len()
            &&& forall|j: int| p <= j < p + k ==> #[trigger] t[j] == c
            &&& p + k == t.len() || t[p + k] != c
        },
        p + 2 <= t.len() && t[p] == '`' && t[p + 1] == '`' && (p + 2 == t.len() || t[p + 2] != '`') ==> spec_fence(
            t,
            p,
        ) is None,
        forall|j: int|
            p < j < t.len() && #[trigger] t[j] == '`' && t[j - 1] != '`' ==> !(t[p] == '`' && spec_fence(t, p) is Some),
{
    lemma_run_of_bounds(t, p, t[p]);
    lemma_run_of_chars(t, p, t[p]);
    let k = run_of(t, p, t[p]);
    if p + 2 <= t.len() && t[p] == '`' && t[p + 1] == '`' && (p + 2 == t.len() || t[p + 2] != '`') {
        lemma_run_of(t, p, p + 2, t[p]);
    }
    assert forall|j: int| p < j < t.len() && #[trigger] t[j] == '`' && t[j - 1] != '`' implies !(t[p] == '`'
        && spec_fence(t, p) is Some) by {
        if t[p] == '`' && spec_fence(t, p) is Some {
            if j < p + k {
                assert(t[j - 1] == '`');
            } else {
                assert(t[j] != '`');
            }
        }
    }
}

/// A line of at least as many of a fence's characters as it opened with (three or more), then
/// only spaces, closes it; a shorter run does not.
pub proof fn law_closing_fence(t: Seq<char>, p: int, marker: char, count: int, k: int)
    requires
        0 <= p,
        p + k <= t.len(),
        marker == '`' || marker == '~',
        k >= 3,
        forall|j: int| p <= j < p + k ==> #[trigger] t[j] == marker,
        forall|j: int| p + k <= j < t.len() ==> #[trigger] t[j] == ' ',
    ensures
        k >= count ==> closing_fence(t, p, 0, 0, marker, count),
        k < count ==> !closing_fence(t, p, 0, 0, marker, count),
{
    lemma_run_of(t, p, p + k, marker);
    lemma_skip_class_through(t, p + k, t.len() as int, CharClass::SpaceTab);
    assert(skip_class(t, t.len() as int, CharClass::SpaceTab) == t.len());
    assert(skip_word(t, t.len() as int) == t.len());
}

/// An open leaf that takes the line as it is: an indented code block (with the blank lines
/// kept since its last line), a fenced code block (closed by a closing fence, of at least as
/// many of its characters and with no info string), or an HTML block (closed when the line holds
/// its end). Says whether the line was taken.
fn continue_open_leaf(
    ast: &mut AbstractSyntaxTree<Vec<char>>,
    parsing_state: &ParsingState,
    line_state: LineState,
) -> (taken: bool)
    requires
        old(ast).wf(),
        parsing_state.wf(*old(ast)),
        line_state.wf(),
    ensures
        final(ast).wf(),
        keeps_kinds(*old(ast), *final(ast)),
        final(ast).size() == old(ast).size(),
        same_shape(*old(ast), *final(ast)),
        !(old(ast).block_of(parsing_state.open_block_id.0 as int) is IndentedCodeBlock || old(ast).block_of(
            parsing_state.open_block_id.0 as int,
        ) is FencedCodeBlock || old(ast).block_of(parsing_state.open_block_id.0 as int) is HTMLBlock) ==> !taken
            && final(ast).nodes@ == old(ast).nodes@,
        match old(ast).block_of(parsing_state.open_block_id.0 as int) {
            Block::FencedCodeBlock(c, o, m, info, ind, cnt) => o && ind == 0 ==> {
                let t = line_state.text();
                let p = line_state.pos();
                let f = line_state.space_from_last_structure as int;
                let closes = closing_fence(t, p, line_state.effective_column_number as int, f, m, cnt as int);
                &&& taken
                &&& forall|i: int|
                    0 <= i < old(ast).size() && i != parsing_state.open_block_id.0 ==> #[trigger] final(ast).nodes@[i]
                        == old(ast).nodes@[i]
                &&& final(ast).block_of(parsing_state.open_block_id.0 as int) matches Block::FencedCodeBlock(
                    c2,
                    o2,
                    m2,
                    info2,
                    ind2,
                    cnt2,
                ) && m2 == m && info2@ == info@ && ind2 == ind && cnt2 == cnt && o2 == !closes && c2@ == (if closes {
                    c@
                } else {
                    c@ + spaces(f as nat) + t.subrange(p, t.len() as int) + seq!['\n']
                })
            },
            _ => true,
        },
{
    let mut line_state = line_state;
    let open = parsing_state.open_block_id;
    let ghost before = *ast;
    let taken = match ast.get_block(open) {
        Block::IndentedCodeBlock(chars, unrealized) => {
            let mut blanks: Vec<char> = Vec::new();
            std::mem::swap(unrealized, &mut blanks);
            chars.append(&mut blanks);
            let sfls = line_state.space_from_last_structure;
            let extra = if sfls < 4 {
                0
            } else {
                sfls - 4
            };
            push_code_line(chars, extra, line_state.get_remaining_str());
            true
        },
        Block::FencedCodeBlock(chars, is_open, marker, _, indent_count, marker_count) => {
            if *is_open {
                let mut try_to_close_chars = line_state;
                try_to_close_chars.consume_indent_until_sfls_ge(4);
                let mut closes = false;
                if try_to_close_chars.space_from_last_structure <= 3 {
                    match fenced_code_block_encountered(&mut try_to_close_chars) {
                        Some(Block::FencedCodeBlock(_, _, t, infstr, _, tc)) => {
                            if t == *marker && infstr.len() == 0 && tc >= *marker_count {
                                closes = true;
                            }
                        },
                        _ => {},
                    }
                }
                if closes {
                    *is_open = false;
                } else {
                    line_state.consume_indent_until_sfls_ge(*indent_count);
                    let sfls = line_state.space_from_last_structure;
                    let extra = if sfls < *indent_count {
                        0
                    } else {
                        sfls - *indent_count
                    };
                    push_code_line(chars, extra, line_state.get_remaining_str());
                }
                true
            } else {
                false
            }
        },
        Block::HTMLBlock(chars, is_open, end_condition) => {
            if *is_open {
                let line = line_state.get_remaining_str();
                match end_condition {
                    HTMLEndCondition::ContainsStrings(strs) => {
                        if contains_any_exec(line, strs) {
                            *is_open = false;
                        }
                    },
                    HTMLEndCondition::BlankLine => {},
                }
                chars.add_extra_space_and_line(0, line);
                true
            } else {
                false
            }
        },
        _ => false,
    };
    proof {
        ast.lemma_same_kind_keeps_wf(&before, open.0 as int);
        assert forall|i: int| 0 <= i < before.size() implies (#[trigger] before.children_of(i)) == ast.children_of(i) by {
        }
        assert forall|i: int| 0 <= i < before.size() implies kind_of(#[trigger] ast.block_of(i)) == kind_of(before.block_of(i)) by {
        }
        if !(before.block_of(open.0 as int) is IndentedCodeBlock || before.block_of(open.0 as int) is FencedCodeBlock
            || before.block_of(open.0 as int) is HTMLBlock) {
            assert(ast.nodes@[open.0 as int] == before.nodes@[open.0 as int]);
            assert(ast.nodes@ =~= before.nodes@);
        }
    }
    taken
}

/// A list that gets a new block after a blank line at a shallower quote depth is loose; the
/// blank line is then accounted for.
fn detighten_list(
    list_being_added_to_id_op: Option<NodeId>,
    parsing_state: &mut ParsingState,
    ast: &mut AbstractSyntaxTree<Vec<char>>,
)
    requires
        old(ast).wf(),
        old(parsing_state).wf(*old(ast)),
        list_being_added_to_id_op matches Some(id) ==> id.0 < old(ast).size(),
    ensures
        final(ast).wf(),
        keeps_kinds(*old(ast), *final(ast)),
        final(ast).size() == old(ast).size(),
        same_shape(*old(ast), *final(ast)),
        final(parsing_state).wf(*final(ast)),
        final(parsing_state).blank_line_depth is None,
        final(parsing_state).open_block_id == old(parsing_state).open_block_id,
        final(parsing_state).dmgci == old(parsing_state).dmgci,
        final(parsing_state).lcpi_op == old(parsing_state).lcpi_op,
        final(parsing_state).open_par_above == old(parsing_state).open_par_above,
        final(parsing_state).snmoqio == old(parsing_state).snmoqio,
        final(parsing_state).deepest_quote == old(parsing_state).deepest_quote,
        final(parsing_state).line_number == old(parsing_state).line_number,
        list_being_added_to_id_op is None ==> final(ast).nodes@ == old(ast).nodes@,
{
    let ghost before = *ast;
    if let Some(list_block_id) = list_being_added_to_id_op {
        let block_depth = ast.get_block_depth(list_block_id);
        let loosen = match parsing_state.blank_line_depth {
            Some(d) => !(block_depth < d),
            None => false,
        };
        match ast.get_block(list_block_id) {
            Block::List(is_tight, _) => {
                if loosen {
                    *is_tight = false;
                }
            },
            _ => {},
        }
        proof {
            ast.lemma_same_kind_keeps_wf(&before, list_block_id.0 as int);
            assert forall|i: int| 0 <= i < before.size() implies (#[trigger] before.children_of(i)) == ast.children_of(i) by {
            }
            assert forall|i: int| 0 <= i < before.size() implies kind_of(#[trigger] ast.block_of(i)) == kind_of(before.block_of(i)) by {
            }
            lemma_keeps_kinds_wf(*parsing_state, before, *ast);
        }
    }
    parsing_state.blank_line_depth = None;
}

/// Closes the shallowest open block quote that the line did not continue.
fn close_quote(ast: &mut AbstractSyntaxTree<Vec<char>>, parsing_state: &ParsingState)
    requires
        old(ast).wf(),
        parsing_state.wf(*old(ast)),
    ensures
        final(ast).wf(),
        keeps_kinds(*old(ast), *final(ast)),
        final(ast).size() == old(ast).size(),
        same_shape(*old(ast), *final(ast)),
        match parsing_state.snmoqio {
            Some(q) => {
                &&& forall|i: int|
                    0 <= i < old(ast).size() && i != q.0 ==> #[trigger] final(ast).nodes@[i] == old(ast).nodes@[i]
                &&& old(ast).block_of(q.0 as int) is BlockQuote ==> final(ast).block_of(q.0 as int)
                    == Block::<Vec<char>>::BlockQuote(false)
                &&& !(old(ast).block_of(q.0 as int) is BlockQuote) ==> final(ast).nodes@ == old(ast).nodes@
            },
            None => final(ast).nodes@ == old(ast).nodes@,
        },
{
    if let Some(quote_id) = parsing_state.snmoqio {
        let ghost before = *ast;
        match ast.get_block(quote_id) {
            Block::BlockQuote(b) => {
                *b = false;
            },
            _ => {},
        }
        proof {
            ast.lemma_same_kind_keeps_wf(&before, quote_id.0 as int);
            assert forall|i: int| 0 <= i < before.size() implies (#[trigger] before.children_of(i)) == ast.children_of(i) by {
            }
            assert forall|i: int| 0 <= i < before.size() implies kind_of(#[trigger] ast.block_of(i)) == kind_of(before.block_of(i)) by {
            }
        }
    }
}

} // verus!

verus! {

proof fn lemma_same_kinds_trans(
    a: AbstractSyntaxTree<Vec<char>>,
    b: AbstractSyntaxTree<Vec<char>>,
    c: AbstractSyntaxTree<Vec<char>>,
)
    requires
        same_kinds(a, b),
        same_kinds(b, c),
    ensures
        same_kinds(a, c),
{
    assert forall|i: int| 0 <= i < a.size() implies kind_of(#[trigger] c.block_of(i)) == kind_of(a.block_of(i)) by {
        assert(kind_of(b.block_of(i)) == kind_of(a.block_of(i)));
    }
}

/// A setext underline of `c_0`s (then only spaces and tabs) from the cursor on, under the one
/// open paragraph of a document, whose text is not empty and does not start with `[`.
pub open spec fn underline_under_paragraph(ast: AbstractSyntaxTree<Vec<char>>, ps: ParsingState, ls: LineState, c_0: char) -> bool {
    let t = ls.text();
    let v = inline_text(ast.block_of(1));
    &&& c_0 == '-' || c_0 == '='
    &&& rest_is_blank(t, ls.pos() + run_of(t, ls.pos(), c_0))
    &&& one_open_paragraph(ast, v)
    &&& v.len() > 0
    &&& v[0] != '['
    &&& ps.open_par_above
    &&& ps.lcpi_op == Some(NodeId(1))
    &&& ps.open_block_id == NodeId(1)
}

/// A setext heading underline (`=` or `-`, then only spaces and tabs) under an open
/// paragraph: the paragraph, its link reference definitions taken out, becomes a heading of
/// level 1 for `=` and 2 for `-`, unless nothing is left of it. Says whether the heading was
/// made.
fn setext_heading(
    ast: &mut AbstractSyntaxTree<Vec<char>>,
    parsing_state: &mut ParsingState,
    line_state: LineState,
    c_0: char,
    lrd_table: &mut LRDTable,
) -> (made: bool)
    requires
        old(ast).wf(),
        old(parsing_state).wf(*old(ast)),
        old(lrd_table).wf(),
        line_state.wf(),
    ensures
        final(ast).wf(),
        final(parsing_state).wf(*final(ast)),
        final(lrd_table).wf(),
        final(ast).size() == old(ast).size(),
        !made ==> same_kinds(*old(ast), *final(ast)),
        final(parsing_state).open_block_id == old(parsing_state).open_block_id,
        final(parsing_state).dmgci == old(parsing_state).dmgci,
        final(parsing_state).line_number == old(parsing_state).line_number,
        forall|l: Seq<char>| old(lrd_table).labels().contains(l) ==> #[trigger] final(lrd_table).labels().contains(l),
        !old(parsing_state).open_par_above || !(c_0 == '-' || c_0 == '=') ==> !made && final(ast).nodes@ == old(
            ast,
        ).nodes@ && *final(parsing_state) == *old(parsing_state) && final(lrd_table).defs() == old(lrd_table).defs(),
        underline_under_paragraph(*old(ast), *old(parsing_state), line_state, c_0) ==> {
            let v = inline_text(old(ast).block_of(1));
            &&& made
            &&& one_block(*final(ast))
            &&& final(ast).block_of(1) matches Block::Heading(h, level) && h@ == spec_trim_end(v) && level == (if c_0
                == '=' {
                1usize
            } else {
                2usize
            })
            &&& final(lrd_table).defs() == old(lrd_table).defs()
        },
{
    let ghost under = underline_under_paragraph(*ast, *parsing_state, line_state, c_0);
    if !(parsing_state.open_par_above && (c_0 == '-' || c_0 == '=')) {
        return false;
    }
    let mut try_to_setext_iter = line_state;
    try_to_setext_iter.consume_while_char_eq(c_0);
    proof {
        lemma_run_of(line_state.text(), line_state.pos(), try_to_setext_iter.pos(), c_0);
    }
    if !try_to_setext_iter.is_blank_line() {
        return false;
    }
    let ghost before = *ast;
    close_paragraph(ast, parsing_state, lrd_table);
    let open = parsing_state.open_block_id;
    let mut setext_inline: Vec<char> = Vec::new();
    let ghost before_get = *ast;
    let is_par = match ast.get_block(open) {
        Block::Paragraph(il, _) => {
            if il.len() == 0 {
                false
            } else {
                il.remove_final_spaces();
                std::mem::swap(&mut setext_inline, il);
                true
            }
        },
        _ => false,
    };
    proof {
        ast.lemma_same_kind_keeps_wf(&before_get, open.0 as int);
        assert forall|i: int| 0 <= i < before_get.size() implies kind_of(#[trigger] ast.block_of(i)) == kind_of(
            before_get.block_of(i),
        ) by {
        }
        lemma_same_kinds_trans(before, before_get, *ast);
        assert(kind_of(ast.block_of(parsing_state.dmgci.0 as int)) == kind_of(before_get.block_of(parsing_state.dmgci.0 as int)));
    }
    if !is_par {
        return false;
    }
    proof {
        assert(ast.node_wf(open.0 as int));
    }
    let level: usize = if c_0 == '=' {
        1
    } else {
        2
    };
    let ghost before_rep = *ast;
    ast.replace_block(open, Block::Heading(setext_inline, level));
    proof {
        assert(ast.block_of(parsing_state.dmgci.0 as int) == before_rep.block_of(parsing_state.dmgci.0 as int));
    }
    true
}

/// The character may start a paragraph and nothing else: no indentation and none of the
/// characters that begin other blocks.
pub open spec fn plain_line_start(c: char) -> bool {
    !(c == ' ' || c == '\t' || c == '#' || c == '>' || c == '-' || c == '*' || c == '+' || c == '_' || c == '='
        || c == '`' || c == '~' || c == '<' || spec_is_ascii_digit(c))
}

/// The first line of a document, which does not start with a space or a tab.
pub open spec fn fresh_line(ast: AbstractSyntaxTree<Vec<char>>, ps: ParsingState, ls: LineState) -> bool {
    &&& ast.size() == 1
    &&& ps.open_block_id == NodeId(0)
    &&& ps.dmgci == NodeId(0)
    &&& ps.lcpi_op is None
    &&& !ps.open_par_above
    &&& ls.pos() < ls.text().len()
    &&& ls.text()[ls.pos()] != ' '
    &&& ls.text()[ls.pos()] != '\t'
    &&& ls.space_from_last_structure == 0
}

/// A line that continues the one paragraph of a document: it starts with a plain character.
pub open spec fn paragraph_continuation(ast: AbstractSyntaxTree<Vec<char>>, ps: ParsingState, ls: LineState) -> bool {
    &&& ast.size() == 2
    &&& inline_text(ast.block_of(1)).len() > 0
    &&& ast.children_of(0) == seq![NodeId(1)]
    &&& ast.children_of(1).len() == 0
    &&& ast.block_of(1) matches Block::Paragraph(_, true)
    &&& ps.open_block_id == NodeId(1)
    &&& ps.dmgci == NodeId(0)
    &&& ps.lcpi_op == Some(NodeId(1))
    &&& ps.open_par_above
    &&& ls.pos() < ls.text().len()
    &&& continuation_start(ls.text(), ls.pos())
    &&& ls.space_from_last_structure == 0
}

/// A line that opens a list item with plain text under the one open paragraph of a document:
/// a bullet item of `*` or `+`, or an ordered item numbered 1 (the kinds that may interrupt a
/// paragraph).
pub open spec fn item_after_paragraph(ast: AbstractSyntaxTree<Vec<char>>, ps: ParsingState, ls: LineState) -> bool {
    &&& ast.size() == 2
    &&& ast.children_of(0) == seq![NodeId(1)]
    &&& ast.children_of(1).len() == 0
    &&& ast.block_of(1) matches Block::Paragraph(_, true)
    &&& ps.open_block_id == NodeId(1)
    &&& ps.dmgci == NodeId(0)
    &&& ps.lcpi_op == Some(NodeId(1))
    &&& ps.open_par_above
    &&& interrupting_item_line(ls.text(), ls.pos())
    &&& ls.space_from_last_structure == 0
}

/// At `p`, a bullet item of `*` or `+`, or an ordered item numbered 1, its marker followed by a
/// space and a plain character.
pub open spec fn interrupting_item_line(t: Seq<char>, p: int) -> bool {
    let mw = marker_width(t, p);
    &&& 0 <= p
    &&& p + mw + 1 < t.len()
    &&& spec_list_marker(t, p) matches Some(lt) && match lt {
        ListType::UnorderedList(c) => c != '-',
        ListType::OrderedList(_, s) => s == 1,
    }
    &&& t[p + mw] == ' '
    &&& plain_line_start(t[p + mw + 1])
}

/// A line either goes on with the open paragraph or opens a list item that interrupts it,
/// never both: `create_new_block_starts` appends the first to the paragraph and closes the
/// paragraph before the second.
pub proof fn law_continue_or_interrupt(ast: AbstractSyntaxTree<Vec<char>>, ps: ParsingState, ls: LineState)
    ensures
        !(paragraph_continuation(ast, ps, ls) && item_after_paragraph(ast, ps, ls)),
{
    if paragraph_continuation(ast, ps, ls) && item_after_paragraph(ast, ps, ls) {
        let t = ls.text();
        let p = ls.pos();
        let mw = marker_width(t, p);
        assert(t[p + mw + 1] != ' ');
        if empty_item_line(t, p) {
            assert(t[p + mw + 1] == ' ' || t[p + mw + 1] == '\t');
        }
        if spec_list_marker(t, p) matches Some(ListType::OrderedList(..)) {
            lemma_ordered_marker_digit(t, p);
        }
    }
}

/// A line start that goes on with an open paragraph: a plain character, or a list item marker
/// that cannot interrupt a paragraph: that of an ordered list item whose number is not 1, or
/// that of an empty item (but `-`, which underlines a heading).
pub open spec fn continuation_start(t: Seq<char>, p: int) -> bool {
    ||| plain_line_start(t[p])
    ||| spec_list_marker(t, p) matches Some(ListType::OrderedList(_, s)) && s != 1
    ||| empty_item_line(t, p) && t[p] != '-'
}

/// A list item marker at `p` with nothing but spaces and tabs after it.
pub open spec fn empty_item_line(t: Seq<char>, p: int) -> bool {
    &&& spec_list_marker(t, p) is Some
    &&& forall|k: int| p + marker_width(t, p) <= k < t.len() ==> #[trigger] t[k] == ' ' || t[k] == '\t'
}

/// Skipping indentation never moves back.
proof fn lemma_indent_stop_ge(t: Seq<char>, p: int, e: int, f: int, n: int)
    requires
        0 <= p,
    ensures
        indent_stop(t, p, e, f, n).0 >= p,
    decreases t.len() - p,
{
    if !(f >= n || p < 0 || p >= t.len() || !class_has(CharClass::SpaceTab, t[p])) {
        let (e1, f1) = col_step(e, f, t[p]);
        lemma_indent_stop_ge(t, p + 1, e1, f1, n);
    }
}

/// The content of an empty item starts where only spaces and tabs are left.
proof fn lemma_empty_item_blank(t: Seq<char>, p: int, q: int)
    requires
        empty_item_line(t, p),
        p + marker_width(t, p) <= q,
    ensures
        rest_is_blank(t, q),
{
    if q <= t.len() {
        lemma_skip_class_bounds(t, q, CharClass::SpaceTab);
        let k = skip_class(t, q, CharClass::SpaceTab);
        if k < t.len() {
            assert(t[k] == ' ' || t[k] == '\t');
        }
    }
}

/// A line of one `*` followed by spaces and tabs is no thematic break.
proof fn lemma_one_star_no_break(t: Seq<char>, p: int)
    requires
        0 <= p < t.len(),
        t[p] == '*',
        forall|k: int| p + 1 <= k < t.len() ==> #[trigger] t[k] == ' ' || t[k] == '\t',
    ensures
        !spec_thematic_break(t, p),
{
    lemma_count_at_most_one(t.subrange(p, t.len() as int), '*');
}

proof fn lemma_count_at_most_one(s: Seq<char>, c: char)
    requires
        forall|k: int| 1 <= k < s.len() ==> #[trigger] s[k] != c,
    ensures
        count_char(s, c) <= 1,
    decreases s.len(),
{
    if s.len() > 0 {
        let d = s.drop_last();
        assert forall|k: int| 1 <= k < d.len() implies #[trigger] d[k] != c by {
            assert(d[k] == s[k]);
        }
        lemma_count_at_most_one(d, c);
        if s.len() > 1 {
            assert(s.last() == s[s.len() - 1]);
        }
    }
}


/// An ordered list marker starts with a digit.
proof fn lemma_ordered_marker_digit(t: Seq<char>, p: int)
    requires
        spec_list_marker(t, p) matches Some(ListType::OrderedList(..)),
    ensures
        0 <= p < t.len(),
        spec_is_ascii_digit(t[p]),
{
    lemma_skip_class_bounds(t, p, CharClass::Digit);
    assert(class_has(CharClass::Digit, t[p]));
}

/// The first line of a document that starts with a plain character.
pub open spec fn fresh_plain_line(ast: AbstractSyntaxTree<Vec<char>>, ps: ParsingState, ls: LineState) -> bool {
    &&& fresh_line(ast, ps, ls)
    &&& plain_line_start(ls.text()[ls.pos()])
}

/// From `pos` on, an indentation of spaces alone, at least four of them, and then more than
/// spaces and tabs: a line of indented code.
#[verifier::opaque]
pub open spec fn indented_code_line(t: Seq<char>, pos: int) -> bool {
    let p = skip_class(t, pos, CharClass::SpaceTab);
    &&& 0 <= pos
    &&& p < t.len()
    &&& pos + 4 <= p
    &&& forall|k: int| pos <= k < p ==> #[trigger] t[k] == ' '
}

/// The first line of a document, a line of indented code.
pub open spec fn fresh_indented_line(ast: AbstractSyntaxTree<Vec<char>>, ps: ParsingState, ls: LineState) -> bool {
    &&& ast.size() == 1
    &&& ps.open_block_id == NodeId(0)
    &&& ps.dmgci == NodeId(0)
    &&& ps.lcpi_op is None
    &&& !ps.open_par_above
    &&& ls.space_from_last_structure == 0
    &&& indented_code_line(ls.text(), ls.pos())
}

/// From `pos` on: a block quote marker, one space, and text that starts as a paragraph does (not
/// with `[`).
pub open spec fn quote_line(t: Seq<char>, pos: int) -> bool {
    &&& 0 <= pos
    &&& pos + 2 < t.len()
    &&& t[pos] == '>'
    &&& t[pos + 1] == ' '
    &&& plain_line_start(t[pos + 2])
    &&& t[pos + 2] != '['
}

/// A document that holds a block quote and, in it, a paragraph with the text `v`.
pub open spec fn quote_paragraph(t: AbstractSyntaxTree<Vec<char>>, v: Seq<char>) -> bool {
    &&& t.size() == 3
    &&& t.children_of(0) == seq![NodeId(1)]
    &&& t.children_of(1) == seq![NodeId(2)]
    &&& t.children_of(2).len() == 0
    &&& t.block_of(1) is BlockQuote
    &&& t.block_of(2) matches Block::Paragraph(w, _) && w@ == v
}

/// A document whose one block, an empty block quote, was just opened by the current line.
pub open spec fn quote_opened(ast: AbstractSyntaxTree<Vec<char>>, ps: ParsingState) -> bool {
    &&& ast.size() == 2
    &&& ast.children_of(0) == seq![NodeId(1)]
    &&& ast.children_of(1).len() == 0
    &&& ast.block_of(1) is BlockQuote
    &&& ps.dmgci == NodeId(1)
    &&& ps.open_block_id == NodeId(1)
    &&& ps.lcpi_op is None
    &&& !ps.open_par_above
}

/// From `pos` on: a bullet (`-`, `*` or `+`), one space, and text that starts as a paragraph
/// does (not with `[`).
pub open spec fn bullet_line(t: Seq<char>, pos: int) -> bool {
    &&& 0 <= pos
    &&& pos + 2 < t.len()
    &&& t[pos] == '-' || t[pos] == '*' || t[pos] == '+'
    &&& t[pos + 1] == ' '
    &&& plain_line_start(t[pos + 2])
    &&& t[pos + 2] != '['
}

/// A document that holds a tight list of kind `lt` with one item, and in it a paragraph with the
/// text `v`.
pub open spec fn list_paragraph(t: AbstractSyntaxTree<Vec<char>>, lt: ListType, v: Seq<char>) -> bool {
    &&& t.size() == 4
    &&& t.children_of(0) == seq![NodeId(1)]
    &&& t.children_of(1) == seq![NodeId(2)]
    &&& t.children_of(2) == seq![NodeId(3)]
    &&& t.children_of(3).len() == 0
    &&& t.block_of(1) == Block::<Vec<char>>::List(true, lt)
    &&& t.block_of(2) is ListItem
    &&& t.block_of(3) matches Block::Paragraph(w, _) && w@ == v
}

/// A document whose one block, a tight list of kind `lt` with one empty item, was just opened by
/// the current line.
pub open spec fn item_opened(ast: AbstractSyntaxTree<Vec<char>>, ps: ParsingState, lt: ListType) -> bool {
    &&& ast.size() == 3
    &&& ast.children_of(0) == seq![NodeId(1)]
    &&& ast.children_of(1) == seq![NodeId(2)]
    &&& ast.children_of(2).len() == 0
    &&& ast.block_of(1) == Block::<Vec<char>>::List(true, lt)
    &&& ast.block_of(2) is ListItem
    &&& ps.dmgci == NodeId(2)
    &&& ps.open_block_id == NodeId(2)
    &&& ps.lcpi_op is None
    &&& !ps.open_par_above
}

/// A line inside the one open fenced code block of a document, whose fence was not indented.
pub open spec fn fence_continuation(ast: AbstractSyntaxTree<Vec<char>>, ps: ParsingState) -> bool {
    &&& ast.size() == 2
    &&& ast.children_of(0) == seq![NodeId(1)]
    &&& ast.children_of(1).len() == 0
    &&& ast.block_of(1) matches Block::FencedCodeBlock(_, o, _, _, ind, _) && o && ind == 0
    &&& ps.open_block_id == NodeId(1)
    &&& ps.dmgci == NodeId(0)
    &&& ps.lcpi_op is None
    &&& !ps.open_par_above
}

/// A line that underlines the one open paragraph of a document (see
/// `underline_under_paragraph`), starting at the cursor.
pub open spec fn setext_after_paragraph(ast: AbstractSyntaxTree<Vec<char>>, ps: ParsingState, ls: LineState) -> bool {
    &&& ls.pos() < ls.text().len()
    &&& ls.space_from_last_structure == 0
    &&& ps.dmgci == NodeId(0)
    &&& underline_under_paragraph(ast, ps, ls, ls.text()[ls.pos()])
}

/// Spaces move the column and the space count on by one each.
proof fn lemma_cols_after_spaces(ecn: int, sfls: int, s: Seq<char>)
    requires
        forall|k: int| 0 <= k < s.len() ==> #[trigger] s[k] == ' ',
    ensures
        cols_after(ecn, sfls, s) == (ecn + s.len(), sfls + s.len()),
    decreases s.len(),
{
    if s.len() > 0 {
        lemma_cols_after_spaces(ecn, sfls, s.drop_last());
    }
}

/// In a line of indented code, skipping spaces and tabs from `pos` to `q`, until the space count
/// `f` is four or more, stays in the indentation and leaves the code that starts four columns in.
proof fn lemma_indented_code_start(t: Seq<char>, pos: int, q: int, e0: int, e: int, f: int)
    requires
        indented_code_line(t, pos),
        pos <= q <= t.len(),
        forall|k: int| pos <= k < q ==> class_has(CharClass::SpaceTab, #[trigger] t[k]),
        (e, f) == cols_after(e0, 0, t.subrange(pos, q)),
        f >= 4 || q >= t.len() || !class_has(CharClass::SpaceTab, t[q]),
    ensures
        f == q - pos,
        pos + 4 <= q,
        !rest_is_blank(t, q),
        spaces((f - 4) as nat) + t.subrange(q, t.len() as int) == t.subrange(pos + 4, t.len() as int),
{
    reveal(indented_code_line);
    let p = skip_class(t, pos, CharClass::SpaceTab);
    lemma_skip_class_bounds(t, pos, CharClass::SpaceTab);
    if q > p {
        assert(class_has(CharClass::SpaceTab, t[p]));
    }
    if q < p {
        assert(class_has(CharClass::SpaceTab, t[q]));
    }
    assert(forall|k: int| 0 <= k < q - pos ==> #[trigger] t.subrange(pos, q)[k] == t[pos + k]);
    lemma_cols_after_spaces(e0, 0, t.subrange(pos, q));
    lemma_skip_class_through(t, pos, q, CharClass::SpaceTab);
    assert(spaces((f - 4) as nat) + t.subrange(q, t.len() as int) =~= t.subrange(pos + 4, t.len() as int));
}

/// Adds what the rest of a line starts or continues, after `check_tree_state` has matched the
/// open blocks: a blank line closes paragraphs and may close or loosen blocks; an open code or
/// HTML block takes the line; otherwise the line may be a setext underline, or start thematic
/// breaks, list items, block quotes, code fences, ATX headings or HTML blocks, and what is left
/// continues the open paragraph lazily or starts an indented code block or a paragraph.
#[verifier::rlimit(40)]
pub fn create_new_block_starts(
    ast: &mut AbstractSyntaxTree<Vec<char>>,
    parsing_state: &mut ParsingState,
    line_state_in: LineState,
    lrd_table: &mut LRDTable,
)
    requires
        old(ast).wf(),
        old(parsing_state).wf(*old(ast)),
        old(lrd_table).wf(),
        line_state_in.wf(),
        old(ast).size() + 2 * line_state_in.text().len() + 4 < usize::MAX,
    ensures
        final(ast).wf(),
        final(parsing_state).wf(*final(ast)),
        final(lrd_table).wf(),
        final(ast).size() <= old(ast).size() + 2 * line_state_in.text().len() + 2,
        final(parsing_state).line_number == old(parsing_state).line_number,
        forall|l: Seq<char>| old(lrd_table).labels().contains(l) ==> #[trigger] final(lrd_table).labels().contains(l),
        fresh_plain_line(*old(ast), *old(parsing_state), line_state_in) ==> {
            &&& final(lrd_table).defs() == old(lrd_table).defs()
            &&& final(ast).size() == 2
            &&& final(ast).children_of(0) == seq![NodeId(1)]
            &&& final(ast).children_of(1).len() == 0
            &&& final(ast).block_of(1) matches Block::Paragraph(v, true) && v@ == line_state_in.text().subrange(
                line_state_in.pos(),
                line_state_in.text().len() as int,
            )
        },
        item_after_paragraph(*old(ast), *old(parsing_state), line_state_in) ==> final(ast).size() > 1
            && (final(ast).block_of(1) matches Block::Paragraph(_, false)) && final(parsing_state).lcpi_op is None,
        paragraph_continuation(*old(ast), *old(parsing_state), line_state_in) ==> {
            &&& final(lrd_table).defs() == old(lrd_table).defs()
            &&& final(ast).size() == 2
            &&& final(ast).children_of(0) == seq![NodeId(1)]
            &&& final(ast).children_of(1).len() == 0
            &&& final(ast).block_of(1) matches Block::Paragraph(v, true) && v@ == inline_text(old(ast).block_of(1))
                + seq!['\n'] + line_state_in.text().subrange(line_state_in.pos(), line_state_in.text().len() as int)
        },
        fresh_line(*old(ast), *old(parsing_state), line_state_in) && spec_thematic_break(
            line_state_in.text(),
            line_state_in.pos(),
        ) ==> {
            &&& final(lrd_table).defs() == old(lrd_table).defs()
            &&& final(ast).size() == 2
            &&& final(ast).children_of(0) == seq![NodeId(1)]
            &&& final(ast).children_of(1).len() == 0
            &&& final(ast).block_of(1) is ThematicBreak
        },
        fresh_line(*old(ast), *old(parsing_state), line_state_in) ==> match spec_atx_start(
            line_state_in.text(),
            line_state_in.pos(),
        ) {
            Some(k) => {
                &&& final(lrd_table).defs() == old(lrd_table).defs()
                &&& final(ast).size() == 2
                &&& final(ast).children_of(0) == seq![NodeId(1)]
                &&& final(ast).children_of(1).len() == 0
                &&& final(ast).block_of(1) matches Block::Heading(il, level) && level == k && il@ == atx_heading_text(
                    line_state_in.text(),
                    line_state_in.pos(),
                    k,
                )
            },
            None => true,
        },
        fresh_line(*old(ast), *old(parsing_state), line_state_in) && line_state_in.text()[line_state_in.pos()] == '<'
            ==> match html_start_kind(line_state_in.text(), line_state_in.pos(), false) {
            Some(kind) => {
                &&& final(lrd_table).defs() == old(lrd_table).defs()
                &&& final(ast).size() == 2
                &&& final(ast).children_of(0) == seq![NodeId(1)]
                &&& final(ast).children_of(1).len() == 0
                &&& final(ast).block_of(1) matches Block::HTMLBlock(text, is_open, _) && text@
                    == line_state_in.text().subrange(line_state_in.pos(), line_state_in.text().len() as int) && (kind
                    <= 5 ==> is_open == !contains_any(text@, html_end_strs(kind))) && (kind > 5 ==> is_open)
            },
            None => true,
        },
        fresh_line(*old(ast), *old(parsing_state), line_state_in) && quote_line(line_state_in.text(), line_state_in.pos())
            ==> {
            &&& final(lrd_table).defs() == old(lrd_table).defs()
            &&& quote_paragraph(
                *final(ast),
                line_state_in.text().subrange(line_state_in.pos() + 2, line_state_in.text().len() as int),
            )
        },
        fresh_line(*old(ast), *old(parsing_state), line_state_in) && bullet_line(line_state_in.text(), line_state_in.pos())
            ==> {
            &&& final(lrd_table).defs() == old(lrd_table).defs()
            &&& list_paragraph(
                *final(ast),
                ListType::UnorderedList(line_state_in.text()[line_state_in.pos()]),
                line_state_in.text().subrange(line_state_in.pos() + 2, line_state_in.text().len() as int),
            )
        },
        fresh_line(*old(ast), *old(parsing_state), line_state_in) ==> match spec_fence(
            line_state_in.text(),
            line_state_in.pos(),
        ) {
            Some((c, k)) => {
                &&& final(lrd_table).defs() == old(lrd_table).defs()
                &&& one_block(*final(ast))
                &&& final(ast).block_of(1) matches Block::FencedCodeBlock(code, o, ch, info, ind, cnt) && code@.len()
                    == 0 && o && ch == c && cnt == k && ind == 0 && info@ == fence_info(
                    line_state_in.text(),
                    line_state_in.pos() + k,
                )
            },
            None => true,
        },
        fence_continuation(*old(ast), *old(parsing_state)) ==> match old(ast).block_of(1) {
            Block::FencedCodeBlock(c, _, m, info, ind, cnt) => {
                let t = line_state_in.text();
                let p = line_state_in.pos();
                let f = line_state_in.space_from_last_structure as int;
                let closes = closing_fence(t, p, line_state_in.effective_column_number as int, f, m, cnt as int);
                &&& final(lrd_table).defs() == old(lrd_table).defs()
                &&& one_block(*final(ast))
                &&& final(ast).block_of(1) matches Block::FencedCodeBlock(c2, o2, m2, info2, ind2, cnt2) && m2 == m
                    && info2@ == info@ && ind2 == ind && cnt2 == cnt && o2 == !closes && c2@ == (if closes {
                    c@
                } else {
                    c@ + spaces(f as nat) + t.subrange(p, t.len() as int) + seq!['\n']
                })
            },
            _ => true,
        },
        setext_after_paragraph(*old(ast), *old(parsing_state), line_state_in) ==> {
            let c = line_state_in.text()[line_state_in.pos()];
            &&& final(lrd_table).defs() == old(lrd_table).defs()
            &&& one_block(*final(ast))
            &&& final(ast).block_of(1) matches Block::Heading(h, level) && h@ == spec_trim_end(
                inline_text(old(ast).block_of(1)),
            ) && level == (if c == '=' {
                1usize
            } else {
                2usize
            })
        },
        fresh_indented_line(*old(ast), *old(parsing_state), line_state_in) ==> {
            &&& final(lrd_table).defs() == old(lrd_table).defs()
            &&& final(ast).size() == 2
            &&& final(ast).children_of(0) == seq![NodeId(1)]
            &&& final(ast).children_of(1).len() == 0
            &&& final(ast).block_of(1) matches Block::IndentedCodeBlock(c, u) && u@.len() == 0 && c@
                == line_state_in.text().subrange(line_state_in.pos() + 4, line_state_in.text().len() as int)
                + seq!['\n']
        },
{
    let ghost fresh = fresh_line(*ast, *parsing_state, line_state_in);
    let ghost scen_i = fresh_indented_line(*ast, *parsing_state, line_state_in);
    let ghost scen_s = setext_after_paragraph(*ast, *parsing_state, line_state_in);
    let ghost scen = fresh_plain_line(*ast, *parsing_state, line_state_in);
    let ghost scen_h = fresh && spec_atx_start(line_state_in.text(), line_state_in.pos()) is Some;
    let ghost scen_c = paragraph_continuation(*ast, *parsing_state, line_state_in);
    let ghost scen_b = item_after_paragraph(*ast, *parsing_state, line_state_in);
    let ghost scen_x = fresh && line_state_in.text()[line_state_in.pos()] == '<' && html_start_kind(
        line_state_in.text(),
        line_state_in.pos(),
        false,
    ) is Some;
    let ghost scen_f = fresh && spec_fence(line_state_in.text(), line_state_in.pos()) is Some;
    let ghost kept = scen || scen_h || scen_c || scen_x || scen_f;
    let ghost scen_q = fresh && quote_line(line_state_in.text(), line_state_in.pos());
    let ghost scen_l = fresh && bullet_line(line_state_in.text(), line_state_in.pos());
    let ghost scen_k = fence_continuation(*ast, *parsing_state);
    let ghost nodes_in = ast.nodes@;
    let ghost ps_in = *parsing_state;
    proof {
        if fresh {
            assert(ast.node_wf(0));
            assert(ast.children_of(0).len() == 0) by {
                if ast.children_of(0).len() > 0 {
                    assert(0 < ast.children_of(0)[0].0 < ast.size());
                }
            }
            assert(line_state_in.text()[line_state_in.pos()] != ' ' && line_state_in.text()[line_state_in.pos()] != '\t');
        }
        if scen_c || scen_b {
            assert(line_state_in.text()[line_state_in.pos()] != ' ' && line_state_in.text()[line_state_in.pos()] != '\t');
            assert(ast.node_wf(1));
        }
        if scen_i {
            reveal(indented_code_line);
            assert(ast.node_wf(0));
            assert(ast.children_of(0).len() == 0) by {
                if ast.children_of(0).len() > 0 {
                    assert(0 < ast.children_of(0)[0].0 < ast.size());
                }
            }
            lemma_skip_class_bounds(line_state_in.text(), line_state_in.pos(), CharClass::SpaceTab);
        }
    }
    let ghost n0 = ast.size();
    let ghost len = line_state_in.text().len();
    let mut line_state = line_state_in;
    proof {
        line_state.lemma_wf_bounds();
    }
    if line_state.is_blank_line() {
        let ghost b0 = *ast;
        let done = blank_line_in_open_block(ast, parsing_state, line_state);
        proof {
            lemma_keeps_kinds_wf(*parsing_state, b0, *ast);
        }
        if done {
            close_paragraph(ast, parsing_state, lrd_table);
            parsing_state.blank_line_depth = Some(parsing_state.deepest_quote);
            // make block quotes closed
            let ghost b0b = *ast;
            close_quote(ast, parsing_state);
            proof {
                lemma_keeps_kinds_wf(*parsing_state, b0b, *ast);
            }
            return ;
        }
    }
    let ghost b1 = *ast;
    if continue_open_leaf(ast, parsing_state, line_state) {
        proof {
            lemma_keeps_kinds_wf(*parsing_state, b1, *ast);
        }
        return ;
    }
    proof {
        lemma_keeps_kinds_wf(*parsing_state, b1, *ast);
        if fresh || scen_c || scen_i || scen_s || scen_b {
            assert(ast.nodes@ == nodes_in);
        }
    }
    // we do not want to consume more than 4 columns, for the case that an indented code block
    // starts here: its extra spaces are kept
    line_state.consume_indent_until_sfls_ge(4);
    proof {
        if scen_i {
            lemma_indented_code_start(
                line_state_in.text(),
                line_state_in.pos(),
                line_state.pos(),
                line_state_in.effective_column_number as int,
                line_state.effective_column_number as int,
                line_state.space_from_last_structure as int,
            );
        }
    }
    let mut list_being_added_to_id_op: Option<NodeId> = match ast.get_block_ref(parsing_state.dmgci) {
        Block::ListItem(..) => ast.get_parent_id(parsing_state.dmgci),
        _ => None,
    };
    proof {
        assert(ast.node_wf(parsing_state.dmgci.0 as int));
        if scen_i {
            assert(ast.block_of(0) is Document);
            assert(list_being_added_to_id_op is None);
        }
        if scen_s {
            assert(ast.node_wf(1));
            if line_state.pos() > line_state_in.pos() {
                assert(class_has(CharClass::SpaceTab, line_state_in.text()[line_state_in.pos()]));
            }
        }
        if fresh || scen_c || scen_s || scen_b {
            assert(line_state.pos() == line_state_in.pos());
            assert(line_state_in.text().subrange(line_state_in.pos(), line_state.pos()) =~= Seq::<char>::empty());
            assert(line_state.space_from_last_structure == 0);
            assert(ast.block_of(0) is Document);
            assert(list_being_added_to_id_op is None);
        }
    }
    let ghost ls1 = line_state;
    if line_state.space_from_last_structure <= 3 {
        let c_0 = match line_state.peek() {
            Some(c) => c,
            None => ' ',
        };
        if setext_heading(ast, parsing_state, line_state, c_0, lrd_table) {
            return ;
        }
        proof {
            if scen_x || scen_q || scen_f {
                let t = line_state.text();
                let p = line_state.pos();
                assert(t[p + 0] == t[p]);
                lemma_skip_class_bounds(t, p, CharClass::Digit);
            }
            if scen_q || scen_l {
                reveal_strlit("<pre");
                reveal_strlit("<script");
                reveal_strlit("<style");
                reveal_strlit("<textarea");
                reveal_strlit("<!--");
                reveal_strlit("<?");
                reveal_strlit("<!");
                reveal_strlit("<![CDATA[");
                let t = line_state.text();
                let p = line_state.pos() + 2;
                assert(t[p + 0] == t[p]);
                lemma_skip_class_bounds(t, p, CharClass::Digit);
            }
            if scen || scen_c {
                let t = line_state.text();
                let p = line_state.pos();
                if !plain_line_start(t[p]) {
                    if spec_list_marker(t, p) matches Some(ListType::OrderedList(..)) {
                        lemma_ordered_marker_digit(t, p);
                    } else if t[p] == '*' {
                        lemma_one_star_no_break(t, p);
                    }
                }
                reveal_strlit("<pre");
                reveal_strlit("<script");
                reveal_strlit("<style");
                reveal_strlit("<textarea");
                reveal_strlit("<!--");
                reveal_strlit("<?");
                reveal_strlit("<!");
                reveal_strlit("<![CDATA[");
                let t = line_state.text();
                let p = line_state.pos();
                assert(t[p + 0] == t[p]);
                lemma_skip_class_bounds(t, p, CharClass::Digit);
            }
        }
        // next check for a thematic break (before we add to a list, for priority reasons)
        let mut thematic_break_line = line_state;
        if thematic_break_encountered(&mut thematic_break_line) {
            let ghost b2 = *ast;
            close_paragraph(ast, parsing_state, lrd_table);
            detighten_list(list_being_added_to_id_op, parsing_state, ast);
            proof {
                assert(kind_of(ast.block_of(parsing_state.dmgci.0 as int)) == kind_of(b2.block_of(parsing_state.dmgci.0 as int)));
            }
            let ghost b2b = *ast;
            add_block(ast, parsing_state.dmgci, Block::ThematicBreak);
            proof {
                lemma_keeps_kinds_wf(*parsing_state, b2b, *ast);
                if fresh {
                    assert(b2b.nodes@ == nodes_in);
                    assert(ast.children_of(0) =~= seq![NodeId(1)]);
                }
            }
            return ;
        }
        // now check if we can add a new list item to an existing list
        let mut list_item_iter = line_state;
        let existing = match ast.get_block_ref(parsing_state.open_block_id) {
            Block::List(_, lt) => Some(*lt),
            _ => None,
        };
        if let Some(existing_lt) = existing {
            if let Some((new_lt, li)) = list_item_encountered(&mut list_item_iter) {
                if existing_lt.same_list_eq(&new_lt) {
                    list_being_added_to_id_op = Some(parsing_state.open_block_id);
                    let ghost b3 = *ast;
                    detighten_list(list_being_added_to_id_op, parsing_state, ast);
                    close_paragraph(ast, parsing_state, lrd_table);
                    proof {
                        assert(kind_of(ast.block_of(parsing_state.open_block_id.0 as int)) == kind_of(
                            b3.block_of(parsing_state.open_block_id.0 as int),
                        ));
                    }
                    parsing_state.open_block_id = add_block(ast, parsing_state.open_block_id, li);
                    parsing_state.dmgci = parsing_state.open_block_id;
                    line_state = list_item_iter;
                }
            }
        }
        // keep looking for new block starts
        loop
            invariant
                ast.wf(),
                parsing_state.wf(*ast),
                lrd_table.wf(),
                line_state.wf(),
                line_state.text().len() == len,
                len == line_state_in.text().len(),
                n0 == old(ast).size(),
                ast.size() <= n0 + 2 * line_state.pos(),
                n0 + 2 * len + 4 < usize::MAX,
                list_being_added_to_id_op matches Some(id) ==> id.0 < ast.size(),
                parsing_state.line_number == old(parsing_state).line_number,
                scen == fresh_plain_line(*old(ast), *old(parsing_state), line_state_in),
                fresh == fresh_line(*old(ast), *old(parsing_state), line_state_in),
                scen_h == (fresh && spec_atx_start(line_state_in.text(), line_state_in.pos()) is Some),
                scen_c == paragraph_continuation(*old(ast), *old(parsing_state), line_state_in),
                scen_x == (fresh && line_state_in.text()[line_state_in.pos()] == '<' && html_start_kind(
                    line_state_in.text(),
                    line_state_in.pos(),
                    false,
                ) is Some),
                scen_f == (fresh && spec_fence(line_state_in.text(), line_state_in.pos()) is Some),
                kept == (scen || scen_h || scen_c || scen_x || scen_f),
                scen_f ==> spec_list_marker(ls1.text(), ls1.pos()) is None && ls1.text()[ls1.pos()] != '>',
                ps_in == *old(parsing_state),
                scen_q == (fresh && quote_line(line_state_in.text(), line_state_in.pos())),
                scen_q ==> lrd_table.defs() == old(lrd_table).defs() && spec_list_marker(ls1.text(), ls1.pos()) is None
                    && ls1.pos() == line_state_in.pos() && ls1.text() == line_state_in.text()
                    && ls1.space_from_last_structure == 0,
                scen_l == (fresh && bullet_line(line_state_in.text(), line_state_in.pos())),
                scen_l ==> lrd_table.defs() == old(lrd_table).defs() && ls1.pos() == line_state_in.pos() && ls1.text()
                    == line_state_in.text() && ls1.space_from_last_structure == 0,
                scen_l ==> (line_state == ls1 && ast.nodes@ == nodes_in && *parsing_state == ps_in
                    && list_being_added_to_id_op is None) || (item_opened(
                    *ast,
                    *parsing_state,
                    ListType::UnorderedList(ls1.text()[ls1.pos()]),
                ) && line_state.text() == ls1.text() && line_state.pos() == ls1.pos() + 2
                    && line_state.space_from_last_structure == 0 && list_being_added_to_id_op is None),
                scen_q || scen_l ==> {
                    let t = ls1.text();
                    let p = ls1.pos() + 2;
                    &&& !spec_thematic_break(t, p)
                    &&& spec_list_marker(t, p) is None
                    &&& t[p] != '>'
                    &&& spec_fence(t, p) is None
                    &&& spec_atx_start(t, p) is None
                    &&& html_start_kind(t, p, false) is None
                },
                scen_q ==> (line_state == ls1 && ast.nodes@ == nodes_in && *parsing_state == ps_in
                    && list_being_added_to_id_op is None) || (quote_opened(*ast, *parsing_state) && line_state.text()
                    == ls1.text() && line_state.pos() == ls1.pos() + 2 && line_state.space_from_last_structure == 0
                    && list_being_added_to_id_op is None),
                scen_x ==> spec_list_marker(ls1.text(), ls1.pos()) is None && ls1.text()[ls1.pos()] != '>'
                    && spec_fence(ls1.text(), ls1.pos()) is None && spec_atx_start(ls1.text(), ls1.pos()) is None,
                fresh ==> nodes_in == old(ast).nodes@ && old(ast).children_of(0).len() == 0,
                fresh ==> !spec_thematic_break(line_state_in.text(), line_state_in.pos()),
                kept ==> line_state == ls1 && ast.nodes@ == nodes_in && *parsing_state == ps_in
                    && list_being_added_to_id_op is None && ast.head == old(ast).head,
                scen_b == item_after_paragraph(*old(ast), *old(parsing_state), line_state_in),
                scen_b ==> ls1.pos() == line_state_in.pos() && ls1.text() == line_state_in.text()
                    && ls1.space_from_last_structure == 0 && nodes_in == old(ast).nodes@,
                scen_b ==> (line_state == ls1 && ast.nodes@ == nodes_in && *parsing_state == ps_in
                    && list_being_added_to_id_op is None) || (1 < ast.size() && (ast.block_of(1) matches Block::Paragraph(
                    _,
                    false,
                )) && parsing_state.lcpi_op is None),
                kept ==> ls1.pos() == line_state_in.pos() && ls1.text() == line_state_in.text()
                    && ls1.space_from_last_structure == 0,
                scen_h ==> !spec_thematic_break(ls1.text(), ls1.pos()) && spec_list_marker(ls1.text(), ls1.pos())
                    is None && ls1.text()[ls1.pos()] != '>' && spec_fence(ls1.text(), ls1.pos()) is None,
                scen || scen_c ==> !spec_thematic_break(ls1.text(), ls1.pos()) && (spec_list_marker(
                    ls1.text(),
                    ls1.pos(),
                ) is None || scen_c) && ls1.text()[ls1.pos()] != '>' && spec_fence(ls1.text(), ls1.pos()) is None
                    && spec_atx_start(ls1.text(), ls1.pos()) is None && html_start_kind(
                    ls1.text(),
                    ls1.pos(),
                    ps_in.open_par_above,
                ) is None,
                kept ==> lrd_table.defs() == old(lrd_table).defs(),
                forall|l: Seq<char>| old(lrd_table).labels().contains(l) ==> #[trigger] lrd_table.labels().contains(l),
                !fresh_indented_line(*old(ast), *old(parsing_state), line_state_in),
                !setext_after_paragraph(*old(ast), *old(parsing_state), line_state_in),
                !fence_continuation(*old(ast), *old(parsing_state)),
            ensures
                !scen_h,
                !scen_x,
                !scen_f,
                scen_b ==> 1 < ast.size() && (ast.block_of(1) matches Block::Paragraph(_, false))
                    && parsing_state.lcpi_op is None,
                scen_q ==> quote_opened(*ast, *parsing_state) && line_state.text() == line_state_in.text()
                    && line_state.pos() == line_state_in.pos() + 2 && line_state.space_from_last_structure == 0
                    && list_being_added_to_id_op is None,
                scen_l ==> item_opened(
                    *ast,
                    *parsing_state,
                    ListType::UnorderedList(line_state_in.text()[line_state_in.pos()]),
                ) && line_state.text() == line_state_in.text() && line_state.pos() == line_state_in.pos() + 2
                    && line_state.space_from_last_structure == 0 && list_being_added_to_id_op is None,
            decreases len - line_state.pos(),
        {
            if line_state.space_from_last_structure > 3 {
                break ;
            }
            proof {
                line_state.lemma_wf_bounds();
            }
            let mut them_break_iter = line_state;
            if thematic_break_encountered(&mut them_break_iter) {
                let ghost b4 = *ast;
                detighten_list(list_being_added_to_id_op, parsing_state, ast);
                close_paragraph(ast, parsing_state, lrd_table);
                proof {
                    assert(kind_of(ast.block_of(parsing_state.dmgci.0 as int)) == kind_of(b4.block_of(parsing_state.dmgci.0 as int)));
                }
                let ghost b4b = *ast;
                add_block(ast, parsing_state.dmgci, Block::ThematicBreak);
                proof {
                    lemma_keeps_kinds_wf(*parsing_state, b4b, *ast);
                }
                return ;
            }
            let mut list_item_iter = line_state;
            if let Some((lt, b)) = list_item_encountered(&mut list_item_iter) {
                proof {
                    if scen_b && line_state == ls1 {
                        let t = ls1.text();
                        let p = ls1.pos();
                        let mw = marker_width(t, p);
                        let e = ls1.effective_column_number as int;
                        assert(t[p + mw + 1] != ' ' && t[p + mw + 1] != '\t');
                        assert(!class_has(CharClass::SpaceTab, t[p + mw + 1]));
                        assert(indent_stop(t, p + mw + 1, e + mw + 1, 1, 5) == (p + mw + 1, e + mw + 1, 1int));
                        assert(indent_stop(t, p + mw, e + mw, 0, 5) == indent_stop(t, p + mw + 1, e + mw + 1, 1, 5));
                        assert(list_item_iter.pos() == p + mw + 1);
                        assert(skip_class(t, p + mw + 1, CharClass::SpaceTab) == p + mw + 1);
                        assert(!rest_is_blank(t, p + mw + 1));
                    }
                    if scen_c {
                        let t = ls1.text();
                        let p = ls1.pos();
                        assert(continuation_start(line_state_in.text(), line_state_in.pos()));
                        if empty_item_line(t, p) && t[p] != '-' && !(spec_list_marker(t, p) matches Some(
                            ListType::OrderedList(_, s),
                        ) && s != 1) {
                            let m = p + marker_width(t, p);
                            lemma_indent_stop_ge(t, m, ls1.effective_column_number + marker_width(t, p), 0, 5);
                            lemma_empty_item_blank(t, p, list_item_iter.pos());
                        }
                    }
                }
                // only bullet lists and ordered lists starting at 1 can interrupt a paragraph,
                // and only when the item is not empty
                let can_interrupt = if parsing_state.open_par_above {
                    match lt {
                        ListType::UnorderedList(_) => !list_item_iter.is_blank_line(),
                        ListType::OrderedList(_, start) => start == 1 && !list_item_iter.is_blank_line(),
                    }
                } else {
                    true
                };
                if !can_interrupt {
                    break ;
                }
                let ghost bl0 = *ast;
                close_paragraph(ast, parsing_state, lrd_table);
                let ghost bl1 = *ast;
                let list_node_id = add_block(ast, parsing_state.dmgci, Block::List(true, lt));
                let ghost b6 = *ast;
                parsing_state.open_block_id = add_block(ast, list_node_id, b);
                proof {
                    lemma_keeps_kinds_trans(b6, *ast, *ast);
                }
                parsing_state.dmgci = parsing_state.open_block_id;
                line_state = list_item_iter;
                let ghost ls_l = line_state;
                line_state.consume_indent_until_sfls_ge(4);
                proof {
                    if scen_l {
                        let t = ls1.text();
                        let p = ls1.pos() + 2;
                        assert(bl1.nodes@ == nodes_in);
                        assert(b6.children_of(0) =~= seq![NodeId(1)]);
                        assert(ast.children_of(0) == b6.children_of(0));
                        assert(ast.children_of(1) =~= seq![NodeId(2)]);
                        assert(ast.block_of(1) == b6.block_of(1));
                        let e = ls1.effective_column_number as int;
                        assert(marker_width(t, ls1.pos()) == 1);
                        assert(indent_stop(t, p, e + 2, 1, 5) == (p, e + 2, 1int));
                        assert(indent_stop(t, p - 1, e + 1, 0, 5) == indent_stop(t, p, e + 2, 1, 5));
                        assert(ls_l.pos() == p);
                        if line_state.pos() > p {
                            assert(class_has(CharClass::SpaceTab, t[p]));
                        }
                        assert(t.subrange(p, p) =~= Seq::<char>::empty());
                    }
                }
                continue ;
            }
            let mut block_quote_iter = line_state;
            if block_quote_encountered(&mut block_quote_iter) {
                detighten_list(list_being_added_to_id_op, parsing_state, ast);
                close_paragraph(ast, parsing_state, lrd_table);
                let ghost bq0 = *ast;
                parsing_state.open_block_id = add_block(ast, parsing_state.dmgci, Block::BlockQuote(true));
                parsing_state.dmgci = parsing_state.open_block_id;
                line_state = block_quote_iter;
                let ghost ls_q = line_state;
                line_state.consume_indent_until_sfls_ge(4);
                proof {
                    if scen_q {
                        let t = ls1.text();
                        let p = ls1.pos() + 2;
                        assert(bq0.nodes@ == nodes_in);
                        assert(ast.children_of(0) =~= seq![NodeId(1)]);
                        assert(ls_q.pos() == p);
                        if line_state.pos() > p {
                            assert(class_has(CharClass::SpaceTab, t[p]));
                        }
                        assert(t.subrange(p, p) =~= Seq::<char>::empty());
                    }
                }
                continue ;
            }
            let mut fcb_iter = line_state;
            if let Some(fcb) = fenced_code_block_encountered(&mut fcb_iter) {
                detighten_list(list_being_added_to_id_op, parsing_state, ast);
                close_paragraph(ast, parsing_state, lrd_table);
                let ghost before_add = *ast;
                add_block(ast, parsing_state.dmgci, fcb);
                proof {
                    lemma_keeps_kinds_wf(*parsing_state, before_add, *ast);
                    if scen_f {
                        assert(before_add.nodes@ == nodes_in);
                        assert(ast.children_of(0) =~= seq![NodeId(1)]);
                    }
                }
                return ;
            }
            let mut atx_iter = line_state;
            if let Some(atxh) = atx_heading_encountered(&mut atx_iter) {
                detighten_list(list_being_added_to_id_op, parsing_state, ast);
                close_paragraph(ast, parsing_state, lrd_table);
                let ghost before_add = *ast;
                add_block(ast, parsing_state.dmgci, atxh);
                proof {
                    lemma_keeps_kinds_wf(*parsing_state, before_add, *ast);
                    if scen_h {
                        assert(before_add.nodes@ == nodes_in);
                        assert(ast.children_of(0) =~= seq![NodeId(1)]);
                    }
                }
                return ;
            }
            let mut html_iter = line_state;
            if let Some(html) = html_start_encountered(
                &mut html_iter,
                parsing_state.open_par_above,
                line_state.space_from_last_structure,
            ) {
                detighten_list(list_being_added_to_id_op, parsing_state, ast);
                close_paragraph(ast, parsing_state, lrd_table);
                let ghost before_add = *ast;
                add_block(ast, parsing_state.dmgci, html);
                proof {
                    lemma_keeps_kinds_wf(*parsing_state, before_add, *ast);
                    if scen_x {
                        assert(before_add.nodes@ == nodes_in);
                        assert(ast.children_of(0) =~= seq![NodeId(1)]);
                        assert(spaces(0) + line_state_in.text().subrange(line_state_in.pos(), line_state_in.text().len() as int)
                            =~= line_state_in.text().subrange(line_state_in.pos(), line_state_in.text().len() as int));
                    }
                }
                return ;
            }
            break ;
        }
    }
    // at this point a list that a blank line loosened is loose
    detighten_list(list_being_added_to_id_op, parsing_state, ast);
    // a line that is blank from here on only opened structure (a list item or a block quote)
    if line_state.is_blank_line() {
        return ;
    }
    // continue an open paragraph lazily
    if let Some(lazy_paragraph_id) = parsing_state.lcpi_op {
        line_state.consume_indent();
        let ghost b10 = *ast;
        match ast.get_block(lazy_paragraph_id) {
            Block::Paragraph(inline, _) => {
                inline.add_extra_space_and_line(0, line_state.get_remaining_str());
            },
            _ => {},
        }
        proof {
            ast.lemma_same_kind_keeps_wf(&b10, lazy_paragraph_id.0 as int);
            assert(kind_of(ast.block_of(parsing_state.dmgci.0 as int)) == kind_of(b10.block_of(parsing_state.dmgci.0 as int)));
            if scen_c {
                assert(b10.nodes@ == nodes_in);
                assert(ast.children_of(0) == b10.children_of(0));
                assert(ast.children_of(1) == b10.children_of(1));
                assert(spaces(0) =~= Seq::<char>::empty());
            }
        }
        return ;
    }
    // without a paragraph to continue, an indented code block may start
    if line_state.space_from_last_structure >= 4 {
        let mut code: Vec<char> = Vec::new();
        push_code_line(&mut code, line_state.space_from_last_structure - 4, line_state.get_remaining_str());
        let ghost b11 = *ast;
        add_block(ast, parsing_state.dmgci, Block::IndentedCodeBlock(code, Vec::new()));
        proof {
            lemma_keeps_kinds_wf(*parsing_state, b11, *ast);
            if scen_i {
                assert(b11.nodes@ == nodes_in);
                assert(ast.children_of(0) =~= seq![NodeId(1)]);
            }
        }
        return ;
    }
    // finally, a new paragraph with what is left of the line
    line_state.consume_indent();
    let text = <Vec<char> as LeafContainerInline>::from_extra_space_and_line(0, line_state.get_remaining_str());
    let ghost b12 = *ast;
    add_block(ast, parsing_state.dmgci, Block::Paragraph(text, true));
    proof {
        lemma_keeps_kinds_wf(*parsing_state, b12, *ast);
        if scen_q {
            assert(ast.children_of(1) =~= seq![NodeId(2)]);
            assert(ast.children_of(0) == b12.children_of(0));
        }
        if scen_l {
            assert(ast.children_of(2) =~= seq![NodeId(3)]);
            assert(ast.children_of(0) == b12.children_of(0));
            assert(ast.children_of(1) == b12.children_of(1));
        }
    }
}

} // verus!

verus! {

/// Where the line that starts at `start` ends: the next line feed, or the end of the text.
fn line_end(markdown: &[char], start: usize) -> (end: usize)
    requires
        start <= markdown@.len(),
    ensures
        start <= end <= markdown@.len(),
        end == markdown@.len() || markdown@[end as int] == '\n',
        forall|k: int| start <= k < end ==> #[trigger] markdown@[k] != '\n',
{
    let mut end = start;
    while end < markdown.len() && markdown[end] != '\n'
        invariant
            start <= end <= markdown@.len(),
            forall|k: int| start <= k < end ==> #[trigger] markdown@[k] != '\n',
        decreases markdown@.len() - end,
    {
        end = end + 1;
    }
    end
}

/// A document of one line that starts with a plain character and holds no line feed.
pub open spec fn single_plain_line(md: Seq<char>) -> bool {
    &&& single_paragraph_line(md)
    &&& md[0] != '['
}

/// A document whose first line starts with a plain character and whose other lines each go on
/// with a paragraph (a line feed may end it): one paragraph.
pub open spec fn plain_lines(md: Seq<char>) -> bool {
    &&& md.len() > 0
    &&& md[0] != '\n'
    &&& plain_line_start(md[0])
    &&& forall|i: int|
        0 < i < md.len() && md[i - 1] == '\n' ==> #[trigger] md[i] != '\n' && continuation_start(line_at(md, i), 0)
}

/// A plain line and a line that goes on with its paragraph make one paragraph.
proof fn lemma_two_lines_one_paragraph(
    a: Seq<char>,
    b: Seq<char>,
    t: AbstractSyntaxTree<Vec<char>>,
    lrd: LRDTable,
)
    requires
        a.len() > 0,
        plain_line_start(a[0]),
        a[0] != '[',
        forall|k: int| 0 <= k < a.len() ==> #[trigger] a[k] != '\n',
        forall|k: int| 0 <= k < b.len() ==> #[trigger] b[k] != '\n',
        b.len() > 0,
        continuation_start(b, 0),
        block_structure_of(a + seq!['\n'] + b, t, lrd),
    ensures
        t.size() == 2,
        t.children_of(0) == seq![NodeId(1)],
        t.children_of(1).len() == 0,
        t.block_of(1) matches Block::Paragraph(v, false) && v@ == a + seq!['\n'] + b,
        lrd.defs().len() == 0,
{
    let md = a + seq!['\n'] + b;
    let n = a.len() as int;
    assert(b.len() > 0);
    assert(md[0] == a[0]);
    assert(md[n] == '\n');
    assert forall|i: int| 0 < i < md.len() && md[i - 1] == '\n' implies #[trigger] md[i] != '\n' && continuation_start(
        line_at(md, i),
        0,
    ) by {
        if i - 1 < n {
            assert(md[i - 1] == a[i - 1]);
        } else if i - 1 > n {
            assert(md[i - 1] == b[i - 1 - n - 1]);
        }
        assert(i == n + 1);
        assert(md[i] == b[0]);
        lemma_find_char_bounds(md, i, '\n');
        if let Some(k) = find_char(md, i, '\n') {
            assert(md[k] == b[k - n - 1]);
        }
        assert(line_at(md, i) =~= b);
    }
    assert(plain_lines(md));
    assert(md.last() == b.last());
    assert(without_final_newline(md) == md);
    assert(spec_definition(md) is None);
    assert(spec_split_definitions(md) == (Seq::<(Seq<char>, (Seq<char>, Option<Seq<char>>))>::empty(), md));
}

/// A line that starts with the marker of an ordered list item numbered other than 1 cannot
/// interrupt a paragraph: after a plain first line it goes on with the paragraph, so the
/// document of the two lines is one paragraph holding both, joined by a line feed.
pub proof fn law_ordered_item_not_one_continues_paragraph(
    a: Seq<char>,
    b: Seq<char>,
    t: AbstractSyntaxTree<Vec<char>>,
    lrd: LRDTable,
)
    requires
        a.len() > 0,
        plain_line_start(a[0]),
        a[0] != '[',
        forall|k: int| 0 <= k < a.len() ==> #[trigger] a[k] != '\n',
        forall|k: int| 0 <= k < b.len() ==> #[trigger] b[k] != '\n',
        spec_list_marker(b, 0) matches Some(ListType::OrderedList(_, s)) && s != 1,
        block_structure_of(a + seq!['\n'] + b, t, lrd),
    ensures
        t.size() == 2,
        t.children_of(0) == seq![NodeId(1)],
        t.children_of(1).len() == 0,
        t.block_of(1) matches Block::Paragraph(v, false) && v@ == a + seq!['\n'] + b,
        lrd.defs().len() == 0,
{
    lemma_two_lines_one_paragraph(a, b, t, lrd);
}

/// An empty bullet item (`*` or `+` with nothing but spaces and tabs after it) cannot interrupt
/// a paragraph either: after a plain first line it goes on with the paragraph.
pub proof fn law_empty_bullet_continues_paragraph(
    a: Seq<char>,
    b: Seq<char>,
    t: AbstractSyntaxTree<Vec<char>>,
    lrd: LRDTable,
)
    requires
        a.len() > 0,
        plain_line_start(a[0]),
        a[0] != '[',
        forall|k: int| 0 <= k < a.len() ==> #[trigger] a[k] != '\n',
        forall|k: int| 0 <= k < b.len() ==> #[trigger] b[k] != '\n',
        b.len() > 0,
        b[0] == '*' || b[0] == '+',
        forall|k: int| 1 <= k < b.len() ==> #[trigger] b[k] == ' ' || b[k] == '\t',
        block_structure_of(a + seq!['\n'] + b, t, lrd),
    ensures
        t.size() == 2,
        t.children_of(0) == seq![NodeId(1)],
        t.children_of(1).len() == 0,
        t.block_of(1) matches Block::Paragraph(v, false) && v@ == a + seq!['\n'] + b,
        lrd.defs().len() == 0,
{
    assert(empty_item_line(b, 0));
    lemma_two_lines_one_paragraph(a, b, t, lrd);
}

/// The document without the line feed that may end it.
pub open spec fn without_final_newline(md: Seq<char>) -> Seq<char> {
    if md.len() > 0 && md.last() == '\n' {
        md.drop_last()
    } else {
        md
    }
}

/// A document of one line: not empty, without a line feed.
pub open spec fn one_line(md: Seq<char>) -> bool {
    &&& md.len() > 0
    &&& forall|i: int| 0 <= i < md.len() ==> #[trigger] md[i] != '\n'
}

/// A document of one line that starts as a paragraph does (it may hold link reference
/// definitions).
pub open spec fn single_paragraph_line(md: Seq<char>) -> bool {
    &&& one_line(md)
    &&& plain_line_start(md[0])
}

/// What the block structure `t` and the definitions `lrd` built from the document `md` are
/// known to be: well formed; nothing for an empty document; for a document of lines that
/// start as a paragraph does, one paragraph holding what the link reference definitions at
/// its start leave, with those definitions in the table; for a one-line thematic break, ATX
/// heading, indented code block or HTML block, that block alone; for a one-line block quote or
/// bullet list item, the quote or the list and its item, with its paragraph; for a line and a
/// setext underline, the heading; for a fenced document, the closed fenced code block.
pub open spec fn block_structure_of(md: Seq<char>, t: AbstractSyntaxTree<Vec<char>>, lrd: LRDTable) -> bool {
    &&& t.wf()
    &&& lrd.wf()
    &&& md.len() == 0 ==> t.size() == 1 && lrd.labels().len() == 0
    &&& plain_lines(md) ==> {
        let (defs, rest) = spec_split_definitions(without_final_newline(md));
        &&& t.size() == 2
        &&& t.children_of(0) == seq![NodeId(1)]
        &&& t.children_of(1).len() == 0
        &&& t.block_of(1) matches Block::Paragraph(v, false) && v@ == rest
        &&& lrd.defs() == spec_define_all(seq![], defs)
    }
    &&& single_paragraph_line(md) ==> {
        let (defs, rest) = spec_split_definitions(md);
        &&& t.size() == 2
        &&& t.children_of(0) == seq![NodeId(1)]
        &&& t.children_of(1).len() == 0
        &&& t.block_of(1) matches Block::Paragraph(v, false) && v@ == rest
        &&& lrd.defs() == spec_define_all(seq![], defs)
    }
    &&& single_plain_line(md) ==> (t.block_of(1) matches Block::Paragraph(v, false) && v@ == md) && lrd.defs().len()
        == 0
    &&& one_line(md) && spec_thematic_break(md, 0) ==> {
        &&& t.size() == 2
        &&& t.children_of(0) == seq![NodeId(1)]
        &&& t.children_of(1).len() == 0
        &&& t.block_of(1) is ThematicBreak
        &&& lrd.defs().len() == 0
    }
    &&& one_line(md) ==> match spec_atx_start(md, 0) {
        Some(k) => {
            &&& t.size() == 2
            &&& t.children_of(0) == seq![NodeId(1)]
            &&& t.children_of(1).len() == 0
            &&& t.block_of(1) matches Block::Heading(il, level) && level == k && il@ == atx_heading_text(md, 0, k)
            &&& lrd.defs().len() == 0
        },
        None => true,
    }
    &&& one_line(md) && md[0] == '<' ==> match html_start_kind(md, 0, false) {
        Some(kind) => {
            &&& t.size() == 2
            &&& t.children_of(0) == seq![NodeId(1)]
            &&& t.children_of(1).len() == 0
            &&& t.block_of(1) matches Block::HTMLBlock(h, o, _) && h@ == md && (kind <= 5 ==> o == !contains_any(
                md,
                html_end_strs(kind),
            )) && (kind > 5 ==> o)
            &&& lrd.defs().len() == 0
        },
        None => true,
    }
    &&& one_line(md) && quote_line(md, 0) ==> quote_paragraph(t, md.subrange(2, md.len() as int)) && lrd.defs().len()
        == 0
    &&& forall|s: int| #[trigger] fenced_document(md, s) ==> fence_state(t, md, find_char(md, 0, '\n').unwrap(), s, false)
        && lrd.defs().len() == 0
    &&& one_line(md) && bullet_line(md, 0) ==> list_paragraph(
        t,
        ListType::UnorderedList(md[0]),
        md.subrange(2, md.len() as int),
    ) && lrd.defs().len() == 0
    &&& setext_document(md) ==> {
        let j = find_char(md, 0, '\n').unwrap();
        let u = without_final_newline(md.skip(j + 1));
        &&& t.size() == 2
        &&& t.children_of(0) == seq![NodeId(1)]
        &&& t.children_of(1).len() == 0
        &&& t.block_of(1) matches Block::Heading(h, level) && h@ == spec_trim_end(md.take(j)) && level == (if u[0]
            == '=' {
            1usize
        } else {
            2usize
        })
        &&& lrd.defs().len() == 0
    }
    &&& one_line(md) && indented_code_line(md, 0) ==> {
        &&& t.size() == 2
        &&& t.children_of(0) == seq![NodeId(1)]
        &&& t.children_of(1).len() == 0
        &&& t.block_of(1) matches Block::IndentedCodeBlock(c, _) && c@ == md.subrange(4, md.len() as int) + seq!['\n']
        &&& lrd.defs().len() == 0
    }
}

/// A definition on a line of its own takes the whole line.
pub proof fn lemma_one_line_definition(md: Seq<char>)
    requires
        single_paragraph_line(md),
        spec_definition(md) is Some,
    ensures
        spec_split_definitions(md).1.len() == 0,
{
    lemma_definition_bounds(md);
    let (le, (ds, de), ti, e) = spec_definition(md).unwrap();
    let p = skip_class(md, le + 1, CharClass::SpaceTabNewline);
    lemma_skip_class_bounds(md, le + 1, CharClass::SpaceTabNewline);
    lemma_link_destination_bounds(md, p);
    let (ds2, de2, q) = spec_parse_link_destination(md, p).unwrap();
    lemma_skip_class_bounds(md, q, CharClass::SpaceTab);
    let s = skip_class(md, q, CharClass::SpaceTab);
    if s > q {
        if let Some(k) = spec_parse_link_title(md, s) {
            crate::parsers::lemma_link_title_bounds(md, s);
            lemma_skip_class_bounds(md, k + 1, CharClass::SpaceTab);
        }
    }
    assert(e == md.len());
    assert(md.skip(e).len() == 0);
    assert(spec_definition(md.skip(e)) is None);
    assert(spec_split_definitions(md.skip(e)).1 == md.skip(e));
}

/// A document of two lines: one that starts as a paragraph does (not with `[`), then a setext
/// heading underline (a line feed may end the document).
pub open spec fn setext_document(md: Seq<char>) -> bool {
    match find_char(md, 0, '\n') {
        Some(j) => {
            &&& j > 0
            &&& plain_line_start(md[0])
            &&& md[0] != '['
            &&& one_line(without_final_newline(md.skip(j + 1)))
            &&& setext_underline(without_final_newline(md.skip(j + 1)))
        },
        None => false,
    }
}

/// The line of `md` that starts at `i`, without its line feed.
pub open spec fn line_at(md: Seq<char>, i: int) -> Seq<char> {
    match find_char(md, i, '\n') {
        Some(e) => md.subrange(i, e),
        None => md.subrange(i, md.len() as int),
    }
}

/// A document of a code fence line (not indented), lines of code that do not close it, and a
/// closing fence line that starts at `s` (a line feed may end the document).
pub open spec fn fenced_document(md: Seq<char>, s: int) -> bool {
    match find_char(md, 0, '\n') {
        Some(j) => match spec_fence(md.take(j), 0) {
            Some((c, k)) => {
                &&& j < s <= md.len()
                &&& md[s - 1] == '\n'
                &&& one_line(without_final_newline(md.skip(s)))
                &&& closing_fence(without_final_newline(md.skip(s)), 0, 0, 0, c, k)
                &&& forall|i: int|
                    j < i < s && md[i - 1] == '\n' ==> !closing_fence(#[trigger] line_at(md, i), 0, 0, 0, c, k)
            },
            None => false,
        },
        None => false,
    }
}

/// The tree `t` of a fenced document `md` (first line feed at `j`) whose fenced code block holds
/// the text from after the first line up to `e`, open or not as `o` says.
pub open spec fn fence_state(t: AbstractSyntaxTree<Vec<char>>, md: Seq<char>, j: int, e: int, o: bool) -> bool {
    let first = md.take(j);
    let (c, k) = spec_fence(first, 0).unwrap();
    &&& one_block(t)
    &&& t.block_of(1) matches Block::FencedCodeBlock(code, o2, ch, info, ind, cnt) && o2 == o && ch == c && cnt
        == k && ind == 0 && info@ == fence_info(first, k) && code@ =~= md.subrange(j + 1, e)
}

/// A line found by `line_end` is the line that starts there.
proof fn lemma_line_at(md: Seq<char>, start: int, end: int)
    requires
        0 <= start <= end <= md.len(),
        end == md.len() || md[end] == '\n',
        forall|k: int| start <= k < end ==> #[trigger] md[k] != '\n',
    ensures
        line_at(md, start) == md.subrange(start, end),
{
    lemma_find_char_bounds(md, start, '\n');
    match find_char(md, start, '\n') {
        Some(e) => {
            if e < end {
                assert(md[e] == '\n');
            }
            if e > end {
                assert(md[end] != '\n');
            }
        },
        None => {
            if end < md.len() {
                assert(md[end] != '\n');
            }
        },
    }
}

/// Two closing fence lines of a fenced document start at the same place.
proof fn lemma_fenced_document_unique(md: Seq<char>, s1: int, s2: int)
    requires
        fenced_document(md, s1),
        fenced_document(md, s2),
    ensures
        s1 == s2,
{
    lemma_fenced_document_order(md, s1, s2);
    lemma_fenced_document_order(md, s2, s1);
}

/// Where the closing fence line of a fenced document starts: after a line feed, with the rest
/// of the document one line.
proof fn lemma_fenced_document_bounds(md: Seq<char>, s: int)
    requires
        fenced_document(md, s),
    ensures
        0 < s <= md.len(),
        md[s - 1] == '\n',
        one_line(without_final_newline(md.skip(s))),
{
    lemma_find_char_bounds(md, 0, '\n');
    let j = find_char(md, 0, '\n').unwrap();
    let (c, k) = spec_fence(md.take(j), 0).unwrap();
}

proof fn lemma_fenced_document_order(md: Seq<char>, a: int, b: int)
    requires
        fenced_document(md, a),
        fenced_document(md, b),
    ensures
        a >= b,
{
    lemma_fenced_document_bounds(md, a);
    lemma_fenced_document_bounds(md, b);
    if a < b {
        let sa = md.skip(a);
        let sb = md.skip(b);
        let la = without_final_newline(sa);
        let lb = without_final_newline(sb);
        assert(sa[b - 1 - a] == md[b - 1]);
        assert(lb.len() > 0);
        if sa.len() > 0 && sa.last() == '\n' {
            assert(sb.last() == sa.last());
            assert(lb.len() == sb.len() - 1);
            assert(la[b - 1 - a] == sa[b - 1 - a]);
        } else {
            assert(la[b - 1 - a] == sa[b - 1 - a]);
        }
    }
}

/// The second line of a document, after the line feed at `j`, ends where the document ends or
/// at the line feed that ends the document.
proof fn lemma_last_line(md: Seq<char>, j: int, end: int)
    requires
        0 <= j < md.len(),
        one_line(without_final_newline(md.skip(j + 1))),
        j + 1 <= end <= md.len(),
        end == md.len() || md[end] == '\n',
        forall|k: int| j + 1 <= k < end ==> #[trigger] md[k] != '\n',
    ensures
        md.subrange(j + 1, end) == without_final_newline(md.skip(j + 1)),
        end < md.len() ==> end + 1 == md.len(),
{
    let s = md.skip(j + 1);
    let l = without_final_newline(s);
    assert(forall|k: int| 0 <= k < s.len() ==> #[trigger] s[k] == md[j + 1 + k]);
    if s.len() > 0 && s.last() == '\n' {
        assert(l =~= md.subrange(j + 1, md.len() - 1));
        if end < md.len() - 1 {
            assert(l[end - j - 1] == md[end]);
        }
        if end == md.len() {
            assert(md[md.len() - 1] != '\n');
        }
    } else {
        assert(l =~= md.subrange(j + 1, md.len() as int));
        if end < md.len() {
            assert(l[end - j - 1] == md[end]);
        }
    }
    assert(md.subrange(j + 1, end) =~= l);
}

/// A document that holds one open paragraph with the text `v`.
pub open spec fn one_open_paragraph(t: AbstractSyntaxTree<Vec<char>>, v: Seq<char>) -> bool {
    &&& t.size() == 2
    &&& t.children_of(0) == seq![NodeId(1)]
    &&& t.children_of(1).len() == 0
    &&& t.block_of(1) matches Block::Paragraph(w, true) && w@ == v
}

/// A document that holds one block, `b` (of `b`'s kind).
pub open spec fn one_block(t: AbstractSyntaxTree<Vec<char>>) -> bool {
    &&& t.size() == 2
    &&& t.children_of(0) == seq![NodeId(1)]
    &&& t.children_of(1).len() == 0
}

/// A document that holds one block, an open fenced code block whose fence was not indented.
pub open spec fn open_fence_doc(t: AbstractSyntaxTree<Vec<char>>) -> bool {
    &&& one_block(t)
    &&& t.block_of(1) matches Block::FencedCodeBlock(_, o, _, _, ind, _) && o && ind == 0
}

/// What a line does to the open fenced code block of `open_fence_doc` `t` (with the code `c`,
/// fence character `m`, info string `info` and fence length `cnt`), giving `u`: it closes the
/// block if it is a closing fence, else it adds itself and a line feed to the code.
pub open spec fn fence_line_effect(t: AbstractSyntaxTree<Vec<char>>, u: AbstractSyntaxTree<Vec<char>>, line: Seq<char>) -> bool {
    match t.block_of(1) {
        Block::FencedCodeBlock(c, _, m, info, ind, cnt) => {
            let closes = closing_fence(line, 0, 0, 0, m, cnt as int);
            &&& one_block(u)
            &&& u.block_of(1) matches Block::FencedCodeBlock(c2, o2, m2, info2, ind2, cnt2) && m2 == m && info2@ == info@
                && ind2 == ind && cnt2 == cnt && o2 == !closes && c2@ == (if closes {
                c@
            } else {
                c@ + line + seq!['\n']
            })
        },
        _ => false,
    }
}

/// A line of a document of plain lines starts with a plain character.
proof fn lemma_plain_line_start(md: Seq<char>, start: int)
    requires
        plain_lines(md),
        0 <= start < md.len(),
        start == 0 || md[start - 1] == '\n',
    ensures
        md[start] != '\n',
        start == 0 ==> plain_line_start(md[start]),
        start > 0 ==> continuation_start(line_at(md, start), 0),
{
}

/// The paragraph text after a line is the text before it, a line feed and the line.
proof fn lemma_line_join(md: Seq<char>, start: int, end: int)
    requires
        0 <= start < end <= md.len(),
        start == 0 || md[start - 1] == '\n',
        end == md.len() || md[end] == '\n',
        md[end - 1] != '\n',
    ensures
        md.subrange(start, end)[0] == md[start],
        md.take(end).len() > 0,
        without_final_newline(md.take(if end < md.len() {
            end + 1
        } else {
            end
        })) == md.take(end),
        start == 0 ==> md.subrange(start, end) == md.take(end),
        start > 0 ==> without_final_newline(md.take(start)) + seq!['\n'] + md.subrange(start, end) == md.take(end),
{
    if end < md.len() {
        assert(md.take(end + 1).drop_last() =~= md.take(end));
    } else {
        assert(md.take(end) =~= md);
    }
    if start == 0 {
        assert(md.subrange(start, end) =~= md.take(end));
    } else {
        assert(md.take(start).last() == '\n');
        assert(without_final_newline(md.take(start)) =~= md.take(start - 1));
        assert(md.take(start - 1) + seq!['\n'] + md.subrange(start, end) =~= md.take(end));
    }
}

/// A line of `=` or of `-` characters, then only spaces and tabs: a setext heading underline.
pub open spec fn setext_underline(line: Seq<char>) -> bool {
    &&& line.len() > 0
    &&& line[0] == '=' || line[0] == '-'
    &&& rest_is_blank(line, run_of(line, 0, line[0]))
}

/// A line that, as the first of a document, starts a leaf block of its own: a thematic break,
/// an ATX heading, a code fence, a line of indented code or the start of an HTML block.
#[verifier::opaque]
pub open spec fn own_leaf_line(line: Seq<char>) -> bool {
    ||| spec_thematic_break(line, 0)
    ||| spec_atx_start(line, 0) is Some
    ||| spec_fence(line, 0) is Some
    ||| indented_code_line(line, 0)
    ||| line.len() > 0 && line[0] == '<' && html_start_kind(line, 0, false) is Some
}

/// The tree `t` after the first line `line` of a document: the thematic break, the ATX heading,
/// the (empty, open) fenced code block, the indented code block or the HTML block that the line
/// is or starts.
#[verifier::opaque]
pub open spec fn own_leaf_blocks(line: Seq<char>, t: AbstractSyntaxTree<Vec<char>>) -> bool {
    &&& spec_thematic_break(line, 0) ==> one_block(t) && t.block_of(1) is ThematicBreak
    &&& match spec_atx_start(line, 0) {
        Some(k) => one_block(t) && (t.block_of(1) matches Block::Heading(il, level) && level == k && il@
            == atx_heading_text(line, 0, k)),
        None => true,
    }
    &&& indented_code_line(line, 0) ==> one_block(t) && (t.block_of(1) matches Block::IndentedCodeBlock(c, u)
        && u@.len() == 0 && c@ == line.subrange(4, line.len() as int) + seq!['\n'])
    &&& match spec_fence(line, 0) {
        Some((c, k)) => one_block(t) && (t.block_of(1) matches Block::FencedCodeBlock(code, o, ch, info, ind, cnt)
            && code@.len() == 0 && o && ch == c && cnt == k && ind == 0 && info@ == fence_info(line, k)),
        None => true,
    }
    &&& line.len() > 0 && line[0] == '<' ==> match html_start_kind(line, 0, false) {
        Some(kind) => one_block(t) && (t.block_of(1) matches Block::HTMLBlock(h, o, _) && h@ == line && (kind <= 5
            ==> o == !contains_any(line, html_end_strs(kind))) && (kind > 5 ==> o)),
        None => true,
    }
}

/// Matches a line (without its line feed) against the open blocks and adds what it starts or
/// continues.
fn process_line(
    tree: &mut AbstractSyntaxTree<Vec<char>>,
    parsing_state: &mut ParsingState,
    lrd_table: &mut LRDTable,
    line: &[char],
)
    requires
        old(tree).wf(),
        old(parsing_state).wf(*old(tree)),
        old(lrd_table).wf(),
        old(parsing_state).line_number < usize::MAX,
        4 * line@.len() + 64 <= usize::MAX,
        old(tree).size() + 2 * line@.len() + 4 < usize::MAX,
    ensures
        final(tree).wf(),
        final(parsing_state).wf(*final(tree)),
        final(lrd_table).wf(),
        final(tree).size() <= old(tree).size() + 2 * line@.len() + 2,
        final(parsing_state).line_number == old(parsing_state).line_number + 1,
        old(tree).size() == 1 && line@.len() > 0 ==> {
            &&& plain_line_start(line@[0]) ==> one_open_paragraph(*final(tree), line@)
            &&& own_leaf_blocks(line@, *final(tree))
            &&& quote_line(line@, 0) ==> quote_paragraph(*final(tree), line@.subrange(2, line@.len() as int))
            &&& bullet_line(line@, 0) ==> list_paragraph(
                *final(tree),
                ListType::UnorderedList(line@[0]),
                line@.subrange(2, line@.len() as int),
            )
            &&& (plain_line_start(line@[0]) || own_leaf_line(line@) || quote_line(line@, 0) || bullet_line(line@, 0))
                ==> final(lrd_table).defs() == old(lrd_table).defs()
        },
        open_fence_doc(*old(tree)) ==> fence_line_effect(*old(tree), *final(tree), line@) && final(lrd_table).defs()
            == old(lrd_table).defs(),
        ({
            let v = inline_text(old(tree).block_of(1));
            one_open_paragraph(*old(tree), v) && v.len() > 0 && v[0] != '[' && setext_underline(line@) ==> {
                &&& one_block(*final(tree))
                &&& final(tree).block_of(1) matches Block::Heading(h, level) && h@ == spec_trim_end(v) && level == (if line@[0]
                    == '=' {
                    1usize
                } else {
                    2usize
                })
                &&& final(lrd_table).defs() == old(lrd_table).defs()
            }
        }),
        forall|v: Seq<char>|
            one_open_paragraph(*old(tree), v) && v.len() > 0 && line@.len() > 0 && continuation_start(line@, 0) ==> {
                &&& one_open_paragraph(*final(tree), #[trigger] (v + seq!['\n'] + line@))
                &&& final(lrd_table).defs() == old(lrd_table).defs()
            },
{
    let line_state = LineState::new(line);
    let ghost before = *tree;
    proof {
        assert(tree.node_wf(0));
        if tree.size() == 1 {
            assert(tree.children_of(0).len() == 0) by {
                if tree.children_of(0).len() > 0 {
                    assert(0 < tree.children_of(0)[0].0 < tree.size());
                }
            }
        }
        if line@.len() > 0 && plain_line_start(line@[0]) {
            assert(line@[0] != ' ' && line@[0] != '\t');
        }
        if line@.len() > 0 && continuation_start(line@, 0) && !plain_line_start(line@[0]) {
            if spec_list_marker(line@, 0) matches Some(ListType::OrderedList(..)) {
                lemma_ordered_marker_digit(line@, 0);
            }
        }
        if spec_thematic_break(line@, 0) {
            assert(line@[0] != ' ' && line@[0] != '\t');
        }
        if spec_atx_start(line@, 0) is Some {
            assert(line@[0] == '#');
        }
        if open_fence_doc(*tree) {
            assert(spaces(0) + line@.subrange(0, line@.len() as int) =~= line@);
        }
    }
    let checked = check_tree_state(tree, parsing_state, Some(line_state));
    if let Some(ls) = checked {
        create_new_block_starts(tree, parsing_state, ls, lrd_table);
    }
    proof {
        assert forall|v: Seq<char>|
            one_open_paragraph(before, v) && v.len() > 0 && line@.len() > 0 && continuation_start(line@, 0) implies {
                &&& one_open_paragraph(*tree, #[trigger] (v + seq!['\n'] + line@))
                &&& lrd_table.defs() == old(lrd_table).defs()
            } by {
            assert(inline_text(before.block_of(1)) == v);
            assert(line@.subrange(0, line@.len() as int) =~= line@);
        }
        if before.size() == 1 && line@.len() > 0 {
            assert(line@.subrange(0, line@.len() as int) =~= line@);
            reveal(own_leaf_blocks);
            reveal(own_leaf_line);
        }
    }
}

/// Splits a document into lines and builds its block structure, line by line, together with
/// the link reference definitions it holds.
#[verifier::rlimit(60)]
pub fn create_block_structure(markdown: &[char]) -> (r: (AbstractSyntaxTree<Vec<char>>, LRDTable))
    requires
        8 * markdown@.len() + 64 <= usize::MAX,
    ensures
        block_structure_of(markdown@, r.0, r.1),
{
    let ghost plain = single_paragraph_line(markdown@);
    let ghost multi = plain_lines(markdown@);
    let ghost one = one_line(markdown@);
    let ghost own = one && own_leaf_line(markdown@);
    let ghost set2 = setext_document(markdown@);
    let ghost q1 = one && quote_line(markdown@, 0);
    let ghost l1 = one && bullet_line(markdown@, 0);
    let ghost fd = exists|s: int| fenced_document(markdown@, s);
    let ghost fs = choose|s: int| fenced_document(markdown@, s);
    let ghost j = match find_char(markdown@, 0, '\n') {
        Some(k) => k,
        None => 0,
    };
    proof {
        lemma_find_char_bounds(markdown@, 0, '\n');
    }
    let mut lrd_table = LRDTable::new();
    let mut tree: AbstractSyntaxTree<Vec<char>> = AbstractSyntaxTree::default();
    if markdown.len() == 0 {
        return (tree, lrd_table);
    }
    let start_id = tree.get_head_id();
    let mut parsing_state = ParsingState {
        open_block_id: start_id,
        open_par_above: false,
        lcpi_op: None,
        blank_line_depth: None,
        deepest_quote: 0,
        snmoqio: None,
        dmgci: tree.get_head_id(),
        line_number: 0,
    };
    let mut start: usize = 0;
    while start < markdown.len()
        invariant
            8 * markdown@.len() + 64 <= usize::MAX,
            start <= markdown@.len(),
            tree.wf(),
            lrd_table.wf(),
            parsing_state.wf(tree),
            tree.size() <= 1 + 4 * start,
            parsing_state.line_number <= start,
            one == one_line(markdown@),
            own == (one && own_leaf_line(markdown@)),
            multi == plain_lines(markdown@),
            one ==> start == 0 || start == markdown@.len(),
            multi || own || set2 || q1 || l1 ==> lrd_table.defs() == Seq::<(Seq<char>, (Seq<char>, Option<Seq<char>>))>::empty(),
            l1 == (one && bullet_line(markdown@, 0)),
            fd ==> fenced_document(markdown@, fs) && find_char(markdown@, 0, '\n') == Some(j) && 0 < j < markdown@.len()
                && markdown@[j] == '\n' && forall|k: int| 0 <= k < j ==> #[trigger] markdown@[k] != '\n',
            fd ==> lrd_table.defs() == Seq::<(Seq<char>, (Seq<char>, Option<Seq<char>>))>::empty(),
            fd ==> (start == 0 && tree.size() == 1) || (j + 1 <= start <= fs && markdown@[start - 1] == '\n'
                && fence_state(tree, markdown@, j, start as int, true)) || (start == markdown@.len() && fence_state(
                tree,
                markdown@,
                j,
                fs,
                false,
            )),
            l1 ==> (start == 0 && tree.size() == 1) || (start == markdown@.len() && list_paragraph(
                tree,
                ListType::UnorderedList(markdown@[0]),
                markdown@.subrange(2, markdown@.len() as int),
            )),
            q1 == (one && quote_line(markdown@, 0)),
            q1 ==> (start == 0 && tree.size() == 1) || (start == markdown@.len() && quote_paragraph(
                tree,
                markdown@.subrange(2, markdown@.len() as int),
            )),
            set2 == setext_document(markdown@),
            set2 ==> find_char(markdown@, 0, '\n') == Some(j) && 0 < j < markdown@.len() && markdown@[j] == '\n' && forall|k: int|
                0 <= k < j ==> #[trigger] markdown@[k] != '\n',
            set2 ==> (start == 0 && tree.size() == 1) || (start == j + 1 && one_open_paragraph(tree, markdown@.take(j)))
                || (start == markdown@.len() && one_block(tree) && (tree.block_of(1) matches Block::Heading(h, level)
                && h@ == spec_trim_end(markdown@.take(j)) && level == (if markdown@[j + 1] == '=' {
                1usize
            } else {
                2usize
            }))),
            own ==> (start == 0 && tree.size() == 1) || (start == markdown@.len() && own_leaf_blocks(markdown@, tree)),
            multi ==> (start == 0 && tree.size() == 1) || (0 < start && (start == markdown@.len() || markdown@[start
                - 1] == '\n') && without_final_newline(markdown@.take(start as int)).len() > 0 && one_open_paragraph(
                tree,
                without_final_newline(markdown@.take(start as int)),
            )),
        decreases markdown@.len() - start,
    {
        let end = line_end(markdown, start);
        let line = vstd::slice::slice_subrange(markdown, start, end);
        proof {
            assert(line@ == markdown@.subrange(start as int, end as int));
            if one {
                assert(end == markdown@.len());
                assert(line@ =~= markdown@);
            }
            if multi {
                lemma_plain_line_start(markdown@, start as int);
                lemma_find_char_bounds(markdown@, start as int, '\n');
                if end < markdown@.len() {
                    assert(find_char(markdown@, start as int, '\n') == Some(end as int));
                } else {
                    assert(find_char(markdown@, start as int, '\n') is None);
                }
                assert(line@ == line_at(markdown@, start as int));
                assert(markdown@[end - 1] != '\n');
                lemma_line_join(markdown@, start as int, end as int);
            }
            if fd {
                lemma_fenced_document_bounds(markdown@, fs);
                if start == 0 {
                    if end < j {
                        assert(markdown@[end as int] == '\n');
                    }
                    if end > j {
                        assert(markdown@[j] != '\n');
                    }
                    assert(line@ =~= markdown@.take(j));
                } else if start < fs {
                    lemma_line_at(markdown@, start as int, end as int);
                    if end >= fs {
                        assert(markdown@[fs - 1] != '\n');
                    }
                    assert(markdown@.subrange(j + 1, start as int) + line@ + seq!['\n'] =~= markdown@.subrange(
                        j + 1,
                        end + 1,
                    ));
                } else {
                    lemma_last_line(markdown@, fs - 1, end as int);
                }
            }
            if set2 {
                if start == 0 {
                    if end < j {
                        assert(markdown@[end as int] == '\n');
                    }
                    if end > j {
                        assert(markdown@[j] != '\n');
                    }
                    assert(end == j);
                    assert(line@ =~= markdown@.take(j));
                } else {
                    lemma_last_line(markdown@, j, end as int);
                    assert(line@[0] == markdown@[j + 1]);
                }
            }
        }
        let ghost prev = without_final_newline(markdown@.take(start as int));
        process_line(&mut tree, &mut parsing_state, &mut lrd_table, line);
        proof {
            if multi && start > 0 {
                assert(one_open_paragraph(tree, prev + seq!['\n'] + line@));
            }
            if fd && start == 0 {
                reveal(own_leaf_line);
                reveal(own_leaf_blocks);
                assert(spec_fence(line@, 0) is Some);
            }
        }
        start = if end < markdown.len() {
            end + 1
        } else {
            end
        };
    }
    check_tree_state(&tree, &mut parsing_state, None);
    proof {
        reveal(own_leaf_line);
        if own {
            reveal(own_leaf_blocks);
            assert(tree.node_wf(0));
            assert(parsing_state.lcpi_op is None);
        }
        if set2 {
            assert(tree.node_wf(0));
            assert(parsing_state.lcpi_op is None);
        }
        if q1 {
            assert(tree.node_wf(0));
            if let Some(id) = parsing_state.lcpi_op {
                assert(id.0 == 2);
            }
        }
        if l1 {
            assert(tree.node_wf(0));
            if let Some(id) = parsing_state.lcpi_op {
                assert(id.0 == 3);
            }
        }
        if fd {
            assert(tree.node_wf(0));
            assert(parsing_state.lcpi_op is None);
        }
    }
    let ghost lc = parsing_state.lcpi_op;
    let ghost before_close = tree;
    close_paragraph(&mut tree, &mut parsing_state, &mut lrd_table);
    proof {
        if own {
            reveal(own_leaf_blocks);
            assert(tree.nodes@ == before_close.nodes@);
            assert(own_leaf_blocks(markdown@, before_close));
        }
        if fd {
            assert(tree.nodes@ == before_close.nodes@);
            assert forall|s2: int| #[trigger] fenced_document(markdown@, s2) implies fence_state(
                tree,
                markdown@,
                find_char(markdown@, 0, '\n').unwrap(),
                s2,
                false,
            ) by {
                lemma_fenced_document_unique(markdown@, s2, fs);
            }
        }
        if l1 {
            assert(tree.children_of(0) == before_close.children_of(0));
            assert(tree.children_of(1) == before_close.children_of(1));
            assert(tree.children_of(2) == before_close.children_of(2));
            assert(tree.children_of(3) == before_close.children_of(3));
            assert(tree.block_of(1) == before_close.block_of(1));
            assert(tree.block_of(2) == before_close.block_of(2));
            if lc is None {
                assert(tree.block_of(3) == before_close.block_of(3));
            }
        }
        if q1 {
            assert(tree.children_of(0) == before_close.children_of(0));
            assert(tree.children_of(1) == before_close.children_of(1));
            assert(tree.children_of(2) == before_close.children_of(2));
            assert(tree.block_of(1) == before_close.block_of(1));
            if lc is None {
                assert(tree.block_of(2) == before_close.block_of(2));
            }
        }
        if multi {
            assert(markdown@.take(markdown@.len() as int) =~= markdown@);
        }
        if plain {
            assert(plain_lines(markdown@));
            assert(without_final_newline(markdown@) == markdown@);
        }
        if single_plain_line(markdown@) {
            assert(spec_definition(markdown@) is None);
            assert(spec_split_definitions(markdown@).0.len() == 0);
        }
    }
    (tree, lrd_table)
}

} // verus!

verus! {

/// A tab moves to the next tab stop (every four columns), at least one column on, and counts
/// as that many columns of space.
pub proof fn law_tab_stop(ecn: int, sfls: int)
    requires
        ecn >= 0,
    ensures
        ({
            let (e, f) = col_step(ecn, sfls, '\t');
            &&& e % 4 == 0
            &&& ecn < e <= ecn + 4
            &&& f - sfls == e - ecn
        }),
{
}

} // verus!
