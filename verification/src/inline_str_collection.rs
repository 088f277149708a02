//! The text that a leaf block gathers, line by line.
use vstd::prelude::*;
use crate::peekable_char_indices::BorrowedStringPCI;
use std::ops::Range;

verus! {

/// `n` spaces.
pub open spec fn spaces(n: nat) -> Seq<char> {
    Seq::new(n, |i: int| ' ')
}

/// What `add_extra_space_and_line` makes of `s`: a line feed if `s` already holds text, then
/// `extra_space` spaces, then the line.
pub open spec fn spec_add_line(s: Seq<char>, extra_space: nat, line: Seq<char>) -> Seq<char> {
    (if s.len() > 0 {
        s.push('\n')
    } else {
        s
    }) + spaces(extra_space) + line
}

/// `s` without its trailing spaces and tabs.
pub open spec fn spec_trim_end(s: Seq<char>) -> Seq<char>
    decreases s.len(),
{
    if s.len() > 0 && (s.last() == ' ' || s.last() == '\t') {
        spec_trim_end(s.drop_last())
    } else {
        s
    }
}

/// Text gathered for a leaf block, as its characters.
pub trait LeafContainerInline: Sized {
    spec fn chars(&self) -> Seq<char>;

    fn is_empty(&self) -> (r: bool)
        ensures
            r == (self.chars().len() == 0),
    ;

    /// A cursor over the whole text.
    fn as_pci(&self) -> (r: BorrowedStringPCI<'_>)
        ensures
            r.iter@ == self.chars(),
            r.peeked == 0,
    ;

    /// A cursor over the characters of `range` (clipped to the text).
    fn chars_in_range(&self, range: Range<usize>) -> (r: BorrowedStringPCI<'_>)
        ensures
            r.peeked == 0,
            range.start <= range.end <= self.chars().len() ==> r.iter@ == self.chars().subrange(
                range.start as int,
                range.end as int,
            ),
    ;

    /// Adds a line, after a line feed when there is text already, indented by `extra_space`
    /// spaces.
    fn add_extra_space_and_line(&mut self, extra_space: usize, line: &[char])
        ensures
            final(self).chars() == spec_add_line(old(self).chars(), extra_space as nat, line@),
    ;

    fn from_extra_space_and_line(extra_space: usize, line: &[char]) -> (r: Self)
        ensures
            r.chars() == spaces(extra_space as nat) + line@,
    ;

    /// The text before `offset` and the text from there on.
    fn split(self, offset: usize) -> (r: (Self, Self))
        requires
            offset <= self.chars().len(),
        ensures
            r.0.chars() == self.chars().take(offset as int),
            r.1.chars() == self.chars().skip(offset as int),
    ;

    /// Drops trailing spaces and tabs (a setext heading's text does not keep them).
    fn remove_final_spaces(&mut self)
        ensures
            final(self).chars() == spec_trim_end(old(self).chars()),
    ;

    fn append_other(&mut self, other: Self)
        ensures
            final(self).chars() == old(self).chars() + other.chars(),
    ;

    /// Drops the text before `offset`.
    fn remove_up_to(&mut self, offset: usize)
        requires
            offset <= old(self).chars().len(),
        ensures
            final(self).chars() == old(self).chars().skip(offset as int),
    ;
}

impl LeafContainerInline for Vec<char> {
    open spec fn chars(&self) -> Seq<char> {
        self@
    }

    fn is_empty(&self) -> (r: bool) {
        self.len() == 0
    }

    fn as_pci(&self) -> (r: BorrowedStringPCI<'_>) {
        BorrowedStringPCI::new(self.as_slice())
    }

    fn chars_in_range(&self, range: Range<usize>) -> (r: BorrowedStringPCI<'_>) {
        let s = self.as_slice();
        if range.start <= range.end && range.end <= s.len() {
            BorrowedStringPCI::new(vstd::slice::slice_subrange(s, range.start, range.end))
        } else {
            let e: &[char] = &[];
            BorrowedStringPCI::new(e)
        }
    }

    fn add_extra_space_and_line(&mut self, extra_space: usize, line: &[char]) {
        let ghost s0 = self@;
        if self.len() > 0 {
            self.push('\n');
        }
        let ghost s1 = self@;
        let mut i: usize = 0;
        while i < extra_space
            invariant
                i <= extra_space,
                self@ == s1 + spaces(i as nat),
            decreases extra_space - i,
        {
            self.push(' ');
            i = i + 1;
            assert(self@ =~= s1 + spaces(i as nat));
        }
        let ghost s2 = self@;
        let mut j: usize = 0;
        while j < line.len()
            invariant
                j <= line@.len(),
                self@ == s2 + line@.take(j as int),
            decreases line@.len() - j,
        {
            self.push(line[j]);
            j = j + 1;
            assert(self@ =~= s2 + line@.take(j as int));
        }
        assert(line@.take(line@.len() as int) =~= line@);
    }

    fn from_extra_space_and_line(extra_space: usize, line: &[char]) -> (r: Self) {
        let mut out: Vec<char> = Vec::new();
        out.add_extra_space_and_line(extra_space, line);
        assert(out@ =~= spaces(extra_space as nat) + line@);
        out
    }

    fn split(self, offset: usize) -> (r: (Self, Self)) {
        let mut front: Vec<char> = Vec::new();
        let mut back: Vec<char> = Vec::new();
        let mut i: usize = 0;
        while i < self.len()
            invariant
                offset <= self@.len(),
                i <= self@.len(),
                i <= offset ==> front@ == self@.take(i as int) && back@.len() == 0,
                i > offset ==> front@ == self@.take(offset as int) && back@ == self@.subrange(
                    offset as int,
                    i as int,
                ),
            decreases self@.len() - i,
        {
            if i < offset {
                front.push(self[i]);
                assert(front@ =~= self@.take(i + 1));
            } else {
                back.push(self[i]);
                assert(back@ =~= self@.subrange(offset as int, i + 1));
            }
            i = i + 1;
        }
        assert(back@ =~= self@.skip(offset as int));
        assert(front@ =~= self@.take(offset as int));
        (front, back)
    }

    fn remove_final_spaces(&mut self) {
        loop
            invariant
                spec_trim_end(self@) == spec_trim_end(old(self)@),
            ensures
                self@ == spec_trim_end(old(self)@),
            decreases self@.len(),
        {
            if self.len() > 0 && (self[self.len() - 1] == ' ' || self[self.len() - 1] == '\t') {
                let ghost before = self@;
                self.pop();
                assert(self@ =~= before.drop_last());
            } else {
                break ;
            }
        }
    }

    fn append_other(&mut self, other: Self) {
        let mut other = other;
        self.append(&mut other);
    }

    fn remove_up_to(&mut self, offset: usize) {
        let mut out: Vec<char> = Vec::new();
        let mut i: usize = offset;
        while i < self.len()
            invariant
                offset <= i <= self@.len(),
                out@ == self@.subrange(offset as int, i as int),
            decreases self@.len() - i,
        {
            out.push(self[i]);
            i = i + 1;
            assert(out@ =~= self@.subrange(offset as int, i as int));
        }
        assert(out@ =~= self@.skip(offset as int));
        *self = out;
    }
}

} // verus!
