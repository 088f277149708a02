use vstd::prelude::*;
use crate::char_class::{class_has, in_class, skip_class, CharClass};

verus! {

/// A cursor over a fixed character sequence that can look one character ahead.
///
/// Its model is the whole text it walks (`text`) and the index of the next
/// character it hands out (`pos`); `pos == text.len()` means it is exhausted.
pub trait PeekableCharIndices: Sized {
    spec fn text(&self) -> Seq<char>;

    spec fn pos(&self) -> int;

    spec fn wf(&self) -> bool;

    /// A well-formed cursor stands inside its text, whose length fits in `usize`.
    proof fn lemma_wf_bounds(&self)
        requires
            self.wf(),
        ensures
            0 <= self.pos() <= self.text().len(),
            self.text().len() <= usize::MAX,
    ;

    /// Hands out the next character together with its index.
    fn next_and_index(&mut self) -> (r: Option<(usize, char)>)
        requires
            old(self).wf(),
        ensures
            final(self).wf(),
            final(self).text() == old(self).text(),
            0 <= old(self).pos() <= old(self).text().len(),
            old(self).pos() < old(self).text().len() ==> {
                &&& r == Some((old(self).pos() as usize, old(self).text()[old(self).pos()]))
                &&& final(self).pos() == old(self).pos() + 1
            },
            old(self).pos() >= old(self).text().len() ==> r is None && final(self).pos()
                == old(self).pos(),
    ;

    /// The next character and its index, without moving.
    fn peek_and_index(&self) -> (r: Option<(usize, char)>)
        requires
            self.wf(),
        ensures
            0 <= self.pos() <= self.text().len(),
            self.pos() < self.text().len() ==> r == Some(
                (self.pos() as usize, self.text()[self.pos()]),
            ),
            self.pos() >= self.text().len() ==> r is None,
    ;

    /// The index of the next character (the text's length once exhausted).
    fn offset(&self) -> (r: usize)
        requires
            self.wf(),
        ensures
            r == self.pos(),
            r <= self.text().len(),
    ;

    /// The next character, without moving.
    fn peek(&self) -> (r: Option<char>)
        requires
            self.wf(),
        ensures
            self.pos() < self.text().len() ==> r == Some(self.text()[self.pos()]),
            self.pos() >= self.text().len() ==> r is None,
    {
        match self.peek_and_index() {
            Some((_, c)) => Some(c),
            None => None,
        }
    }

    /// Whether no character is left.
    fn is_empty(&self) -> (r: bool)
        requires
            self.wf(),
        ensures
            r == (self.pos() >= self.text().len()),
    {
        self.peek().is_none()
    }

    /// Hands out the next character when it equals `c`; otherwise stays put.
    fn next_if_char_eq(&mut self, c: char) -> (r: Option<char>)
        requires
            old(self).wf(),
        ensures
            final(self).wf(),
            final(self).text() == old(self).text(),
            (old(self).pos() < old(self).text().len() && old(self).text()[old(self).pos()] == c)
                ==> r == Some(c) && final(self).pos() == old(self).pos() + 1,
            !(old(self).pos() < old(self).text().len() && old(self).text()[old(self).pos()]
                == c) ==> r is None && final(self).pos() == old(self).pos(),
    {
        match self.peek() {
            Some(p) => {
                if p == c {
                    self.next_and_index();
                    Some(c)
                } else {
                    None
                }
            },
            None => None,
        }
    }

    /// Hands out the next character when `func` accepts it; otherwise stays put.
    fn next_if<F: Fn(char) -> bool>(&mut self, func: F) -> (r: Option<char>)
        requires
            old(self).wf(),
            forall|c: char| #[trigger] func.requires((c,)),
        ensures
            final(self).wf(),
            final(self).text() == old(self).text(),
            r matches Some(c) ==> {
                &&& old(self).pos() < old(self).text().len()
                &&& c == old(self).text()[old(self).pos()]
                &&& func.ensures((c,), true)
                &&& final(self).pos() == old(self).pos() + 1
            },
            r is None ==> final(self).pos() == old(self).pos() && (old(self).pos()
                >= old(self).text().len() || func.ensures(
                (old(self).text()[old(self).pos()],),
                false,
            )),
    {
        match self.peek() {
            Some(p) => {
                if func(p) {
                    self.next_and_index();
                    Some(p)
                } else {
                    None
                }
            },
            None => None,
        }
    }

    /// Hands out the next character when it is in `cls`; otherwise stays put.
    fn next_if_in(&mut self, cls: CharClass) -> (r: Option<char>)
        requires
            old(self).wf(),
        ensures
            final(self).wf(),
            final(self).text() == old(self).text(),
            (old(self).pos() < old(self).text().len() && class_has(cls, old(self).text()[old(self).pos()]))
                ==> r == Some(old(self).text()[old(self).pos()]) && final(self).pos() == old(self).pos() + 1,
            !(old(self).pos() < old(self).text().len() && class_has(cls, old(self).text()[old(self).pos()]))
                ==> r is None && final(self).pos() == old(self).pos(),
    {
        match self.peek() {
            Some(p) => {
                if in_class(cls, p) {
                    self.next_and_index();
                    Some(p)
                } else {
                    None
                }
            },
            None => None,
        }
    }

    /// Skips every leading character in `cls` and says how many it skipped.
    fn consume_while_in(&mut self, cls: CharClass) -> (n: usize)
        requires
            old(self).wf(),
        ensures
            final(self).wf(),
            final(self).text() == old(self).text(),
            final(self).pos() == skip_class(old(self).text(), old(self).pos(), cls),
            final(self).pos() == old(self).pos() + n,
    {
        let mut n: usize = 0;
        proof {
            self.lemma_wf_bounds();
        }
        loop
            invariant
                self.wf(),
                self.text() == old(self).text(),
                self.pos() == old(self).pos() + n,
                0 <= old(self).pos() <= self.pos() <= old(self).text().len(),
                old(self).text().len() <= usize::MAX,
                skip_class(old(self).text(), old(self).pos(), cls) == skip_class(self.text(), self.pos(), cls),
            ensures
                self.wf(),
                self.text() == old(self).text(),
                self.pos() == old(self).pos() + n,
                self.pos() == skip_class(old(self).text(), old(self).pos(), cls),
            decreases self.text().len() - self.pos(),
        {
            if self.next_if_in(cls).is_none() {
                break ;
            }
            n = n + 1;
        }
        n
    }

    /// Skips every leading character equal to `c` and says how many it skipped.
    fn consume_while_char_eq(&mut self, c: char) -> (n: usize)
        requires
            old(self).wf(),
        ensures
            final(self).wf(),
            final(self).text() == old(self).text(),
            final(self).pos() == old(self).pos() + n,
            forall|i: int|
                old(self).pos() <= i < final(self).pos() ==> #[trigger] old(self).text()[i] == c,
            final(self).pos() >= final(self).text().len() || final(self).text()[final(self).pos()] != c,
    {
        let mut n: usize = 0;
        proof {
            self.lemma_wf_bounds();
        }
        loop
            invariant
                self.wf(),
                self.text() == old(self).text(),
                self.pos() == old(self).pos() + n,
                0 <= old(self).pos() <= old(self).text().len(),
                forall|i: int| old(self).pos() <= i < self.pos() ==> #[trigger] old(self).text()[i] == c,
            ensures
                self.wf(),
                self.text() == old(self).text(),
                self.pos() == old(self).pos() + n,
                forall|i: int| old(self).pos() <= i < self.pos() ==> #[trigger] old(self).text()[i] == c,
                self.pos() >= self.text().len() || self.text()[self.pos()] != c,
            decreases self.text().len() - self.pos(),
        {
            proof {
                self.lemma_wf_bounds();
            }
            if self.next_if_char_eq(c).is_none() {
                break ;
            }
            proof {
                self.lemma_wf_bounds();
            }
            n = n + 1;
        }
        n
    }
}

/// A cursor over a borrowed slice of characters.
#[derive(Debug, Clone, Copy)]
pub struct BorrowedStringPCI<'a> {
    pub iter: &'a [char],
    pub peeked: usize,
}

impl<'a> BorrowedStringPCI<'a> {
    /// A cursor at the start of `string_in`.
    pub fn new(string_in: &'a [char]) -> (r: Self)
        ensures
            r.iter@ == string_in@,
            r.peeked == 0,
    {
        BorrowedStringPCI { iter: string_in, peeked: 0 }
    }

    /// The next character, if any.
    pub fn next(&mut self) -> (r: Option<char>)
        requires
            old(self).wf(),
        ensures
            final(self).wf(),
            final(self).iter@ == old(self).iter@,
            old(self).peeked < old(self).iter@.len() ==> r == Some(old(self).iter@[old(self).peeked as int])
                && final(self).peeked == old(self).peeked + 1,
            old(self).peeked >= old(self).iter@.len() ==> r is None && final(self).peeked == old(self).peeked,
    {
        match self.next_and_index() {
            Some((_, c)) => Some(c),
            None => None,
        }
    }

    /// Collects the characters from the cursor up to (not including) `last_offset`.
    pub fn collect_until_offset(&mut self, last_offset: usize) -> (out: Vec<char>)
        requires
            old(self).peeked <= old(self).iter@.len(),
            last_offset <= old(self).iter@.len(),
        ensures
            final(self).iter@ == old(self).iter@,
            old(self).peeked <= last_offset ==> {
                &&& out@ == old(self).iter@.subrange(old(self).peeked as int, last_offset as int)
                &&& final(self).peeked == last_offset
            },
            old(self).peeked > last_offset ==> out@.len() == 0 && final(self).peeked == old(self).peeked,
    {
        let mut out: Vec<char> = Vec::new();
        let start = self.peeked;
        while self.peeked < last_offset
            invariant
                self.iter@ == old(self).iter@,
                start == old(self).peeked,
                last_offset <= self.iter@.len(),
                start <= last_offset ==> start <= self.peeked <= last_offset,
                start > last_offset ==> self.peeked == start,
                out@ == self.iter@.subrange(start as int, self.peeked as int),
            decreases last_offset - self.peeked,
        {
            out.push(self.iter[self.peeked]);
            self.peeked = self.peeked + 1;
        }
        out
    }
}

impl<'a> PeekableCharIndices for BorrowedStringPCI<'a> {
    open spec fn text(&self) -> Seq<char> {
        self.iter@
    }

    open spec fn pos(&self) -> int {
        self.peeked as int
    }

    open spec fn wf(&self) -> bool {
        self.peeked <= self.iter@.len()
    }

    proof fn lemma_wf_bounds(&self) {
        vstd::slice::axiom_spec_len(self.iter);
    }

    fn next_and_index(&mut self) -> (r: Option<(usize, char)>) {
        if self.peeked < self.iter.len() {
            let i = self.peeked;
            self.peeked = self.peeked + 1;
            Some((i, self.iter[i]))
        } else {
            None
        }
    }

    fn peek_and_index(&self) -> (r: Option<(usize, char)>) {
        if self.peeked < self.iter.len() {
            Some((self.peeked, self.iter[self.peeked]))
        } else {
            None
        }
    }

    fn offset(&self) -> (r: usize) {
        self.peeked
    }
}

} // verus!
