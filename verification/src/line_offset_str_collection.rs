//! Text held as a list of lines, read as if the lines were joined by line feeds.
use vstd::prelude::*;
use crate::peekable_char_indices::{BorrowedStringPCI, PeekableCharIndices};
use std::ops::Range;

verus! {

/// The lines joined by line feeds.
pub open spec fn joined(lines: Seq<Seq<char>>) -> Seq<char>
    decreases lines.len(),
{
    if lines.len() == 0 {
        seq![]
    } else if lines.len() == 1 {
        lines[0]
    } else {
        joined(lines.drop_last()) + seq!['\n'] + lines.last()
    }
}

/// Where row `r` starts in the joined text.
pub open spec fn row_start(lines: Seq<Seq<char>>, r: int) -> int {
    if r <= 0 {
        0
    } else {
        (joined(lines.take(r)).len() + 1) as int
    }
}

/// The joined text holds row `r` from `row_start(r)` on, followed by a line feed unless it is
/// the last row; the next row starts after that line feed.
pub proof fn lemma_rows(lines: Seq<Seq<char>>, r: int)
    requires
        0 <= r < lines.len(),
    ensures
        row_start(lines, r) + lines[r].len() <= joined(lines).len(),
        forall|o: int| 0 <= o < lines[r].len() ==> joined(lines)[row_start(lines, r) + o] == #[trigger] lines[r][o],
        r + 1 < lines.len() ==> joined(lines)[row_start(lines, r) + lines[r].len()] == '\n' && row_start(lines, r + 1)
            == row_start(lines, r) + lines[r].len() + 1,
        r + 1 == lines.len() ==> joined(lines).len() == row_start(lines, r) + lines[r].len(),
    decreases lines.len(),
{
    let n = lines.len();
    if n == 1 {
        assert(lines.take(1).drop_last() =~= Seq::<Seq<char>>::empty());
    } else {
        let init = lines.drop_last();
        assert(joined(lines) == joined(init) + seq!['\n'] + lines.last());
        if r < n - 1 {
            lemma_rows(init, r);
            assert(init[r] == lines[r]);
            if r > 0 {
                assert(init.take(r) =~= lines.take(r));
            }
            if r + 1 < n - 1 {
                assert(init.take(r + 1) =~= lines.take(r + 1));
                lemma_rows(init, r + 1);
            } else {
                assert(init.take(r + 1) =~= init);
                assert(lines.take(r + 1) =~= init);
            }
            assert forall|o: int| 0 <= o < lines[r].len() implies joined(lines)[row_start(lines, r) + o]
                == #[trigger] lines[r][o] by {
                assert(joined(init)[row_start(init, r) + o] == init[r][o]);
            }
        } else {
            assert(lines.take(r) =~= init);
            lemma_rows(init, r - 1);
            assert forall|o: int| 0 <= o < lines[r].len() implies joined(lines)[row_start(lines, r) + o]
                == #[trigger] lines[r][o] by {
            }
        }
    }
}

/// A position in text held as lines: a row, and an offset in it (none for the line feed at its
/// end).
#[derive(PartialEq, Eq, Structural, Clone, Copy, Debug)]
pub struct IndexPosition {
    pub row: usize,
    pub offset: Option<usize>,
}

impl IndexPosition {
    pub fn new(row: usize, offset: Option<usize>) -> (r: Self)
        ensures
            r.row == row,
            r.offset == offset,
    {
        IndexPosition { row, offset }
    }

    /// Positions are ordered by row, then by offset, and an offset comes before the row's end.
    pub open spec fn spec_before(self, other: Self) -> bool {
        ||| self.row < other.row
        ||| self.row == other.row && match (self.offset, other.offset) {
            (Some(x), Some(y)) => x < y,
            (Some(_), None) => true,
            _ => false,
        }
    }

    /// Whether this position comes before `other`.
    pub fn is_before(&self, other: &Self) -> (r: bool)
        ensures
            r == self.spec_before(*other),
    {
        if self.row != other.row {
            self.row < other.row
        } else {
            match (self.offset, other.offset) {
                (Some(x), Some(y)) => x < y,
                (Some(_), None) => true,
                _ => false,
            }
        }
    }

    /// The position `rhs` characters further on in the same row.
    pub fn add(self, rhs: usize) -> (r: Self)
        requires
            self.offset matches Some(o) ==> o + rhs <= usize::MAX,
        ensures
            r.row == self.row,
            r.offset == match self.offset {
                Some(o) => Some((o + rhs) as usize),
                None => None,
            },
    {
        IndexPosition {
            row: self.row,
            offset: match self.offset {
                Some(o) => Some(o + rhs),
                None => None,
            },
        }
    }
}

/// Positions are strictly and totally ordered: no position comes before itself, the order is
/// transitive, and of two different positions one comes before the other.
pub proof fn law_position_order(a: IndexPosition, b: IndexPosition, c: IndexPosition)
    ensures
        !a.spec_before(a),
        a.spec_before(b) && b.spec_before(c) ==> a.spec_before(c),
        a != b ==> a.spec_before(b) || b.spec_before(a),
        !(a.spec_before(b) && b.spec_before(a)),
{
}

impl From<(usize, Option<usize>)> for IndexPosition {
    fn from(tup: (usize, Option<usize>)) -> (r: Self) {
        IndexPosition { row: tup.0, offset: tup.1 }
    }
}

impl vstd::std_specs::convert::FromSpecImpl<(usize, Option<usize>)> for IndexPosition {
    open spec fn obeys_from_spec() -> bool {
        true
    }

    open spec fn from_spec(tup: (usize, Option<usize>)) -> Self {
        IndexPosition { row: tup.0, offset: tup.1 }
    }
}

/// Lines of text, each with the width of the spaces that precede it (inline text has none).
pub struct LineOffsetStrCollection<'a> {
    pub lines: Vec<(usize, &'a [char])>,
}

impl<'a> LineOffsetStrCollection<'a> {
    pub open spec fn rows(&self) -> Seq<Seq<char>> {
        self.lines@.map_values(|l: (usize, &'a [char])| l.1@)
    }

    /// The text: the lines joined by line feeds.
    pub open spec fn text(&self) -> Seq<char> {
        joined(self.rows())
    }

    /// Where a position stands in the text (a row's end is its line feed).
    pub open spec fn flat(&self, p: IndexPosition) -> int {
        row_start(self.rows(), p.row as int) + match p.offset {
            Some(o) => o as int,
            None => self.rows()[p.row as int].len() as int,
        }
    }

    pub fn new(lines: Vec<(usize, &'a [char])>) -> (r: Self)
        ensures
            r.lines@ == lines@,
    {
        LineOffsetStrCollection { lines }
    }

    /// A cursor at the start of the text.
    pub fn to_peekable_iter(&self) -> (r: LineOffsetStrIterator<'_>)
        requires
            self.lines@.len() > 0,
        ensures
            r.wf(),
            r.base_collection == self,
            r.fpos() == 0,
    {
        LineOffsetStrIterator {
            current_iter: BorrowedStringPCI::new(self.lines[0].1),
            base_collection: self,
            current_row: 0,
        }
    }

    /// The characters from `range.start` up to `range.end`, a row's end standing for its line
    /// feed; nothing where the start lies past the last row.
    pub fn chars_in_range(&self, range: Range<IndexPosition>) -> (r: CharsInMultiLineRange<'_>)
        requires
            range.start.row < self.lines@.len() ==> (range.start.offset matches Some(o) ==> o
                <= self.rows()[range.start.row as int].len()),
        ensures
            r.wf(),
            r.line_offset_str_iter.base_collection == self,
            r.upper_bound == range.end,
            r.leading_newline <==> range.start.offset is None && range.start.row + 1 < self.rows().len(),
            r.leading_newline ==> r.line_offset_str_iter.fpos() == self.flat(range.start) + 1,
            range.start.row < self.rows().len() && !r.leading_newline ==> r.line_offset_str_iter.fpos()
                == self.flat(range.start),
            range.start.row >= self.rows().len() ==> r.line_offset_str_iter.fpos() == self.text().len(),
    {
        if range.start.row >= self.lines.len() {
            return CharsInMultiLineRange {
                line_offset_str_iter: self.iter_at_end(),
                upper_bound: range.end,
                leading_newline: false,
            };
        }
        proof {
            lemma_rows(self.rows(), range.start.row as int);
        }
        match range.start.offset {
            Some(o) => {
                let mut current_iter = BorrowedStringPCI::new(self.lines[range.start.row].1);
                current_iter.peeked = o;
                CharsInMultiLineRange {
                    line_offset_str_iter: LineOffsetStrIterator {
                        current_iter,
                        base_collection: self,
                        current_row: range.start.row,
                    },
                    upper_bound: range.end,
                    leading_newline: false,
                }
            },
            None => {
                if range.start.row < self.lines.len() - 1 {
                    proof {
                        lemma_rows(self.rows(), range.start.row + 1);
                    }
                    CharsInMultiLineRange {
                        line_offset_str_iter: LineOffsetStrIterator {
                            current_iter: BorrowedStringPCI::new(self.lines[range.start.row + 1].1),
                            base_collection: self,
                            current_row: range.start.row + 1,
                        },
                        upper_bound: range.end,
                        leading_newline: true,
                    }
                } else {
                    CharsInMultiLineRange {
                        line_offset_str_iter: self.iter_at_end(),
                        upper_bound: range.end,
                        leading_newline: false,
                    }
                }
            },
        }
    }

    /// A cursor past the end of the text.
    fn iter_at_end(&self) -> (r: LineOffsetStrIterator<'_>)
        ensures
            r.wf(),
            r.base_collection == self,
            r.fpos() == self.text().len(),
            self.lines@.len() > 0 ==> r.current_row == self.lines@.len() - 1,
    {
        if self.lines.len() == 0 {
            let empty: &[char] = &[];
            LineOffsetStrIterator { current_iter: BorrowedStringPCI::new(empty), base_collection: self, current_row: 0 }
        } else {
            let last = self.lines.len() - 1;
            proof {
                lemma_rows(self.rows(), last as int);
            }
            let mut current_iter = BorrowedStringPCI::new(self.lines[last].1);
            current_iter.peeked = current_iter.iter.len();
            LineOffsetStrIterator { current_iter, base_collection: self, current_row: last }
        }
    }
}

/// A cursor over a `LineOffsetStrCollection` that hands out a line feed between lines.
#[derive(Clone, Copy)]
pub struct LineOffsetStrIterator<'a> {
    pub current_iter: BorrowedStringPCI<'a>,
    pub base_collection: &'a LineOffsetStrCollection<'a>,
    pub current_row: usize,
}

impl<'a> LineOffsetStrIterator<'a> {
    /// The cursor stands in one of the rows, or, in a collection without lines, in nothing.
    pub open spec fn wf(&self) -> bool {
        &&& self.current_iter.peeked <= self.current_iter.iter@.len()
        &&& if self.base_collection.lines@.len() == 0 {
            self.current_row == 0 && self.current_iter.iter@.len() == 0
        } else {
            &&& self.current_row < self.base_collection.lines@.len()
            &&& self.current_iter.iter@ == self.base_collection.rows()[self.current_row as int]
        }
    }

    /// Where the cursor stands in the joined text.
    pub open spec fn fpos(&self) -> int {
        row_start(self.base_collection.rows(), self.current_row as int) + self.current_iter.peeked
    }

    /// The next character with its position; the line feed between two lines has the position
    /// of the first one's end.
    pub fn next_and_index(&mut self) -> (r: Option<(IndexPosition, char)>)
        requires
            old(self).wf(),
        ensures
            final(self).wf(),
            final(self).base_collection == old(self).base_collection,
            old(self).fpos() < old(self).base_collection.text().len() ==> (r matches Some((p, c)) && c
                == old(self).base_collection.text()[old(self).fpos()] && old(self).base_collection.flat(p)
                == old(self).fpos()) && final(self).fpos() == old(self).fpos() + 1,
            old(self).fpos() >= old(self).base_collection.text().len() ==> r is None && final(self).fpos()
                == old(self).fpos(),
            old(self).fpos() <= old(self).base_collection.text().len(),
    {
        let ghost rows = self.base_collection.rows();
        proof {
            if rows.len() > 0 {
                lemma_rows(rows, self.current_row as int);
            }
        }
        match self.current_iter.next_and_index() {
            Some((row_offset, c)) => Some((IndexPosition { row: self.current_row, offset: Some(row_offset) }, c)),
            None => {
                if self.base_collection.lines.len() > 0 && self.current_row < self.base_collection.lines.len() - 1 {
                    let row_out = self.current_row;
                    self.current_row = self.current_row + 1;
                    self.current_iter = BorrowedStringPCI::new(self.base_collection.lines[self.current_row].1);
                    proof {
                        lemma_rows(rows, self.current_row as int);
                    }
                    Some((IndexPosition { row: row_out, offset: None }, '\n'))
                } else {
                    None
                }
            },
        }
    }

    /// The next character with its position, without moving.
    pub fn peek_and_index(&self) -> (r: Option<(IndexPosition, char)>)
        requires
            self.wf(),
        ensures
            self.fpos() < self.base_collection.text().len() ==> (r matches Some((p, c)) && c
                == self.base_collection.text()[self.fpos()] && self.base_collection.flat(p) == self.fpos()),
            self.fpos() >= self.base_collection.text().len() ==> r is None,
    {
        let mut copy = *self;
        copy.next_and_index()
    }

    /// The position of the next character.
    pub fn offset(&self) -> (r: IndexPosition)
        requires
            self.wf(),
        ensures
            self.base_collection.flat(r) == self.fpos(),
            r.row == self.current_row,
            r.offset == Some(self.current_iter.peeked),
    {
        IndexPosition { row: self.current_row, offset: Some(self.current_iter.offset()) }
    }

    /// The next character, if any.
    pub fn next(&mut self) -> (r: Option<char>)
        requires
            old(self).wf(),
        ensures
            final(self).wf(),
            final(self).base_collection == old(self).base_collection,
            old(self).fpos() < old(self).base_collection.text().len() ==> r == Some(
                old(self).base_collection.text()[old(self).fpos()],
            ) && final(self).fpos() == old(self).fpos() + 1,
            old(self).fpos() >= old(self).base_collection.text().len() ==> r is None,
    {
        match self.next_and_index() {
            Some((_, c)) => Some(c),
            None => None,
        }
    }
}

/// The characters of a `LineOffsetStrCollection` up to a bound.
pub struct CharsInMultiLineRange<'a> {
    pub line_offset_str_iter: LineOffsetStrIterator<'a>,
    pub upper_bound: IndexPosition,
    /// A line feed comes first (the range started at a row's end).
    pub leading_newline: bool,
}

impl<'a> CharsInMultiLineRange<'a> {
    pub open spec fn wf(&self) -> bool {
        self.line_offset_str_iter.wf()
    }

    /// The next character before the bound, if any.
    pub fn next(&mut self) -> (r: Option<char>)
        requires
            old(self).wf(),
        ensures
            final(self).wf(),
            final(self).upper_bound == old(self).upper_bound,
            final(self).line_offset_str_iter.base_collection == old(self).line_offset_str_iter.base_collection,
            old(self).leading_newline ==> r == Some('\n') && !final(self).leading_newline
                && final(self).line_offset_str_iter == old(self).line_offset_str_iter,
            !old(self).leading_newline ==> {
                let it = old(self).line_offset_str_iter;
                let text = it.base_collection.text();
                &&& (IndexPosition { row: it.current_row, offset: Some(it.current_iter.peeked) }).spec_before(
                    old(self).upper_bound,
                ) && it.fpos() < text.len() ==> r == Some(text[it.fpos()])
                &&& !(IndexPosition { row: it.current_row, offset: Some(it.current_iter.peeked) }).spec_before(
                    old(self).upper_bound,
                ) ==> r is None
            },
    {
        if self.leading_newline {
            self.leading_newline = false;
            return Some('\n');
        }
        if self.line_offset_str_iter.offset().is_before(&self.upper_bound) {
            self.line_offset_str_iter.next()
        } else {
            None
        }
    }
}

} // verus!
