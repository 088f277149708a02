use vstd::prelude::*;
use crate::chars::{
    push_character_in_uri, push_chars_with_entities_and_bs, push_html_reserved_char,
    spec_html_escape, spec_push_all, spec_push_fn, spec_text_to_html, spec_uri_char,
};
use crate::fake_dll::{ArenaDLL, DLLIter, DLLNodeID};
use crate::lrd_table::LRDTable;
use crate::char_class::{
    is_ascii_punctuation, is_whitespace, spec_is_ascii_alphanumeric, spec_is_ascii_punctuation, spec_is_whitespace,
};
use crate::chars::{spec_is_unicode_punctuation, spec_is_unicode_symbol, UnicodeCategory};
use crate::block_structure::{lemma_run_of, lemma_run_of_bounds, run_of};
use crate::parsers::{
    lemma_inline_suffix_bounds, lemma_link_label_bounds, opt_range_is, spec_parse_inline_suffix,
    spec_parse_link_label, parse_autolink, parse_html_tag, parse_inline_suffix, parse_reference_link,
    spec_parse_email, spec_parse_html_tag, spec_parse_uri_autolink, ReferenceLinkType,
};
use crate::peekable_char_indices::{BorrowedStringPCI, PeekableCharIndices};
use crate::string_normalize::{normalize_label, spec_normalize_label};
use crate::text::push_char;
use std::ops::Range;

verus! {

/// Inline content of a paragraph or heading; ranges index the characters of that text. (A
/// paragraph holds no blank line, so the parsers need not look for one.)
#[derive(Debug)]
pub enum InlineContent {
    Softbreak,
    Hardbreak,
    Text(Range<usize>),
    Emph(Vec<InlineContent>),
    Strong(Vec<InlineContent>),
    /// is_image, href, title, link_text
    InlineLink(bool, Option<Range<usize>>, Option<Range<usize>>, Vec<InlineContent>),
    /// is_image, normalized label, link_text
    ReferenceLink(bool, String, Vec<InlineContent>),
    /// href and text, is_email
    AutoLink(Range<usize>, bool),
    HTMLTag(Range<usize>),
    Code(Range<usize>),
    /// A placeholder left behind when content is moved out.
    Dummy,
}

pub open spec fn clamp(t: Seq<char>, i: int) -> int {
    if i < 0 {
        0
    } else if i > t.len() {
        t.len() as int
    } else {
        i
    }
}

/// The characters a range covers (clipped to the text).
pub open spec fn span(t: Seq<char>, r: Range<usize>) -> Seq<char> {
    let a = clamp(t, r.start as int);
    let b = clamp(t, r.end as int);
    if a <= b {
        t.subrange(a, b)
    } else {
        Seq::empty()
    }
}

/// Code span text: line feeds become spaces, and the rest is escaped for HTML.
pub open spec fn spec_code_html(s: Seq<char>) -> Seq<char>
    decreases s.len(),
{
    if s.len() == 0 {
        seq![]
    } else {
        spec_code_html(s.drop_last()) + spec_html_escape(
            if s.last() == '\n' {
                ' '
            } else {
                s.last()
            },
        )
    }
}

/// In a code span's HTML each character of the content stands for exactly one: a line feed
/// becomes a space, and a character that HTML does not reserve stays as it is.
pub proof fn law_code_html_one_for_one(s: Seq<char>)
    requires
        forall|i: int| 0 <= i < s.len() ==> #[trigger] s[i] != '<' && s[i] != '>' && s[i] != '&' && s[i] != '"',
    ensures
        spec_code_html(s).len() == s.len(),
        forall|i: int| 0 <= i < s.len() ==> #[trigger] spec_code_html(s)[i] == (if s[i] == '\n' {
            ' '
        } else {
            s[i]
        }),
    decreases s.len(),
{
    if s.len() > 0 {
        let p = s.drop_last();
        assert forall|i: int| 0 <= i < p.len() implies #[trigger] p[i] != '<' && p[i] != '>' && p[i] != '&' && p[i]
            != '"' by {
            assert(p[i] == s[i]);
        }
        law_code_html_one_for_one(p);
        assert(s[s.len() - 1] == s.last());
        assert forall|i: int| 0 <= i < s.len() implies #[trigger] spec_code_html(s)[i] == (if s[i] == '\n' {
            ' '
        } else {
            s[i]
        }) by {
            if i < p.len() {
                assert(p[i] == s[i]);
                assert(spec_code_html(s)[i] == spec_code_html(p)[i]);
            }
        }
    }
}

/// A code span's HTML is made piece by piece: that of two pieces of content one after the other
/// is the HTML of the first followed by that of the second, and a single character other than
/// a line feed is escaped as in any other text.
pub proof fn law_code_html_concat(s: Seq<char>, t: Seq<char>)
    ensures
        spec_code_html(s + t) == spec_code_html(s) + spec_code_html(t),
        forall|c: char| c != '\n' ==> #[trigger] spec_code_html(seq![c]) == spec_html_escape(c),
    decreases t.len(),
{
    if t.len() > 0 {
        law_code_html_concat(s, t.drop_last());
        assert((s + t).drop_last() =~= s + t.drop_last());
        assert((s + t).last() == t.last());
    } else {
        assert(s + t =~= s);
    }
    assert forall|c: char| c != '\n' implies #[trigger] spec_code_html(seq![c]) == spec_html_escape(c) by {
        assert(seq![c].drop_last() =~= Seq::<char>::empty());
        assert(seq![c].last() == c);
        assert(spec_code_html(Seq::<char>::empty()) =~= Seq::<char>::empty());
        assert(Seq::<char>::empty() + spec_html_escape(c) =~= spec_html_escape(c));
    }
}

/// A code span's HTML holds no line feed.
pub proof fn law_code_html_has_no_line_feed(s: Seq<char>)
    ensures
        forall|i: int| 0 <= i < spec_code_html(s).len() ==> #[trigger] spec_code_html(s)[i] != '\n',
    decreases s.len(),
{
    if s.len() > 0 {
        law_code_html_has_no_line_feed(s.drop_last());
        reveal_strlit("&lt;");
        reveal_strlit("&gt;");
        reveal_strlit("&amp;");
        reveal_strlit("&quot;");
        let a = spec_code_html(s.drop_last());
        let c = if s.last() == '\n' {
            ' '
        } else {
            s.last()
        };
        let b = spec_html_escape(c);
        assert forall|i: int| 0 <= i < (a + b).len() implies #[trigger] (a + b)[i] != '\n' by {
            if i < a.len() {
                assert((a + b)[i] == a[i]);
            } else {
                assert((a + b)[i] == b[i - a.len()]);
            }
        }
    }
}

pub open spec fn opt_text_html(t: Seq<char>, r: Option<Range<usize>>, in_url: bool) -> Seq<char> {
    match r {
        Some(r) => spec_text_to_html(span(t, r), 0, in_url),
        None => seq![],
    }
}

/// The HTML of a link or image, from its destination and title HTML and the HTML (or, for an
/// image, the alt text) of its link text.
pub open spec fn link_html(
    is_image: bool,
    dest: Seq<char>,
    title: Option<Seq<char>>,
    inner: Seq<char>,
) -> Seq<char> {
    if is_image {
        "<img src=\""@ + dest + "\" alt=\""@ + inner + "\" "@ + match title {
            Some(ti) => "title=\""@ + ti + "\" "@,
            None => seq![],
        } + "/>"@
    } else {
        "<a href=\""@ + dest + "\""@ + match title {
            Some(ti) => " title=\""@ + ti + "\""@,
            None => seq![],
        } + ">"@ + inner + "</a>"@
    }
}

pub open spec fn ref_dest_html(lrd: LRDTable, label: Seq<char>) -> Seq<char> {
    match lrd.lookup(label) {
        Some((d, _)) => spec_text_to_html(d, 0, true),
        None => seq![],
    }
}

pub open spec fn ref_title_html(lrd: LRDTable, label: Seq<char>) -> Option<Seq<char>> {
    match lrd.lookup(label) {
        Some((_, Some(ti))) => Some(spec_text_to_html(ti, 0, false)),
        _ => None,
    }
}

/// The HTML of one piece of inline content.
pub open spec fn spec_ic_html(ic: InlineContent, t: Seq<char>, lrd: LRDTable) -> Seq<char>
    decreases ic,
{
    match ic {
        InlineContent::Softbreak => seq!['\n'],
        InlineContent::Hardbreak => "<br />\n"@,
        InlineContent::Text(r) => spec_text_to_html(span(t, r), 0, false),
        InlineContent::Emph(v) => "<em>"@ + spec_ics_html(v@, t, lrd) + "</em>"@,
        InlineContent::Strong(v) => "<strong>"@ + spec_ics_html(v@, t, lrd) + "</strong>"@,
        InlineContent::InlineLink(is_image, d, ti, v) => link_html(
            is_image,
            opt_text_html(t, d, true),
            match ti {
                Some(r) => Some(spec_text_to_html(span(t, r), 0, false)),
                None => None,
            },
            if is_image {
                spec_ics_alt(v@, t)
            } else {
                spec_ics_html(v@, t, lrd)
            },
        ),
        InlineContent::ReferenceLink(is_image, label, v) => link_html(
            is_image,
            ref_dest_html(lrd, label@),
            ref_title_html(lrd, label@),
            if is_image {
                spec_ics_alt(v@, t)
            } else {
                spec_ics_html(v@, t, lrd)
            },
        ),
        InlineContent::AutoLink(r, is_email) => "<a href=\""@ + (if is_email {
            "mailto:"@
        } else {
            Seq::<char>::empty()
        }) + spec_push_all(span(t, r), true) + "\">"@ + spec_push_all(span(t, r), false)
            + "</a>"@,
        InlineContent::HTMLTag(r) => span(t, r),
        InlineContent::Code(r) => "<code>"@ + spec_code_html(span(t, r)) + "</code>"@,
        InlineContent::Dummy => seq![],
    }
}

/// The HTML of inline contents one after another.
pub open spec fn spec_ics_html(s: Seq<InlineContent>, t: Seq<char>, lrd: LRDTable) -> Seq<char>
    decreases s,
{
    if s.len() == 0 {
        seq![]
    } else {
        spec_ics_html(s.drop_last(), t, lrd) + spec_ic_html(s.last(), t, lrd)
    }
}

/// The alt text of one piece of inline content: its plain text, without markup.
pub open spec fn spec_ic_alt(ic: InlineContent, t: Seq<char>) -> Seq<char>
    decreases ic,
{
    match ic {
        InlineContent::Softbreak => seq!['\n'],
        InlineContent::Hardbreak => seq!['\n'],
        InlineContent::Text(r) => spec_text_to_html(span(t, r), 0, false),
        InlineContent::Emph(v) => spec_ics_alt(v@, t),
        InlineContent::Strong(v) => spec_ics_alt(v@, t),
        InlineContent::InlineLink(_, _, _, v) => spec_ics_alt(v@, t),
        InlineContent::ReferenceLink(_, _, v) => spec_ics_alt(v@, t),
        InlineContent::AutoLink(r, _) => spec_push_all(span(t, r), false),
        InlineContent::HTMLTag(r) => span(t, r),
        InlineContent::Code(r) => spec_code_html(span(t, r)),
        InlineContent::Dummy => seq![],
    }
}

pub open spec fn spec_ics_alt(s: Seq<InlineContent>, t: Seq<char>) -> Seq<char>
    decreases s,
{
    if s.len() == 0 {
        seq![]
    } else {
        spec_ics_alt(s.drop_last(), t) + spec_ic_alt(s.last(), t)
    }
}

fn clamp_exec(t: &[char], i: usize) -> (r: usize)
    ensures
        r == clamp(t@, i as int),
{
    if i > t.len() {
        t.len()
    } else {
        i
    }
}

/// The characters a range covers (clipped to the text).
pub fn span_slice<'a>(t: &'a [char], r: &Range<usize>) -> (s: &'a [char])
    ensures
        s@ == span(t@, *r),
{
    let a = clamp_exec(t, r.start);
    let b = clamp_exec(t, r.end);
    if a <= b {
        vstd::slice::slice_subrange(t, a, b)
    } else {
        let e: &[char] = &[];
        assert(e@ =~= Seq::<char>::empty());
        e
    }
}

fn push_text(t: &[char], string_builder: &mut String, in_url: bool)
    ensures
        final(string_builder)@ == old(string_builder)@ + spec_text_to_html(t@, 0, in_url),
{
    push_chars_with_entities_and_bs(&BorrowedStringPCI::new(t), string_builder, in_url);
}

fn push_each(t: &[char], string_builder: &mut String, in_url: bool)
    ensures
        final(string_builder)@ == old(string_builder)@ + spec_push_all(t@, in_url),
{
    let ghost before = string_builder@;
    let mut i: usize = 0;
    while i < t.len()
        invariant
            i <= t@.len(),
            string_builder@ == before + spec_push_all(t@.take(i as int), in_url),
        decreases t@.len() - i,
    {
        assert(t@.take(i + 1).drop_last() =~= t@.take(i as int));
        if in_url {
            push_character_in_uri(t[i], string_builder);
        } else {
            push_html_reserved_char(t[i], string_builder);
        }
        i = i + 1;
    }
    assert(t@.take(t@.len() as int) =~= t@);
}

fn push_code(t: &[char], string_builder: &mut String)
    ensures
        final(string_builder)@ == old(string_builder)@ + spec_code_html(t@),
{
    let ghost before = string_builder@;
    let mut i: usize = 0;
    while i < t.len()
        invariant
            i <= t@.len(),
            string_builder@ == before + spec_code_html(t@.take(i as int)),
        decreases t@.len() - i,
    {
        assert(t@.take(i + 1).drop_last() =~= t@.take(i as int));
        let c = t[i];
        if c == '\n' {
            push_html_reserved_char(' ', string_builder);
        } else {
            push_html_reserved_char(c, string_builder);
        }
        i = i + 1;
    }
    assert(t@.take(t@.len() as int) =~= t@);
}

fn push_link_start(
    is_image: bool,
    string_builder: &mut String,
)
    ensures
        final(string_builder)@ == old(string_builder)@ + if is_image { "<img src=\""@ } else { "<a href=\""@ },
{
    if is_image {
        string_builder.append("<img src=\"");
    } else {
        string_builder.append("<a href=\"");
    }
}

impl InlineContent {
    pub fn to_html(&self, string_array: &[char], string_builder: &mut String, lrd_table: &LRDTable)
        requires
            lrd_table.wf(),
        ensures
            final(string_builder)@ == old(string_builder)@ + spec_ic_html(*self, string_array@, *lrd_table),
        decreases self,
    {
        let ghost t = string_array@;
        match self {
            InlineContent::Softbreak => push_char(string_builder, '\n'),
            InlineContent::Hardbreak => string_builder.append("<br />\n"),
            InlineContent::Text(r) => push_text(span_slice(string_array, r), string_builder, false),
            InlineContent::Emph(inline_contents) => {
                string_builder.append("<em>");
                push_all_html(inline_contents, string_array, string_builder, lrd_table);
                string_builder.append("</em>");
            },
            InlineContent::Strong(inline_contents) => {
                string_builder.append("<strong>");
                push_all_html(inline_contents, string_array, string_builder, lrd_table);
                string_builder.append("</strong>");
            },
            InlineContent::InlineLink(is_image, dest_op, tit_op, inline_contents) => {
                let ghost before = string_builder@;
                let mut dest = String::new();
                if let Some(d) = dest_op {
                    push_text(span_slice(string_array, d), &mut dest, true);
                }
                let mut inner = String::new();
                if *is_image {
                    push_all_alt(inline_contents, string_array, &mut inner);
                } else {
                    push_all_html(inline_contents, string_array, &mut inner, lrd_table);
                }
                let title = match tit_op {
                    Some(r) => {
                        let mut ti = String::new();
                        push_text(span_slice(string_array, r), &mut ti, false);
                        Some(ti)
                    },
                    None => None,
                };
                assert(dest@ == opt_text_html(t, *dest_op, true));
                push_link(*is_image, &dest, &title, &inner, string_builder);
            },
            InlineContent::ReferenceLink(is_image, normalized_label, inline_contents) => {
                let mut dest = String::new();
                let mut title: Option<String> = None;
                match lrd_table.get(normalized_label) {
                    Some(def) => {
                        push_text(def.dest.as_slice(), &mut dest, true);
                        match &def.title {
                            Some(ti) => {
                                let mut tis = String::new();
                                push_text(ti.as_slice(), &mut tis, false);
                                title = Some(tis);
                            },
                            None => {},
                        }
                    },
                    None => {},
                }
                let mut inner = String::new();
                if *is_image {
                    push_all_alt(inline_contents, string_array, &mut inner);
                } else {
                    push_all_html(inline_contents, string_array, &mut inner, lrd_table);
                }
                push_link(*is_image, &dest, &title, &inner, string_builder);
            },
            InlineContent::AutoLink(link_chars, is_email) => {
                let s = span_slice(string_array, link_chars);
                string_builder.append("<a href=\"");
                if *is_email {
                    string_builder.append("mailto:");
                }
                push_each(s, string_builder, true);
                string_builder.append("\">");
                push_each(s, string_builder, false);
                string_builder.append("</a>");
                let ghost e: Seq<char> = Seq::empty();
                assert(old(string_builder)@ + "<a href=\""@ + (if *is_email { "mailto:"@ } else { e })
                    =~= old(string_builder)@ + ("<a href=\""@ + (if *is_email { "mailto:"@ } else { e })));
            },
            InlineContent::HTMLTag(html_chars) => {
                let s = span_slice(string_array, html_chars);
                push_plain(s, string_builder);
            },
            InlineContent::Code(code_chars) => {
                string_builder.append("<code>");
                push_code(span_slice(string_array, code_chars), string_builder);
                string_builder.append("</code>");
            },
            InlineContent::Dummy => {
                assert(old(string_builder)@ + Seq::<char>::empty() =~= old(string_builder)@);
            },
        }
    }

    pub fn to_alt_text(&self, _string_array: &[char], _string_builder: &mut String)
        ensures
            final(_string_builder)@ == old(_string_builder)@ + spec_ic_alt(*self, _string_array@),
        decreases self,
    {
        match self {
            InlineContent::Softbreak => push_char(_string_builder, '\n'),
            InlineContent::Hardbreak => push_char(_string_builder, '\n'),
            InlineContent::Text(r) => push_text(span_slice(_string_array, r), _string_builder, false),
            InlineContent::Emph(inline_contents) => push_all_alt(inline_contents, _string_array, _string_builder),
            InlineContent::Strong(inline_contents) => push_all_alt(inline_contents, _string_array, _string_builder),
            InlineContent::InlineLink(.., inline_contents) => push_all_alt(inline_contents, _string_array, _string_builder),
            InlineContent::ReferenceLink(.., inline_contents) => push_all_alt(inline_contents, _string_array, _string_builder),
            InlineContent::AutoLink(link_chars, ..) => push_each(span_slice(_string_array, link_chars), _string_builder, false),
            InlineContent::HTMLTag(html_chars) => push_plain(span_slice(_string_array, html_chars), _string_builder),
            InlineContent::Code(code_chars) => push_code(span_slice(_string_array, code_chars), _string_builder),
            InlineContent::Dummy => {
                assert(old(_string_builder)@ + Seq::<char>::empty() =~= old(_string_builder)@);
            },
        }
    }
}

fn push_plain(t: &[char], string_builder: &mut String)
    ensures
        final(string_builder)@ == old(string_builder)@ + t@,
{
    let ghost before = string_builder@;
    let mut i: usize = 0;
    while i < t.len()
        invariant
            i <= t@.len(),
            string_builder@ == before + t@.take(i as int),
        decreases t@.len() - i,
    {
        push_char(string_builder, t[i]);
        assert(t@.take(i + 1) =~= t@.take(i as int).push(t@[i as int]));
        i = i + 1;
    }
    assert(t@.take(t@.len() as int) =~= t@);
}

fn push_link(
    is_image: bool,
    dest: &String,
    title: &Option<String>,
    inner: &String,
    string_builder: &mut String,
)
    ensures
        final(string_builder)@ == old(string_builder)@ + link_html(
            is_image,
            dest@,
            match title {
                Some(t) => Some(t@),
                None => None,
            },
            inner@,
        ),
{
    if is_image {
        string_builder.append("<img src=\"");
        string_builder.append(dest.as_str());
        string_builder.append("\" alt=\"");
        string_builder.append(inner.as_str());
        string_builder.append("\" ");
        let ghost mid = string_builder@;
        if let Some(tit) = title {
            string_builder.append("title=\"");
            string_builder.append(tit.as_str());
            string_builder.append("\" ");
        }
        string_builder.append("/>");
    } else {
        string_builder.append("<a href=\"");
        string_builder.append(dest.as_str());
        string_builder.append("\"");
        if let Some(tit) = title {
            string_builder.append(" title=\"");
            string_builder.append(tit.as_str());
            string_builder.append("\"");
        }
        string_builder.append(">");
        string_builder.append(inner.as_str());
        string_builder.append("</a>");
    }
    let ghost e: Seq<char> = Seq::empty();
    assert(final(string_builder)@ =~= old(string_builder)@ + link_html(
        is_image,
        dest@,
        match title {
            Some(t) => Some(t@),
            None => None,
        },
        inner@,
    ));
}

/// Writes the HTML of inline contents one after another.
pub fn push_all_html(
    inline_contents: &Vec<InlineContent>,
    string_array: &[char],
    string_builder: &mut String,
    lrd_table: &LRDTable,
)
    requires
        lrd_table.wf(),
    ensures
        final(string_builder)@ == old(string_builder)@ + spec_ics_html(inline_contents@, string_array@, *lrd_table),
    decreases inline_contents,
{
    let ghost before = string_builder@;
    let mut i: usize = 0;
    while i < inline_contents.len()
        invariant
            i <= inline_contents@.len(),
            lrd_table.wf(),
            string_builder@ == before + spec_ics_html(inline_contents@.take(i as int), string_array@, *lrd_table),
        decreases inline_contents@.len() - i,
    {
        assert(inline_contents@.take(i + 1).drop_last() =~= inline_contents@.take(i as int));
        inline_contents[i].to_html(string_array, string_builder, lrd_table);
        i = i + 1;
    }
    assert(inline_contents@.take(inline_contents@.len() as int) =~= inline_contents@);
}

/// Writes the alt text of inline contents one after another.
pub fn push_all_alt(inline_contents: &Vec<InlineContent>, string_array: &[char], string_builder: &mut String)
    ensures
        final(string_builder)@ == old(string_builder)@ + spec_ics_alt(inline_contents@, string_array@),
    decreases inline_contents,
{
    let ghost before = string_builder@;
    let mut i: usize = 0;
    while i < inline_contents.len()
        invariant
            i <= inline_contents@.len(),
            string_builder@ == before + spec_ics_alt(inline_contents@.take(i as int), string_array@),
        decreases inline_contents@.len() - i,
    {
        assert(inline_contents@.take(i + 1).drop_last() =~= inline_contents@.take(i as int));
        inline_contents[i].to_alt_text(string_array, string_builder);
        i = i + 1;
    }
    assert(inline_contents@.take(inline_contents@.len() as int) =~= inline_contents@);
}

} // verus!

verus! {

/// Inline content is well formed: its ranges lie in a text of length `n`, and every reference
/// link names a label in `labels`.
pub open spec fn range_wf(r: Range<usize>, n: int) -> bool {
    r.start <= r.end <= n
}

pub open spec fn opt_range_wf(r: Option<Range<usize>>, n: int) -> bool {
    match r {
        Some(r) => range_wf(r, n),
        None => true,
    }
}

pub open spec fn ic_wf(ic: InlineContent, n: int, labels: Seq<Seq<char>>) -> bool
    decreases ic,
{
    match ic {
        InlineContent::Softbreak | InlineContent::Hardbreak => true,
        InlineContent::Text(r) => range_wf(r, n),
        InlineContent::AutoLink(r, _) => range_wf(r, n),
        InlineContent::HTMLTag(r) => range_wf(r, n),
        InlineContent::Code(r) => range_wf(r, n),
        InlineContent::Emph(v) => ics_wf(v@, n, labels),
        InlineContent::Strong(v) => ics_wf(v@, n, labels),
        InlineContent::InlineLink(_, d, t, v) => opt_range_wf(d, n) && opt_range_wf(t, n)
            && ics_wf(v@, n, labels),
        InlineContent::ReferenceLink(_, l, v) => labels.contains(l@) && ics_wf(v@, n, labels),
        InlineContent::Dummy => false,
    }
}

pub open spec fn ics_wf(s: Seq<InlineContent>, n: int, labels: Seq<Seq<char>>) -> bool
    decreases s,
{
    if s.len() == 0 {
        true
    } else {
        ics_wf(s.drop_last(), n, labels) && ic_wf(s.last(), n, labels)
    }
}

pub proof fn lemma_ics_wf_push(s: Seq<InlineContent>, x: InlineContent, n: int, labels: Seq<Seq<char>>)
    requires
        ics_wf(s, n, labels),
        ic_wf(x, n, labels),
    ensures
        ics_wf(s.push(x), n, labels),
{
    assert(s.push(x).drop_last() =~= s);
}

#[derive(Debug)]
pub enum InlineStructureDelimiters {
    /// Total_count,Count_consumed, potential_opener, potential_closer
    Asts(usize, usize, bool, bool),
    /// Total_count,Count_consumed, potential_opener, potential_closer
    Unds(usize, usize, bool, bool),
    ImgOpen(bool),
    /// active
    LinkOpen(bool),
    BrackClose,
    /// Offset to last char (exclusive)
    TextualContent(Range<usize>),
    CompletedContent(InlineContent),
}

/// A delimiter entry standing at position `p` of a text of length `n` is well formed.
pub open spec fn isd_wf(d: InlineStructureDelimiters, p: int, n: int, labels: Seq<Seq<char>>) -> bool {
    match d {
        InlineStructureDelimiters::Asts(t, u, _, _) => u <= t && p + t <= n,
        InlineStructureDelimiters::Unds(t, u, _, _) => u <= t && p + t <= n,
        InlineStructureDelimiters::ImgOpen(_) => 0 <= p && p + 2 <= n,
        InlineStructureDelimiters::LinkOpen(_) => 0 <= p && p + 1 <= n,
        InlineStructureDelimiters::BrackClose => 0 <= p && p + 1 <= n,
        InlineStructureDelimiters::TextualContent(r) => range_wf(r, n),
        InlineStructureDelimiters::CompletedContent(ic) => ic_wf(ic, n, labels),
    }
}

pub type DLStack = ArenaDLL<InlineStructureDelimiters, usize>;

/// Every entry of the delimiter stack, linked or not, is well formed.
pub open spec fn arena_wf(a: DLStack, n: int, labels: Seq<Seq<char>>) -> bool {
    &&& a.wf()
    &&& forall|i: usize|
        i < a.size() ==> match #[trigger] a.content_of(i) {
            Some(c) => isd_wf(c, a.pos_of(i) as int, n, labels),
            None => true,
        }
}

/// How many linked nodes stand from `id` to the end of the list.
pub open spec fn after_count(s: Seq<usize>, id: usize) -> int {
    s.len() - s.index_of(id)
}

pub proof fn lemma_index_of_unique(s: Seq<usize>, k: int)
    requires
        s.no_duplicates(),
        0 <= k < s.len(),
    ensures
        s.contains(s[k]),
        s.index_of(s[k]) == k,
{
    assert(s.contains(s[k]));
    let j = s.index_of(s[k]);
    assert(s[j] == s[k]);
}

pub proof fn lemma_after_remove_before(s: Seq<usize>, j: int, x: usize)
    requires
        s.no_duplicates(),
        s.contains(x),
        0 <= j < s.index_of(x),
    ensures
        s.remove(j).contains(x),
        s.remove(j).index_of(x) == s.index_of(x) - 1,
        after_count(s.remove(j), x) == after_count(s, x),
        s.remove(j).no_duplicates(),
{
    let k = s.index_of(x);
    assert(s[k] == x);
    let s2 = s.remove(j);
    assert(s2[k - 1] == x);
    assert(s2.no_duplicates()) by {
        assert forall|a: int, b: int| 0 <= a < s2.len() && 0 <= b < s2.len() && a != b implies s2[a] != s2[b] by {
            let a1 = if a < j { a } else { a + 1 };
            let b1 = if b < j { b } else { b + 1 };
            assert(s2[a] == s[a1]);
            assert(s2[b] == s[b1]);
        }
    }
    lemma_index_of_unique(s2, k - 1);
}

pub proof fn lemma_after_insert_before(s: Seq<usize>, j: int, y: usize, x: usize)
    requires
        s.no_duplicates(),
        s.contains(x),
        !s.contains(y),
        0 <= j <= s.index_of(x),
    ensures
        s.insert(j, y).contains(x),
        s.insert(j, y).index_of(x) == s.index_of(x) + 1,
        after_count(s.insert(j, y), x) == after_count(s, x),
        s.insert(j, y).no_duplicates(),
{
    let k = s.index_of(x);
    assert(s[k] == x);
    let s2 = s.insert(j, y);
    assert(s2[k + 1] == x);
    assert(s2.no_duplicates()) by {
        assert forall|a: int, b: int| 0 <= a < s2.len() && 0 <= b < s2.len() && a != b implies s2[a] != s2[b] by {
            if a != j && b != j {
                let a1 = if a < j { a } else { a - 1 };
                let b1 = if b < j { b } else { b - 1 };
                assert(s2[a] == s[a1]);
                assert(s2[b] == s[b1]);
            } else if a == j {
                let b1 = if b < j { b } else { b - 1 };
                assert(s2[b] == s[b1]);
            } else {
                let a1 = if a < j { a } else { a - 1 };
                assert(s2[a] == s[a1]);
            }
        }
    }
    lemma_index_of_unique(s2, k + 1);
}

/// Text of `width` characters from `start`, or empty text where that would pass the largest
/// index.
pub open spec fn text_run(start: usize, width: usize) -> InlineStructureDelimiters {
    if start <= usize::MAX - width {
        InlineStructureDelimiters::TextualContent(start..(start + width) as usize)
    } else {
        InlineStructureDelimiters::TextualContent(start..start)
    }
}

/// An entry turned into text at `start`: text and finished content stay; a delimiter run becomes
/// its unused delimiters, an image opener its two characters, anything else its one.
pub open spec fn as_completed(d: InlineStructureDelimiters, start: usize) -> InlineStructureDelimiters {
    match d {
        InlineStructureDelimiters::TextualContent(..) => d,
        InlineStructureDelimiters::CompletedContent(..) => d,
        InlineStructureDelimiters::Unds(t, c, ..) => text_run(start, if c <= t {
            (t - c) as usize
        } else {
            0
        }),
        InlineStructureDelimiters::Asts(t, c, ..) => text_run(start, if c <= t {
            (t - c) as usize
        } else {
            0
        }),
        InlineStructureDelimiters::ImgOpen(..) => text_run(start, 2),
        _ => text_run(start, 1),
    }
}

impl InlineStructureDelimiters {
    fn convert_to_completed_content(&mut self, start_index: usize)
        ensures
            *final(self) == as_completed(*old(self), start_index),
            forall|n: int, labels: Seq<Seq<char>>| isd_wf(*old(self), start_index as int, n, labels)
                ==> isd_wf(*final(self), start_index as int, n, labels),
            (*old(self) is TextualContent || *old(self) is CompletedContent) ==> *final(self) == *old(self),
            *final(self) is TextualContent || *final(self) is CompletedContent,
    {
        let width: usize = match &*self {
            InlineStructureDelimiters::TextualContent(..) | InlineStructureDelimiters::CompletedContent(..) => {
                return ;
            },
            InlineStructureDelimiters::Unds(total, consumed, ..) => if *consumed <= *total {
                *total - *consumed
            } else {
                0
            },
            InlineStructureDelimiters::Asts(total, consumed, ..) => if *consumed <= *total {
                *total - *consumed
            } else {
                0
            },
            InlineStructureDelimiters::ImgOpen(..) => 2,
            _ => 1,
        };
        let new_self = if start_index <= usize::MAX - width {
            InlineStructureDelimiters::TextualContent(start_index..(start_index + width))
        } else {
            InlineStructureDelimiters::TextualContent(start_index..start_index)
        };
        *self = new_self;
    }

    fn convert_to_inline_content(self, char_offset: usize) -> (r: InlineContent)
        ensures
            forall|n: int, labels: Seq<Seq<char>>| isd_wf(self, char_offset as int, n, labels)
                ==> ic_wf(r, n, labels),
            self is TextualContent || self is CompletedContent ==> r == entry_inline(self),
            r == entry_text(self, char_offset),
    {
        match self {
            InlineStructureDelimiters::Unds(total, consumed, ..)
            | InlineStructureDelimiters::Asts(total, consumed, ..) => {
                if consumed <= total && char_offset <= usize::MAX - (total - consumed) {
                    InlineContent::Text(char_offset..(char_offset + (total - consumed)))
                } else {
                    InlineContent::Text(char_offset..char_offset)
                }
            },
            InlineStructureDelimiters::TextualContent(range) => InlineContent::Text(range),
            InlineStructureDelimiters::ImgOpen(..) => {
                if char_offset <= usize::MAX - 2 {
                    InlineContent::Text(char_offset..(char_offset + 2))
                } else {
                    InlineContent::Text(char_offset..char_offset)
                }
            },
            InlineStructureDelimiters::CompletedContent(c) => c,
            _ => {
                if char_offset < usize::MAX {
                    InlineContent::Text(char_offset..(char_offset + 1))
                } else {
                    InlineContent::Text(char_offset..char_offset)
                }
            },
        }
    }
}

/// An arena that differs from a well-formed one only in nodes whose new contents are well
/// formed is well formed.
pub proof fn lemma_arena_wf_frame(
    before: DLStack,
    after: DLStack,
    n: int,
    labels: Seq<Seq<char>>,
    touched: Set<usize>,
)
    requires
        arena_wf(before, n, labels),
        after.wf(),
        after.size() >= before.size(),
        forall|i: usize|
            i < before.size() && !touched.contains(i) ==> #[trigger] after.content_of(i) == before.content_of(i)
                && after.pos_of(i) == before.pos_of(i),
        forall|i: usize|
            i < after.size() && (touched.contains(i) || i >= before.size()) ==> match #[trigger] after.content_of(i) {
                Some(c) => isd_wf(c, after.pos_of(i) as int, n, labels),
                None => true,
            },
    ensures
        arena_wf(after, n, labels),
{
    assert forall|i: usize| i < after.size() implies match #[trigger] after.content_of(i) {
        Some(c) => isd_wf(c, after.pos_of(i) as int, n, labels),
        None => true,
    } by {
        if i < before.size() && !touched.contains(i) {
            assert(after.content_of(i) == before.content_of(i));
            assert(match before.content_of(i) {
                Some(c) => isd_wf(c, before.pos_of(i) as int, n, labels),
                None => true,
            });
        }
    }
}

} // verus!

verus! {

pub proof fn lemma_index_remove_after(s: Seq<usize>, j: int, x: usize)
    requires
        s.no_duplicates(),
        s.contains(x),
        s.index_of(x) < j < s.len(),
    ensures
        s.remove(j).contains(x),
        s.remove(j).index_of(x) == s.index_of(x),
        s.remove(j).no_duplicates(),
{
    let k = s.index_of(x);
    assert(s[k] == x);
    let s2 = s.remove(j);
    assert(s2[k] == x);
    assert(s2.no_duplicates()) by {
        assert forall|a: int, b: int| 0 <= a < s2.len() && 0 <= b < s2.len() && a != b implies s2[a] != s2[b] by {
            let a1 = if a < j { a } else { a + 1 };
            let b1 = if b < j { b } else { b + 1 };
            assert(s2[a] == s[a1]);
            assert(s2[b] == s[b1]);
        }
    }
    lemma_index_of_unique(s2, k);
}

pub proof fn lemma_index_insert_after(s: Seq<usize>, j: int, y: usize, x: usize)
    requires
        s.no_duplicates(),
        s.contains(x),
        !s.contains(y),
        s.index_of(x) < j <= s.len(),
    ensures
        s.insert(j, y).contains(x),
        s.insert(j, y).index_of(x) == s.index_of(x),
        s.insert(j, y).no_duplicates(),
{
    let k = s.index_of(x);
    assert(s[k] == x);
    let s2 = s.insert(j, y);
    assert(s2[k] == x);
    assert(s2.no_duplicates()) by {
        assert forall|a: int, b: int| 0 <= a < s2.len() && 0 <= b < s2.len() && a != b implies s2[a] != s2[b] by {
            if a != j && b != j {
                let a1 = if a < j { a } else { a - 1 };
                let b1 = if b < j { b } else { b - 1 };
                assert(s2[a] == s[a1]);
                assert(s2[b] == s[b1]);
            } else if a == j {
                let b1 = if b < j { b } else { b - 1 };
                assert(s2[b] == s[b1]);
            } else {
                let a1 = if a < j { a } else { a - 1 };
                assert(s2[a] == s[a1]);
            }
        }
    }
    lemma_index_of_unique(s2, k);
}

/// Stack pushes that stop (leaving the stack as it is) once the arena is full.
fn stack_push(dl_stack: &mut DLStack, pos: usize, isd: InlineStructureDelimiters, Ghost(n): Ghost<int>, Ghost(labels): Ghost<Seq<Seq<char>>>)
    requires
        arena_wf(*old(dl_stack), n, labels),
        isd_wf(isd, pos as int, n, labels),
    ensures
        arena_wf(*final(dl_stack), n, labels),
        old(dl_stack).size() < usize::MAX - 1 ==> final(dl_stack).order() == old(dl_stack).order().push(
            old(dl_stack).size() as usize,
        ) && final(dl_stack).content_of(old(dl_stack).size() as usize) == Some(isd) && final(dl_stack).size()
            == old(dl_stack).size() + 1,
        forall|i: usize| i < old(dl_stack).size() ==> #[trigger] final(dl_stack).content_of(i) == old(dl_stack).content_of(i),
        forall|i: usize| i < old(dl_stack).size() ==> #[trigger] final(dl_stack).pos_of(i) == old(dl_stack).pos_of(i),
        old(dl_stack).size() < usize::MAX - 1 ==> final(dl_stack).pos_of(old(dl_stack).size() as usize) == pos,
        final(dl_stack).size() <= old(dl_stack).size() + 1,
{
    if dl_stack.len() < usize::MAX - 1 {
        let ghost before = *dl_stack;
        dl_stack.push_back(pos, isd);
        proof {
            lemma_arena_wf_frame(before, *dl_stack, n, labels, Set::empty());
            assert forall|i: usize| i < before.size() implies #[trigger] dl_stack.pos_of(i) == before.pos_of(i) by {
                assert(dl_stack.content_of(i) == before.content_of(i));
            }
        }
    }
}

/// Text from `text_begin` to `text_end`, when not empty.
fn add_text_to_stack(sicl: &mut DLStack, text_begin: usize, text_end: usize, Ghost(n): Ghost<int>, Ghost(labels): Ghost<Seq<Seq<char>>>)
    requires
        arena_wf(*old(sicl), n, labels),
        text_end <= n,
    ensures
        arena_wf(*final(sicl), n, labels),
        text_end <= text_begin ==> final(sicl).order() == old(sicl).order() && final(sicl).nodes@ == old(sicl).nodes@,
        text_end > text_begin && old(sicl).size() < usize::MAX - 1 ==> final(sicl).order() == old(sicl).order().push(
            old(sicl).size() as usize,
        ) && final(sicl).content_of(old(sicl).size() as usize) == Some(
            InlineStructureDelimiters::TextualContent(text_begin..text_end),
        ) && final(sicl).size() == old(sicl).size() + 1,
        forall|i: usize| i < old(sicl).size() ==> #[trigger] final(sicl).content_of(i) == old(sicl).content_of(i),
        forall|i: usize| i < old(sicl).size() ==> #[trigger] final(sicl).pos_of(i) == old(sicl).pos_of(i),
        text_end > text_begin && old(sicl).size() < usize::MAX - 1 ==> final(sicl).pos_of(old(sicl).size() as usize)
            == text_begin,
        final(sicl).size() <= old(sicl).size() + 1,
{
    if text_end > text_begin {
        stack_push(sicl, text_begin, InlineStructureDelimiters::TextualContent(text_begin..text_end), Ghost(n), Ghost(labels));
    }
}

/// How many delimiter characters of an entry are left to match.
pub open spec fn delims_left(c: Option<InlineStructureDelimiters>) -> int {
    match c {
        Some(InlineStructureDelimiters::Asts(t, u, _, _)) => t - u,
        Some(InlineStructureDelimiters::Unds(t, u, _, _)) => t - u,
        _ => 0,
    }
}

/// Where in the openers-bottom table the closers of a kind (`*` or `_`, opener or not, length
/// modulo three) keep the lowest place an opener may be looked for.
fn bottom_index(is_asts: bool, pot_op: bool, total: usize) -> (r: usize)
    ensures
        r < 12,
        r == (if is_asts {
            0int
        } else {
            6
        }) + (if pot_op {
            3int
        } else {
            0
        }) + total % 3,
{
    (if is_asts { 0 } else { 6 }) + (if pot_op { 3 } else { 0 }) + total % 3
}

/// Removes the handles of taken nodes from the top of an opener stack.
fn pop_taken(stack: &mut Vec<DLLNodeID>, dl_stack: &DLStack)
    ensures
        final(stack)@ == old(stack)@.take(final(stack)@.len() as int),
        forall|i: int| final(stack)@.len() <= i < old(stack)@.len() ==> (#[trigger] old(stack)@[i]).0 < dl_stack.nodes@.len()
            && dl_stack.content_of(old(stack)@[i].0) is None,
        final(stack)@.len() > 0 ==> !(final(stack)@.last().0 < dl_stack.nodes@.len() && dl_stack.content_of(
            final(stack)@.last().0,
        ) is None),
{
    loop
        invariant
            stack@.len() <= old(stack)@.len(),
            stack@ == old(stack)@.take(stack@.len() as int),
            forall|i: int| stack@.len() <= i < old(stack)@.len() ==> (#[trigger] old(stack)@[i]).0 < dl_stack.nodes@.len()
                && dl_stack.content_of(old(stack)@[i].0) is None,
        ensures
            stack@ == old(stack)@.take(stack@.len() as int),
            forall|i: int| stack@.len() <= i < old(stack)@.len() ==> (#[trigger] old(stack)@[i]).0 < dl_stack.nodes@.len()
                && dl_stack.content_of(old(stack)@[i].0) is None,
            stack@.len() > 0 ==> !(stack@.last().0 < dl_stack.nodes@.len() && dl_stack.content_of(stack@.last().0) is None),
        decreases stack@.len(),
    {
        if stack.len() == 0 {
            break ;
        }
        let top = stack[stack.len() - 1];
        if top.0 < dl_stack.len() && dl_stack.is_taken(top) {
            let ghost before = stack@;
            stack.pop();
            proof {
                assert(stack@ =~= old(stack)@.take(stack@.len() as int));
            }
        } else {
            break ;
        }
    }
}

/// What comes after a linked node, and how much closer to the end it stands.
fn next_after(dl_stack: &DLStack, current_id: DLLNodeID, Ghost(n): Ghost<int>, Ghost(labels): Ghost<Seq<Seq<char>>>) -> (next: Option<DLLNodeID>)
    requires
        arena_wf(*dl_stack, n, labels),
        dl_stack.order().contains(current_id.0),
    ensures
        next == crate::fake_dll::id_opt(dl_stack.order(), dl_stack.order().index_of(current_id.0) + 1),
        (next is Some) == (after_count(dl_stack.order(), current_id.0) > 1),
        next matches Some(x) ==> dl_stack.order().contains(x.0) && after_count(dl_stack.order(), x.0)
            == after_count(dl_stack.order(), current_id.0) - 1,
{
    let ghost s = dl_stack.order();
    proof {
        let c = s.index_of(current_id.0);
        assert(s[c] == current_id.0);
        assert(dl_stack.nodes@[s[c] as int].id_of_next == crate::fake_dll::id_opt(s, c + 1));
        if c + 1 < s.len() {
            lemma_index_of_unique(s, c + 1);
        }
    }
    dl_stack.get_next_id(current_id)
}

/// A delimiter run's length and whether it may open and close.
pub open spec fn delim_info(c: Option<InlineStructureDelimiters>) -> Option<(usize, bool, bool)> {
    match c {
        Some(InlineStructureDelimiters::Asts(t, _, po, pc)) => Some((t, po, pc)),
        Some(InlineStructureDelimiters::Unds(t, _, po, pc)) => Some((t, po, pc)),
        _ => None,
    }
}

/// Where on the opener stack `st`, from `off` down, the search for an opener of a closer of
/// `total` delimiters ends: at an opener that may match it, or nowhere when it meets a taken
/// node, a node at or below `bottom`, a node that is no opener, or the bottom of the stack.
/// Openers that the rule of three rules out are passed over.
pub open spec fn opener_search(
    dl: DLStack,
    st: Seq<DLLNodeID>,
    off: int,
    bottom: Option<usize>,
    total: usize,
    pot_op: bool,
) -> Option<int>
    decreases off + 1,
{
    if off < 0 || off >= st.len() {
        None
    } else {
        let cand = st[off].0;
        if !(cand < dl.size() && dl.content_of(cand) is Some) {
            None
        } else if !(match bottom {
            None => true,
            Some(x) => dl.pos_of(cand) > x,
        }) {
            None
        } else {
            match delim_info(dl.content_of(cand)) {
                Some((t, po, pc)) => if !po {
                    None
                } else if (pc || pot_op) && ((total % 3 + t % 3) % 3 == 0) && !(total % 3 == 0 && t % 3 == 0) {
                    opener_search(dl, st, off - 1, bottom, total, pot_op)
                } else {
                    Some(off)
                },
                None => None,
            }
        }
    }
}

/// The rule of three: an opener is passed over when it or the closer can both open and close
/// and their lengths add up to a multiple of three, unless both lengths are; an opener that
/// can only open, for a closer that can only close, is taken whatever the lengths.
pub proof fn law_rule_of_three(
    dl: DLStack,
    st: Seq<DLLNodeID>,
    off: int,
    bottom: Option<usize>,
    total: usize,
    pot_op: bool,
)
    requires
        0 <= off < st.len(),
        st[off].0 < dl.size(),
        dl.content_of(st[off].0) is Some,
        bottom matches Some(x) ==> dl.pos_of(st[off].0) > x,
        delim_info(dl.content_of(st[off].0)) matches Some((_, po, _)) && po,
    ensures
        ({
            let (t, po, pc) = delim_info(dl.content_of(st[off].0))->0;
            &&& (pc || pot_op) && (total + t) % 3 == 0 && !(total % 3 == 0 && t % 3 == 0) ==> opener_search(
                dl,
                st,
                off,
                bottom,
                total,
                pot_op,
            ) == opener_search(dl, st, off - 1, bottom, total, pot_op)
            &&& !pc && !pot_op ==> opener_search(dl, st, off, bottom, total, pot_op) == Some(off)
            &&& (total + t) % 3 != 0 ==> opener_search(dl, st, off, bottom, total, pot_op) == Some(off)
        }),
{
    let (t, po, pc) = delim_info(dl.content_of(st[off].0))->0;
    assert((total % 3 + t % 3) % 3 == (total + t) % 3);
}

/// Looks for the opener that a closer with `total_count` delimiters matches: from the top of
/// the opener stack down, above `opener_bottom`, passing over those that the rule of three rules
/// out. Gives the opener and its place on the stack.
fn find_opener(
    dl_stack: &DLStack,
    this_op_stack: &Vec<DLLNodeID>,
    current_id: DLLNodeID,
    opener_bottom: Option<usize>,
    total_count: usize,
    pot_op: bool,
) -> (r: Option<(DLLNodeID, usize)>)
    requires
        dl_stack.wf(),
        dl_stack.order().contains(current_id.0),
    ensures
        r matches Some((id, off)) ==> {
            &&& off < this_op_stack@.len()
            &&& this_op_stack@[off as int] == id
            &&& dl_stack.order().contains(id.0)
            &&& dl_stack.order().index_of(id.0) < dl_stack.order().index_of(current_id.0)
        },
        r == match opener_search(
            *dl_stack,
            this_op_stack@,
            this_op_stack@.len() - 1,
            opener_bottom,
            total_count,
            pot_op,
        ) {
            Some(o) => if dl_stack.order().contains(this_op_stack@[o].0) && dl_stack.order().index_of(
                this_op_stack@[o].0,
            ) < dl_stack.order().index_of(current_id.0) {
                Some((this_op_stack@[o], o as usize))
            } else {
                None
            },
            None => None,
        },
{
    if this_op_stack.len() == 0 {
        return None;
    }
    let mut off = this_op_stack.len() - 1;
    let mut found: Option<(DLLNodeID, usize)> = None;
    loop
        invariant_except_break
            found is None,
        invariant
            off < this_op_stack@.len(),
            dl_stack.wf(),
            opener_search(*dl_stack, this_op_stack@, off as int, opener_bottom, total_count, pot_op) == opener_search(
                *dl_stack,
                this_op_stack@,
                this_op_stack@.len() - 1,
                opener_bottom,
                total_count,
                pot_op,
            ),
        ensures
            found matches Some((id, o)) ==> o < this_op_stack@.len() && this_op_stack@[o as int] == id,
            found == match opener_search(
                *dl_stack,
                this_op_stack@,
                this_op_stack@.len() - 1,
                opener_bottom,
                total_count,
                pot_op,
            ) {
                Some(o) => Some((this_op_stack@[o], o as usize)),
                None => None,
            },
        decreases off,
    {
        let cand = this_op_stack[off];
        if !(cand.0 < dl_stack.len() && !dl_stack.is_taken(cand)) {
            break ;
        }
        let cand_pos = *dl_stack.get_position_indicator(cand);
        let above_bottom = match opener_bottom {
            None => true,
            Some(x) => cand_pos > x,
        };
        if !above_bottom {
            break ;
        }
        let (opener_tc, opener_po, opener_pc) = match dl_stack.get_content(cand) {
            InlineStructureDelimiters::Asts(t, _, po, pc) => (*t, *po, *pc),
            InlineStructureDelimiters::Unds(t, _, po, pc) => (*t, *po, *pc),
            _ => {
                break ;
            },
        };
        if !opener_po {
            break ;
        }
        if (opener_pc || pot_op) && ((total_count % 3 + opener_tc % 3) % 3 == 0) && !(total_count % 3 == 0
            && opener_tc % 3 == 0) {
            if off == 0 {
                proof {
                    assert(opener_search(*dl_stack, this_op_stack@, -1, opener_bottom, total_count, pot_op) is None);
                }
                break ;
            }
            off = off - 1;
        } else {
            found = Some((cand, off));
            break ;
        }
    }
    // the opener must stand before the closer, both linked
    match found {
        Some((mid, o)) => {
            let a = dl_stack.index_in_list(mid);
            let c = dl_stack.index_in_list(current_id);
            match (a, c) {
                (Some(a), Some(c)) => if a < c {
                    Some((mid, o))
                } else {
                    None
                },
                _ => None,
            }
        },
        None => None,
    }
}

/// Turns what stands between an opener and a closer into emphasis (strong emphasis when both
/// have two delimiters left) and uses up the opener's delimiters, deleting it when none are
/// left. Gives how many delimiters each side used and whether the opener was deleted; nothing,
/// with the stack unchanged, when the opener has no delimiters left.
#[verifier::spinoff_prover]
#[verifier::rlimit(60)]
fn emphasize(
    dl_stack: &mut DLStack,
    matching_dl_id: DLLNodeID,
    current_id: DLLNodeID,
    this_dl_unconsumed: usize,
    Ghost(n): Ghost<int>,
    Ghost(labels): Ghost<Seq<Seq<char>>>,
) -> (r: Option<(usize, bool)>)
    requires
        arena_wf(*old(dl_stack), n, labels),
        old(dl_stack).order().contains(current_id.0),
        old(dl_stack).order().contains(matching_dl_id.0),
        old(dl_stack).order().index_of(matching_dl_id.0) < old(dl_stack).order().index_of(current_id.0),
        this_dl_unconsumed >= 1,
    ensures
        arena_wf(*final(dl_stack), n, labels),
        final(dl_stack).order().contains(current_id.0),
        after_count(final(dl_stack).order(), current_id.0) == after_count(old(dl_stack).order(), current_id.0),
        final(dl_stack).content_of(current_id.0) == old(dl_stack).content_of(current_id.0),
        r is None ==> *final(dl_stack) == *old(dl_stack),
        r matches Some((u, _)) ==> 1 <= u <= 2 && u <= this_dl_unconsumed,
        (r is Some) == (delims_left(old(dl_stack).content_of(matching_dl_id.0)) > 0 && old(dl_stack).size() < usize::MAX
            - 1),
        r matches Some((u, d)) ==> {
            let left = delims_left(old(dl_stack).content_of(matching_dl_id.0));
            &&& u == (if left >= 2 && this_dl_unconsumed >= 2 {
                2usize
            } else {
                1usize
            })
            &&& d == (u == left)
            &&& d ==> !final(dl_stack).order().contains(matching_dl_id.0)
            &&& !d ==> final(dl_stack).order().contains(matching_dl_id.0) && delims_left(
                final(dl_stack).content_of(matching_dl_id.0),
            ) == left - u
        },
        r matches Some((u, d)) ==> {
            let s = old(dl_stack).order();
            let v = span_texts(
                *old(dl_stack),
                s.subrange(s.index_of(matching_dl_id.0) + 1, s.index_of(current_id.0)),
            );
            &&& final(dl_stack).order().contains(old(dl_stack).size() as usize)
            &&& final(dl_stack).order() == (if d {
                s.take(s.index_of(matching_dl_id.0))
            } else {
                s.take(s.index_of(matching_dl_id.0) + 1)
            }) + seq![old(dl_stack).size() as usize] + s.skip(s.index_of(current_id.0))
            &&& final(dl_stack).content_of(old(dl_stack).size() as usize) matches Some(
                InlineStructureDelimiters::CompletedContent(e),
            ) && (if u == 2 {
                e matches InlineContent::Strong(w) && w@ == v
            } else {
                e matches InlineContent::Emph(w) && w@ == v
            })
        },
{
    let ghost st0 = *dl_stack;
    let ghost mid0 = st0.order().subrange(
        st0.order().index_of(matching_dl_id.0) + 1,
        st0.order().index_of(current_id.0),
    );
    let ghost s1 = dl_stack.order();
    let ghost cur_c = dl_stack.content_of(current_id.0);
    proof {
        assert(s1[s1.index_of(matching_dl_id.0)] == matching_dl_id.0);
        assert(s1[s1.index_of(current_id.0)] == current_id.0);
    }
    proof {
        assert(s1[s1.index_of(matching_dl_id.0)] == matching_dl_id.0);
        assert(match dl_stack.content_of(matching_dl_id.0) {
            Some(c) => isd_wf(c, dl_stack.pos_of(matching_dl_id.0) as int, n, labels),
            None => true,
        });
    }
    let (is_asts, op_tc, op_used, op_po, op_pc) = match dl_stack.get_content(matching_dl_id) {
        InlineStructureDelimiters::Asts(t, u, po, pc) => (true, *t, *u, *po, *pc),
        InlineStructureDelimiters::Unds(t, u, po, pc) => (false, *t, *u, *po, *pc),
        _ => {
            return None;
        },
    };
    let ghost op_c = dl_stack.content_of(matching_dl_id.0);
    let matching_dl_unconsumed = op_tc - op_used;
    if matching_dl_unconsumed == 0 || dl_stack.len() >= usize::MAX - 1 {
        return None;
    }
    let is_strong = matching_dl_unconsumed >= 2 && this_dl_unconsumed >= 2;
    let used_now: usize = if is_strong { 2 } else { 1 };
    let ghost m0 = after_count(dl_stack.order(), current_id.0);
    // turn stack items inside the stack delimiters into actual inline content.
    let mut emph_children: Vec<InlineContent> = Vec::new();
    let mut start_pos: Option<usize> = None;
    let mut it = dl_stack.take_content_between(matching_dl_id, current_id);
    proof {
        assert(mid0.subrange(0, mid0.len() as int) =~= mid0);
        assert(st0.order() =~= st0.order().take(st0.order().index_of(matching_dl_id.0) + 1) + mid0
            + st0.order().skip(st0.order().index_of(current_id.0)));
    }
    loop
        invariant_except_break
            it.remaining(&*dl_stack) == dl_stack.order().subrange(
                dl_stack.order().index_of(matching_dl_id.0) + 1,
                dl_stack.order().index_of(current_id.0),
            ),
            it.remaining(&*dl_stack) == mid0.subrange(emph_children@.len() as int, mid0.len() as int),
            dl_stack.order() == st0.order().take(st0.order().index_of(matching_dl_id.0) + 1) + mid0.subrange(
                emph_children@.len() as int,
                mid0.len() as int,
            ) + st0.order().skip(st0.order().index_of(current_id.0)),
        invariant
            emph_children@.len() <= mid0.len(),
            0 <= st0.order().index_of(matching_dl_id.0) < st0.order().index_of(current_id.0) <= st0.order().len(),
            mid0.len() == st0.order().index_of(current_id.0) - st0.order().index_of(matching_dl_id.0) - 1,
            st0.order().no_duplicates(),
            st0.wf(),
            mid0 == st0.order().subrange(
                st0.order().index_of(matching_dl_id.0) + 1,
                st0.order().index_of(current_id.0),
            ),
            emph_children@ == span_texts(st0, mid0.take(emph_children@.len() as int)),
            forall|k: int|
                emph_children@.len() <= k < mid0.len() ==> #[trigger] dl_stack.content_of(mid0[k]) == st0.content_of(
                    mid0[k],
                ) && dl_stack.pos_of(mid0[k]) == st0.pos_of(mid0[k]),
            dl_stack.size() == st0.size(),
            arena_wf(*dl_stack, n, labels),
            it.valid_for(&*dl_stack),
            dl_stack.order().contains(current_id.0),
            dl_stack.order().contains(matching_dl_id.0),
            after_count(dl_stack.order(), current_id.0) == m0,
            dl_stack.order().index_of(matching_dl_id.0) < dl_stack.order().index_of(current_id.0),
            dl_stack.content_of(current_id.0) == cur_c,
            dl_stack.content_of(matching_dl_id.0) == op_c,
            ics_wf(emph_children@, n, labels),
            dl_stack.size() < usize::MAX - 1,
        ensures
            dl_stack.order().index_of(matching_dl_id.0) + 1 == dl_stack.order().index_of(current_id.0),
            emph_children@ == span_texts(st0, mid0),
            dl_stack.order() == st0.order().take(st0.order().index_of(matching_dl_id.0) + 1) + st0.order().skip(
                st0.order().index_of(current_id.0),
            ),
        decreases it.remaining(&*dl_stack).len(),
    {
        let ghost sa = dl_stack.order();
        let ghost before = *dl_stack;
        let ghost rem = it.remaining(&*dl_stack);
        match it.next(dl_stack) {
            Some((isd, pos)) => {
                proof {
                    let id = rem[0];
                    let a = sa.index_of(matching_dl_id.0);
                    let c = sa.index_of(current_id.0);
                    assert(sa[a] == matching_dl_id.0);
                    assert(sa[c] == current_id.0);
                    assert(rem.len() > 0);
                    assert(rem[0] == sa[a + 1]);
                    lemma_index_of_unique(sa, a + 1);
                    lemma_after_remove_before(sa, a + 1, current_id.0);
                    lemma_index_remove_after(sa, a + 1, matching_dl_id.0);
                    assert(id != current_id.0);
                    assert(id != matching_dl_id.0);
                    assert(match before.content_of(id) {
                        Some(c) => isd_wf(c, before.pos_of(id) as int, n, labels),
                        None => true,
                    });
                    lemma_arena_wf_frame(before, *dl_stack, n, labels, set![id]);
                    assert(dl_stack.order().subrange(
                        dl_stack.order().index_of(matching_dl_id.0) + 1,
                        dl_stack.order().index_of(current_id.0),
                    ) =~= rem.drop_first());
                }
                if start_pos.is_none() {
                    start_pos = Some(pos);
                }
                let ic = isd.convert_to_inline_content(pos);
                proof {
                    lemma_ics_wf_push(emph_children@, ic, n, labels);
                    let m = emph_children@.len() as int;
                    assert(rem[0] == mid0[m]);
                    assert(span_texts(st0, mid0.take(m + 1)) =~= span_texts(st0, mid0.take(m)).push(ic));
                }
                emph_children.push(ic);
                proof {
                    let m = emph_children@.len() as int;
                    assert forall|k: int| m <= k < mid0.len() implies #[trigger] dl_stack.content_of(mid0[k])
                        == st0.content_of(mid0[k]) && dl_stack.pos_of(mid0[k]) == st0.pos_of(mid0[k]) by {
                        let a = st0.order().index_of(matching_dl_id.0) + 1;
                        assert(mid0[k] == st0.order()[a + k]);
                        assert(mid0[m - 1] == st0.order()[a + m - 1]);
                        assert(st0.order().no_duplicates());
                        assert(mid0[k] != rem[0]);
                        assert(mid0[k] < before.size());
                        assert(before.content_of(mid0[k]) == st0.content_of(mid0[k]));
                    }
                    assert(mid0.subrange(m, mid0.len() as int) =~= rem.drop_first());
                    let aa = st0.order().index_of(matching_dl_id.0);
                    assert(sa[aa] == matching_dl_id.0);
                    lemma_index_of_unique(sa, aa);
                    lemma_index_of_unique(sa, aa + 1);
                    assert(sa[aa + 1] == rem[0]);
                    assert(dl_stack.order() =~= st0.order().take(aa + 1) + mid0.subrange(m, mid0.len() as int)
                        + st0.order().skip(st0.order().index_of(current_id.0)));
                }
            },
            None => {
                proof {
                    assert(mid0.take(emph_children@.len() as int) =~= mid0);
                    assert(mid0.subrange(emph_children@.len() as int, mid0.len() as int) =~= Seq::<usize>::empty());
                    assert(dl_stack.order() =~= st0.order().take(st0.order().index_of(matching_dl_id.0) + 1)
                        + st0.order().skip(st0.order().index_of(current_id.0)));
                }
                break ;
            },
        }
    }
    let ghost s2 = dl_stack.order();
    let sp = match start_pos {
        Some(p) => p,
        None => *dl_stack.get_position_indicator(current_id),
    };
    let emph = if is_strong {
        InlineContent::Strong(emph_children)
    } else {
        InlineContent::Emph(emph_children)
    };
    let ghost before_rep = *dl_stack;
    proof {
        assert(s2[s2.index_of(matching_dl_id.0)] == matching_dl_id.0);
        assert(s2[s2.index_of(current_id.0)] == current_id.0);
    }
    let new_id = dl_stack.replace_inside_stack_range(
        matching_dl_id,
        current_id,
        sp,
        InlineStructureDelimiters::CompletedContent(emph),
    );
    proof {
        let a = s2.index_of(matching_dl_id.0);
        assert(!s2.contains(new_id.0)) by {
            if s2.contains(new_id.0) {
                let j = s2.index_of(new_id.0);
                assert(s2[j] < before_rep.size());
            }
        }
        lemma_after_insert_before(s2, a + 1, new_id.0, current_id.0);
        lemma_index_insert_after(s2, a + 1, new_id.0, matching_dl_id.0);
        lemma_arena_wf_frame(before_rep, *dl_stack, n, labels, Set::empty());
        assert(dl_stack.content_of(current_id.0) == cur_c);
        assert(dl_stack.content_of(matching_dl_id.0) == op_c);
    }
    // the opener uses up its delimiters
    let new_op_used = op_used + used_now;
    let new_opener = if is_asts {
        InlineStructureDelimiters::Asts(op_tc, new_op_used, op_po, op_pc)
    } else {
        InlineStructureDelimiters::Unds(op_tc, new_op_used, op_po, op_pc)
    };
    let ghost before_set = *dl_stack;
    proof {
        let s3 = dl_stack.order();
        assert(s3[s3.index_of(matching_dl_id.0)] == matching_dl_id.0);
        assert(dl_stack.nodes@[s3[s3.index_of(matching_dl_id.0)] as int].content is Some);
        assert(match op_c {
            Some(c) => isd_wf(c, dl_stack.pos_of(matching_dl_id.0) as int, n, labels),
            None => true,
        });
        assert(current_id.0 != matching_dl_id.0) by {
            assert(s3[s3.index_of(current_id.0)] == current_id.0);
        }
    }
    dl_stack.set_content(matching_dl_id, new_opener);
    proof {
        assert(new_id.0 != matching_dl_id.0);
        assert(dl_stack.content_of(new_id.0) == Some(InlineStructureDelimiters::CompletedContent(emph)));
        assert(dl_stack.order().contains(new_id.0)) by {
            let a = s2.index_of(matching_dl_id.0);
            assert(dl_stack.order()[a + 1] == new_id.0);
        }
        lemma_arena_wf_frame(before_set, *dl_stack, n, labels, set![matching_dl_id.0]);
        assert(dl_stack.nodes@[current_id.0 as int] == before_set.nodes@[current_id.0 as int]);
    }
    let deleted = new_op_used == op_tc;
    if deleted {
        let ghost s4 = dl_stack.order();
        proof {
            assert(s4[s4.index_of(matching_dl_id.0)] == matching_dl_id.0);
            lemma_after_remove_before(s4, s4.index_of(matching_dl_id.0), current_id.0);
        }
        let ghost s5 = dl_stack.order();
        dl_stack.delete(matching_dl_id);
        proof {
            let j = s5.index_of(new_id.0);
            let i = s5.index_of(matching_dl_id.0);
            assert(s5[j] == new_id.0);
            assert(s5[i] == matching_dl_id.0);
            if j < i {
                assert(dl_stack.order()[j] == new_id.0);
            } else {
                assert(dl_stack.order()[j - 1] == new_id.0);
            }
        }
    }
    proof {
        assert(emph_children@ == span_texts(st0, mid0));
    }
    Some((used_now, deleted))
}

/// A run of one `*` or `_`, none used, that may open (`po`) and close (`pc`) as given.
pub open spec fn one_run(c: Option<InlineStructureDelimiters>, po: bool, pc: bool) -> bool {
    match c {
        Some(InlineStructureDelimiters::Asts(t, u, o, cl)) => t == 1 && u == 0 && o == po && cl == pc,
        Some(InlineStructureDelimiters::Unds(t, u, o, cl)) => t == 1 && u == 0 && o == po && cl == pc,
        _ => false,
    }
}

/// A closer of one delimiter that can only close, facing a single opener of one delimiter that
/// can only open and stands before it, with no lower limit set for the search: the two make
/// emphasis of what stands between them.
pub open spec fn single_pair(dl: DLStack, ops: Seq<DLLNodeID>, current: DLLNodeID, bottoms: Seq<Option<usize>>) -> bool {
    &&& ops.len() == 1
    &&& dl.order().contains(ops[0].0)
    &&& dl.order().contains(current.0)
    &&& dl.order().index_of(ops[0].0) < dl.order().index_of(current.0)
    &&& one_run(dl.content_of(ops[0].0), true, false)
    &&& one_run(dl.content_of(current.0), false, true)
    &&& forall|i: int| 0 <= i < bottoms.len() ==> bottoms[i] is None
    &&& dl.size() < usize::MAX - 1
}

/// Handles a potential closer: while an opener on `this_op_stack` matches it, the content
/// between them becomes emphasis. Says which node to look at next.
#[verifier::spinoff_prover]
#[verifier::rlimit(100)]
fn close_delimiter(
    dl_stack: &mut DLStack,
    current_id: DLLNodeID,
    this_op_stack: &mut Vec<DLLNodeID>,
    other_op_stack: &mut Vec<DLLNodeID>,
    openers_bottom: &mut Vec<Option<usize>>,
    Ghost(n): Ghost<int>,
    Ghost(labels): Ghost<Seq<Seq<char>>>,
) -> (next: Option<DLLNodeID>)
    requires
        arena_wf(*old(dl_stack), n, labels),
        old(dl_stack).order().contains(current_id.0),
        old(openers_bottom)@.len() == 12,
    ensures
        arena_wf(*final(dl_stack), n, labels),
        final(openers_bottom)@.len() == 12,
        next matches Some(x) ==> final(dl_stack).order().contains(x.0) && after_count(final(dl_stack).order(), x.0)
            == after_count(old(dl_stack).order(), current_id.0) - 1,
        (next is Some) == (after_count(old(dl_stack).order(), current_id.0) > 1),
        delim_info(old(dl_stack).content_of(current_id.0)) matches Some((_, _, pc)) && !pc ==> *final(dl_stack)
            == *old(dl_stack),
        match delim_info(old(dl_stack).content_of(current_id.0)) {
            Some((_, po, pc)) => !pc ==> {
                &&& final(this_op_stack)@ == (if po {
                    old(this_op_stack)@.push(current_id)
                } else {
                    old(this_op_stack)@
                })
                &&& final(other_op_stack)@ == old(other_op_stack)@
                &&& final(openers_bottom)@ == old(openers_bottom)@
                &&& next == crate::fake_dll::id_opt(
                    old(dl_stack).order(),
                    old(dl_stack).order().index_of(current_id.0) + 1,
                )
            },
            None => true,
        },
        single_pair(*old(dl_stack), old(this_op_stack)@, current_id, old(openers_bottom)@) ==> {
            let s = old(dl_stack).order();
            let a = s.index_of(old(this_op_stack)@[0].0);
            let c = s.index_of(current_id.0);
            &&& final(dl_stack).order() == s.take(a) + seq![old(dl_stack).size() as usize] + s.skip(c + 1)
            &&& final(dl_stack).content_of(old(dl_stack).size() as usize) matches Some(
                InlineStructureDelimiters::CompletedContent(e),
            ) && (e matches InlineContent::Emph(w) && w@ == span_texts(*old(dl_stack), s.subrange(a + 1, c)))
            &&& next == crate::fake_dll::id_opt(s, c + 1)
        },
{
    let ghost m0 = after_count(dl_stack.order(), current_id.0);
    let ghost pair = single_pair(*dl_stack, this_op_stack@, current_id, openers_bottom@);
    let ghost inert_cur = delim_info(dl_stack.content_of(current_id.0)) matches Some((_, _, pc)) && !pc;
    loop
        invariant
            arena_wf(*dl_stack, n, labels),
            dl_stack.order().contains(current_id.0),
            after_count(dl_stack.order(), current_id.0) == m0,
            after_count(old(dl_stack).order(), current_id.0) == m0,
            openers_bottom@.len() == 12,
            delim_info(old(dl_stack).content_of(current_id.0)) matches Some((_, _, pc)) && !pc ==> *dl_stack == *old(
                dl_stack,
            ),
            inert_cur == (delim_info(old(dl_stack).content_of(current_id.0)) matches Some((_, _, pc)) && !pc),
            inert_cur ==> this_op_stack@ == old(this_op_stack)@ && other_op_stack@ == old(other_op_stack)@
                && openers_bottom@ == old(openers_bottom)@,
            pair == single_pair(*old(dl_stack), old(this_op_stack)@, current_id, old(openers_bottom)@),
            pair ==> *dl_stack == *old(dl_stack) && this_op_stack@ == old(this_op_stack)@ && openers_bottom@ == old(
                openers_bottom,
            )@,
        decreases delims_left(dl_stack.content_of(current_id.0)),
    {
        let ghost s0 = dl_stack.order();
        proof {
            assert(s0[s0.index_of(current_id.0)] == current_id.0);
            assert(dl_stack.nodes@[s0[s0.index_of(current_id.0)] as int].content is Some);
            assert(match dl_stack.content_of(current_id.0) {
                Some(c) => isd_wf(c, dl_stack.pos_of(current_id.0) as int, n, labels),
                None => true,
            });
        }
        let (is_asts, total_count, consumed, pot_op, pot_close) = match dl_stack.get_content(current_id) {
            InlineStructureDelimiters::Asts(t, c, o, cl) => (true, *t, *c, *o, *cl),
            InlineStructureDelimiters::Unds(t, c, o, cl) => (false, *t, *c, *o, *cl),
            _ => {
                return next_after(dl_stack, current_id, Ghost(n), Ghost(labels));
            },
        };
        let ghost cur_c = dl_stack.content_of(current_id.0);
        let bidx = bottom_index(is_asts, pot_op, total_count);
        if !pot_close || this_op_stack.len() == 0 || consumed >= total_count {
            if pot_op {
                this_op_stack.push(current_id);
            }
            return next_after(dl_stack, current_id, Ghost(n), Ghost(labels));
        }
        proof {
            if pair {
                assert(openers_bottom@[bidx as int] is None);
                assert(opener_search(*dl_stack, this_op_stack@, 0, None, total_count, pot_op) == Some(0int));
            }
        }
        let found = find_opener(dl_stack, this_op_stack, current_id, openers_bottom[bidx], total_count, pot_op);
        let (matching_dl_id, this_op_stack_offset) = match found {
            Some(x) => x,
            None => {
                let prev_pos = match dl_stack.get_prev_id(current_id) {
                    Some(prev_id) => if prev_id.0 < dl_stack.len() {
                        Some(*dl_stack.get_position_indicator(prev_id))
                    } else {
                        None
                    },
                    None => None,
                };
                openers_bottom.set(bidx, prev_pos);
                if pot_op {
                    this_op_stack.push(current_id);
                }
                return next_after(dl_stack, current_id, Ghost(n), Ghost(labels));
            },
        };
        let ghost before_emph = *dl_stack;
        let used = emphasize(dl_stack, matching_dl_id, current_id, total_count - consumed, Ghost(n), Ghost(labels));
        proof {
            if pair {
                assert(matching_dl_id == old(this_op_stack)@[0]);
                assert(used == Some((1usize, true)));
            }
        }
        let ghost after_emph = *dl_stack;
        let (used_now, opener_deleted) = match used {
            Some(x) => x,
            None => {
                return next_after(dl_stack, current_id, Ghost(n), Ghost(labels));
            },
        };
        // also clear out any delimiters on our local stack that we took inside the emphasis
        pop_taken(this_op_stack, dl_stack);
        pop_taken(other_op_stack, dl_stack);
        if opener_deleted && this_op_stack_offset < this_op_stack.len()
            && this_op_stack[this_op_stack_offset] == matching_dl_id {
            this_op_stack.remove(this_op_stack_offset);
        }
        // the closer uses up its delimiters
        let new_used = consumed + used_now;
        let new_closer = if is_asts {
            InlineStructureDelimiters::Asts(total_count, new_used, pot_op, pot_close)
        } else {
            InlineStructureDelimiters::Unds(total_count, new_used, pot_op, pot_close)
        };
        let ghost before_set2 = *dl_stack;
        proof {
            let s5 = dl_stack.order();
            assert(s5[s5.index_of(current_id.0)] == current_id.0);
            assert(dl_stack.nodes@[s5[s5.index_of(current_id.0)] as int].content is Some);
            assert(match cur_c {
                Some(c) => isd_wf(c, dl_stack.pos_of(current_id.0) as int, n, labels),
                None => true,
            });
        }
        dl_stack.set_content(current_id, new_closer);
        proof {
            lemma_arena_wf_frame(before_set2, *dl_stack, n, labels, set![current_id.0]);
        }
        if new_used == total_count {
            let next = next_after(dl_stack, current_id, Ghost(n), Ghost(labels));
            let ghost s6 = dl_stack.order();
            proof {
                if let Some(x) = next {
                    let c = s6.index_of(current_id.0);
                    assert(s6[c] == current_id.0);
                    lemma_after_remove_before(s6, c, x.0);
                }
            }
            dl_stack.delete(current_id);
            proof {
                if pair {
                    let s = before_emph.order();
                    let a = s.index_of(matching_dl_id.0);
                    let c = s.index_of(current_id.0);
                    assert(s[c] == current_id.0);
                    assert(s6 == s.take(a) + seq![before_emph.size() as usize] + s.skip(c));
                    assert(s6[a + 1] == current_id.0);
                    lemma_index_of_unique(s6, a + 1);
                    if c + 1 < s.len() {
                        assert(s6[a + 2] == s[c + 1]);
                    }
                    assert(dl_stack.order() =~= s.take(a) + seq![before_emph.size() as usize] + s.skip(c + 1));
                    assert(dl_stack.content_of(before_emph.size() as usize) == after_emph.content_of(
                        before_emph.size() as usize,
                    ));
                }
            }
            return next;
        }
    }
}

/// A stack of a run of one `*` or `_` that can only open, then text and finished content, then a
/// run of one of the same character that can only close.
pub open spec fn one_pair_stack(a: DLStack) -> bool {
    let s = a.order();
    &&& s.len() >= 2
    &&& one_run(a.content_of(s[0]), true, false)
    &&& one_run(a.content_of(s.last()), false, true)
    &&& (a.content_of(s[0]) matches Some(InlineStructureDelimiters::Asts(..))) == (a.content_of(s.last()) matches Some(
        InlineStructureDelimiters::Asts(..),
    ))
    &&& forall|k: int| 1 <= k < s.len() - 1 ==> finished_entry(#[trigger] a.content_of(s[k]))
    &&& a.size() < usize::MAX - 1
}

/// Where the entries above `bottom` start in the order `s` (all of them without one).
pub open spec fn above_start(s: Seq<usize>, bottom: Option<DLLNodeID>) -> int {
    match bottom {
        Some(b) => s.index_of(b.0) + 1,
        None => 0,
    }
}

/// The entries above a linked `bottom` (all entries, without one) are text, finished content or
/// runs of `*` or `_` that cannot close.
pub open spec fn plain_above(a: DLStack, bottom: Option<DLLNodeID>) -> bool {
    &&& bottom matches Some(b) ==> a.order().contains(b.0)
    &&& forall|k: int|
        above_start(a.order(), bottom) <= k < a.order().len() ==> inert_entry(#[trigger] a.content_of(a.order()[k]))
}

/// Every linked entry of the stack is plain text.
/// The stack holds neither `*` nor `_` runs nor brackets: only text and finished content.
pub open spec fn no_delims(a: DLStack) -> bool {
    forall|k: int| 0 <= k < a.order().len() ==> finished_entry(#[trigger] a.content_of(a.order()[k]))
}

/// An entry of text or of finished content.
pub open spec fn finished_entry(c: Option<InlineStructureDelimiters>) -> bool {
    match c {
        Some(d) => d is TextualContent || d is CompletedContent,
        None => false,
    }
}

/// An entry that the resolution of emphasis leaves as it is: text, finished content, or a run
/// of `*` or `_` that cannot close.
pub open spec fn inert_entry(c: Option<InlineStructureDelimiters>) -> bool {
    match c {
        Some(InlineStructureDelimiters::Asts(t, u, _, pc)) => !pc && u <= t,
        Some(InlineStructureDelimiters::Unds(t, u, _, pc)) => !pc && u <= t,
        _ => finished_entry(c),
    }
}

/// The inline content an entry at `pos` is handed out as: a run of `*` or `_` as the text of its
/// unused delimiters, an image opener as its two characters, a link opener or a closing bracket
/// as its one character, text and finished entries as `entry_inline` has them.
pub open spec fn entry_text(d: InlineStructureDelimiters, pos: usize) -> InlineContent {
    match d {
        InlineStructureDelimiters::ImgOpen(_) => if pos <= usize::MAX - 2 {
            InlineContent::Text(pos..(pos + 2) as usize)
        } else {
            InlineContent::Text(pos..pos)
        },
        InlineStructureDelimiters::LinkOpen(_) | InlineStructureDelimiters::BrackClose => if pos < usize::MAX {
            InlineContent::Text(pos..(pos + 1) as usize)
        } else {
            InlineContent::Text(pos..pos)
        },
        InlineStructureDelimiters::Asts(t, u, ..) => if u <= t && pos <= usize::MAX - (t - u) {
            InlineContent::Text(pos..(pos + (t - u)) as usize)
        } else {
            InlineContent::Text(pos..pos)
        },
        InlineStructureDelimiters::Unds(t, u, ..) => if u <= t && pos <= usize::MAX - (t - u) {
            InlineContent::Text(pos..(pos + (t - u)) as usize)
        } else {
            InlineContent::Text(pos..pos)
        },
        _ => entry_inline(d),
    }
}

/// The inline content that a text or finished entry stands for.
pub open spec fn entry_inline(d: InlineStructureDelimiters) -> InlineContent {
    match d {
        InlineStructureDelimiters::TextualContent(rg) => InlineContent::Text(rg),
        InlineStructureDelimiters::CompletedContent(c) => c,
        _ => InlineContent::Softbreak,
    }
}

/// Resolves the emphasis among the delimiters above `stack_bottom_id_op` (all of them, without
/// one) and hands out, in order, what stands above it, taking it from the stack.
#[verifier::rlimit(80)]
fn process_emphasis(
    stack_bottom_id_op: Option<DLLNodeID>,
    dl_stack: &mut DLStack,
    Ghost(n): Ghost<int>,
    Ghost(labels): Ghost<Seq<Seq<char>>>,
) -> (r: Vec<InlineContent>)
    requires
        arena_wf(*old(dl_stack), n, labels),
    ensures
        arena_wf(*final(dl_stack), n, labels),
        ics_wf(r@, n, labels),
        stack_bottom_id_op is None && no_delims(*old(dl_stack)) ==> r@.len() == old(dl_stack).order().len() && forall|k: int|
            0 <= k < r@.len() ==> Some(#[trigger] r@[k]) == match old(dl_stack).content_of(old(dl_stack).order()[k]) {
                Some(d) => Some(entry_inline(d)),
                None => None,
            },
        plain_above(*old(dl_stack), stack_bottom_id_op) ==> {
            let base = above_start(old(dl_stack).order(), stack_bottom_id_op);
            &&& final(dl_stack).order() == old(dl_stack).order().take(base)
            &&& final(dl_stack).size() == old(dl_stack).size()
            &&& forall|i: usize|
                i < old(dl_stack).size() && !old(dl_stack).order().subrange(base, old(dl_stack).order().len() as int).contains(
                    i,
                ) ==> #[trigger] final(dl_stack).content_of(i) == old(dl_stack).content_of(i) && final(dl_stack).pos_of(i)
                    == old(dl_stack).pos_of(i)
            &&& r@.len() == old(dl_stack).order().len() - base
            &&& forall|k: int|
                0 <= k < r@.len() ==> Some(#[trigger] r@[k]) == match old(dl_stack).content_of(
                    old(dl_stack).order()[base + k],
                ) {
                    Some(d) => Some(entry_text(d, old(dl_stack).pos_of(old(dl_stack).order()[base + k]))),
                    None => None,
                }
        },
        stack_bottom_id_op is None && one_pair_stack(*old(dl_stack)) ==> r@.len() == 1 && (r@[0] matches InlineContent::Emph(
            w,
        ) && w@ == span_texts(*old(dl_stack), old(dl_stack).order().subrange(1, old(dl_stack).order().len() - 1))),
{
    let ghost op1 = stack_bottom_id_op is None && one_pair_stack(*dl_stack);
    let ghost is_a = dl_stack.content_of(dl_stack.order()[0]) matches Some(InlineStructureDelimiters::Asts(..));
    let ghost mut phase: int = 0;
    let ghost plain = plain_above(*dl_stack, stack_bottom_id_op);
    let ghost base = above_start(dl_stack.order(), stack_bottom_id_op);
    let ghost s0 = dl_stack.order();
    let ghost nodes0 = dl_stack.nodes@;
    let bottom_linked = match stack_bottom_id_op {
        Some(b) => dl_stack.index_in_list(b).is_some(),
        None => true,
    };
    if !bottom_linked {
        return Vec::new();
    }
    let stack_bottom_char_offset: Option<usize> = match stack_bottom_id_op {
        Some(id) => Some(*dl_stack.get_position_indicator(id)),
        None => None,
    };
    let mut current_id_op = match stack_bottom_id_op {
        Some(stack_bottom_id) => {
            proof {
                let s = dl_stack.order();
                let b = s.index_of(stack_bottom_id.0);
                assert(s[b] == stack_bottom_id.0);
            }
            next_after(dl_stack, stack_bottom_id, Ghost(n), Ghost(labels))
        },
        None => {
            proof {
                let s = dl_stack.order();
                if s.len() > 0 {
                    lemma_index_of_unique(s, 0);
                }
            }
            dl_stack.get_start_id()
        },
    };
    let mut openers_bottom: Vec<Option<usize>> = Vec::new();
    let mut k: usize = 0;
    while k < 12
        invariant
            k <= 12,
            openers_bottom@.len() == k,
            stack_bottom_id_op is None ==> stack_bottom_char_offset is None,
            forall|i: int| 0 <= i < k ==> openers_bottom@[i] == stack_bottom_char_offset,
        decreases 12 - k,
    {
        openers_bottom.push(stack_bottom_char_offset);
        k = k + 1;
    }
    let mut asts_op_stack: Vec<DLLNodeID> = Vec::new();
    let mut unds_op_stack: Vec<DLLNodeID> = Vec::new();
    loop
        invariant
            arena_wf(*dl_stack, n, labels),
            openers_bottom@.len() == 12,
            current_id_op matches Some(c) ==> dl_stack.order().contains(c.0),
            plain == plain_above(*old(dl_stack), stack_bottom_id_op),
            base == above_start(s0, stack_bottom_id_op),
            s0 == old(dl_stack).order(),
            nodes0 == old(dl_stack).nodes@,
            plain ==> dl_stack.order() == s0 && dl_stack.nodes@ == nodes0,
            plain ==> (current_id_op matches Some(c) ==> s0.index_of(c.0) >= base),
            op1 == (stack_bottom_id_op is None && one_pair_stack(*old(dl_stack))),
            op1 ==> is_a == (old(dl_stack).content_of(s0[0]) matches Some(InlineStructureDelimiters::Asts(..))),
            op1 && phase < 2 ==> forall|i: int| 0 <= i < 12 ==> openers_bottom@[i] is None,
            op1 ==> 0 <= phase <= 2,
            op1 && phase == 0 ==> current_id_op == Some(DLLNodeID(s0[0])) && *dl_stack == *old(dl_stack)
                && asts_op_stack@.len() == 0 && unds_op_stack@.len() == 0,
            op1 && phase == 1 ==> (current_id_op matches Some(c) && s0.contains(c.0) && 1 <= s0.index_of(c.0))
                && *dl_stack == *old(dl_stack) && (if is_a {
                asts_op_stack@ == seq![DLLNodeID(s0[0])] && unds_op_stack@.len() == 0
            } else {
                unds_op_stack@ == seq![DLLNodeID(s0[0])] && asts_op_stack@.len() == 0
            }),
            op1 && phase == 2 ==> current_id_op is None && dl_stack.order() == seq![old(dl_stack).size() as usize] && (
            dl_stack.content_of(old(dl_stack).size() as usize) matches Some(InlineStructureDelimiters::CompletedContent(e))
                && (e matches InlineContent::Emph(w) && w@ == span_texts(*old(dl_stack), s0.subrange(1, s0.len() - 1)))),
        ensures
            op1 ==> phase == 2,
        decreases match current_id_op {
            Some(c) => after_count(dl_stack.order(), c.0),
            None => 0,
        },
    {
        let current_id = match current_id_op {
            Some(c) => c,
            None => break ,
        };
        proof {
            let s = dl_stack.order();
            assert(s[s.index_of(current_id.0)] == current_id.0);
            assert(dl_stack.nodes@[s[s.index_of(current_id.0)] as int].content is Some);
            if plain {
                let k = s0.index_of(current_id.0);
                assert(s0[k] == current_id.0);
                assert(inert_entry(old(dl_stack).content_of(s0[k])));
                if k + 1 < s0.len() {
                    lemma_index_of_unique(s0, k + 1);
                }
                assert(dl_stack.content_of(current_id.0) == old(dl_stack).content_of(current_id.0));
            }
            if op1 {
                let k = s0.index_of(current_id.0);
                assert(s0[k] == current_id.0);
                lemma_index_of_unique(s0, 0);
                lemma_index_of_unique(s0, s0.len() - 1);
                if k + 1 < s0.len() {
                    lemma_index_of_unique(s0, k + 1);
                }
                if phase == 1 && k < s0.len() - 1 {
                    assert(finished_entry(old(dl_stack).content_of(s0[k])));
                }
                if phase == 1 && k == s0.len() - 1 {
                    assert(single_pair(*dl_stack, seq![DLLNodeID(s0[0])], current_id, openers_bottom@));
                }
            }
        }
        let ghost k_cur = s0.index_of(current_id.0);
        let is_asts = match dl_stack.get_content(current_id) {
            InlineStructureDelimiters::Asts(..) => Some(true),
            InlineStructureDelimiters::Unds(..) => Some(false),
            _ => None,
        };
        current_id_op = match is_asts {
            Some(true) => close_delimiter(
                dl_stack,
                current_id,
                &mut asts_op_stack,
                &mut unds_op_stack,
                &mut openers_bottom,
                Ghost(n),
                Ghost(labels),
            ),
            Some(false) => close_delimiter(
                dl_stack,
                current_id,
                &mut unds_op_stack,
                &mut asts_op_stack,
                &mut openers_bottom,
                Ghost(n),
                Ghost(labels),
            ),
            None => next_after(dl_stack, current_id, Ghost(n), Ghost(labels)),
        };
        proof {
            if op1 {
                if phase == 0 {
                    phase = 1;
                } else if phase == 1 && k_cur == s0.len() - 1 {
                    assert(s0.take(0) + seq![old(dl_stack).size() as usize] + s0.skip(s0.len() as int) =~= seq![
                        old(dl_stack).size() as usize,
                    ]);
                    phase = 2;
                }
            }
        }
    }
    let bottom_still_linked = match stack_bottom_id_op {
        Some(b) => dl_stack.index_in_list(b).is_some(),
        None => true,
    };
    let mut out: Vec<InlineContent> = Vec::new();
    if !bottom_still_linked {
        return out;
    }
    let ghost e_id = old(dl_stack).size() as usize;
    let ghost e_c = dl_stack.content_of(e_id);
    let ghost e_p = dl_stack.pos_of(e_id);
    let mut it = dl_stack.take_content_above(stack_bottom_id_op);
    proof {
        if op1 {
            assert(phase == 2);
            assert(dl_stack.order() == seq![e_id]);
            assert(it.remaining(&*dl_stack) == seq![e_id]);
        }
        if plain {
            assert(s0.take(base) + s0.subrange(base, s0.len() as int) =~= s0);
            assert(s0.subrange(0, s0.len() as int) =~= s0);
            if let Some(b) = stack_bottom_id_op {
                assert(s0[s0.index_of(b.0)] == b.0);
            }
        }
    }
    loop
        invariant_except_break
            plain ==> it.remaining(&*dl_stack) == s0.subrange(base + out@.len(), s0.len() as int),
            op1 && out@.len() == 0 ==> it.remaining(&*dl_stack) == seq![e_id] && dl_stack.content_of(e_id) == e_c
                && dl_stack.pos_of(e_id) == e_p,
            op1 && out@.len() == 1 ==> it.remaining(&*dl_stack).len() == 0,
        invariant
            op1 == (stack_bottom_id_op is None && one_pair_stack(*old(dl_stack))),
            op1 ==> out@.len() <= 1,
            op1 ==> (e_c matches Some(InlineStructureDelimiters::CompletedContent(e)) && (e matches InlineContent::Emph(w)
                && w@ == span_texts(*old(dl_stack), s0.subrange(1, s0.len() - 1)))),
            op1 && out@.len() == 1 ==> Some(out@[0]) == match e_c {
                Some(d) => Some(entry_text(d, e_p)),
                None => None,
            },
            arena_wf(*dl_stack, n, labels),
            it.valid_for(&*dl_stack),
            ics_wf(out@, n, labels),
            plain == plain_above(*old(dl_stack), stack_bottom_id_op),
            base == above_start(s0, stack_bottom_id_op),
            plain ==> 0 <= base <= s0.len(),
            s0 == old(dl_stack).order(),
            s0.no_duplicates(),
            arena_wf(*old(dl_stack), n, labels),
            plain ==> dl_stack.size() == old(dl_stack).size(),
            plain ==> base + out@.len() <= s0.len(),
            plain ==> forall|k: int| 0 <= k < out@.len() ==> Some(#[trigger] out@[k]) == match old(dl_stack).content_of(s0[base + k]) {
                Some(d) => Some(entry_text(d, old(dl_stack).pos_of(s0[base + k]))),
                None => None,
            },
            plain ==> forall|k: int| base + out@.len() <= k < s0.len() ==> #[trigger] dl_stack.content_of(s0[k]) == old(dl_stack).content_of(s0[k]),
            plain ==> forall|k: int| base + out@.len() <= k < s0.len() ==> #[trigger] dl_stack.pos_of(s0[k]) == old(dl_stack).pos_of(s0[k]),
            plain ==> dl_stack.order() == s0.take(base) + s0.subrange(base + out@.len(), s0.len() as int),
            plain ==> forall|i: usize|
                i < old(dl_stack).size() && !s0.subrange(base, s0.len() as int).contains(i) ==> #[trigger] dl_stack.content_of(i)
                    == old(dl_stack).content_of(i) && dl_stack.pos_of(i) == old(dl_stack).pos_of(i),
        ensures
            plain ==> base + out@.len() == s0.len(),
            op1 ==> out@.len() == 1,
        decreases it.remaining(&*dl_stack).len(),
    {
        let ghost before = *dl_stack;
        let ghost rem = it.remaining(&*dl_stack);
        let ghost m = base + out@.len();
        match it.next(dl_stack) {
            Some((isd, pos)) => {
                proof {
                    let id = rem[0];
                    assert(match before.content_of(id) {
                        Some(c) => isd_wf(c, before.pos_of(id) as int, n, labels),
                        None => true,
                    });
                    lemma_arena_wf_frame(before, *dl_stack, n, labels, set![id]);
                    if plain {
                        let cur = before.order();
                        assert(cur[base] == s0[m]);
                        lemma_index_of_unique(cur, base);
                        assert(dl_stack.order() =~= s0.take(base) + s0.subrange(m + 1, s0.len() as int));
                        assert forall|i: usize|
                            i < old(dl_stack).size() && !s0.subrange(base, s0.len() as int).contains(i) implies #[trigger] dl_stack.content_of(i)
                                == old(dl_stack).content_of(i) && dl_stack.pos_of(i) == old(dl_stack).pos_of(i) by {
                            assert(s0.subrange(base, s0.len() as int)[m - base] == s0[m]);
                            assert(i != id);
                            assert(dl_stack.content_of(i) == before.content_of(i));
                        }
                        assert(id == s0[m]);
                        assert(before.content_of(s0[m]) == old(dl_stack).content_of(s0[m]));
                        assert(inert_entry(old(dl_stack).content_of(old(dl_stack).order()[m])));
                        assert(before.pos_of(s0[m]) == old(dl_stack).pos_of(s0[m]));
                        assert forall|k: int| m + 1 <= k < s0.len() implies #[trigger] dl_stack.content_of(s0[k])
                            == old(dl_stack).content_of(s0[k]) by {
                            assert(s0[k] != s0[m]);
                            assert(s0[k] < old(dl_stack).size());
                            assert(before.content_of(s0[k]) == old(dl_stack).content_of(s0[k]));
                        }
                        assert forall|k: int| m + 1 <= k < s0.len() implies #[trigger] dl_stack.pos_of(s0[k])
                            == old(dl_stack).pos_of(s0[k]) by {
                            assert(s0[k] != s0[m]);
                            assert(s0[k] < old(dl_stack).size());
                            assert(before.pos_of(s0[k]) == old(dl_stack).pos_of(s0[k]));
                            assert(dl_stack.content_of(s0[k]) == before.content_of(s0[k]));
                        }
                        assert(rem.drop_first() =~= s0.subrange(m + 1, s0.len() as int));
                    }
                }
                let ic = isd.convert_to_inline_content(pos);
                proof {
                    lemma_ics_wf_push(out@, ic, n, labels);
                }
                out.push(ic);
            },
            None => {
                proof {
                    if plain {
                        assert(rem.len() == 0);
                    }
                }
                break ;
            },
        }
    }
    out
}

} // verus!

verus! {

/// What follows a link text: an inline link's destination and title, or the normalized label
/// of a link definition.
enum LinkTarget {
    Inline(Option<Range<usize>>, Option<Range<usize>>),
    Reference(String),
}

spec fn target_wf(tg: LinkTarget, n: int, labels: Seq<Seq<char>>) -> bool {
    match tg {
        LinkTarget::Inline(d, ti) => opt_range_wf(d, n) && opt_range_wf(ti, n),
        LinkTarget::Reference(l) => labels.contains(l@),
    }
}

/// The normalized label of `text[a..b]`, when that text is bracketed.
pub(crate) fn bracketed_label(text: &[char], a: usize, b: usize) -> (r: Option<String>)
    ensures
        r matches Some(l) ==> a < b <= text@.len() && text@[a as int] == '[' && text@[b - 1] == ']'
            && l@ == spec_normalize_label(text@.subrange(a as int, b as int)),
        (a < b <= text@.len() && text@[a as int] == '[' && text@[b - 1] == ']') ==> r is Some,
{
    if a < b && b <= text.len() && text[a] == '[' && text[b - 1] == ']' {
        let sub = span_slice(text, &(a..b));
        assert(sub@ =~= text@.subrange(a as int, b as int));
        let pci = BorrowedStringPCI::new(sub);
        assert(pci.iter@.subrange(0, pci.iter@.len() as int) =~= sub@);
        Some(normalize_label(&pci))
    } else {
        None
    }
}

/// The label a link text refers to when no inline destination follows its `]` (the cursor at
/// `p`): `[label]` (full), `[]` (collapsed: the link text itself) or nothing (shortcut: the link
/// text itself), with where the reference ends.
pub open spec fn ref_label_span(t: Seq<char>, p: int, open_brack: int) -> (int, int, int) {
    if p + 1 < t.len() && t[p] == '[' && t[p + 1] == ']' {
        (open_brack, p, p + 2)
    } else {
        match spec_parse_link_label(t, p) {
            Some(e) => (p, e, e),
            None => (open_brack, p, p),
        }
    }
}

/// What a link text that opened at `open_brack` and closed just before the cursor links to: an
/// inline destination and title, or a defined label (full, collapsed or shortcut reference).
/// Gives the target and a cursor after it.
fn link_target<'a>(
    text: &'a [char],
    char_iter: &BorrowedStringPCI<'a>,
    open_brack: usize,
    lrd_table: &LRDTable,
) -> (r: Option<(LinkTarget, BorrowedStringPCI<'a>)>)
    requires
        char_iter.wf(),
        char_iter.iter@ == text@,
    ensures
        r matches Some((tg, it)) ==> {
            &&& it.wf()
            &&& it.iter@ == text@
            &&& it.peeked >= char_iter.peeked
            &&& target_wf(tg, text@.len() as int, lrd_table.labels())
        },
        match spec_parse_inline_suffix(text@, char_iter.peeked as int) {
            Some((d, ti, q)) => r matches Some((tg, it)) && it.peeked == q && (tg matches LinkTarget::Inline(rd, rt)
                && opt_range_is(rd, d) && opt_range_is(rt, ti)),
            None => {
                let (a, b, q) = ref_label_span(text@, char_iter.peeked as int, open_brack as int);
                let ok = a < b <= text@.len() && text@[a] == '[' && text@[b - 1] == ']' && lrd_table.labels().contains(
                    spec_normalize_label(text@.subrange(a, b)),
                );
                &&& (r is Some) == ok
                &&& r matches Some((tg, it)) ==> it.peeked == q && (tg matches LinkTarget::Reference(l) && l@
                    == spec_normalize_label(text@.subrange(a, b)))
            },
        },
{
    proof {
        lemma_link_label_bounds(text@, char_iter.peeked as int);
    }
    let mut inline_iter = *char_iter;
    if let Some((dest, title)) = parse_inline_suffix(&mut inline_iter) {
        proof {
            lemma_inline_suffix_bounds(text@, char_iter.peeked as int);
        }
        return Some((LinkTarget::Inline(dest, title), inline_iter));
    }
    let mut ref_iter = *char_iter;
    let (a, b, it) = match parse_reference_link(&mut ref_iter) {
        Some(ReferenceLinkType::Full(range)) => (range.start, range.end, ref_iter),
        Some(ReferenceLinkType::Collapsed) => (open_brack, char_iter.offset(), ref_iter),
        None => (open_brack, char_iter.offset(), *char_iter),
    };
    if it.offset() < char_iter.offset() {
        return None;
    }
    match bracketed_label(text, a, b) {
        Some(label) => if lrd_table.contains_key(&label) {
            Some((LinkTarget::Reference(label), it))
        } else {
            None
        },
        None => None,
    }
}

/// The linked node just before a linked node.
fn prev_linked(dl_stack: &DLStack, id: DLLNodeID) -> (r: Option<DLLNodeID>)
    requires
        dl_stack.wf(),
        dl_stack.order().contains(id.0),
    ensures
        r == crate::fake_dll::id_opt(dl_stack.order(), dl_stack.order().index_of(id.0) - 1),
        r matches Some(x) ==> dl_stack.order().contains(x.0) && dl_stack.order().index_of(x.0)
            == dl_stack.order().index_of(id.0) - 1,
{
    let ghost s = dl_stack.order();
    proof {
        let c = s.index_of(id.0);
        assert(s[c] == id.0);
        assert(dl_stack.nodes@[s[c] as int].id_of_prev == crate::fake_dll::id_opt(s, c - 1));
        if c >= 1 {
            lemma_index_of_unique(s, c - 1);
        }
    }
    dl_stack.get_prev_id(id)
}

/// A link or image opener.
pub open spec fn is_bracket_opener(c: Option<InlineStructureDelimiters>) -> bool {
    c matches Some(InlineStructureDelimiters::LinkOpen(_)) || c matches Some(InlineStructureDelimiters::ImgOpen(_))
}

/// Node `i` is linked at or before `from`.
pub open spec fn deactivation_reaches(s: Seq<usize>, from: Option<DLLNodeID>, i: usize) -> bool {
    match from {
        Some(f) => s.contains(i) && s.index_of(i) <= s.index_of(f.0),
        None => false,
    }
}

/// An entry with active link openers made inactive.
pub open spec fn deactivated(c: Option<InlineStructureDelimiters>) -> Option<InlineStructureDelimiters> {
    match c {
        Some(InlineStructureDelimiters::LinkOpen(true)) => Some(InlineStructureDelimiters::LinkOpen(false)),
        _ => c,
    }
}

/// The last linked link or image opener.
fn find_bracket_opener(dl_stack: &DLStack) -> (r: Option<DLLNodeID>)
    requires
        dl_stack.wf(),
    ensures
        r matches Some(x) ==> dl_stack.order().contains(x.0) && (dl_stack.content_of(x.0) matches Some(
            InlineStructureDelimiters::LinkOpen(_),
        ) || dl_stack.content_of(x.0) matches Some(InlineStructureDelimiters::ImgOpen(_))),
        r matches Some(x) ==> forall|k: int|
            dl_stack.order().index_of(x.0) < k < dl_stack.order().len() ==> !is_bracket_opener(
                #[trigger] dl_stack.content_of(dl_stack.order()[k]),
            ),
        r is None ==> forall|k: int|
            0 <= k < dl_stack.order().len() ==> !is_bracket_opener(#[trigger] dl_stack.content_of(dl_stack.order()[k])),
{
    let ghost s = dl_stack.order();
    proof {
        if s.len() > 0 {
            lemma_index_of_unique(s, s.len() - 1);
        }
    }
    let mut cur = dl_stack.get_end_id();
    loop
        invariant
            dl_stack.wf(),
            s == dl_stack.order(),
            cur matches Some(f) ==> s.contains(f.0),
            forall|k: int|
                (match cur {
                    Some(f) => s.index_of(f.0),
                    None => -1,
                }) < k < s.len() ==> !is_bracket_opener(#[trigger] dl_stack.content_of(s[k])),
        decreases match cur {
            Some(f) => s.index_of(f.0) + 1,
            None => 0,
        },
    {
        let id = match cur {
            Some(f) => f,
            None => {
                return None;
            },
        };
        proof {
            assert(s[s.index_of(id.0)] == id.0);
            assert(dl_stack.nodes@[s[s.index_of(id.0)] as int].content is Some);
        }
        let is_opener = match dl_stack.get_content(id) {
            InlineStructureDelimiters::LinkOpen(_) => true,
            InlineStructureDelimiters::ImgOpen(_) => true,
            _ => false,
        };
        if is_opener {
            return Some(id);
        }
        cur = prev_linked(dl_stack, id);
    }
}

/// Marks every link opener linked at or before `from` inactive, since links may not contain
/// other links.
fn deactivate_link_openers(
    dl_stack: &mut DLStack,
    from: Option<DLLNodeID>,
    Ghost(n): Ghost<int>,
    Ghost(labels): Ghost<Seq<Seq<char>>>,
)
    requires
        arena_wf(*old(dl_stack), n, labels),
        from matches Some(f) ==> old(dl_stack).order().contains(f.0),
    ensures
        arena_wf(*final(dl_stack), n, labels),
        final(dl_stack).order() == old(dl_stack).order(),
        final(dl_stack).size() == old(dl_stack).size(),
        forall|i: usize|
            i < old(dl_stack).size() ==> #[trigger] final(dl_stack).content_of(i) == (if deactivation_reaches(
                old(dl_stack).order(),
                from,
                i,
            ) {
                deactivated(old(dl_stack).content_of(i))
            } else {
                old(dl_stack).content_of(i)
            }),
        forall|i: usize| i < old(dl_stack).size() ==> #[trigger] final(dl_stack).pos_of(i) == old(dl_stack).pos_of(i),
{
    let ghost s = dl_stack.order();
    let ghost top: int = match from {
        Some(f) => s.index_of(f.0),
        None => -1,
    };
    let mut cur = from;
    loop
        invariant
            arena_wf(*dl_stack, n, labels),
            s == dl_stack.order(),
            s == old(dl_stack).order(),
            cur matches Some(f) ==> s.contains(f.0) && s.index_of(f.0) <= top,
            dl_stack.size() == old(dl_stack).size(),
            top == (match from {
                Some(f) => s.index_of(f.0),
                None => -1,
            }),
            forall|i: usize|
                i < old(dl_stack).size() ==> #[trigger] dl_stack.content_of(i) == if s.contains(i) && (match cur {
                    Some(f) => s.index_of(f.0),
                    None => -1,
                }) < s.index_of(i) <= top {
                    deactivated(old(dl_stack).content_of(i))
                } else {
                    old(dl_stack).content_of(i)
                },
            forall|i: usize| i < old(dl_stack).size() ==> #[trigger] dl_stack.pos_of(i) == old(dl_stack).pos_of(i),
        ensures
            arena_wf(*dl_stack, n, labels),
            s == dl_stack.order(),
            dl_stack.size() == old(dl_stack).size(),
            forall|i: usize|
                i < old(dl_stack).size() ==> #[trigger] dl_stack.content_of(i) == if s.contains(i) && -1 < s.index_of(i)
                    <= top {
                    deactivated(old(dl_stack).content_of(i))
                } else {
                    old(dl_stack).content_of(i)
                },
            forall|i: usize| i < old(dl_stack).size() ==> #[trigger] dl_stack.pos_of(i) == old(dl_stack).pos_of(i),
        decreases match cur {
            Some(f) => s.index_of(f.0) + 1,
            None => 0,
        },
    {
        let id = match cur {
            Some(f) => f,
            None => {
                break ;
            },
        };
        proof {
            assert(s[s.index_of(id.0)] == id.0);
            assert(dl_stack.nodes@[s[s.index_of(id.0)] as int].content is Some);
            assert(match dl_stack.content_of(id.0) {
                Some(c) => isd_wf(c, dl_stack.pos_of(id.0) as int, n, labels),
                None => true,
            });
        }
        let ghost b0 = *dl_stack;
        let ghost ci = s.index_of(id.0);
        let is_active_link = match dl_stack.get_content(id) {
            InlineStructureDelimiters::LinkOpen(true) => true,
            _ => false,
        };
        if is_active_link {
            let ghost before = *dl_stack;
            dl_stack.set_content(id, InlineStructureDelimiters::LinkOpen(false));
            proof {
                lemma_arena_wf_frame(before, *dl_stack, n, labels, set![id.0]);
            }
        }
        proof {
            assert(b0.content_of(id.0) == old(dl_stack).content_of(id.0));
            assert forall|i: usize| i < old(dl_stack).size() implies (#[trigger] dl_stack.content_of(i) == (if s.contains(
                i,
            ) && ci - 1 < s.index_of(i) <= top {
                deactivated(old(dl_stack).content_of(i))
            } else {
                old(dl_stack).content_of(i)
            })) by {
                assert(b0.content_of(i) == (if s.contains(i) && ci < s.index_of(i) <= top {
                    deactivated(old(dl_stack).content_of(i))
                } else {
                    old(dl_stack).content_of(i)
                }));
                if i != id.0 {
                    assert(dl_stack.nodes@[i as int] == b0.nodes@[i as int]);
                    if s.contains(i) {
                        assert(s[s.index_of(i)] == i);
                    }
                } else {
                    assert(s.index_of(i) == ci);
                }
            }
            assert forall|i: usize| i < old(dl_stack).size() implies #[trigger] dl_stack.pos_of(i) == old(
                dl_stack,
            ).pos_of(i) by {
                assert(b0.pos_of(i) == old(dl_stack).pos_of(i));
                if i != id.0 {
                    assert(dl_stack.nodes@[i as int] == b0.nodes@[i as int]);
                }
            }
            if ci >= 1 {
                lemma_index_of_unique(s, ci - 1);
            }
        }
        cur = prev_linked(dl_stack, id);
    }
    proof {
        assert forall|i: usize| i < old(dl_stack).size() implies #[trigger] dl_stack.content_of(i) == (
        if deactivation_reaches(s, from, i) {
            deactivated(old(dl_stack).content_of(i))
        } else {
            old(dl_stack).content_of(i)
        }) by {
            if s.contains(i) {
                assert(s[s.index_of(i)] == i);
            }
        }
    }
}

/// Turns a bracket opener back into plain text.
fn opener_to_text(dl_stack: &mut DLStack, id: DLLNodeID, Ghost(n): Ghost<int>, Ghost(labels): Ghost<Seq<Seq<char>>>)
    requires
        arena_wf(*old(dl_stack), n, labels),
        old(dl_stack).order().contains(id.0),
    ensures
        arena_wf(*final(dl_stack), n, labels),
        final(dl_stack).order() == old(dl_stack).order(),
        final(dl_stack).size() == old(dl_stack).size(),
        old(dl_stack).content_of(id.0) matches Some(d) && final(dl_stack).content_of(id.0) == Some(
            as_completed(d, old(dl_stack).pos_of(id.0)),
        ),
        forall|i: usize|
            i < old(dl_stack).size() && i != id.0 ==> #[trigger] final(dl_stack).nodes@[i as int] == old(
                dl_stack,
            ).nodes@[i as int],
        final(dl_stack).pos_of(id.0) == old(dl_stack).pos_of(id.0),
{
    let ghost s = dl_stack.order();
    proof {
        assert(s[s.index_of(id.0)] == id.0);
        assert(dl_stack.nodes@[s[s.index_of(id.0)] as int].content is Some);
        assert(match dl_stack.content_of(id.0) {
            Some(c) => isd_wf(c, dl_stack.pos_of(id.0) as int, n, labels),
            None => true,
        });
    }
    let start_index = *dl_stack.get_position_indicator(id);
    let ghost before = *dl_stack;
    let item = dl_stack.get_content_mut(id);
    item.convert_to_completed_content(start_index);
    proof {
        lemma_arena_wf_frame(before, *dl_stack, n, labels, set![id.0]);
    }
}

/// A stack whose first linked entry is an active link opener, followed only by inert entries.
pub open spec fn link_opener_then_inert(a: DLStack) -> bool {
    &&& a.order().len() >= 1
    &&& a.content_of(a.order()[0]) == Some(InlineStructureDelimiters::LinkOpen(true))
    &&& forall|k: int| 1 <= k < a.order().len() ==> inert_entry(#[trigger] a.content_of(a.order()[k]))
}

/// Handles a `]` at `char_index`, the cursor standing just after it: makes a link or image of
/// what follows the last opener when a destination or a defined label comes next, and
/// otherwise keeps the brackets as text. Gives where the text that follows begins.
fn close_bracket<'a>(
    text: &'a [char],
    dl_stack: &mut DLStack,
    char_iter: &mut BorrowedStringPCI<'a>,
    char_index: usize,
    lrd_table: &LRDTable,
) -> (text_begin: usize)
    requires
        arena_wf(*old(dl_stack), text@.len() as int, lrd_table.labels()),
        old(char_iter).wf(),
        old(char_iter).iter@ == text@,
        char_index < old(char_iter).peeked,
    ensures
        arena_wf(*final(dl_stack), text@.len() as int, lrd_table.labels()),
        final(char_iter).wf(),
        final(char_iter).iter@ == text@,
        final(char_iter).peeked >= old(char_iter).peeked,
        text_begin == final(char_iter).peeked,
        (forall|k: int|
            0 <= k < old(dl_stack).order().len() ==> !is_bracket_opener(
                #[trigger] old(dl_stack).content_of(old(dl_stack).order()[k]),
            )) ==> *final(char_iter) == *old(char_iter),
        final(char_iter).peeked != old(char_iter).peeked ==> final(char_iter).peeked == match spec_parse_inline_suffix(
            text@,
            old(char_iter).peeked as int,
        ) {
            Some((_, _, q)) => q,
            None => ref_label_span(text@, old(char_iter).peeked as int, 0).2,
        },
        link_opener_then_inert(*old(dl_stack)) && old(dl_stack).size() + 2 < usize::MAX ==> match spec_parse_inline_suffix(
            text@,
            old(char_iter).peeked as int,
        ) {
            Some((d, ti, q)) => {
                &&& text_begin == q
                &&& final(dl_stack).order() == seq![old(dl_stack).size() as usize]
                &&& final(dl_stack).pos_of(old(dl_stack).size() as usize) == old(dl_stack).pos_of(old(dl_stack).order()[0])
                &&& final(dl_stack).content_of(old(dl_stack).size() as usize) matches Some(
                    InlineStructureDelimiters::CompletedContent(InlineContent::InlineLink(img, rd, rt, v)),
                ) && !img && opt_range_is(rd, d) && opt_range_is(rt, ti) && v@ == stack_texts(
                    *old(dl_stack),
                ).drop_first()
            },
            None => true,
        },
{
    let ghost n = text@.len() as int;
    let ghost labels = lrd_table.labels();
    let ghost lk = link_opener_then_inert(*dl_stack) && dl_stack.size() + 2 < usize::MAX;
    let ghost old_stack = *dl_stack;
    proof {
        if lk {
            let s = dl_stack.order();
            assert(is_bracket_opener(dl_stack.content_of(s[0])));
        }
    }
    let matched_id = match find_bracket_opener(dl_stack) {
        Some(m) => m,
        None => {
            stack_push(dl_stack, char_index, InlineStructureDelimiters::BrackClose, Ghost(n), Ghost(labels));
            return char_iter.offset();
        },
    };
    let ghost s = dl_stack.order();
    proof {
        assert(s[s.index_of(matched_id.0)] == matched_id.0);
        assert(match dl_stack.content_of(matched_id.0) {
            Some(c) => isd_wf(c, dl_stack.pos_of(matched_id.0) as int, n, labels),
            None => true,
        });
    }
    let (is_image, active) = match dl_stack.get_content(matched_id) {
        InlineStructureDelimiters::ImgOpen(a) => (true, *a),
        InlineStructureDelimiters::LinkOpen(a) => (false, *a),
        _ => (false, false),
    };
    let start_index = *dl_stack.get_position_indicator(matched_id);
    proof {
        lemma_slice_len(text);
        if is_image {
            assert(dl_stack.content_of(matched_id.0) matches Some(InlineStructureDelimiters::ImgOpen(_)));
        }
    }
    if !active {
        opener_to_text(dl_stack, matched_id, Ghost(n), Ghost(labels));
        stack_push(dl_stack, char_index, InlineStructureDelimiters::BrackClose, Ghost(n), Ghost(labels));
        return char_iter.offset();
    }
    let open_brack = if is_image {
        start_index + 1
    } else {
        start_index
    };
    match link_target(text, char_iter, open_brack, lrd_table) {
        Some((target, it)) => {
            let link_displayed = process_emphasis(Some(matched_id), dl_stack, Ghost(n), Ghost(labels));
            let link = match target {
                LinkTarget::Inline(dest, title) => InlineContent::InlineLink(is_image, dest, title, link_displayed),
                LinkTarget::Reference(label) => InlineContent::ReferenceLink(is_image, label, link_displayed),
            };
            stack_push(dl_stack, start_index, InlineStructureDelimiters::CompletedContent(link), Ghost(n), Ghost(labels));
            *char_iter = it;
            if dl_stack.index_in_list(matched_id).is_some() {
                let before_opener = prev_linked(dl_stack, matched_id);
                let ghost s1 = dl_stack.order();
                let ghost before = *dl_stack;
                proof {
                    assert(s1[s1.index_of(matched_id.0)] == matched_id.0);
                    if let Some(b) = before_opener {
                        lemma_index_remove_after(s1, s1.index_of(matched_id.0), b.0);
                    }
                }
                dl_stack.take_content_at_id(matched_id);
                proof {
                    lemma_arena_wf_frame(before, *dl_stack, n, labels, set![matched_id.0]);
                }
                if !is_image {
                    deactivate_link_openers(dl_stack, before_opener, Ghost(n), Ghost(labels));
                }
            }
            char_iter.offset()
        },
        None => {
            opener_to_text(dl_stack, matched_id, Ghost(n), Ghost(labels));
            let after = char_iter.offset();
            stack_push(
                dl_stack,
                char_index,
                InlineStructureDelimiters::TextualContent(char_index..after),
                Ghost(n),
                Ghost(labels),
            );
            after
        },
    }
}

/// How many backticks stand from `i` on.
pub open spec fn backtick_run(t: Seq<char>, i: int) -> int
    decreases t.len() - i,
{
    if 0 <= i < t.len() && t[i] == '`' {
        1 + backtick_run(t, i + 1)
    } else {
        0
    }
}

proof fn lemma_backtick_run(t: Seq<char>, i: int, q: int)
    requires
        0 <= i <= q <= t.len(),
        forall|k: int| i <= k < q ==> #[trigger] t[k] == '`',
        q >= t.len() || t[q] != '`',
    ensures
        backtick_run(t, i) == q - i,
    decreases q - i,
{
    if i < q {
        lemma_backtick_run(t, i + 1, q);
    }
}

/// Where the first run of exactly `n` backticks at or after `i` starts, runs taken whole.
pub open spec fn closing_run(t: Seq<char>, i: int, n: int) -> Option<int>
    decreases t.len() - i,
{
    if i < 0 || i >= t.len() {
        None
    } else if t[i] == '`' {
        let k = backtick_run(t, i);
        if k == n {
            Some(i)
        } else if 0 < k && i + k <= t.len() {
            closing_run(t, i + k, n)
        } else {
            None
        }
    } else {
        closing_run(t, i + 1, n)
    }
}

/// A space or a line feed, which code span content may be trimmed of.
pub open spec fn code_space(c: char) -> bool {
    c == ' ' || c == '\n'
}

/// A code span whose opening run of `n` backticks ends at `s`: its content's range and where
/// its closing run of `n` backticks ends. Content that starts and ends with a space or line
/// feed and is not all of them loses one at each side.
pub open spec fn spec_code_span(t: Seq<char>, s: int, n: int) -> Option<(int, int, int)> {
    match closing_run(t, s, n) {
        Some(c) => if s < c && code_space(t[s]) && code_space(t[c - 1]) && exists|k: int|
            s <= k < c && !code_space(#[trigger] t[k]) {
            Some((s + 1, c - 1, c + n))
        } else {
            Some((s, c, c + n))
        },
        None => None,
    }
}

/// After an opening run of `n` backticks, content without backticks and a run of exactly `n`
/// backticks make a code span of that content, less one space or line feed at each end when
/// both ends have one and the content is not all spaces and line feeds.
pub proof fn law_code_span_content(t: Seq<char>, s: int, c: int, n: int)
    requires
        0 <= s <= c,
        n >= 1,
        c + n <= t.len(),
        forall|k: int| s <= k < c ==> #[trigger] t[k] != '`',
        forall|k: int| c <= k < c + n ==> #[trigger] t[k] == '`',
        c + n == t.len() || t[c + n] != '`',
    ensures
        ({
            let trim = s < c && (t[s] == ' ' || t[s] == '\n') && (t[c - 1] == ' ' || t[c - 1] == '\n') && exists|k: int|
                s <= k < c && t[k] != ' ' && #[trigger] t[k] != '\n';
            spec_code_span(t, s, n) == if trim {
                Some((s + 1, c - 1, c + n))
            } else {
                Some((s, c, c + n))
            }
        }),
{
    lemma_closing_run_after_plain(t, s, c, n);
}

proof fn lemma_closing_run_after_plain(t: Seq<char>, i: int, c: int, n: int)
    requires
        0 <= i <= c,
        n >= 1,
        c + n <= t.len(),
        forall|k: int| i <= k < c ==> #[trigger] t[k] != '`',
        forall|k: int| c <= k < c + n ==> #[trigger] t[k] == '`',
        c + n == t.len() || t[c + n] != '`',
    ensures
        closing_run(t, i, n) == Some(c),
    decreases c - i,
{
    if i < c {
        lemma_closing_run_after_plain(t, i + 1, c, n);
    } else {
        lemma_backtick_run(t, c, c + n);
    }
}

/// The code span whose opening run of `tick_count` backticks ends where `start` stands: the
/// range of its content and a cursor after its closing run.
fn find_code_span<'a>(start: &BorrowedStringPCI<'a>, tick_count: usize) -> (r: Option<(Range<usize>, BorrowedStringPCI<'a>)>)
    requires
        start.wf(),
    ensures
        match spec_code_span(start.iter@, start.peeked as int, tick_count as int) {
            Some((a, b, q)) => r matches Some((rg, it)) && rg.start == a && rg.end == b && it.wf() && it.iter@
                == start.iter@ && it.peeked == q,
            None => r is None,
        },
        r matches Some((rg, it)) ==> {
            &&& it.wf()
            &&& it.iter@ == start.iter@
            &&& it.peeked > start.peeked
            &&& start.peeked <= rg.start <= rg.end <= it.peeked
        },
{
    let ghost t = start.iter@;
    let ghost s = start.peeked as int;
    let ghost n = tick_count as int;
    let start_offset = start.offset();
    let mut search = *start;
    let first_space = search.next_if_char_eq(' ').is_some() || search.next_if_char_eq('\n').is_some();
    let starts_with_space: Option<usize> = if first_space {
        Some(search.offset())
    } else {
        None
    };
    let mut entirely_space = starts_with_space.is_some();
    let mut last_is_space = starts_with_space;
    proof {
        if first_space {
            assert(closing_run(t, s, n) == closing_run(t, s + 1, n));
        }
    }
    loop
        invariant
            search.wf(),
            search.iter@ == start.iter@,
            t == start.iter@,
            s == start.peeked,
            n == tick_count,
            search.peeked >= start_offset,
            start_offset == start.peeked,
            first_space == (s < t.len() && code_space(t[s])),
            starts_with_space == (if first_space {
                Some((s + 1) as usize)
            } else {
                None::<usize>
            }),
            first_space ==> search.peeked >= s + 1,
            !first_space ==> last_is_space is None || search.peeked > s + 1,
            closing_run(t, s, n) == closing_run(t, search.peeked as int, n),
            entirely_space == (first_space && forall|k: int| s <= k < search.peeked ==> code_space(#[trigger] t[k])),
            search.peeked > s + 1 ==> last_is_space == (if code_space(t[search.peeked - 1]) {
                Some((search.peeked - 1) as usize)
            } else {
                None::<usize>
            }),
            search.peeked == s + 1 && first_space ==> last_is_space == Some((s + 1) as usize),
            search.peeked <= s + 1 && !first_space ==> last_is_space is None,
            starts_with_space matches Some(a) ==> a == start_offset + 1 && search.peeked >= a && (
            last_is_space matches Some(x) ==> a <= x <= search.peeked),
            last_is_space matches Some(x) ==> x <= search.peeked,
        decreases search.iter@.len() - search.peeked,
    {
        let ghost p = search.peeked as int;
        let (current_offset, c) = match search.next_and_index() {
            Some(x) => x,
            None => {
                return None;
            },
        };
        if c == '`' {
            let closing_tick_count = 1 + search.consume_while_char_eq('`');
            proof {
                lemma_backtick_run(t, p, search.peeked as int);
            }
            if closing_tick_count == tick_count {
                let rg = match (starts_with_space, last_is_space) {
                    (Some(a), Some(b)) => if !entirely_space {
                        a..b
                    } else {
                        start_offset..current_offset
                    },
                    _ => start_offset..current_offset,
                };
                proof {
                    assert(closing_run(t, p, n) == Some(p));
                    let ex = exists|k: int| s <= k < p && !code_space(#[trigger] t[k]);
                    if ex {
                        let k = choose|k: int| s <= k < p && !code_space(#[trigger] t[k]);
                        assert(!entirely_space);
                    }
                    if !entirely_space && first_space {
                        assert(ex);
                    }
                }
                return Some((rg, search));
            }
        }
        if c == ' ' || c == '\n' {
            last_is_space = Some(current_offset);
        } else {
            last_is_space = None;
            entirely_space = false;
        }
    }
}

proof fn lemma_slice_len(t: &[char])
    ensures
        t@.len() <= usize::MAX,
{
    vstd::slice::axiom_spec_len(t);
}

/// Characters that may start inline structure: a backslash escape, a code span, emphasis, a
/// link or image, an autolink or raw HTML, or a line break.
pub open spec fn is_inline_special(c: char) -> bool {
    c == '\\' || c == '`' || c == '*' || c == '_' || c == '[' || c == ']' || c == '<' || c == '\n'
}

/// The entry for a run of `dc` characters `c` (`*` or `_`) between `preceding` and `following`
/// (a space stands for either end of the text). It may open when left-flanking and close when
/// right-flanking; a run of `_` inside a word may do neither, unless punctuation stands on the
/// other side.
#[verifier::opaque]
pub open spec fn spec_run_delim(c: char, dc: usize, preceding: char, following: char) -> InlineStructureDelimiters {
    let pp = spec_is_unicode_punctuation(preceding) || spec_is_unicode_symbol(preceding);
    let pf = spec_is_unicode_punctuation(following) || spec_is_unicode_symbol(following);
    let lf = !spec_is_whitespace(following) && (!pf || (pf && (spec_is_whitespace(preceding) || pp)));
    let rf = !spec_is_whitespace(preceding) && (!pp || (pp && (spec_is_whitespace(following) || pf)));
    if c == '*' {
        InlineStructureDelimiters::Asts(dc, 0, lf, rf)
    } else {
        InlineStructureDelimiters::Unds(dc, 0, lf && (!rf || (rf && pp)), rf && (!lf || (lf && pf)))
    }
}

/// Whether a run's entry may open and whether it may close.
pub open spec fn run_flags(d: InlineStructureDelimiters) -> (bool, bool) {
    match d {
        InlineStructureDelimiters::Asts(_, _, po, pc) => (po, pc),
        InlineStructureDelimiters::Unds(_, _, po, pc) => (po, pc),
        _ => (false, false),
    }
}

/// A run's entry counts its characters with none used; after whitespace it cannot close, nor
/// can `_` between letters or digits; at the start of a text before a non-space it only opens,
/// and at the end after a non-space it only closes.
pub proof fn lemma_run_delim(c: char, dc: usize, preceding: char, following: char)
    ensures
        ({
            let d = spec_run_delim(c, dc, preceding, following);
            &&& c == '*' ==> (d matches InlineStructureDelimiters::Asts(t, u, ..) && t == dc && u == 0)
            &&& c != '*' ==> (d matches InlineStructureDelimiters::Unds(t, u, ..) && t == dc && u == 0)
            &&& spec_is_whitespace(preceding) ==> !run_flags(d).1
            &&& c == '_' && spec_is_ascii_alphanumeric(preceding) && spec_is_ascii_alphanumeric(following)
                ==> !run_flags(d).1
            &&& preceding == ' ' && !spec_is_whitespace(following) ==> run_flags(d) == (true, false)
            &&& following == ' ' && !spec_is_whitespace(preceding) ==> run_flags(d) == (false, true)
        }),
{
    reveal(spec_run_delim);
    assert(spec_is_whitespace(' '));
}

/// A run of `_` inside a word (a letter or digit on each side) can neither open nor close
/// emphasis, while a run of `*` there can do both.
pub proof fn law_intraword_runs(dc: usize, preceding: char, following: char)
    requires
        spec_is_ascii_alphanumeric(preceding),
        spec_is_ascii_alphanumeric(following),
    ensures
        run_flags(spec_run_delim('_', dc, preceding, following)) == (false, false),
        run_flags(spec_run_delim('*', dc, preceding, following)) == (true, true),
{
    reveal(spec_run_delim);
    assert(!spec_is_whitespace(preceding) && !spec_is_whitespace(following));
    assert(!spec_is_unicode_punctuation(preceding) && !spec_is_unicode_symbol(preceding));
    assert(!spec_is_unicode_punctuation(following) && !spec_is_unicode_symbol(following));
}

/// At the edges of words: a run of `*` or `_` after whitespace cannot close and one before
/// whitespace cannot open; one between whitespace or punctuation and a letter or digit opens
/// only, and one between a letter or digit and whitespace or punctuation closes only. A run of
/// `_` opens or closes only where a run of `*` would.
pub proof fn law_run_edges(c: char, dc: usize, preceding: char, following: char)
    requires
        c == '*' || c == '_',
    ensures
        ({
            let d = spec_run_delim(c, dc, preceding, following);
            let s = spec_run_delim('*', dc, preceding, following);
            &&& spec_is_whitespace(preceding) ==> !run_flags(d).1
            &&& spec_is_whitespace(following) ==> !run_flags(d).0
            &&& spec_is_ascii_alphanumeric(following) && (spec_is_whitespace(preceding) || spec_is_ascii_punctuation(
                preceding,
            )) ==> run_flags(d) == (true, false)
            &&& spec_is_ascii_alphanumeric(preceding) && (spec_is_whitespace(following) || spec_is_ascii_punctuation(
                following,
            )) ==> run_flags(d) == (false, true)
            &&& run_flags(d).0 ==> run_flags(s).0
            &&& run_flags(d).1 ==> run_flags(s).1
        }),
{
    reveal(spec_run_delim);
    if spec_is_ascii_alphanumeric(following) {
        assert(!spec_is_whitespace(following));
        assert(!spec_is_unicode_punctuation(following) && !spec_is_unicode_symbol(following));
    }
    if spec_is_ascii_alphanumeric(preceding) {
        assert(!spec_is_whitespace(preceding));
        assert(!spec_is_unicode_punctuation(preceding) && !spec_is_unicode_symbol(preceding));
    }
    if spec_is_ascii_punctuation(preceding) {
        assert(!spec_is_whitespace(preceding));
        assert(spec_is_unicode_punctuation(preceding) || spec_is_unicode_symbol(preceding));
    }
    if spec_is_ascii_punctuation(following) {
        assert(!spec_is_whitespace(following));
        assert(spec_is_unicode_punctuation(following) || spec_is_unicode_symbol(following));
    }
}

fn run_delim(c: char, dc: usize, preceding_char: char, following_char: char) -> (r: InlineStructureDelimiters)
    ensures
        r == spec_run_delim(c, dc, preceding_char, following_char),
{
    reveal(spec_run_delim);
    let punc_preceded = preceding_char.is_unicode_punctuation() || preceding_char.is_unicode_symbol();
    let punc_followed = following_char.is_unicode_punctuation() || following_char.is_unicode_symbol();
    let is_left_flanking = !is_whitespace(following_char) && (!punc_followed || (punc_followed && (
    is_whitespace(preceding_char) || punc_preceded)));
    let is_right_flanking = !is_whitespace(preceding_char) && (!punc_preceded || (punc_preceded && (
    is_whitespace(following_char) || punc_followed)));
    if c == '*' {
        InlineStructureDelimiters::Asts(dc, 0, is_left_flanking, is_right_flanking)
    } else {
        InlineStructureDelimiters::Unds(
            dc,
            0,
            is_left_flanking && (!is_right_flanking || (is_right_flanking && punc_preceded)),
            is_right_flanking && (!is_left_flanking || (is_left_flanking && punc_followed)),
        )
    }
}

/// Text that is one emphasis: a `*` or `_`, then text without inline markup or line feeds
/// that neither starts nor ends with whitespace, then the same character again.
pub open spec fn one_emphasis(t: Seq<char>) -> bool {
    &&& t.len() >= 3
    &&& t[0] == '*' || t[0] == '_'
    &&& t[t.len() - 1] == t[0]
    &&& forall|i: int| 1 <= i < t.len() - 1 ==> !is_inline_special(#[trigger] t[i])
    &&& !spec_is_whitespace(t[1])
    &&& !spec_is_whitespace(t[t.len() - 2])
}

/// Text that is one inline link: `[`, text without inline markup or line feeds up to the `]`
/// at `j`, then a destination and title in parentheses that end the text.
pub open spec fn bracketed_link(t: Seq<char>, j: int) -> bool {
    &&& 1 <= j < t.len()
    &&& t[0] == '['
    &&& t[j] == ']'
    &&& forall|i: int| 1 <= i < j ==> !is_inline_special(#[trigger] t[i])
    &&& suffix_ends_text(t, j + 1)
}

/// An inline link's destination and title follow from `p` on and end the text.
#[verifier::opaque]
pub open spec fn suffix_ends_text(t: Seq<char>, p: int) -> bool {
    spec_parse_inline_suffix(t, p) matches Some((_, _, q)) && q == t.len()
}

/// The link that `bracketed_link` text with its `]` at `j` parses to: not an image, with the
/// destination and title that follow, and the bracketed text, if any, as its one text.
#[verifier::opaque]
pub open spec fn bracketed_link_is(t: Seq<char>, j: int, c: InlineContent) -> bool {
    match spec_parse_inline_suffix(t, j + 1) {
        Some((d, ti, _)) => c matches InlineContent::InlineLink(img, rd, rt, v) && !img && opt_range_is(rd, d)
            && opt_range_is(rt, ti) && v@ == (if j > 1 {
            seq![InlineContent::Text(1..j as usize)]
        } else {
            seq![]
        }),
        None => false,
    }
}

/// Text that starts with a run of `*` or `_` and goes on with text without inline markup or
/// line feeds. At the start of the text the run cannot close emphasis, and nothing after it can,
/// so the run stays text.
pub open spec fn run_then_plain(t: Seq<char>) -> bool {
    &&& t.len() > 0
    &&& t[0] == '*' || t[0] == '_'
    &&& forall|i: int| run_of(t, 0, t[0]) <= i < t.len() ==> !is_inline_special(#[trigger] t[i])
}

/// What `run_then_plain` text parses to: the run as text, then the rest without its trailing
/// spaces, if anything is left of it.
pub open spec fn run_then_plain_inlines(t: Seq<char>) -> Seq<InlineContent> {
    let k = run_of(t, 0, t[0]);
    let end = k + trailing_spaces_start(t.skip(k));
    if end > k {
        seq![InlineContent::Text(0..k as usize), InlineContent::Text(k as usize..end as usize)]
    } else {
        seq![InlineContent::Text(0..k as usize)]
    }
}

/// The run of `*` or `_` that starts at `i` cannot close emphasis: it stands at the start or
/// after whitespace, or it is a run of `_` between ASCII letters or digits.
pub open spec fn inert_run_at(t: Seq<char>, i: int) -> bool {
    ||| i == 0
    ||| spec_is_whitespace(t[i - 1])
    ||| t[i] == '_' && spec_is_ascii_alphanumeric(t[i - 1]) && i + run_of(t, i, t[i]) < t.len()
        && spec_is_ascii_alphanumeric(t[i + run_of(t, i, t[i])])
}

/// Text without inline markup or line feeds but runs of `*` and `_` that cannot close
/// emphasis (such as an unmatched `*` after a space, or `_` inside a word).
pub open spec fn inert_runs_text(t: Seq<char>) -> bool {
    &&& t.len() + 2 < usize::MAX
    &&& forall|i: int|
        0 <= i < t.len() && !(t[i] == '*' || t[i] == '_') ==> !is_inline_special(#[trigger] t[i])
    &&& forall|i: int|
        0 <= i < t.len() && (t[i] == '*' || t[i] == '_') && (i == 0 || t[i - 1] != t[i]) ==> #[trigger] inert_run_at(
            t,
            i,
        )
}

/// What `inert_runs_text` text parses to from `i` on, its text pending since `tb`: each run of
/// `*` or `_` as text of its own after the text before it; at the end, the pending text without
/// its trailing spaces.
#[verifier::opaque]
pub open spec fn inert_scan(t: Seq<char>, i: int, tb: int) -> Seq<InlineContent>
    decreases t.len() - i,
{
    if i < 0 || i >= t.len() {
        let end = tb + trailing_spaces_start(t.subrange(tb, t.len() as int));
        if end > tb {
            seq![InlineContent::Text(tb as usize..end as usize)]
        } else {
            seq![]
        }
    } else if t[i] == '*' || t[i] == '_' {
        let k = run_of(t, i, t[i]);
        proof {
            lemma_run_of_bounds(t, i + 1, t[i]);
        }
        (if i > tb {
            seq![InlineContent::Text(tb as usize..i as usize)]
        } else {
            seq![]
        }) + seq![InlineContent::Text(i as usize..(i + k) as usize)] + inert_scan(t, i + k, i + k)
    } else {
        inert_scan(t, i + 1, tb)
    }
}

/// What the entries `ids` of a stack are handed out as, in order.
pub open spec fn span_texts(a: DLStack, ids: Seq<usize>) -> Seq<InlineContent> {
    ids.map_values(
        |id: usize|
            match a.content_of(id) {
                Some(d) => entry_text(d, a.pos_of(id)),
                None => InlineContent::Softbreak,
            },
    )
}

/// The inline content the stack's linked entries are handed out as, in order.
pub open spec fn stack_texts(a: DLStack) -> Seq<InlineContent> {
    a.order().map_values(
        |id: usize|
            match a.content_of(id) {
                Some(d) => entry_text(d, a.pos_of(id)),
                None => InlineContent::Softbreak,
            },
    )
}

/// Pushing an entry adds what it is handed out as, and keeps every linked entry inert when it
/// is inert itself.
proof fn lemma_stack_texts_push(before: DLStack, after: DLStack, x: InlineStructureDelimiters, pos: usize)
    requires
        before.wf(),
        after.order() == before.order().push(before.size() as usize),
        forall|i: usize| i < before.size() ==> #[trigger] after.content_of(i) == before.content_of(i),
        forall|i: usize| i < before.size() ==> #[trigger] after.pos_of(i) == before.pos_of(i),
        after.content_of(before.size() as usize) == Some(x),
        after.pos_of(before.size() as usize) == pos,
        forall|k: int| 0 <= k < before.order().len() ==> inert_entry(#[trigger] before.content_of(before.order()[k])),
        inert_entry(Some(x)),
    ensures
        stack_texts(after) == stack_texts(before).push(entry_text(x, pos)),
        forall|k: int| 0 <= k < after.order().len() ==> inert_entry(#[trigger] after.content_of(after.order()[k])),
{
    let s = before.order();
    assert forall|k: int| 0 <= k < s.len() implies after.content_of(#[trigger] s[k]) == before.content_of(s[k])
        && after.pos_of(s[k]) == before.pos_of(s[k]) by {
        assert(s[k] < before.size());
    }
    assert(stack_texts(after) =~= stack_texts(before).push(entry_text(x, pos)));
    assert forall|k: int| 0 <= k < after.order().len() implies inert_entry(
        #[trigger] after.content_of(after.order()[k]),
    ) by {
        if k < s.len() {
            assert(after.order()[k] == s[k]);
        }
    }
}

/// A run of `k` unused `*` or `_` that cannot close.
pub open spec fn run_entry(c: Option<InlineStructureDelimiters>, k: int) -> bool {
    match c {
        Some(InlineStructureDelimiters::Asts(t, u, _, pc)) => t == k && u == 0 && !pc,
        Some(InlineStructureDelimiters::Unds(t, u, _, pc)) => t == k && u == 0 && !pc,
        _ => false,
    }
}

/// Where the run of spaces that ends `t` starts.
pub open spec fn trailing_spaces_start(t: Seq<char>) -> int
    decreases t.len(),
{
    if t.len() > 0 && t.last() == ' ' {
        trailing_spaces_start(t.drop_last())
    } else {
        t.len() as int
    }
}

/// Where the trailing spaces of `t` start is within `t`, and after a first character that is
/// not a space.
pub proof fn lemma_trailing_spaces_start(t: Seq<char>)
    ensures
        0 <= trailing_spaces_start(t) <= t.len(),
        t.len() > 0 && t[0] != ' ' ==> trailing_spaces_start(t) >= 1,
    decreases t.len(),
{
    if t.len() > 0 && t.last() == ' ' {
        lemma_trailing_spaces_start(t.drop_last());
        if t[0] != ' ' {
            assert(t.drop_last().len() > 0);
            assert(t.drop_last()[0] == t[0]);
        }
    }
}

/// Where the line that starts at `from` ends: at the next line feed, or at the end.
pub open spec fn line_stop(t: Seq<char>, from: int) -> int
    decreases t.len() - from,
{
    if from < 0 || from >= t.len() || t[from] == '\n' {
        from
    } else {
        line_stop(t, from + 1)
    }
}

/// The text of the line from `from` to `e`, without its trailing spaces, when there is any.
pub open spec fn line_text(t: Seq<char>, from: int, e: int) -> Seq<InlineContent> {
    let ts = from + trailing_spaces_start(t.subrange(from, e));
    if ts > from {
        seq![InlineContent::Text((from as usize)..(ts as usize))]
    } else {
        seq![]
    }
}

/// The break after the line from `from` to `e`: hard after two or more trailing spaces, soft
/// otherwise.
pub open spec fn line_break(t: Seq<char>, from: int, e: int) -> InlineContent {
    if e - (from + trailing_spaces_start(t.subrange(from, e))) >= 2 {
        InlineContent::Hardbreak
    } else {
        InlineContent::Softbreak
    }
}

/// Text whose only inline markup is line feeds, code spans, backslash escapes, autolinks and
/// raw HTML: no emphasis, links or images.
pub open spec fn simple_markup_only(t: Seq<char>) -> bool {
    forall|i: int| 0 <= i < t.len() ==> #[trigger] t[i] != '*' && t[i] != '_' && t[i] != '[' && t[i] != ']'
}

/// A backslash that escapes what follows: punctuation, or a line feed (a hard break).
pub open spec fn is_escape(t: Seq<char>, k: int) -> bool {
    &&& 0 <= k
    &&& k + 1 < t.len()
    &&& t[k] == '\\'
    &&& spec_is_ascii_punctuation(t[k + 1]) || t[k + 1] == '\n'
}

/// Where plain text stops: a line feed, a backtick, an escaping backslash or a `<`.
pub open spec fn is_stop(t: Seq<char>, k: int) -> bool {
    t[k] == '\n' || t[k] == '`' || t[k] == '<' || is_escape(t, k)
}

/// Where the text from `from` stops: at the next line feed, backtick, escaping backslash or
/// `<`, or at the end.
pub open spec fn segment_stop(t: Seq<char>, from: int) -> int
    decreases t.len() - from,
{
    if from < 0 || from >= t.len() || is_stop(t, from) {
        from
    } else {
        segment_stop(t, from + 1)
    }
}

/// The text from `from` up to `e`, when there is any.
pub open spec fn text_before(from: int, e: int) -> Seq<InlineContent> {
    if e > from {
        seq![InlineContent::Text((from as usize)..(e as usize))]
    } else {
        seq![]
    }
}

/// At a `<` at `e`: the URI or email autolink or the raw HTML that starts there, or the `<` as
/// text; and where text starts again.
#[verifier::opaque]
pub open spec fn angle_step(t: Seq<char>, e: int) -> (Seq<InlineContent>, int) {
    match spec_parse_uri_autolink(t, e + 1) {
        Some(k) => (seq![InlineContent::AutoLink(((e + 1) as usize)..(k as usize), false)], k + 1),
        None => match spec_parse_email(t, e + 1) {
            Some(k) => (seq![InlineContent::AutoLink(((e + 1) as usize)..(k as usize), true)], k + 1),
            None => match spec_parse_html_tag(t, e + 1) {
                Some((_, e2)) => (seq![InlineContent::HTMLTag((e as usize)..(e2 as usize))], e2),
                None => (seq![InlineContent::Text((e as usize)..((e + 1) as usize))], e + 1),
            },
        },
    }
}

/// At a run of backticks at `e`: the code span it opens, or the run as text when no run of as
/// many backticks closes it; and where text starts again.
#[verifier::opaque]
pub open spec fn tick_step(t: Seq<char>, e: int) -> (Seq<InlineContent>, int) {
    let k = backtick_run(t, e);
    match spec_code_span(t, e + k, k) {
        Some((a, b, q)) => (seq![InlineContent::Code((a as usize)..(b as usize))], q),
        None => (seq![InlineContent::Text((e as usize)..((e + k) as usize))], e + k),
    }
}

/// What a stop at `e` in the text from `from` makes, and where text starts again: at a line
/// feed, the line's text without its trailing spaces and a hard break after two or more of
/// them or a soft break; at an escaping backslash, the text before it and the escaped
/// punctuation as text or a hard break; at a `<` or a run of backticks, the text before it
/// and what `angle_step` or `tick_step` gives.
pub open spec fn stop_step(t: Seq<char>, from: int, e: int) -> (Seq<InlineContent>, int) {
    if t[e] == '\n' {
        (line_text(t, from, e) + seq![line_break(t, from, e)], e + 1)
    } else if t[e] == '\\' {
        (
            text_before(from, e) + seq![
                if t[e + 1] == '\n' {
                    InlineContent::Hardbreak
                } else {
                    InlineContent::Text(((e + 1) as usize)..((e + 2) as usize))
                },
            ],
            e + 2,
        )
    } else if t[e] == '<' {
        (text_before(from, e) + angle_step(t, e).0, angle_step(t, e).1)
    } else {
        (text_before(from, e) + tick_step(t, e).0, tick_step(t, e).1)
    }
}

/// The inline content, from `from` on, of text without emphasis, links or images: text runs,
/// and at each stop what `stop_step` makes; the last line's text without its trailing spaces.
pub open spec fn simple_inlines(t: Seq<char>, from: int) -> Seq<InlineContent>
    decreases t.len() - from,
{
    if from < 0 || from > t.len() {
        seq![]
    } else {
        let e = segment_stop(t, from);
        if e < from || e >= t.len() {
            line_text(t, from, e)
        } else {
            let (items, next) = stop_step(t, from, e);
            if e < next <= t.len() {
                items + simple_inlines(t, next)
            } else {
                items
            }
        }
    }
}

proof fn lemma_segment_stop_at(t: Seq<char>, from: int, e: int)
    requires
        0 <= from <= e <= t.len(),
        e == t.len() || is_stop(t, e),
        forall|k: int| from <= k < e ==> !is_stop(t, k),
    ensures
        segment_stop(t, from) == e,
    decreases e - from,
{
    if from < e {
        lemma_segment_stop_at(t, from + 1, e);
    }
}

pub proof fn lemma_line_stop(t: Seq<char>, from: int)
    requires
        0 <= from <= t.len(),
    ensures
        from <= line_stop(t, from) <= t.len(),
        line_stop(t, from) < t.len() ==> t[line_stop(t, from)] == '\n',
        forall|k: int| from <= k < line_stop(t, from) ==> #[trigger] t[k] != '\n',
    decreases t.len() - from,
{
    if from < t.len() && t[from] != '\n' {
        lemma_line_stop(t, from + 1);
    }
}

/// What the entries of the stack stand for, in order.
pub open spec fn stack_items(a: DLStack) -> Seq<InlineContent> {
    a.order().map_values(
        |id: usize|
            match a.content_of(id) {
                Some(d) => entry_inline(d),
                None => InlineContent::Softbreak,
            },
    )
}

proof fn lemma_stack_items_push(before: DLStack, after: DLStack, x: InlineStructureDelimiters)
    requires
        before.wf(),
        after.order() == before.order().push(before.size() as usize),
        forall|i: usize| i < before.size() ==> #[trigger] after.content_of(i) == before.content_of(i),
        after.content_of(before.size() as usize) == Some(x),
        no_delims(before),
        x is TextualContent || x is CompletedContent,
    ensures
        stack_items(after) == stack_items(before).push(entry_inline(x)),
        no_delims(after),
{
    let s = before.order();
    assert forall|k: int| 0 <= k < s.len() implies after.content_of(#[trigger] s[k]) == before.content_of(s[k]) by {
        assert(s[k] < before.size());
    }
    assert(stack_items(after) =~= stack_items(before).push(entry_inline(x)));
    assert forall|k: int| 0 <= k < after.order().len() implies finished_entry(
        #[trigger] after.content_of(after.order()[k]),
    ) by {
        if k < s.len() {
            assert(after.order()[k] == s[k]);
        }
    }
}

/// A line without a line feed: its trailing spaces after one more character.
proof fn lemma_tss_push(s: Seq<char>, c: char)
    ensures
        c == ' ' ==> trailing_spaces_start(s.push(c)) == trailing_spaces_start(s),
        c != ' ' ==> trailing_spaces_start(s.push(c)) == s.len() + 1,
{
    assert(s.push(c).drop_last() =~= s);
}

/// Ends a line of text at the line feed at `char_index`: its text up to `end` (where its
/// trailing spaces start), then a hard break after two or more spaces or a soft break.
#[verifier::rlimit(30)]
fn end_line(
    dl_stack: &mut DLStack,
    text_begin: usize,
    end: usize,
    char_index: usize,
    space_count: usize,
    Ghost(n): Ghost<int>,
    Ghost(labels): Ghost<Seq<Seq<char>>>,
    Ghost(t): Ghost<Seq<char>>,
    Ghost(track): Ghost<bool>,
)
    requires
        arena_wf(*old(dl_stack), n, labels),
        end <= n,
        char_index < n,
        track ==> {
            &&& n == t.len()
            &&& n + 2 < usize::MAX
            &&& no_delims(*old(dl_stack))
            &&& old(dl_stack).size() <= text_begin <= char_index
            &&& stack_items(*old(dl_stack)) + simple_inlines(t, text_begin as int) == simple_inlines(t, 0)
            &&& forall|k: int| text_begin <= k < char_index ==> !#[trigger] is_stop(t, k)
            &&& t[char_index as int] == '\n'
            &&& end == text_begin + trailing_spaces_start(t.subrange(text_begin as int, char_index as int))
            &&& space_count == char_index - end
        },
    ensures
        arena_wf(*final(dl_stack), n, labels),
        track ==> {
            &&& no_delims(*final(dl_stack))
            &&& final(dl_stack).size() <= char_index + 1
            &&& stack_items(*final(dl_stack)) + simple_inlines(t, char_index + 1) == simple_inlines(t, 0)
        },
{
    let ghost before_text = *dl_stack;
    add_text_to_stack(dl_stack, text_begin, end, Ghost(n), Ghost(labels));
    proof {
        if track {
            if end > text_begin {
                lemma_stack_items_push(before_text, *dl_stack, InlineStructureDelimiters::TextualContent(text_begin..end));
            }
            assert(stack_items(*dl_stack) == stack_items(before_text) + line_text(t, text_begin as int, char_index as int));
        }
    }
    let brk = if space_count >= 2 {
        InlineContent::Hardbreak
    } else {
        InlineContent::Softbreak
    };
    let ghost before_brk = *dl_stack;
    stack_push(dl_stack, char_index, InlineStructureDelimiters::CompletedContent(brk), Ghost(n), Ghost(labels));
    proof {
        if track {
            lemma_stack_items_push(before_brk, *dl_stack, InlineStructureDelimiters::CompletedContent(brk));
            assert(brk == line_break(t, text_begin as int, char_index as int));
            lemma_segment_stop_at(t, text_begin as int, char_index as int);
            let tail = simple_inlines(t, char_index + 1);
            let lt = line_text(t, text_begin as int, char_index as int);
            assert(simple_inlines(t, text_begin as int) == lt + seq![brk] + tail);
            assert(stack_items(before_text) + (lt + seq![brk] + tail) =~= stack_items(before_text) + lt + seq![brk]
                + tail);
        }
    }
}

/// At a `<` at `char_index` (the cursor stands after it): the text before it, then the
/// autolink or raw HTML that starts there, or the `<` as text. Gives where text starts again,
/// where the cursor then stands, and whether an autolink or raw HTML was made.
#[verifier::rlimit(30)]
fn angle_bracket<'a>(
    dl_stack: &mut DLStack,
    char_iter: &mut BorrowedStringPCI<'a>,
    text_begin: usize,
    char_index: usize,
    Ghost(n): Ghost<int>,
    Ghost(labels): Ghost<Seq<Seq<char>>>,
    Ghost(track): Ghost<bool>,
) -> (r: (usize, bool))
    requires
        arena_wf(*old(dl_stack), n, labels),
        old(char_iter).wf(),
        old(char_iter).iter@.len() == n,
        char_index < n,
        old(char_iter).peeked == char_index + 1,
        old(char_iter).iter@[char_index as int] == '<',
        track ==> {
            let t = old(char_iter).iter@;
            &&& text_begin <= char_index
            &&& n + 2 < usize::MAX
            &&& no_delims(*old(dl_stack))
            &&& old(dl_stack).size() <= text_begin
            &&& stack_items(*old(dl_stack)) + simple_inlines(t, text_begin as int) == simple_inlines(t, 0)
            &&& forall|k: int| text_begin <= k < char_index ==> !#[trigger] is_stop(t, k)
        },
    ensures
        arena_wf(*final(dl_stack), n, labels),
        final(char_iter).wf(),
        final(char_iter).iter@ == old(char_iter).iter@,
        final(char_iter).peeked == r.0,
        char_index < r.0 <= n,
        track ==> {
            let t = old(char_iter).iter@;
            &&& no_delims(*final(dl_stack))
            &&& final(dl_stack).size() <= r.0
            &&& stack_items(*final(dl_stack)) + simple_inlines(t, r.0 as int) == simple_inlines(t, 0)
        },
{
    let ghost t = char_iter.iter@;
    let ghost before_text = *dl_stack;
    add_text_to_stack(dl_stack, text_begin, char_index, Ghost(n), Ghost(labels));
    proof {
        if track {
            if char_index > text_begin {
                lemma_stack_items_push(
                    before_text,
                    *dl_stack,
                    InlineStructureDelimiters::TextualContent(text_begin..char_index),
                );
            }
            lemma_segment_stop_at(t, text_begin as int, char_index as int);
        }
    }
    let ghost pre = if char_index > text_begin {
        seq![InlineContent::Text(text_begin..char_index)]
    } else {
        seq![]
    };
    let ghost mid = *dl_stack;
    proof {
        crate::parsers::lemma_uri_autolink_bounds(t, char_index + 1);
        crate::parsers::lemma_email_bounds(t, char_index + 1);
        crate::parsers::lemma_html_tag_bounds(t, char_index + 1);
    }
    let mut autolink_iter = *char_iter;
    let mut html_iter = *char_iter;
    let autolink = match parse_autolink(&mut autolink_iter) {
        Some((range, is_email)) => if range.start <= range.end {
            Some((range, is_email))
        } else {
            None
        },
        None => None,
    };
    let html = match parse_html_tag(&mut html_iter) {
        Some(r) => if char_index < r.end {
            Some(char_index..r.end)
        } else {
            None
        },
        None => None,
    };
    if let Some((range, is_email)) = autolink {
        let ghost ic = InlineContent::AutoLink(range, is_email);
        stack_push(
            dl_stack,
            char_index,
            InlineStructureDelimiters::CompletedContent(InlineContent::AutoLink(range, is_email)),
            Ghost(n),
            Ghost(labels),
        );
        *char_iter = autolink_iter;
        proof {
            if track {
                lemma_stack_items_push(mid, *dl_stack, InlineStructureDelimiters::CompletedContent(ic));
                reveal(angle_step);
                let rest = simple_inlines(t, char_iter.peeked as int);
                assert(simple_inlines(t, text_begin as int) == pre + seq![ic] + rest);
                assert(stack_items(before_text) + (pre + seq![ic] + rest) =~= stack_items(before_text) + pre + seq![ic]
                    + rest);
            }
        }
        (char_iter.offset(), true)
    } else if let Some(tag_range) = html {
        let ghost ic = InlineContent::HTMLTag(tag_range);
        stack_push(
            dl_stack,
            char_index,
            InlineStructureDelimiters::CompletedContent(InlineContent::HTMLTag(tag_range)),
            Ghost(n),
            Ghost(labels),
        );
        *char_iter = html_iter;
        proof {
            if track {
                lemma_stack_items_push(mid, *dl_stack, InlineStructureDelimiters::CompletedContent(ic));
                reveal(angle_step);
                let rest = simple_inlines(t, char_iter.peeked as int);
                assert(simple_inlines(t, text_begin as int) == pre + seq![ic] + rest);
                assert(stack_items(before_text) + (pre + seq![ic] + rest) =~= stack_items(before_text) + pre + seq![ic]
                    + rest);
            }
        }
        (char_iter.offset(), true)
    } else {
        let ghost ic = InlineContent::Text(char_index..((char_index + 1) as usize));
        add_text_to_stack(dl_stack, char_index, char_index + 1, Ghost(n), Ghost(labels));
        proof {
            if track {
                lemma_stack_items_push(
                    mid,
                    *dl_stack,
                    InlineStructureDelimiters::TextualContent(char_index..((char_index + 1) as usize)),
                );
                reveal(angle_step);
                let rest = simple_inlines(t, char_index + 1);
                assert(simple_inlines(t, text_begin as int) == pre + seq![ic] + rest);
                assert(stack_items(before_text) + (pre + seq![ic] + rest) =~= stack_items(before_text) + pre + seq![ic]
                    + rest);
            }
        }
        (char_index + 1, false)
    }
}

/// At a backslash at `char_index` that escapes what follows (the cursor stands after the
/// backslash): the text before it, then the escaped punctuation as text or a hard break. Gives
/// where text starts again, where the cursor then stands.
#[verifier::rlimit(30)]
fn backslash_escape<'a>(
    dl_stack: &mut DLStack,
    char_iter: &mut BorrowedStringPCI<'a>,
    text_begin: usize,
    char_index: usize,
    Ghost(n): Ghost<int>,
    Ghost(labels): Ghost<Seq<Seq<char>>>,
    Ghost(track): Ghost<bool>,
) -> (new_begin: usize)
    requires
        arena_wf(*old(dl_stack), n, labels),
        old(char_iter).wf(),
        old(char_iter).iter@.len() == n,
        old(char_iter).peeked == char_index + 1,
        is_escape(old(char_iter).iter@, char_index as int),
        track ==> {
            let t = old(char_iter).iter@;
            &&& text_begin <= char_index
            &&& n + 2 < usize::MAX
            &&& no_delims(*old(dl_stack))
            &&& old(dl_stack).size() <= text_begin
            &&& stack_items(*old(dl_stack)) + simple_inlines(t, text_begin as int) == simple_inlines(t, 0)
            &&& forall|k: int| text_begin <= k < char_index ==> !#[trigger] is_stop(t, k)
        },
    ensures
        arena_wf(*final(dl_stack), n, labels),
        final(char_iter).wf(),
        final(char_iter).iter@ == old(char_iter).iter@,
        final(char_iter).peeked == new_begin,
        new_begin == char_index + 2,
        track ==> {
            let t = old(char_iter).iter@;
            &&& no_delims(*final(dl_stack))
            &&& final(dl_stack).size() <= new_begin
            &&& stack_items(*final(dl_stack)) + simple_inlines(t, new_begin as int) == simple_inlines(t, 0)
        },
{
    let ghost t = char_iter.iter@;
    let ghost before_text = *dl_stack;
    add_text_to_stack(dl_stack, text_begin, char_index, Ghost(n), Ghost(labels));
    proof {
        if track {
            if char_index > text_begin {
                lemma_stack_items_push(
                    before_text,
                    *dl_stack,
                    InlineStructureDelimiters::TextualContent(text_begin..char_index),
                );
            }
            lemma_segment_stop_at(t, text_begin as int, char_index as int);
        }
    }
    let ghost pre = if char_index > text_begin {
        seq![InlineContent::Text(text_begin..char_index)]
    } else {
        seq![]
    };
    let ghost mid = *dl_stack;
    let (o, c2) = match char_iter.next_and_index() {
        Some(x) => x,
        None => {
            return char_index + 2;
        },
    };
    let item = if c2 == '\n' {
        InlineStructureDelimiters::CompletedContent(InlineContent::Hardbreak)
    } else {
        InlineStructureDelimiters::TextualContent(o..o + 1)
    };
    let ghost ic = entry_inline(item);
    stack_push(dl_stack, char_index, item, Ghost(n), Ghost(labels));
    proof {
        if track {
            lemma_stack_items_push(mid, *dl_stack, item);
            let rest = simple_inlines(t, char_index + 2);
            assert(simple_inlines(t, text_begin as int) == pre + seq![ic] + rest);
            assert(stack_items(before_text) + (pre + seq![ic] + rest) =~= stack_items(before_text) + pre + seq![ic]
                + rest);
        }
    }
    char_iter.offset()
}

/// At a run of backticks that starts at `char_index` (the cursor stands after its first one):
/// the text before it, then the code span it opens, or the run as text. Gives where text
/// starts again, where the cursor then stands.
#[verifier::rlimit(60)]
fn code_span_or_ticks<'a>(
    dl_stack: &mut DLStack,
    char_iter: &mut BorrowedStringPCI<'a>,
    text_begin: usize,
    char_index: usize,
    Ghost(n): Ghost<int>,
    Ghost(labels): Ghost<Seq<Seq<char>>>,
    Ghost(track): Ghost<bool>,
) -> (new_begin: usize)
    requires
        arena_wf(*old(dl_stack), n, labels),
        old(char_iter).wf(),
        old(char_iter).iter@.len() == n,
        char_index < n,
        old(char_iter).peeked == char_index + 1,
        old(char_iter).iter@[char_index as int] == '`',
        track ==> {
            let t = old(char_iter).iter@;
            &&& text_begin <= char_index
            &&& n + 2 < usize::MAX
            &&& no_delims(*old(dl_stack))
            &&& old(dl_stack).size() <= text_begin
            &&& stack_items(*old(dl_stack)) + simple_inlines(t, text_begin as int) == simple_inlines(t, 0)
            &&& forall|k: int| text_begin <= k < char_index ==> !#[trigger] is_stop(t, k)
        },
    ensures
        arena_wf(*final(dl_stack), n, labels),
        final(char_iter).wf(),
        final(char_iter).iter@ == old(char_iter).iter@,
        final(char_iter).peeked == new_begin,
        char_index < new_begin <= n,
        track ==> {
            let t = old(char_iter).iter@;
            &&& no_delims(*final(dl_stack))
            &&& final(dl_stack).size() <= new_begin
            &&& stack_items(*final(dl_stack)) + simple_inlines(t, new_begin as int) == simple_inlines(t, 0)
        },
{
    let ghost t = char_iter.iter@;
    let ghost before_text = *dl_stack;
    add_text_to_stack(dl_stack, text_begin, char_index, Ghost(n), Ghost(labels));
    proof {
        if track {
            if char_index > text_begin {
                lemma_stack_items_push(
                    before_text,
                    *dl_stack,
                    InlineStructureDelimiters::TextualContent(text_begin..char_index),
                );
            }
        }
    }
    let initial_tick_count = 1 + char_iter.consume_while_char_eq('`');
    proof {
        lemma_backtick_run(t, char_index as int, char_iter.peeked as int);
        if track {
            lemma_segment_stop_at(t, text_begin as int, char_index as int);
        }
    }
    let ghost pre = if char_index > text_begin {
        seq![InlineContent::Text(text_begin..char_index)]
    } else {
        seq![]
    };
    let ghost mid = *dl_stack;
    match find_code_span(&*char_iter, initial_tick_count) {
        Some((range, it)) => {
            let ghost code = InlineContent::Code(range);
            stack_push(
                dl_stack,
                char_index,
                InlineStructureDelimiters::CompletedContent(InlineContent::Code(range)),
                Ghost(n),
                Ghost(labels),
            );
            *char_iter = it;
            proof {
                if track {
                    lemma_stack_items_push(
                        mid,
                        *dl_stack,
                        InlineStructureDelimiters::CompletedContent(code),
                    );
                    reveal(tick_step);
                    let rest = simple_inlines(t, char_iter.peeked as int);
                    assert(simple_inlines(t, text_begin as int) == pre + seq![code] + rest);
                    assert(stack_items(before_text) + (pre + seq![code] + rest) =~= stack_items(before_text) + pre
                        + seq![code] + rest);
                }
            }
            char_iter.offset()
        },
        None => {
            let ghost ticks = InlineContent::Text(char_index..((char_index + initial_tick_count) as usize));
            add_text_to_stack(dl_stack, char_index, char_index + initial_tick_count, Ghost(n), Ghost(labels));
            proof {
                if track {
                    lemma_stack_items_push(
                        mid,
                        *dl_stack,
                        InlineStructureDelimiters::TextualContent(char_index..((char_index + initial_tick_count) as usize)),
                    );
                    reveal(tick_step);
                    let rest = simple_inlines(t, char_index + initial_tick_count);
                    assert(simple_inlines(t, text_begin as int) == pre + seq![ticks] + rest);
                    assert(stack_items(before_text) + (pre + seq![ticks] + rest) =~= stack_items(before_text) + pre
                        + seq![ticks] + rest);
                }
            }
            char_index + initial_tick_count
        },
    }
}

/// Inline content parsed from `t`: well formed; for a text without emphasis, links or images
/// (and of a size that leaves room to count), what `simple_inlines` says; and, for a text
/// without inline markup, that text without its trailing spaces as plain text (nothing for an
/// empty one).
pub open spec fn inline_parse_ok(t: Seq<char>, ics: Seq<InlineContent>, labels: Seq<Seq<char>>) -> bool {
    &&& ics_wf(ics, t.len() as int, labels)
    &&& simple_markup_only(t) && t.len() + 2 < usize::MAX ==> ics == simple_inlines(t, 0)
    &&& (forall|i: int| 0 <= i < t.len() ==> !is_inline_special(#[trigger] t[i])) ==> {
        let k = trailing_spaces_start(t);
        &&& k > 0 ==> ics.len() == 1 && (ics[0] matches InlineContent::Text(rg) && rg.start == 0 && rg.end == k)
        &&& k <= 0 ==> ics.len() == 0
    }
}

/// Parses the inline content of a paragraph or heading text: code spans, emphasis, links and
/// images, autolinks, raw HTML, backslash escapes and line breaks. Every range of the result
/// lies in `text`, every reference link names a label of `lrd_table`, and a text without
/// emphasis, links or images parses as `simple_inlines` says.
#[verifier::spinoff_prover]
#[verifier::rlimit(100)]
pub fn parse_inline(text: &[char], lrd_table: &LRDTable) -> (r: Vec<InlineContent>)
    ensures
        inline_parse_ok(text@, r@, lrd_table.labels()),
        run_then_plain(text@) ==> r@ == run_then_plain_inlines(text@),
        inert_runs_text(text@) ==> r@ == inert_scan(text@, 0, 0),
        forall|j: int| bracketed_link(text@, j) ==> r@.len() == 1 && bracketed_link_is(text@, j, r@[0]),
        one_emphasis(text@) ==> r@.len() == 1 && (r@[0] matches InlineContent::Emph(w) && w@ == seq![
            InlineContent::Text(1..(text@.len() - 1) as usize),
        ]),
{
    let ghost eo = one_emphasis(text@);
    let ghost mut ephase: int = 0;
    let ghost n = text@.len() as int;
    let ghost lr = exists|j: int| bracketed_link(text@, j);
    let ghost lj: int = choose|j: int| bracketed_link(text@, j);
    let ghost mut lphase: int = 0;
    let ghost mut sr_started = false;
    let ghost sr = run_then_plain(text@);
    let ghost ir = inert_runs_text(text@);
    let ghost k_run = if text@.len() > 0 {
        run_of(text@, 0, text@[0])
    } else {
        0
    };
    proof {
        if text@.len() > 0 {
            lemma_run_of_bounds(text@, 0, text@[0]);
        }
    }
    let ghost plain = forall|i: int| 0 <= i < text@.len() ==> !is_inline_special(#[trigger] text@[i]);
    let ghost labels = lrd_table.labels();
    let ghost only_breaks = simple_markup_only(text@) && text@.len() + 2 < usize::MAX;
    let mut dl_stack: DLStack = ArenaDLL::default();
    proof {
        assert(stack_items(dl_stack) + simple_inlines(text@, 0) =~= simple_inlines(text@, 0));
    }
    let mut char_iter = BorrowedStringPCI::new(text);
    let mut text_begin = char_iter.offset();
    let mut first_space_offset: Option<usize> = None;
    let mut space_count: usize = 0;
    // for purposes of emphasis delimiter types (beginning counts as whitespace)
    let mut preceding_char = ' ';
    loop
        invariant
            arena_wf(dl_stack, n, labels),
            char_iter.wf(),
            char_iter.iter@ == text@,
            n == text@.len(),
            labels == lrd_table.labels(),
            first_space_offset matches Some(f) ==> f <= n,
            space_count <= char_iter.peeked,
            plain == (forall|i: int| 0 <= i < text@.len() ==> !is_inline_special(#[trigger] text@[i])),
            plain ==> dl_stack.size() == 0 && dl_stack.order().len() == 0 && text_begin == 0,
            plain ==> match first_space_offset {
                Some(f) => f == trailing_spaces_start(text@.take(char_iter.peeked as int)),
                None => trailing_spaces_start(text@.take(char_iter.peeked as int)) == char_iter.peeked,
            },
            only_breaks == (simple_markup_only(text@) && text@.len() + 2 < usize::MAX),
            only_breaks ==> no_delims(dl_stack) && dl_stack.size() <= text_begin <= char_iter.peeked,
            only_breaks ==> stack_items(dl_stack) + simple_inlines(text@, text_begin as int) == simple_inlines(text@, 0),
            only_breaks ==> forall|k: int| text_begin <= k < char_iter.peeked ==> !#[trigger] is_stop(text@, k),
            only_breaks ==> match first_space_offset {
                Some(f) => f == text_begin + trailing_spaces_start(
                    text@.subrange(text_begin as int, char_iter.peeked as int),
                ) && f < char_iter.peeked,
                None => trailing_spaces_start(text@.subrange(text_begin as int, char_iter.peeked as int))
                    == char_iter.peeked - text_begin,
            },
            only_breaks ==> space_count == char_iter.peeked - (text_begin + trailing_spaces_start(
                text@.subrange(text_begin as int, char_iter.peeked as int),
            )),
            sr == run_then_plain(text@),
            sr ==> k_run == run_of(text@, 0, text@[0]) && 1 <= k_run <= n,
            sr && !sr_started ==> char_iter.peeked == 0 && dl_stack.size() == 0 && dl_stack.order().len() == 0
                && text_begin == 0 && preceding_char == ' ',
            sr && sr_started ==> (k_run <= char_iter.peeked && text_begin == k_run && dl_stack.size() == 1
                && dl_stack.order() == seq![0usize] && run_entry(dl_stack.content_of(0), k_run) && dl_stack.pos_of(0)
                == 0 && match first_space_offset {
                Some(f) => f == k_run + trailing_spaces_start(text@.subrange(k_run, char_iter.peeked as int)),
                None => trailing_spaces_start(text@.subrange(k_run, char_iter.peeked as int)) == char_iter.peeked
                    - k_run,
            }),
            ir == inert_runs_text(text@),
            ir ==> dl_stack.size() <= text_begin <= char_iter.peeked,
            ir ==> forall|k: int|
                0 <= k < dl_stack.order().len() ==> inert_entry(#[trigger] dl_stack.content_of(dl_stack.order()[k])),
            ir ==> stack_texts(dl_stack) + inert_scan(text@, char_iter.peeked as int, text_begin as int) == inert_scan(
                text@,
                0,
                0,
            ),
            ir ==> (char_iter.peeked == 0 ==> preceding_char == ' ') && (char_iter.peeked > 0 ==> preceding_char
                == text@[char_iter.peeked - 1]),
            ir ==> (0 < char_iter.peeked < n && (text@[char_iter.peeked as int] == '*' || text@[char_iter.peeked as int]
                == '_') ==> text@[char_iter.peeked - 1] != text@[char_iter.peeked as int]),
            ir ==> match first_space_offset {
                Some(f) => f == text_begin + trailing_spaces_start(
                    text@.subrange(text_begin as int, char_iter.peeked as int),
                ),
                None => trailing_spaces_start(text@.subrange(text_begin as int, char_iter.peeked as int))
                    == char_iter.peeked - text_begin,
            },
            eo == one_emphasis(text@),
            eo ==> 0 <= ephase <= 2,
            eo && ephase == 0 ==> char_iter.peeked == 0 && dl_stack.size() == 0 && dl_stack.order().len() == 0
                && text_begin == 0 && preceding_char == ' ',
            eo && ephase == 1 ==> 1 <= char_iter.peeked <= n - 1 && text_begin == 1 && dl_stack.size() == 1
                && dl_stack.order() == seq![0usize] && one_run(dl_stack.content_of(0), true, false) && (
            dl_stack.content_of(0) matches Some(InlineStructureDelimiters::Asts(..))) == (text@[0] == '*') && (
            char_iter.peeked >= 2 ==> preceding_char == text@[char_iter.peeked - 1]),
            eo && ephase == 2 ==> char_iter.peeked == n && text_begin == n && first_space_offset is None
                && dl_stack.size() == 3 && dl_stack.order() == seq![0usize, 1usize, 2usize] && one_run(
                dl_stack.content_of(0),
                true,
                false,
            ) && (dl_stack.content_of(0) matches Some(InlineStructureDelimiters::Asts(..))) == (text@[0] == '*')
                && dl_stack.content_of(1) == Some(InlineStructureDelimiters::TextualContent(1..(n - 1) as usize))
                && dl_stack.pos_of(1) == 1 && one_run(dl_stack.content_of(2), false, true) && (dl_stack.content_of(
                2,
            ) matches Some(InlineStructureDelimiters::Asts(..))) == (text@[0] == '*'),
            lr == (exists|j: int| bracketed_link(text@, j)),
            lr ==> bracketed_link(text@, lj),
            lr ==> 0 <= lphase <= 2,
            lr && lphase == 0 ==> char_iter.peeked == 0 && dl_stack.size() == 0 && dl_stack.order().len() == 0
                && text_begin == 0,
            lr && lphase == 1 ==> 1 <= char_iter.peeked <= lj && text_begin == 1 && dl_stack.size() == 1
                && dl_stack.order() == seq![0usize] && dl_stack.content_of(0) == Some(
                InlineStructureDelimiters::LinkOpen(true),
            ) && dl_stack.pos_of(0) == 0,
            lr && lphase == 2 ==> char_iter.peeked == n && text_begin == n && first_space_offset is None
                && dl_stack.order().len() == 1 && (dl_stack.content_of(dl_stack.order()[0]) matches Some(
                InlineStructureDelimiters::CompletedContent(lc),
            ) && bracketed_link_is(text@, lj, lc)),
        ensures
            char_iter.peeked == n,
        decreases n - char_iter.peeked,
    {
        let ghost p = char_iter.peeked as int;
        let (char_index, c) = match char_iter.next_and_index() {
            Some(x) => x,
            None => {
                break ;
            },
        };
        proof {
            assert(text@.take(p + 1).drop_last() =~= text@.take(p));
            if plain {
                assert(!is_inline_special(text@[p]));
            }
            if ir && !(c == '*' || c == '_') {
                assert(!is_inline_special(text@[p]));
                assert(inert_scan(text@, p, text_begin as int) == inert_scan(text@, p + 1, text_begin as int)) by {
                    reveal_with_fuel(inert_scan, 1);
                }
                assert(text@.subrange(text_begin as int, p + 1) =~= text@.subrange(text_begin as int, p).push(c));
                lemma_tss_push(text@.subrange(text_begin as int, p), c);
                lemma_trailing_spaces_start(text@.subrange(text_begin as int, p));
                if p + 1 < n {
                    assert(text@[p + 1] != '[') by {
                        if !(text@[p + 1] == '*' || text@[p + 1] == '_') {
                            assert(!is_inline_special(text@[p + 1]));
                        }
                    }
                }
            }
            if sr && sr_started {
                assert(!is_inline_special(text@[p]));
                assert(text@.subrange(k_run, p + 1) =~= text@.subrange(k_run, p).push(c));
                lemma_tss_push(text@.subrange(k_run, p), c);
                if p + 1 < n {
                    assert(!is_inline_special(text@[p + 1]));
                }
            }
            if eo && ephase == 1 && p < n - 1 {
                assert(!is_inline_special(text@[p]));
                if p + 1 < n - 1 {
                    assert(!is_inline_special(text@[p + 1]));
                }
            }
            if lr && lphase == 1 && p < lj {
                assert(!is_inline_special(text@[p]));
                if p + 1 < lj {
                    assert(!is_inline_special(text@[p + 1]));
                }
            }
            if only_breaks {
                assert(text@[p] != '*' && text@[p] != '_' && text@[p] != '[' && text@[p] != ']');
                assert(text@.subrange(text_begin as int, p + 1) =~= text@.subrange(text_begin as int, p).push(c));
                lemma_tss_push(text@.subrange(text_begin as int, p), c);
                lemma_trailing_spaces_start(text@.subrange(text_begin as int, p));
            }
        }
        if c == ' ' {
            space_count = space_count + 1;
            if first_space_offset.is_none() {
                first_space_offset = Some(char_index);
            }
            preceding_char = c;
        } else if c == '\n' {
            let end = match first_space_offset {
                Some(f) => f,
                None => char_index,
            };
            end_line(
                &mut dl_stack,
                text_begin,
                end,
                char_index,
                space_count,
                Ghost(n),
                Ghost(labels),
                Ghost(text@),
                Ghost(only_breaks),
            );
            proof {
                if only_breaks {
                    assert(text@.subrange(char_index + 1, char_index + 1) =~= Seq::<char>::empty());
                }
            }
            space_count = 0;
            first_space_offset = None;
            text_begin = char_iter.offset();
            preceding_char = c;
        } else {
            space_count = 0;
            first_space_offset = None;
            if c == '\\' {
                // a backslash before punctuation escapes it, and before a line feed makes a hard
                // break; elsewhere it is a character like any other
                let escapes = match char_iter.peek() {
                    Some(c2) => is_ascii_punctuation(c2) || c2 == '\n',
                    None => false,
                };
                if escapes {
                    let ghost c2 = text@[char_index + 1];
                    text_begin = backslash_escape(
                        &mut dl_stack,
                        &mut char_iter,
                        text_begin,
                        char_index,
                        Ghost(n),
                        Ghost(labels),
                        Ghost(only_breaks),
                    );
                    proof {
                        if only_breaks {
                            assert(text@.subrange(text_begin as int, text_begin as int) =~= Seq::<char>::empty());
                        }
                    }
                    preceding_char = text[char_index + 1];
                } else {
                    preceding_char = c;
                }
            } else if c == '`' {
                text_begin = code_span_or_ticks(
                    &mut dl_stack,
                    &mut char_iter,
                    text_begin,
                    char_index,
                    Ghost(n),
                    Ghost(labels),
                    Ghost(only_breaks),
                );
                proof {
                    if only_breaks {
                        assert(text@.subrange(text_begin as int, text_begin as int) =~= Seq::<char>::empty());
                    }
                }
                preceding_char = '`';
            } else if c == '_' || c == '*' {
                let ghost st0 = dl_stack;
                let ghost tb0 = text_begin as int;
                add_text_to_stack(&mut dl_stack, text_begin, char_index, Ghost(n), Ghost(labels));
                let ghost st1 = dl_stack;
                proof {
                    if ir && char_index > tb0 {
                        lemma_stack_texts_push(st0, st1, InlineStructureDelimiters::TextualContent(text_begin..char_index), text_begin);
                    }
                }
                let dc = 1 + char_iter.consume_while_char_eq(c);
                proof {
                    if sr {
                        assert(p == 0);
                        lemma_run_of(text@, 0, char_iter.peeked as int, c);
                    }
                    if ir {
                        lemma_run_of(text@, p, char_iter.peeked as int, c);
                        assert(inert_run_at(text@, p));
                    }
                }
                // for these purposes, end and beginning of line count as whitespace.
                let following_char = match char_iter.peek() {
                    Some(f) => f,
                    None => ' ',
                };
                proof {
                    if eo {
                        assert(!is_inline_special(text@[1]));
                        assert(!is_inline_special(text@[n - 2]));
                        if ephase == 0 {
                            assert(char_iter.peeked == 1);
                            assert(spec_is_whitespace(' '));
                        } else {
                            assert(p == n - 1);
                            assert(char_iter.peeked == n);
                            assert(spec_is_whitespace(' '));
                        }
                    }
                }
                let delim = run_delim(c, dc, preceding_char, following_char);
            proof {
                lemma_run_delim(c, dc, preceding_char, following_char);
            }
                let ghost st2 = dl_stack;
                stack_push(&mut dl_stack, char_index, delim, Ghost(n), Ghost(labels));
                proof {
                    if ir {
                        assert(!(match delim {
                            InlineStructureDelimiters::Asts(_, _, _, pc) => pc,
                            InlineStructureDelimiters::Unds(_, _, _, pc) => pc,
                            _ => true,
                        }));
                        lemma_stack_texts_push(st2, dl_stack, delim, char_index);
                        let pieces = (if p > tb0 {
                            seq![InlineContent::Text(tb0 as usize..p as usize)]
                        } else {
                            seq![]
                        });
                        assert(inert_scan(text@, p, tb0) == pieces + seq![InlineContent::Text(p as usize..(p + dc) as usize)]
                            + inert_scan(text@, p + dc, p + dc)) by {
                            reveal_with_fuel(inert_scan, 1);
                        }
                        assert(stack_texts(dl_stack) =~= stack_texts(st0) + pieces + seq![
                            InlineContent::Text(p as usize..(p + dc) as usize),
                        ]);
                        assert(text@.subrange(p + dc, p + dc) =~= Seq::<char>::empty());
                    }
                }
                text_begin = char_index + dc;
                preceding_char = c;
                proof {
                    sr_started = true;
                    ephase = ephase + 1;
                }
            } else if c == '!' {
                if char_iter.next_if_char_eq('[').is_some() {
                    add_text_to_stack(&mut dl_stack, text_begin, char_index, Ghost(n), Ghost(labels));
                    stack_push(&mut dl_stack, char_index, InlineStructureDelimiters::ImgOpen(true), Ghost(n), Ghost(labels));
                    text_begin = char_iter.offset();
                    preceding_char = '[';
                } else {
                    preceding_char = c;
                }
            } else if c == '[' {
                add_text_to_stack(&mut dl_stack, text_begin, char_index, Ghost(n), Ghost(labels));
                stack_push(&mut dl_stack, char_index, InlineStructureDelimiters::LinkOpen(true), Ghost(n), Ghost(labels));
                text_begin = char_index + 1;
                preceding_char = '[';
                proof {
                    lphase = lphase + 1;
                }
            } else if c == ']' {
                add_text_to_stack(&mut dl_stack, text_begin, char_index, Ghost(n), Ghost(labels));
                let ghost st_link = dl_stack;
                proof {
                    if lr {
                        assert(lphase == 1 && p == lj);
                        if lj > 1 {
                            assert(st_link.order() == seq![0usize, 1usize]);
                            assert(inert_entry(st_link.content_of(st_link.order()[1])));
                            assert(stack_texts(st_link).drop_first() =~= seq![InlineContent::Text(1..lj as usize)]);
                        } else {
                            assert(st_link.order() =~= seq![0usize]);
                            assert(stack_texts(st_link).drop_first() =~= seq![]);
                        }
                        assert(link_opener_then_inert(st_link));
                        assert(spec_parse_inline_suffix(text@, lj + 1) matches Some((_, _, q)) && q == n) by {
                            reveal(suffix_ends_text);
                        }
                    }
                }
                text_begin = close_bracket(text, &mut dl_stack, &mut char_iter, char_index, lrd_table);
                proof {
                    if lr {
                        assert(dl_stack.content_of(dl_stack.order()[0]) matches Some(
                            InlineStructureDelimiters::CompletedContent(lc),
                        ) && bracketed_link_is(text@, lj, lc)) by {
                            reveal(bracketed_link_is);
                        }
                    }
                    lphase = lphase + 1;
                }
                // could technically be ')', but that does not matter for punctuation
                preceding_char = ']';
            } else if c == '<' {
                // eagerly try to make an autolink or html
                let (begin, made) = angle_bracket(
                    &mut dl_stack,
                    &mut char_iter,
                    text_begin,
                    char_index,
                    Ghost(n),
                    Ghost(labels),
                    Ghost(only_breaks),
                );
                text_begin = begin;
                proof {
                    if only_breaks {
                        assert(text@.subrange(text_begin as int, text_begin as int) =~= Seq::<char>::empty());
                    }
                }
                preceding_char = if made {
                    '>'
                } else {
                    '<'
                };
            } else {
                preceding_char = c;
            }
        }
    }
    let end = match first_space_offset {
        Some(f) => f,
        None => char_iter.offset(),
    };
    proof {
        assert(text@.take(n) =~= text@);
    }
    let ghost before_last = dl_stack;
    add_text_to_stack(&mut dl_stack, text_begin, end, Ghost(n), Ghost(labels));
    proof {
        if ir {
            lemma_trailing_spaces_start(text@.subrange(text_begin as int, n));
            if end > text_begin {
                lemma_stack_texts_push(before_last, dl_stack, InlineStructureDelimiters::TextualContent(text_begin..end), text_begin);
            }
            let tb = text_begin as int;
            assert(inert_scan(text@, n, tb) == (if end > tb {
                seq![InlineContent::Text(tb as usize..end)]
            } else {
                seq![]
            })) by {
                reveal_with_fuel(inert_scan, 1);
            }
            assert(stack_texts(dl_stack) =~= inert_scan(text@, 0, 0));
        }
    }
    proof {
        if only_breaks {
            lemma_trailing_spaces_start(text@.subrange(text_begin as int, n));
            if end > text_begin {
                lemma_stack_items_push(before_last, dl_stack, InlineStructureDelimiters::TextualContent(text_begin..end));
            }
            assert(stack_items(dl_stack) == stack_items(before_last) + line_text(text@, text_begin as int, n));
            lemma_segment_stop_at(text@, text_begin as int, n);
            assert(simple_inlines(text@, text_begin as int) == line_text(text@, text_begin as int, n));
            assert(stack_items(dl_stack) =~= simple_inlines(text@, 0));
        }
    }
    proof {
        if plain {
            if end > 0 {
                assert(dl_stack.order() =~= seq![0usize]);
                assert(dl_stack.content_of(dl_stack.order()[0]) == Some(InlineStructureDelimiters::TextualContent(0..end)));
                assert(no_delims(dl_stack));
            } else {
                assert(no_delims(dl_stack));
            }
        }
    }
    let ghost before_emph = dl_stack;
    let r = process_emphasis(None, &mut dl_stack, Ghost(n), Ghost(labels));
    proof {
        if only_breaks {
            assert forall|k: int| 0 <= k < r@.len() implies r@[k] == #[trigger] stack_items(before_emph)[k] by {
                assert(finished_entry(before_emph.content_of(before_emph.order()[k])));
            }
            assert(r@ =~= simple_inlines(text@, 0));
        }
        if plain && end > 0 {
            assert(Some(r@[0]) == Some(InlineContent::Text(0..end)));
        }
        if ir {
            assert(plain_above(before_emph, None));
            assert forall|k: int| 0 <= k < r@.len() implies r@[k] == #[trigger] stack_texts(before_emph)[k] by {
                assert(before_emph.content_of(before_emph.order()[k]) is Some);
            }
            assert(r@ =~= inert_scan(text@, 0, 0));
        }
        if eo {
            assert(one_pair_stack(before_emph));
            assert(before_emph.order().subrange(1, 2) =~= seq![1usize]);
            assert(span_texts(before_emph, seq![1usize]) =~= seq![InlineContent::Text(1..(n - 1) as usize)]);
        }
        if lr {
            assert(plain_above(before_emph, None));
            assert(r@[0] == stack_texts(before_emph)[0]) by {
                assert(before_emph.content_of(before_emph.order()[0]) is Some);
            }
            assert forall|j: int| bracketed_link(text@, j) implies j == lj by {
                if j < lj {
                    assert(!is_inline_special(text@[j]));
                } else if lj < j {
                    assert(!is_inline_special(text@[lj]));
                }
            }
        }
    }
    r
}

} // verus!
