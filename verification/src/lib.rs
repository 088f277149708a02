//! A CommonMark to HTML converter: the block structure of a document is built line by line,
//! then the inline content of its headings and paragraphs is parsed and everything is
//! rendered as HTML.
use vstd::prelude::*;

pub mod text;
pub mod peekable_char_indices;
pub mod char_class;
pub mod parsers;
pub mod entities;
pub mod chars;
pub mod string_normalize;
pub mod fake_dll;
pub mod ast_types;
pub mod lrd_table;
pub mod inline;
pub mod inline_str_collection;
pub mod block_structure;
pub mod line_offset_str_collection;

use crate::ast_types::{code_class, inline_text, inlines_wf, nl, AbstractSyntaxTree, Block, NodeId};
use crate::block_structure::{
    atx_heading_text, block_structure_of, create_block_structure, html_start_kind, indented_code_line,
    bullet_line, fence_info, fenced_document, lemma_atx_heading_text, spec_fence, lemma_one_line_definition, one_line, quote_line, setext_document, plain_lines, single_paragraph_line, single_plain_line, spec_atx_start, spec_definition,
    spec_split_definitions, spec_thematic_break, without_final_newline,
};
use crate::char_class::{find_char, lemma_find_char_bounds};
use crate::chars::{law_plain_text_is_escaped, spec_push_all, spec_text_to_html};
use crate::inline_str_collection::spec_trim_end;
use crate::inline::{
    line_stop, segment_stop, simple_inlines,
    inline_parse_ok, is_inline_special, lemma_trailing_spaces_start, span, spec_ic_html, spec_ics_html,
    trailing_spaces_start, InlineContent,
};
use crate::lrd_table::LRDTable;
use crate::text::{spec_decimal, str_to_chars};

verus! {

/// Text without inline markup, character references or line feeds.
pub open spec fn plain_text(t: Seq<char>) -> bool {
    forall|i: int| 0 <= i < t.len() ==> !is_inline_special(#[trigger] t[i]) && t[i] != '&'
}

/// A document of one line of plain text: it starts as a paragraph does and holds no inline
/// markup, no character reference and no line feed.
pub open spec fn plain_document(md: Seq<char>) -> bool {
    &&& single_plain_line(md)
    &&& plain_text(md)
}

/// The HTML of a tree whose document holds one leaf block is that block's HTML.
proof fn lemma_one_block_html(
    ast: AbstractSyntaxTree<Vec<char>>,
    lrd: LRDTable,
    ils: Seq<Seq<InlineContent>>,
)
    requires
        ast.wf(),
        ast.size() == 2,
        ast.children_of(0) == seq![NodeId(1)],
        ast.children_of(1).len() == 0,
    ensures
        ast.spec_node_html(0, false, ils, lrd, seq![]) == ast.spec_node_html(1, false, ils, lrd, seq![]),
{
    assert(ast.node_wf(0));
    assert(ast.block_of(0) is Document);
    let x = ast.spec_node_html(1, false, ils, lrd, seq![]);
    assert(ast.spec_children_html(0, 1, false, ils, lrd, x) == x);
}

/// Plain text parses to itself without its trailing spaces, and renders escaped.
proof fn lemma_plain_inline_html(t: Seq<char>, ics: Seq<InlineContent>, lrd: LRDTable)
    requires
        plain_text(t),
        inline_parse_ok(t, ics, lrd.labels()),
    ensures
        spec_ics_html(ics, t, lrd) == spec_push_all(t.take(trailing_spaces_start(t)), false),
{
    let k = trailing_spaces_start(t);
    lemma_trailing_spaces_start(t);
    if k > 0 {
        let ic = ics[0];
        assert(ics =~= seq![ic]);
        assert(seq![ic].drop_last() =~= Seq::<InlineContent>::empty());
        let rg = match ic {
            InlineContent::Text(rg) => rg,
            _ => 0..0,
        };
        assert(span(t, rg) =~= t.take(k));
        law_plain_text_is_escaped(t.take(k));
        assert(spec_ic_html(ic, t, lrd) == spec_text_to_html(span(t, rg), 0, false));
        assert(spec_ics_html(ics, t, lrd) == spec_ics_html(ics.drop_last(), t, lrd) + spec_ic_html(ics.last(), t, lrd));
        assert(ics.drop_last() =~= Seq::<InlineContent>::empty());
        assert(spec_ics_html(Seq::<InlineContent>::empty(), t, lrd) == Seq::<char>::empty());
        assert(spec_ics_html(ics, t, lrd) =~= spec_push_all(t.take(k), false));
    } else {
        assert(ics.len() == 0);
        assert(t.take(k) =~= Seq::<char>::empty());
        assert(spec_push_all(Seq::<char>::empty(), false) =~= Seq::<char>::empty()) by {
            law_plain_text_is_escaped(Seq::<char>::empty());
        }
    }
}

/// The HTML of lines of plain text from `from` on: each line escaped without its trailing
/// spaces, then, before the next line, `<br />` and a line feed after two or more trailing
/// spaces, or a line feed.
pub open spec fn lines_html(t: Seq<char>, from: int) -> Seq<char>
    decreases t.len() - from,
{
    if from < 0 || from > t.len() {
        seq![]
    } else {
        let e = line_stop(t, from);
        let ts = from + trailing_spaces_start(t.subrange(from, e));
        let text = spec_push_all(t.subrange(from, ts), false);
        if from <= e < t.len() {
            text + (if e - ts >= 2 {
                "<br />\n"@
            } else {
                seq!['\n']
            }) + lines_html(t, e + 1)
        } else {
            text
        }
    }
}

proof fn lemma_ics_html_append(a: Seq<InlineContent>, b: Seq<InlineContent>, t: Seq<char>, lrd: LRDTable)
    ensures
        spec_ics_html(a + b, t, lrd) == spec_ics_html(a, t, lrd) + spec_ics_html(b, t, lrd),
    decreases b.len(),
{
    if b.len() == 0 {
        assert(a + b =~= a);
    } else {
        lemma_ics_html_append(a, b.drop_last(), t, lrd);
        assert((a + b).drop_last() =~= a + b.drop_last());
        assert((a + b).last() == b.last());
    }
}

proof fn lemma_segment_is_line(t: Seq<char>, from: int)
    requires
        0 <= from <= t.len(),
        forall|k: int| 0 <= k < t.len() ==> #[trigger] t[k] != '`' && t[k] != '\\' && t[k] != '<',
    ensures
        segment_stop(t, from) == line_stop(t, from),
    decreases t.len() - from,
{
    if from < t.len() && t[from] != '\n' {
        lemma_segment_is_line(t, from + 1);
    }
}

/// Lines of plain text render as `lines_html` says.
proof fn lemma_lines_html(t: Seq<char>, from: int, lrd: LRDTable)
    requires
        0 <= from,
        t.len() <= usize::MAX,
        forall|k: int| 0 <= k < t.len() ==> #[trigger] t[k] != '&' && t[k] != '\\' && t[k] != '`' && t[k] != '<',
    ensures
        spec_ics_html(simple_inlines(t, from), t, lrd) == lines_html(t, from),
    decreases t.len() - from,
{
    if from <= t.len() {
        crate::inline::lemma_line_stop(t, from);
        lemma_segment_is_line(t, from);
        let e = line_stop(t, from);
        let sub = t.subrange(from, e);
        lemma_trailing_spaces_start(sub);
        let ts = from + trailing_spaces_start(sub);
        let lt = crate::inline::line_text(t, from, e);
        assert(spec_ics_html(lt, t, lrd) == spec_push_all(t.subrange(from, ts), false)) by {
            assert(spec_ics_html(Seq::<InlineContent>::empty(), t, lrd) == Seq::<char>::empty());
            if ts > from {
                let ic = InlineContent::Text((from as usize)..(ts as usize));
                assert(lt == seq![ic]);
                assert(seq![ic].drop_last() =~= Seq::<InlineContent>::empty());
                assert(spec_ics_html(seq![ic], t, lrd) == spec_ics_html(seq![ic].drop_last(), t, lrd) + spec_ic_html(
                    ic,
                    t,
                    lrd,
                ));
                assert(span(t, (from as usize)..(ts as usize)) =~= t.subrange(from, ts));
                law_plain_text_is_escaped(t.subrange(from, ts));
                assert(Seq::<char>::empty() + spec_push_all(t.subrange(from, ts), false) =~= spec_push_all(
                    t.subrange(from, ts),
                    false,
                ));
            } else {
                assert(t.subrange(from, ts) =~= Seq::<char>::empty());
                law_plain_text_is_escaped(Seq::<char>::empty());
                assert(spec_text_to_html(Seq::<char>::empty(), 0, false) =~= Seq::<char>::empty());
            }
        }
        if from <= e < t.len() {
            let br = crate::inline::line_break(t, from, e);
            lemma_lines_html(t, e + 1, lrd);
            lemma_ics_html_append(lt, seq![br], t, lrd);
            lemma_ics_html_append(lt + seq![br], simple_inlines(t, e + 1), t, lrd);
            assert(seq![br].drop_last() =~= Seq::<InlineContent>::empty());
            assert(spec_ics_html(seq![br], t, lrd) == spec_ics_html(seq![br].drop_last(), t, lrd) + spec_ic_html(
                br,
                t,
                lrd,
            ));
            assert(spec_ics_html(Seq::<InlineContent>::empty(), t, lrd) == Seq::<char>::empty());
            assert(spec_ics_html(seq![br], t, lrd) =~= spec_ic_html(br, t, lrd));
        }
    }
}

/// A document of lines of plain text: lines that start as a paragraph does (the first not with
/// `[`), with no inline markup but their line feeds and no character reference.
pub open spec fn plain_lines_document(md: Seq<char>) -> bool {
    &&& plain_lines(md)
    &&& md[0] != '['
    &&& forall|i: int| 0 <= i < md.len() ==> (#[trigger] md[i] == '\n' || !is_inline_special(md[i])) && md[i] != '&'
}

/// The HTML of a document of a line and a setext underline: a heading of level 1 for `=` and 2
/// for `-`, of the line without its trailing spaces and tabs, escaped.
pub open spec fn setext_html(md: Seq<char>) -> Seq<char> {
    let j = find_char(md, 0, '\n').unwrap();
    let level: nat = if md[j + 1] == '=' {
        1
    } else {
        2
    };
    "<h"@ + spec_decimal(level) + ">"@ + spec_push_all(spec_trim_end(md.take(j)), false) + "</h"@ + spec_decimal(
        level,
    ) + ">\n"@
}

/// The text of a one-line block quote or list item: what follows its marker and space.
pub open spec fn after_marker(md: Seq<char>) -> Seq<char> {
    md.subrange(2, md.len() as int)
}

/// The HTML of a one-line bullet list item of plain text: a tight list whose item holds the
/// text, escaped and without its trailing spaces.
pub open spec fn bullet_html(md: Seq<char>) -> Seq<char> {
    let v = after_marker(md);
    "<ul>\n"@ + "<li>"@ + spec_push_all(v.take(trailing_spaces_start(v)), false) + "</li>\n"@ + "</ul>\n"@
}

/// The HTML of a one-line block quote of plain text: the quote around a paragraph of the text,
/// escaped and without its trailing spaces.
pub open spec fn quote_html(md: Seq<char>) -> Seq<char> {
    let v = after_marker(md);
    "<blockquote>\n"@ + "<p>"@ + spec_push_all(v.take(trailing_spaces_start(v)), false) + "</p>\n"@
        + "</blockquote>\n"@
}

/// The HTML of a fenced document whose closing fence line starts at `s`: the code between the
/// fence lines, escaped, in `pre` and `code`, with the info string's language as a class.
pub open spec fn fenced_html(md: Seq<char>, s: int) -> Seq<char> {
    let j = find_char(md, 0, '\n').unwrap();
    let first = md.take(j);
    let k = spec_fence(first, 0).unwrap().1;
    "<pre><code"@ + code_class(fence_info(first, k)) + ">"@ + spec_push_all(md.subrange(j + 1, s), false)
        + "</code></pre>\n"@
}

/// The first line of a document of a line and a setext underline.
pub open spec fn setext_text(md: Seq<char>) -> Seq<char> {
    md.take(find_char(md, 0, '\n').unwrap())
}

/// Dropping trailing spaces and tabs keeps a prefix that does not end with either.
proof fn lemma_trim_end(s: Seq<char>)
    ensures
        spec_trim_end(s).len() <= s.len(),
        spec_trim_end(s) == s.take(spec_trim_end(s).len() as int),
        spec_trim_end(s).len() == 0 || (spec_trim_end(s).last() != ' ' && spec_trim_end(s).last() != '\t'),
    decreases s.len(),
{
    if s.len() > 0 && (s.last() == ' ' || s.last() == '\t') {
        lemma_trim_end(s.drop_last());
        let k = spec_trim_end(s).len() as int;
        assert(s.drop_last().take(k) =~= s.take(k));
    } else {
        assert(s.take(s.len() as int) =~= s);
    }
}

/// What `markdown_to_html` gives for the tree and definitions built from `md`.
pub open spec fn rendered(md: Seq<char>, out: Seq<char>) -> bool {
    exists|t: AbstractSyntaxTree<Vec<char>>, lrd: LRDTable, ils: Seq<Seq<InlineContent>>|
        #[trigger] inlines_wf(t, ils, lrd) && block_structure_of(md, t, lrd) && out == t.spec_node_html(
            0,
            false,
            ils,
            lrd,
            seq![],
        )
}

proof fn lemma_rendered_cases(md: Seq<char>, out: Seq<char>)
    requires
        rendered(md, out),
    ensures
        md.len() == 0 ==> out.len() == 0,
        plain_document(md) ==> out == "<p>"@ + spec_push_all(md.take(trailing_spaces_start(md)), false) + "</p>\n"@,
        single_paragraph_line(md) && spec_definition(md) is Some ==> out.len() == 0,
        one_line(md) && spec_thematic_break(md, 0) ==> out == "<hr />\n"@,
        one_line(md) ==> match spec_atx_start(md, 0) {
            Some(k) => plain_text(atx_heading_text(md, 0, k)) ==> out == "<h"@ + spec_decimal(k as nat) + ">"@
                + spec_push_all(atx_heading_text(md, 0, k), false) + "</h"@ + spec_decimal(k as nat) + ">\n"@,
            None => true,
        },
        plain_lines_document(md) && md.len() + 2 < usize::MAX ==> out == "<p>"@ + lines_html(
            without_final_newline(md),
            0,
        ) + "</p>\n"@,
        one_line(md) && indented_code_line(md, 0) ==> out == "<pre><code>"@ + spec_push_all(
            md.subrange(4, md.len() as int) + seq!['\n'],
            false,
        ) + "</code></pre>\n"@,
        one_line(md) && md[0] == '<' && html_start_kind(md, 0, false) is Some ==> out == md + "\n"@,
        setext_document(md) && plain_text(setext_text(md)) ==> out == setext_html(md),
        one_line(md) && quote_line(md, 0) && plain_text(after_marker(md)) ==> out == quote_html(md),
        one_line(md) && bullet_line(md, 0) && plain_text(after_marker(md)) ==> out == bullet_html(md),
        forall|s: int| #[trigger] fenced_document(md, s) ==> out == fenced_html(md, s),
{
    let (t, lrd, ils) = choose|t: AbstractSyntaxTree<Vec<char>>, lrd: LRDTable, ils: Seq<Seq<InlineContent>>|
        #[trigger] inlines_wf(t, ils, lrd) && block_structure_of(md, t, lrd) && out == t.spec_node_html(
            0,
            false,
            ils,
            lrd,
            seq![],
        );
    assert(t.node_wf(0));
    assert(nl(seq![]) =~= Seq::<char>::empty());
    if md.len() == 0 {
        assert(t.children_of(0).len() == 0) by {
            if t.children_of(0).len() > 0 {
                let c = t.children_of(0)[0];
                assert(0 < c.0 < t.size());
            }
        }
        assert(out == t.spec_children_html(0, 0, false, ils, lrd, seq![]));
    }
    if plain_document(md) {
        lemma_one_block_html(t, lrd, ils);
        assert(inline_parse_ok(inline_text(t.block_of(1)), ils[1], lrd.labels()));
        lemma_plain_inline_html(md, ils[1], lrd);
        lemma_trailing_spaces_start(md);
    }
    if single_paragraph_line(md) && spec_definition(md) is Some {
        lemma_one_line_definition(md);
        lemma_one_block_html(t, lrd, ils);
        assert(inline_parse_ok(inline_text(t.block_of(1)), ils[1], lrd.labels()));
        assert(inline_text(t.block_of(1)).len() == 0);
        assert(ils[1].len() == 0);
        assert(spec_ics_html(ils[1], seq![], lrd) == Seq::<char>::empty());
    }
    if one_line(md) && spec_thematic_break(md, 0) {
        lemma_one_block_html(t, lrd, ils);
    }
    if one_line(md) && indented_code_line(md, 0) {
        lemma_one_block_html(t, lrd, ils);
    }
    if one_line(md) && md[0] == '<' && html_start_kind(md, 0, false) is Some {
        lemma_one_block_html(t, lrd, ils);
    }
    if one_line(md) && quote_line(md, 0) && plain_text(after_marker(md)) {
        let v = after_marker(md);
        reveal_strlit("<blockquote>\n");
        assert(t.node_wf(0));
        assert(t.node_wf(1));
        let open = nl(seq![]) + "<blockquote>\n"@;
        assert(nl(open) == open);
        let inner = t.spec_node_html(2, false, ils, lrd, open);
        assert(t.spec_children_html(1, 1, false, ils, lrd, inner) == inner);
        let x = t.spec_node_html(1, false, ils, lrd, seq![]);
        assert(x == inner + "</blockquote>\n"@);
        assert(t.spec_children_html(0, 1, false, ils, lrd, x) == x);
        assert(inline_parse_ok(inline_text(t.block_of(2)), ils[2], lrd.labels()));
        lemma_plain_inline_html(v, ils[2], lrd);
        lemma_trailing_spaces_start(v);
    }
    if one_line(md) && bullet_line(md, 0) && plain_text(after_marker(md)) {
        let v = after_marker(md);
        reveal_strlit("<ul>\n");
        assert(t.node_wf(0));
        assert(t.node_wf(1));
        assert(t.node_wf(2));
        let open = nl(seq![]) + "<ul>\n"@;
        let acc2 = open + "<li>"@;
        let par = t.spec_node_html(3, true, ils, lrd, acc2);
        assert(t.spec_children_html(2, 1, true, ils, lrd, par) == par);
        let item = t.spec_node_html(2, true, ils, lrd, open);
        assert(item == par + "</li>\n"@);
        assert(t.spec_children_html(1, 1, true, ils, lrd, item) == item);
        let x = t.spec_node_html(1, false, ils, lrd, seq![]);
        assert(x == item + "</ul>\n"@);
        assert(t.spec_children_html(0, 1, false, ils, lrd, x) == x);
        assert(inline_parse_ok(inline_text(t.block_of(3)), ils[3], lrd.labels()));
        lemma_plain_inline_html(v, ils[3], lrd);
        lemma_trailing_spaces_start(v);
    }
    assert forall|s: int| #[trigger] fenced_document(md, s) implies out == fenced_html(md, s) by {
        lemma_one_block_html(t, lrd, ils);
    }
    if setext_document(md) && plain_text(setext_text(md)) {
        let j = find_char(md, 0, '\n').unwrap();
        let u = without_final_newline(md.skip(j + 1));
        lemma_find_char_bounds(md, 0, '\n');
        assert(md.skip(j + 1)[0] == md[j + 1]);
        assert(u[0] == md.skip(j + 1)[0]);
        lemma_one_block_html(t, lrd, ils);
        let c = spec_trim_end(md.take(j));
        lemma_trim_end(md.take(j));
        assert(forall|i: int| 0 <= i < c.len() ==> #[trigger] c[i] == md.take(j)[i]);
        assert(plain_text(c));
        assert(inline_parse_ok(inline_text(t.block_of(1)), ils[1], lrd.labels()));
        lemma_plain_inline_html(c, ils[1], lrd);
        assert(trailing_spaces_start(c) == c.len());
        assert(c.take(c.len() as int) =~= c);
    }
    if plain_lines_document(md) && md.len() + 2 < usize::MAX {
        let body = without_final_newline(md);
        assert(body.len() > 0 && body[0] == md[0]);
        assert(spec_definition(body) is None);
        assert(spec_split_definitions(body).1 == body);
        lemma_one_block_html(t, lrd, ils);
        assert(inline_parse_ok(inline_text(t.block_of(1)), ils[1], lrd.labels()));
        assert(inline_text(t.block_of(1)) == body);
        assert(forall|i: int| 0 <= i < body.len() ==> #[trigger] body[i] == md[i]);
        assert(crate::inline::simple_markup_only(body));
        lemma_lines_html(body, 0, lrd);
    }
    if one_line(md) {
        if let Some(k) = spec_atx_start(md, 0) {
            let c = atx_heading_text(md, 0, k);
            if plain_text(c) {
                lemma_one_block_html(t, lrd, ils);
                lemma_atx_heading_text(md, 0, k);
                assert(inline_parse_ok(inline_text(t.block_of(1)), ils[1], lrd.labels()));
                lemma_plain_inline_html(c, ils[1], lrd);
                assert(trailing_spaces_start(c) == c.len());
                assert(c.take(c.len() as int) =~= c);
            }
        }
    }
}

/// Converts a CommonMark document to HTML: the output is the HTML of the document's block
/// structure, with the inline content of each heading and paragraph parsed against the link
/// reference definitions the document holds.
pub fn markdown_to_html(markdown: &str) -> (r: String)
    requires
        8 * markdown@.len() + 64 <= usize::MAX,
    ensures
        rendered(markdown@, r@),
        markdown@.len() == 0 ==> r@.len() == 0,
        plain_document(markdown@) ==> r@ == "<p>"@ + spec_push_all(
            markdown@.take(trailing_spaces_start(markdown@)),
            false,
        ) + "</p>\n"@,
        single_paragraph_line(markdown@) && spec_definition(markdown@) is Some ==> r@.len() == 0,
        one_line(markdown@) && spec_thematic_break(markdown@, 0) ==> r@ == "<hr />\n"@,
        one_line(markdown@) ==> match spec_atx_start(markdown@, 0) {
            Some(k) => plain_text(atx_heading_text(markdown@, 0, k)) ==> r@ == "<h"@ + spec_decimal(k as nat) + ">"@
                + spec_push_all(atx_heading_text(markdown@, 0, k), false) + "</h"@ + spec_decimal(k as nat)
                + ">\n"@,
            None => true,
        },
        plain_lines_document(markdown@) ==> r@ == "<p>"@ + lines_html(without_final_newline(markdown@), 0)
            + "</p>\n"@,
        one_line(markdown@) && indented_code_line(markdown@, 0) ==> r@ == "<pre><code>"@ + spec_push_all(
            markdown@.subrange(4, markdown@.len() as int) + seq!['\n'],
            false,
        ) + "</code></pre>\n"@,
        one_line(markdown@) && markdown@[0] == '<' && html_start_kind(markdown@, 0, false) is Some ==> r@ == markdown@
            + "\n"@,
        setext_document(markdown@) && plain_text(setext_text(markdown@)) ==> r@ == setext_html(markdown@),
        one_line(markdown@) && quote_line(markdown@, 0) && plain_text(after_marker(markdown@)) ==> r@ == quote_html(
            markdown@,
        ),
        one_line(markdown@) && bullet_line(markdown@, 0) && plain_text(after_marker(markdown@)) ==> r@ == bullet_html(
            markdown@,
        ),
        forall|s: int| #[trigger] fenced_document(markdown@, s) ==> r@ == fenced_html(markdown@, s),
{
    let chars = str_to_chars(markdown);
    let (ast, lrd_table) = create_block_structure(chars.as_slice());
    let out = ast.to_html(&lrd_table);
    proof {
        lemma_rendered_cases(markdown@, out@);
    }
    out
}

} // verus!
