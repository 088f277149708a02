use vstd::prelude::*;
use crate::chars::{push_chars_with_entities_and_bs, push_html_reserved_char, spec_push_all, spec_text_to_html};
use crate::inline::{inline_parse_ok, parse_inline, push_all_html, spec_ics_html, InlineContent};
use crate::lrd_table::LRDTable;
use crate::peekable_char_indices::BorrowedStringPCI;
use crate::text::{ends_with_char, push_char, push_decimal, spec_decimal};

verus! {

/// The handle of a node of an `AbstractSyntaxTree`: its index in the arena.
#[derive(Debug, Copy, Clone, PartialEq, Eq, Structural)]
pub struct NodeId(pub usize);

#[derive(Debug, Copy, Clone, PartialEq, Eq, Structural)]
pub enum ListType {
    OrderedList(char, u32),
    UnorderedList(char),
}

impl ListType {
    /// Whether a list item of `other`'s kind may continue a list of `self`'s kind: same kind
    /// and same bullet or delimiter character.
    pub open spec fn spec_same_list_eq(&self, other: &Self) -> bool {
        match (*self, *other) {
            (ListType::OrderedList(d, _), ListType::OrderedList(c, _)) => c == d,
            (ListType::UnorderedList(d), ListType::UnorderedList(c)) => c == d,
            _ => false,
        }
    }

    pub fn same_list_eq(&self, other: &Self) -> (r: bool)
        ensures
            r == self.spec_same_list_eq(other),
    {
        match other {
            ListType::OrderedList(c, _) => match self {
                ListType::OrderedList(d, _) => *c == *d,
                _ => false,
            },
            ListType::UnorderedList(c) => match self {
                ListType::UnorderedList(d) => *c == *d,
                _ => false,
            },
        }
    }
}

/// Continuing a list is an equivalence: reflexive, symmetric and transitive.
pub proof fn law_same_list_eq_is_equivalence(a: ListType, b: ListType, c: ListType)
    ensures
        a.spec_same_list_eq(&a),
        a.spec_same_list_eq(&b) == b.spec_same_list_eq(&a),
        a.spec_same_list_eq(&b) && b.spec_same_list_eq(&c) ==> a.spec_same_list_eq(&c),
{
}

#[derive(Debug, Clone)]
pub enum HTMLEndCondition {
    ContainsStrings(Vec<&'static str>),
    BlankLine,
}

#[derive(Debug)]
pub enum Block<T> {
    Document,
    BlockQuote(bool),
    /// (tight, lt,)
    List(bool, ListType),
    /// (continuable, indent requirement)
    ListItem(bool, usize),
    Heading(T, usize),
    Paragraph(T, bool),
    ThematicBreak,
    /// actualy chars, unrealized blanks
    IndentedCodeBlock(T, T),
    /// (contents, is_open, marking char, info_string, indend_count, tilde_count)
    FencedCodeBlock(T, bool, char, T, usize, usize),
    /// (characters,is_open, end_condition, )
    HTMLBlock(T, bool, HTMLEndCondition),
}

/// Blocks that hold other blocks.
pub open spec fn is_container<T>(b: Block<T>) -> bool {
    match b {
        Block::Document | Block::BlockQuote(..) | Block::List(..) | Block::ListItem(..) => true,
        _ => false,
    }
}

#[derive(Debug)]
pub struct Node<T> {
    pub block: Block<T>,
    pub block_kind: Option<Vec<NodeId>>,
    pub depth: usize,
    pub parent_id: Option<NodeId>,
}

/// A tree of blocks kept in an arena; node 0 is the document.
#[derive(Debug)]
pub struct AbstractSyntaxTree<T> {
    pub nodes: Vec<Node<T>>,
    pub head: NodeId,
}

impl<T> AbstractSyntaxTree<T> {
    pub open spec fn size(&self) -> nat {
        self.nodes@.len()
    }

    pub open spec fn block_of(&self, i: int) -> Block<T> {
        self.nodes@[i].block
    }

    pub open spec fn parent_of(&self, i: int) -> Option<NodeId> {
        self.nodes@[i].parent_id
    }

    pub open spec fn depth_of(&self, i: int) -> usize {
        self.nodes@[i].depth
    }

    /// The children of node `i`, first to last (empty for a leaf).
    pub open spec fn children_of(&self, i: int) -> Seq<NodeId> {
        match self.nodes@[i].block_kind {
            Some(v) => v@,
            None => Seq::empty(),
        }
    }

    /// Node `i` fits in the tree: a container has a child list, a leaf none; each child comes
    /// after it and names it as parent, children are in increasing order, and every node but
    /// the document has a parent that lists it, one level up.
    pub open spec fn node_wf(&self, i: int) -> bool {
        let n = self.nodes@[i];
        &&& (n.block_kind is Some) == is_container(n.block)
        &&& (i == 0) == (n.block is Document)
        &&& forall|k: int|
            0 <= k < self.children_of(i).len() ==> {
                let c = (#[trigger] self.children_of(i)[k]).0 as int;
                &&& i < c < self.nodes@.len()
                &&& self.nodes@[c].parent_id == Some(NodeId(i as usize))
            }
        &&& forall|k1: int, k2: int|
            0 <= k1 < k2 < self.children_of(i).len() ==> (#[trigger] self.children_of(i)[k1]).0
                < (#[trigger] self.children_of(i)[k2]).0
        &&& i == 0 ==> n.parent_id is None && n.depth == 0
        &&& i > 0 ==> match n.parent_id {
            Some(p) => {
                &&& p.0 < i
                &&& self.nodes@[p.0 as int].block_kind is Some
                &&& self.children_of(p.0 as int).contains(NodeId(i as usize))
                &&& n.depth == self.nodes@[p.0 as int].depth + 1
            },
            None => false,
        }
        &&& n.depth <= i
    }

    pub open spec fn wf(&self) -> bool {
        &&& self.head == NodeId(0)
        &&& self.nodes@.len() > 0
        &&& self.nodes@.len() < usize::MAX
        &&& forall|i: int| 0 <= i < self.nodes@.len() ==> #[trigger] self.node_wf(i)
    }

    pub fn new() -> (r: Self)
        ensures
            r.wf(),
            r.size() == 1,
            r.block_of(0) is Document,
            r.children_of(0).len() == 0,
    {
        let mut nodes: Vec<Node<T>> = Vec::new();
        nodes.push(Node { block: Block::Document, block_kind: Some(Vec::new()), depth: 0, parent_id: None });
        let r = AbstractSyntaxTree { nodes, head: NodeId(0) };
        assert(r.node_wf(0));
        r
    }

    pub fn default() -> (r: Self)
        ensures
            r.wf(),
            r.size() == 1,
            r.block_of(0) is Document,
            r.children_of(0).len() == 0,
    {
        Self::new()
    }

    pub fn add_new_node(&mut self, parent: NodeId, block: Block<T>) -> (child_id: NodeId)
        requires
            old(self).wf(),
            parent.0 < old(self).size(),
            is_container(old(self).block_of(parent.0 as int)),
            !(block is Document),
            old(self).size() + 1 < usize::MAX,
        ensures
            final(self).wf(),
            child_id.0 == old(self).size(),
            final(self).size() == old(self).size() + 1,
            final(self).block_of(child_id.0 as int) == block,
            final(self).parent_of(child_id.0 as int) == Some(parent),
            final(self).depth_of(child_id.0 as int) == old(self).depth_of(parent.0 as int) + 1,
            final(self).children_of(child_id.0 as int) == Seq::<NodeId>::empty(),
            final(self).children_of(parent.0 as int) == old(self).children_of(parent.0 as int).push(child_id),
            forall|i: int| 0 <= i < old(self).size() ==> #[trigger] final(self).block_of(i) == old(self).block_of(i)
                && final(self).parent_of(i) == old(self).parent_of(i) && final(self).depth_of(i) == old(self).depth_of(i),
            forall|i: int| 0 <= i < old(self).size() && i != parent.0 ==> #[trigger] final(self).children_of(i)
                == old(self).children_of(i),
    {
        let parent_depth = self.nodes[parent.0].depth;
        let block_kind = match block {
            Block::BlockQuote(..) | Block::List(..) | Block::ListItem(..) => Some(Vec::new()),
            _ => None,
        };
        let child_id = NodeId(self.nodes.len());
        proof {
            assert(self.node_wf(parent.0 as int));
        }
        self.nodes.push(Node { block, block_kind, depth: parent_depth + 1, parent_id: Some(parent) });
        match &mut self.nodes[parent.0].block_kind {
            Some(children) => {
                children.push(child_id);
            },
            None => {},
        }
        proof {
            let old_nodes = old(self).nodes@;
            assert forall|i: int| 0 <= i < self.nodes@.len() implies #[trigger] self.node_wf(i) by {
                assert(old(self).node_wf(parent.0 as int));
                if i < old_nodes.len() {
                    assert(old(self).node_wf(i));
                    if i == parent.0 {
                        assert(self.children_of(i) =~= old(self).children_of(i).push(child_id));
                    } else {
                        assert(self.children_of(i) =~= old(self).children_of(i));
                    }
                    if i > 0 {
                        let p = old_nodes[i].parent_id.unwrap();
                        if p.0 == parent.0 {
                            assert(self.children_of(p.0 as int) =~= old(self).children_of(p.0 as int).push(child_id));
                            assert(old(self).children_of(p.0 as int).contains(NodeId(i as usize)));
                            let w = choose|w: int| 0 <= w < old(self).children_of(p.0 as int).len() && old(self).children_of(p.0 as int)[w] == NodeId(i as usize);
                            assert(self.children_of(p.0 as int)[w] == NodeId(i as usize));
                        } else {
                            assert(self.children_of(p.0 as int) =~= old(self).children_of(p.0 as int));
                        }
                    }
                } else {
                    assert(i == child_id.0);
                    assert(self.children_of(i) =~= Seq::<NodeId>::empty());
                    let cs = self.children_of(parent.0 as int);
                    assert(cs[cs.len() - 1] == child_id);
                }
            }
        }
        child_id
    }

    pub fn get_last_child_id(&self, parent: NodeId) -> (r: Option<NodeId>)
        requires
            parent.0 < self.size(),
        ensures
            self.children_of(parent.0 as int).len() == 0 ==> r is None,
            self.children_of(parent.0 as int).len() > 0 ==> r == Some(self.children_of(parent.0 as int).last()),
    {
        match &self.nodes[parent.0].block_kind {
            Some(children) => {
                if children.len() == 0 {
                    None
                } else {
                    Some(children[children.len() - 1])
                }
            },
            None => None,
        }
    }

    /// Access to a node's block for changes that keep its kind (container or leaf).
    pub fn get_block(&mut self, node_id: NodeId) -> (r: &mut Block<T>)
        requires
            old(self).wf(),
            node_id.0 < old(self).size(),
        ensures
            *r == old(self).block_of(node_id.0 as int),
            final(self).size() == old(self).size(),
            final(self).block_of(node_id.0 as int) == *final(r),
            forall|i: int| 0 <= i < old(self).size() && i != node_id.0 ==> #[trigger] final(self).nodes@[i]
                == old(self).nodes@[i],
            final(self).nodes@[node_id.0 as int].block_kind == old(self).nodes@[node_id.0 as int].block_kind,
            final(self).nodes@[node_id.0 as int].depth == old(self).nodes@[node_id.0 as int].depth,
            final(self).nodes@[node_id.0 as int].parent_id == old(self).nodes@[node_id.0 as int].parent_id,
            final(self).head == old(self).head,
    {
        &mut self.nodes[node_id.0].block
    }

    /// Changing a node's block for one of the same kind keeps the tree well formed.
    pub proof fn lemma_same_kind_keeps_wf(&self, before: &Self, node_id: int)
        requires
            before.wf(),
            0 <= node_id < before.size(),
            self.size() == before.size(),
            self.head == before.head,
            forall|i: int| 0 <= i < before.size() && i != node_id ==> #[trigger] self.nodes@[i] == before.nodes@[i],
            self.nodes@[node_id].block_kind == before.nodes@[node_id].block_kind,
            self.nodes@[node_id].depth == before.nodes@[node_id].depth,
            self.nodes@[node_id].parent_id == before.nodes@[node_id].parent_id,
            is_container(self.block_of(node_id)) == is_container(before.block_of(node_id)),
            (self.block_of(node_id) is Document) == (before.block_of(node_id) is Document),
        ensures
            self.wf(),
    {
        assert forall|i: int| 0 <= i < self.nodes@.len() implies #[trigger] self.node_wf(i) by {
            assert(before.node_wf(i));
            assert(self.children_of(i) =~= before.children_of(i));
            if i > 0 {
                let p = before.nodes@[i].parent_id.unwrap();
                assert(self.children_of(p.0 as int) =~= before.children_of(p.0 as int));
            }
        }
    }

    pub fn get_block_ref(&self, node_id: NodeId) -> (r: &Block<T>)
        requires
            node_id.0 < self.size(),
        ensures
            *r == self.block_of(node_id.0 as int),
    {
        &self.nodes[node_id.0].block
    }

    /// Puts `new_block` in place of node `node_id`'s block; a container starts with no children
    /// (any it had are no longer reached). The tree stays well formed when a leaf other than the
    /// document is replaced.
    pub fn replace_block(&mut self, node_id: NodeId, new_block: Block<T>)
        requires
            node_id.0 < old(self).size(),
            !(new_block is Document),
        ensures
            old(self).wf() && 0 < node_id.0 && old(self).children_of(node_id.0 as int).len() == 0 ==> final(self).wf(),
            final(self).head == old(self).head,
            final(self).size() == old(self).size(),
            final(self).block_of(node_id.0 as int) == new_block,
            final(self).children_of(node_id.0 as int).len() == 0,
            forall|i: int| 0 <= i < old(self).size() && i != node_id.0 ==> #[trigger] final(self).nodes@[i]
                == old(self).nodes@[i],
            final(self).parent_of(node_id.0 as int) == old(self).parent_of(node_id.0 as int),
            final(self).depth_of(node_id.0 as int) == old(self).depth_of(node_id.0 as int),
    {
        let kind = match new_block {
            Block::BlockQuote(..) | Block::List(..) | Block::ListItem(..) => Some(Vec::new()),
            _ => None,
        };
        self.nodes[node_id.0].block_kind = kind;
        self.nodes[node_id.0].block = new_block;
        proof {
            assert(self.children_of(node_id.0 as int) =~= Seq::<NodeId>::empty());
        }
        proof {
            if old(self).wf() && 0 < node_id.0 && old(self).children_of(node_id.0 as int).len() == 0 {
            assert forall|i: int| 0 <= i < self.nodes@.len() implies #[trigger] self.node_wf(i) by {
                assert(old(self).node_wf(i));
                assert(self.children_of(node_id.0 as int) =~= Seq::<NodeId>::empty());
                assert(self.children_of(i) =~= old(self).children_of(i));
                if i > 0 {
                    let p = old(self).nodes@[i].parent_id.unwrap();
                    assert(old(self).node_wf(p.0 as int));
                    assert(self.children_of(p.0 as int) =~= old(self).children_of(p.0 as int));
                }
            }
            }
        }
    }

    pub fn get_block_depth(&self, node_id: NodeId) -> (r: usize)
        requires
            node_id.0 < self.size(),
        ensures
            r == self.depth_of(node_id.0 as int),
    {
        self.nodes[node_id.0].depth
    }

    pub fn get_head_id(&self) -> (r: NodeId)
        ensures
            r == self.head,
    {
        self.head
    }

    pub fn get_parent_id(&self, node_id: NodeId) -> (r: Option<NodeId>)
        requires
            node_id.0 < self.size(),
        ensures
            r == self.parent_of(node_id.0 as int),
    {
        self.nodes[node_id.0].parent_id
    }

    pub fn has_no_children(&self, node_id: NodeId) -> (r: bool)
        requires
            node_id.0 < self.size(),
        ensures
            r == (self.children_of(node_id.0 as int).len() == 0),
    {
        match &self.nodes[node_id.0].block_kind {
            None => true,
            Some(node_ids) => node_ids.len() == 0,
        }
    }
}

/// Rendering a node only appends to the HTML that comes before it.
pub proof fn law_node_html_appends(
    t: AbstractSyntaxTree<Vec<char>>,
    i: int,
    tight: bool,
    ils: Seq<Seq<InlineContent>>,
    lrd: LRDTable,
    acc: Seq<char>,
)
    ensures
        acc.is_prefix_of(t.spec_node_html(i, tight, ils, lrd, acc)),
    decreases t.size() - i, t.children_of(i).len() + 1,
{
    if 0 <= i < t.size() {
        let ics = spec_ics_html(ils[i], inline_text(t.block_of(i)), lrd);
        assert(acc.is_prefix_of(nl(acc)));
        match t.block_of(i) {
            Block::Document => {
                lemma_children_html_appends(t, i, 0, false, ils, lrd, acc);
            },
            Block::BlockQuote(_) => {
                let a = nl(acc) + "<blockquote>\n"@;
                lemma_children_html_appends(t, i, 0, false, ils, lrd, a);
                lemma_prefix_append(acc, a, t.spec_children_html(i, 0, false, ils, lrd, a), "</blockquote>\n"@);
            },
            Block::List(is_tight, lt) => {
                let a = nl(acc) + list_open_tag(lt);
                lemma_children_html_appends(t, i, 0, is_tight, ils, lrd, a);
                lemma_prefix_append(acc, a, t.spec_children_html(i, 0, is_tight, ils, lrd, a), list_close_tag(lt));
            },
            Block::ListItem(..) => {
                let a = acc + "<li>"@;
                lemma_children_html_appends(t, i, 0, tight, ils, lrd, a);
                lemma_prefix_append(acc, a, t.spec_children_html(i, 0, tight, ils, lrd, a), "</li>\n"@);
            },
            _ => {
                let r = t.spec_node_html(i, tight, ils, lrd, acc);
                assert(r.subrange(0, acc.len() as int) =~= acc);
            },
        }
    }
}

/// Rendering the children of a node from the `k`-th on only appends.
pub proof fn lemma_children_html_appends(
    t: AbstractSyntaxTree<Vec<char>>,
    i: int,
    k: int,
    tight: bool,
    ils: Seq<Seq<InlineContent>>,
    lrd: LRDTable,
    acc: Seq<char>,
)
    ensures
        acc.is_prefix_of(t.spec_children_html(i, k, tight, ils, lrd, acc)),
    decreases t.size() - i, t.children_of(i).len() - k,
{
    if 0 <= i < t.size() && 0 <= k < t.children_of(i).len() {
        let c = t.children_of(i)[k].0 as int;
        if i < c < t.size() {
            let a = t.spec_node_html(c, tight, ils, lrd, acc);
            law_node_html_appends(t, c, tight, ils, lrd, acc);
            lemma_children_html_appends(t, i, k + 1, tight, ils, lrd, a);
            let r = t.spec_children_html(i, k + 1, tight, ils, lrd, a);
            assert(r.subrange(0, acc.len() as int) =~= a.subrange(0, acc.len() as int));
        }
    }
}

/// A prefix of `a`, when `a` is a prefix of `r`, is a prefix of `r` and of `r` with more after it.
proof fn lemma_prefix_append(acc: Seq<char>, a: Seq<char>, r: Seq<char>, tail: Seq<char>)
    requires
        acc.is_prefix_of(a),
        a.is_prefix_of(r),
    ensures
        acc.is_prefix_of(r + tail),
{
    assert((r + tail).subrange(0, acc.len() as int) =~= r.subrange(0, acc.len() as int));
    assert(r.subrange(0, acc.len() as int) =~= a.subrange(0, acc.len() as int));
}

/// Adding a node makes it the last child of its parent, after the parent's earlier children in
/// their order, with that parent, one level deeper.
pub proof fn law_add_new_node_then_read<T>(
    before: AbstractSyntaxTree<T>,
    after: AbstractSyntaxTree<T>,
    parent: NodeId,
    child: NodeId,
)
    requires
        before.wf(),
        after.wf(),
        child.0 == before.size(),
        after.size() == before.size() + 1,
        after.parent_of(child.0 as int) == Some(parent),
        after.depth_of(child.0 as int) == before.depth_of(parent.0 as int) + 1,
        after.children_of(parent.0 as int) == before.children_of(parent.0 as int).push(child),
    ensures
        after.children_of(parent.0 as int).last() == child,
        after.children_of(parent.0 as int).len() > 0,
        after.children_of(parent.0 as int).take(before.children_of(parent.0 as int).len() as int) == before.children_of(
            parent.0 as int,
        ),
        after.parent_of(child.0 as int) == Some(parent),
        after.depth_of(child.0 as int) == after.depth_of(parent.0 as int) + 1,
{
    assert(after.node_wf(child.0 as int));
    assert(before.children_of(parent.0 as int).push(child).take(before.children_of(parent.0 as int).len() as int)
        =~= before.children_of(parent.0 as int));
}

} // verus!

verus! {

/// `s` with a line feed added, unless it is empty or already ends with one.
pub open spec fn nl(s: Seq<char>) -> Seq<char> {
    if s.len() > 0 && s.last() != '\n' {
        s.push('\n')
    } else {
        s
    }
}

/// The text of a leaf that holds inline content: a heading's or a paragraph's.
pub open spec fn inline_text(b: Block<Vec<char>>) -> Seq<char> {
    match b {
        Block::Heading(t, _) => t@,
        Block::Paragraph(t, _) => t@,
        _ => seq![],
    }
}

pub open spec fn list_open_tag(lt: ListType) -> Seq<char> {
    match lt {
        ListType::OrderedList(_, n) => if n != 1 {
            "<ol start=\""@ + spec_decimal(n as nat) + "\">\n"@
        } else {
            "<ol>\n"@
        },
        ListType::UnorderedList(_) => "<ul>\n"@,
    }
}

pub open spec fn list_close_tag(lt: ListType) -> Seq<char> {
    match lt {
        ListType::OrderedList(..) => "</ol>\n"@,
        ListType::UnorderedList(_) => "</ul>\n"@,
    }
}

/// A fenced code block's `class` attribute, from its info string.
pub open spec fn code_class(info: Seq<char>) -> Seq<char> {
    if info.len() > 0 {
        " class=\"language-"@ + spec_text_to_html(info, 0, false) + "\""@
    } else {
        seq![]
    }
}

/// The inline content of each node: parsed from its text for headings and paragraphs, within
/// that text and with reference links to defined labels only.
pub open spec fn inlines_wf(
    t: AbstractSyntaxTree<Vec<char>>,
    ils: Seq<Seq<InlineContent>>,
    lrd: LRDTable,
) -> bool {
    &&& ils.len() == t.size()
    &&& forall|i: int| 0 <= i < t.size() ==> inline_parse_ok(inline_text(t.block_of(i)), #[trigger] ils[i], lrd.labels())
}

pub open spec fn ils_view(v: Seq<Vec<InlineContent>>) -> Seq<Seq<InlineContent>> {
    v.map_values(|x: Vec<InlineContent>| x@)
}

impl AbstractSyntaxTree<Vec<char>> {
    /// What the HTML output holds after node `i` is added to `acc`, given the inline content of
    /// each node: container tags around the children's HTML, a paragraph without `<p>` in a
    /// tight list, code escaped for HTML, raw HTML as it is, and a line feed before each
    /// block-level tag unless the output is empty or ends with one.
    pub open spec fn spec_node_html(
        &self,
        i: int,
        tight: bool,
        ils: Seq<Seq<InlineContent>>,
        lrd: LRDTable,
        acc: Seq<char>,
    ) -> Seq<char>
        decreases self.size() - i, self.children_of(i).len() + 1,
    {
        if !(0 <= i < self.size()) {
            acc
        } else {
            let ics = spec_ics_html(ils[i], inline_text(self.block_of(i)), lrd);
            match self.block_of(i) {
                Block::Document => self.spec_children_html(i, 0, false, ils, lrd, acc),
                Block::BlockQuote(_) => self.spec_children_html(i, 0, false, ils, lrd, nl(acc) + "<blockquote>\n"@)
                    + "</blockquote>\n"@,
                Block::List(is_tight, lt) => self.spec_children_html(i, 0, is_tight, ils, lrd, nl(acc) + list_open_tag(lt))
                    + list_close_tag(lt),
                Block::ListItem(..) => self.spec_children_html(i, 0, tight, ils, lrd, acc + "<li>"@) + "</li>\n"@,
                Block::Heading(_, h) => nl(acc) + "<h"@ + spec_decimal(h as nat) + ">"@ + ics + "</h"@ + spec_decimal(
                    h as nat,
                ) + ">\n"@,
                Block::Paragraph(il, _) => if !tight && il@.len() > 0 {
                    nl(acc) + "<p>"@ + ics + "</p>\n"@
                } else {
                    acc + ics
                },
                Block::ThematicBreak => nl(acc) + "<hr />\n"@,
                Block::IndentedCodeBlock(s, _) => nl(acc) + "<pre><code>"@ + spec_push_all(s@, false) + "</code></pre>\n"@,
                Block::FencedCodeBlock(s, _, _, info, _, _) => nl(acc) + "<pre><code"@ + code_class(info@) + ">"@
                    + spec_push_all(s@, false) + "</code></pre>\n"@,
                Block::HTMLBlock(s, _, _) => nl(acc) + s@ + "\n"@,
            }
        }
    }

    /// What the HTML output holds after the children of node `i` from the `k`-th on are added
    /// to `acc`.
    pub open spec fn spec_children_html(
        &self,
        i: int,
        k: int,
        tight: bool,
        ils: Seq<Seq<InlineContent>>,
        lrd: LRDTable,
        acc: Seq<char>,
    ) -> Seq<char>
        decreases self.size() - i, self.children_of(i).len() - k,
    {
        if !(0 <= i < self.size()) || k < 0 || k >= self.children_of(i).len() {
            acc
        } else {
            let c = self.children_of(i)[k].0 as int;
            if i < c < self.size() {
                self.spec_children_html(i, k + 1, tight, ils, lrd, self.spec_node_html(c, tight, ils, lrd, acc))
            } else {
                acc
            }
        }
    }

    /// Parses the inline content of every heading and paragraph (other nodes get none).
    pub fn parse_inlines(&self, lrd_table: &LRDTable) -> (r: Vec<Vec<InlineContent>>)
        ensures
            inlines_wf(*self, ils_view(r@), *lrd_table),
    {
        let mut out: Vec<Vec<InlineContent>> = Vec::new();
        let mut i: usize = 0;
        while i < self.nodes.len()
            invariant
                i <= self.nodes@.len(),
                out@.len() == i,
                forall|j: int| 0 <= j < i ==> inline_parse_ok(inline_text(self.block_of(j)), #[trigger] out@[j]@, lrd_table.labels()),
            decreases self.nodes@.len() - i,
        {
            let parsed = match &self.nodes[i].block {
                Block::Heading(t, _) => parse_inline(t.as_slice(), lrd_table),
                Block::Paragraph(t, _) => parse_inline(t.as_slice(), lrd_table),
                _ => Vec::new(),
            };
            out.push(parsed);
            i = i + 1;
        }
        assert forall|j: int| 0 <= j < self.size() implies inline_parse_ok(inline_text(self.block_of(j)), #[trigger] ils_view(out@)[j], lrd_table.labels()) by {
            assert(ils_view(out@)[j] == out@[j]@);
        }
        out
    }

    /// The HTML of the document.
    pub fn to_html(&self, lrd_table: &LRDTable) -> (r: String)
        requires
            self.wf(),
            lrd_table.wf(),
        ensures
            exists|ils: Seq<Seq<InlineContent>>| #[trigger] inlines_wf(*self, ils, *lrd_table) && r@
                == self.spec_node_html(0, false, ils, *lrd_table, seq![]),
    {
        let inlines = self.parse_inlines(lrd_table);
        let mut str_out = String::new();
        self.to_html_helper(self.head, false, &mut str_out, lrd_table, &inlines);
        str_out
    }

    /// Adds the HTML of node `current_node` (a list's item in a tight list when
    /// `in_tight_list`), given the inline content of each node.
    pub fn to_html_helper(
        &self,
        current_node: NodeId,
        in_tight_list: bool,
        string_builder: &mut String,
        lrd_table: &LRDTable,
        inlines: &Vec<Vec<InlineContent>>,
    )
        requires
            self.wf(),
            lrd_table.wf(),
            current_node.0 < self.size(),
            inlines@.len() == self.size(),
        ensures
            final(string_builder)@ == self.spec_node_html(
                current_node.0 as int,
                in_tight_list,
                ils_view(inlines@),
                *lrd_table,
                old(string_builder)@,
            ),
        decreases self.size() - current_node.0, 1nat,
    {
        let i = current_node.0;
        let ghost ils = ils_view(inlines@);
        proof {
            assert(ils[i as int] == inlines@[i as int]@);
        }
        match &self.nodes[i].block {
            Block::Document => {
                self.children_to_html(current_node, false, string_builder, lrd_table, inlines);
            },
            Block::BlockQuote(_) => {
                push_newline_if_needed(string_builder);
                string_builder.append("<blockquote>\n");
                self.children_to_html(current_node, false, string_builder, lrd_table, inlines);
                string_builder.append("</blockquote>\n");
            },
            Block::List(is_tight, list_type) => {
                push_newline_if_needed(string_builder);
                let ghost after_nl = string_builder@;
                match list_type {
                    ListType::OrderedList(_, n) => {
                        if *n != 1 {
                            string_builder.append("<ol start=\"");
                            push_decimal(*n as u64, string_builder);
                            string_builder.append("\">\n");
                        } else {
                            string_builder.append("<ol>\n");
                        }
                    },
                    ListType::UnorderedList(_) => {
                        string_builder.append("<ul>\n");
                    },
                }
                assert(string_builder@ =~= after_nl + list_open_tag(*list_type));
                self.children_to_html(current_node, *is_tight, string_builder, lrd_table, inlines);
                match list_type {
                    ListType::OrderedList(..) => {
                        string_builder.append("</ol>\n");
                    },
                    ListType::UnorderedList(_) => {
                        string_builder.append("</ul>\n");
                    },
                }
            },
            Block::ListItem(..) => {
                string_builder.append("<li>");
                self.children_to_html(current_node, in_tight_list, string_builder, lrd_table, inlines);
                string_builder.append("</li>\n");
            },
            Block::Heading(il, h) => {
                push_newline_if_needed(string_builder);
                string_builder.append("<h");
                push_decimal(*h as u64, string_builder);
                string_builder.append(">");
                push_all_html(&inlines[i], il.as_slice(), string_builder, lrd_table);
                string_builder.append("</h");
                push_decimal(*h as u64, string_builder);
                string_builder.append(">\n");
            },
            Block::Paragraph(il, _) => {
                let wrap = !in_tight_list && il.len() > 0;
                if wrap {
                    push_newline_if_needed(string_builder);
                    string_builder.append("<p>");
                }
                push_all_html(&inlines[i], il.as_slice(), string_builder, lrd_table);
                if wrap {
                    string_builder.append("</p>\n");
                }
            },
            Block::ThematicBreak => {
                push_newline_if_needed(string_builder);
                string_builder.append("<hr />\n");
            },
            Block::IndentedCodeBlock(s, _) => {
                push_newline_if_needed(string_builder);
                string_builder.append("<pre><code>");
                push_escaped(s.as_slice(), string_builder);
                string_builder.append("</code></pre>\n");
            },
            Block::FencedCodeBlock(s, _, _, lang_hint, _, _) => {
                push_newline_if_needed(string_builder);
                string_builder.append("<pre><code");
                if lang_hint.len() > 0 {
                    string_builder.append(" class=\"language-");
                    push_chars_with_entities_and_bs(&BorrowedStringPCI::new(lang_hint.as_slice()), string_builder, false);
                    string_builder.append("\"");
                }
                string_builder.append(">");
                push_escaped(s.as_slice(), string_builder);
                string_builder.append("</code></pre>\n");
            },
            Block::HTMLBlock(s, ..) => {
                push_newline_if_needed(string_builder);
                push_raw(s.as_slice(), string_builder);
                string_builder.append("\n");
            },
        }
    }

    /// Adds the HTML of the children of `current_node`, first to last.
    fn children_to_html(
        &self,
        current_node: NodeId,
        in_tight_list: bool,
        string_builder: &mut String,
        lrd_table: &LRDTable,
        inlines: &Vec<Vec<InlineContent>>,
    )
        requires
            self.wf(),
            lrd_table.wf(),
            current_node.0 < self.size(),
            inlines@.len() == self.size(),
        ensures
            final(string_builder)@ == self.spec_children_html(
                current_node.0 as int,
                0,
                in_tight_list,
                ils_view(inlines@),
                *lrd_table,
                old(string_builder)@,
            ),
        decreases self.size() - current_node.0, 0nat,
    {
        let i = current_node.0;
        let ghost ils = ils_view(inlines@);
        proof {
            assert(self.node_wf(i as int));
        }
        let children: &Vec<NodeId> = match &self.nodes[i].block_kind {
            Some(c) => c,
            None => {
                return ;
            },
        };
        let mut k: usize = 0;
        while k < children.len()
            invariant
                self.wf(),
                lrd_table.wf(),
                i < self.size(),
                i == current_node.0,
                inlines@.len() == self.size(),
                ils == ils_view(inlines@),
                children@ == self.children_of(i as int),
                k <= children@.len(),
                self.spec_children_html(i as int, k as int, in_tight_list, ils, *lrd_table, string_builder@)
                    == self.spec_children_html(i as int, 0, in_tight_list, ils, *lrd_table, old(string_builder)@),
            decreases children@.len() - k,
        {
            let c = children[k];
            proof {
                assert(self.node_wf(i as int));
                assert(c == self.children_of(i as int)[k as int]);
            }
            self.to_html_helper(c, in_tight_list, string_builder, lrd_table, inlines);
            k = k + 1;
        }
    }
}

/// Adds a line feed unless the output is empty or already ends with one.
fn push_newline_if_needed(string_builder: &mut String)
    ensures
        final(string_builder)@ == nl(old(string_builder)@),
{
    if string_builder.as_str().unicode_len() > 0 && !ends_with_char(string_builder, '\n') {
        push_char(string_builder, '\n');
    }
}

/// Adds characters escaped for HTML.
fn push_escaped(t: &[char], string_builder: &mut String)
    ensures
        final(string_builder)@ == old(string_builder)@ + spec_push_all(t@, false),
{
    let mut i: usize = 0;
    while i < t.len()
        invariant
            i <= t@.len(),
            string_builder@ == old(string_builder)@ + spec_push_all(t@.take(i as int), false),
        decreases t@.len() - i,
    {
        push_html_reserved_char(t[i], string_builder);
        proof {
            assert(t@.take(i + 1).drop_last() =~= t@.take(i as int));
        }
        i = i + 1;
    }
    assert(t@.take(t@.len() as int) =~= t@);
}

/// Adds characters as they are.
fn push_raw(t: &[char], string_builder: &mut String)
    ensures
        final(string_builder)@ == old(string_builder)@ + t@,
{
    let mut i: usize = 0;
    while i < t.len()
        invariant
            i <= t@.len(),
            string_builder@ == old(string_builder)@ + t@.take(i as int),
        decreases t@.len() - i,
    {
        push_char(string_builder, t[i]);
        proof {
            assert(old(string_builder)@ + t@.take(i + 1) =~= old(string_builder)@ + t@.take(i as int) + seq![t@[i as int]]);
        }
        i = i + 1;
    }
    assert(t@.take(t@.len() as int) =~= t@);
}

} // verus!
