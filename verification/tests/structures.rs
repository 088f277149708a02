use common_mark_rust::ast_types::{AbstractSyntaxTree, Block, ListType, NodeId};
use common_mark_rust::block_structure::{
    block_quote_encountered, create_block_structure, list_item_encountered, LineState,
};
use common_mark_rust::fake_dll::ArenaDLL;
use common_mark_rust::line_offset_str_collection::{IndexPosition, LineOffsetStrCollection};
use common_mark_rust::lrd_table::{LRDTable, LinkDefinition};
use common_mark_rust::peekable_char_indices::{BorrowedStringPCI, PeekableCharIndices};

fn chars(s: &str) -> Vec<char> {
    s.chars().collect()
}

fn def(dest: &str) -> LinkDefinition {
    LinkDefinition { dest: chars(dest), title: None }
}

#[test]
fn list_kinds_continue_by_delimiter() {
    let a = ListType::OrderedList('.', 1);
    let b = ListType::OrderedList('.', 7);
    let c = ListType::OrderedList(')', 1);
    let d = ListType::UnorderedList('-');
    let e = ListType::UnorderedList('*');
    assert!(a.same_list_eq(&b));
    assert!(b.same_list_eq(&a));
    assert!(a.same_list_eq(&a));
    assert!(!a.same_list_eq(&c));
    assert!(!d.same_list_eq(&e));
    assert!(d.same_list_eq(&d));
    assert!(!a.same_list_eq(&d));
}

#[test]
fn tree_nodes_are_added_under_their_parent() {
    let mut ast: AbstractSyntaxTree<Vec<char>> = AbstractSyntaxTree::new();
    let root = ast.get_head_id();
    assert_eq!(root, NodeId(0));
    assert!(ast.has_no_children(root));
    assert_eq!(ast.get_last_child_id(root), None);

    let quote = ast.add_new_node(root, Block::BlockQuote(true));
    let para = ast.add_new_node(quote, Block::Paragraph(chars("x"), true));
    assert_eq!(quote, NodeId(1));
    assert_eq!(para, NodeId(2));
    assert_eq!(ast.get_last_child_id(root), Some(quote));
    assert_eq!(ast.get_last_child_id(quote), Some(para));
    assert_eq!(ast.get_parent_id(para), Some(quote));
    assert_eq!(ast.get_parent_id(root), None);
    assert_eq!(ast.get_block_depth(root), 0);
    assert_eq!(ast.get_block_depth(para), 2);
    assert!(!ast.has_no_children(quote));
    assert!(matches!(ast.get_block_ref(para), Block::Paragraph(v, true) if *v == chars("x")));

    let second = ast.add_new_node(root, Block::ThematicBreak);
    assert_eq!(ast.get_last_child_id(root), Some(second));
}

#[test]
fn tree_blocks_can_be_changed() {
    let mut ast: AbstractSyntaxTree<Vec<char>> = AbstractSyntaxTree::new();
    let para = ast.add_new_node(NodeId(0), Block::Paragraph(chars("a"), true));
    if let Block::Paragraph(text, _) = ast.get_block(para) {
        text.push('b');
    }
    assert!(matches!(ast.get_block_ref(para), Block::Paragraph(v, true) if *v == chars("ab")));
    ast.replace_block(para, Block::Heading(chars("ab"), 2));
    assert!(matches!(ast.get_block_ref(para), Block::Heading(v, 2) if *v == chars("ab")));
}

#[test]
fn linked_list_keeps_order_through_deletes() {
    let mut dll: ArenaDLL<char, usize> = ArenaDLL::default();
    assert_eq!(dll.get_start_id(), None);
    let a = dll.push_back(10, 'a');
    let b = dll.push_back(20, 'b');
    let c = dll.push_back(30, 'c');
    assert_eq!(dll.get_start_id(), Some(a));
    assert_eq!(dll.get_end_id(), Some(c));
    assert_eq!(dll.get_next_id(a), Some(b));
    assert_eq!(dll.get_prev_id(c), Some(b));
    assert_eq!(*dll.get_content(b), 'b');
    assert_eq!(*dll.get_position_indicator(c), 30);
    assert_eq!(dll.len(), 3);

    dll.delete(b);
    assert_eq!(dll.get_next_id(a), Some(c));
    assert_eq!(dll.get_prev_id(c), Some(a));
    assert_eq!(dll.index_in_list(c), Some(1));
    assert_eq!(dll.index_in_list(b), None);
    assert_eq!(dll.len(), 3);

    let d = dll.push_back(40, 'd');
    assert_eq!(dll.get_end_id(), Some(d));
    assert_eq!(dll.index_in_list(d), Some(2));
}

#[test]
fn linked_list_contents_can_be_taken() {
    let mut dll: ArenaDLL<char, usize> = ArenaDLL::default();
    let a = dll.push_back(0, 'a');
    let b = dll.push_back(1, 'b');
    let c = dll.push_back(2, 'c');
    let _d = dll.push_back(3, 'd');

    let mut between = dll.take_content_between(a, c);
    assert_eq!(between.next(&mut dll), Some(('b', 1)));
    assert_eq!(between.next(&mut dll), None);
    assert!(dll.is_taken(b));
    assert_eq!(dll.get_next_id(a), Some(c));

    let mut above = dll.take_content_above(Some(a));
    assert_eq!(above.next(&mut dll), Some(('c', 2)));
    assert_eq!(above.next(&mut dll), Some(('d', 3)));
    assert_eq!(above.next(&mut dll), None);
    assert_eq!(dll.get_end_id(), Some(a));

    assert_eq!(dll.take_content_at_id(a), 'a');
    assert!(dll.is_taken(a));
}

#[test]
fn linked_list_ranges_can_be_replaced() {
    let mut dll: ArenaDLL<char, usize> = ArenaDLL::default();
    let a = dll.push_back(0, 'a');
    let b = dll.push_back(1, 'b');
    let c = dll.push_back(2, 'c');
    let d = dll.push_back(3, 'd');
    let x = dll.replace_inside_stack_range(a, d, 9, 'x');
    assert_eq!(dll.get_next_id(a), Some(x));
    assert_eq!(dll.get_next_id(x), Some(d));
    assert_eq!(dll.get_prev_id(d), Some(x));
    assert_eq!(*dll.get_content(x), 'x');
    assert_eq!(dll.index_in_list(b), None);
    assert_eq!(dll.index_in_list(c), None);
    assert_eq!(dll.index_in_list(d), Some(2));

    let y = dll.replace_inside_stack_range(x, d, 8, 'y');
    assert_eq!(dll.get_next_id(x), Some(y));
    assert_eq!(dll.get_next_id(y), Some(d));

    dll.delete_stack_above_including(x);
    assert_eq!(dll.get_end_id(), Some(a));
    assert_eq!(dll.index_in_list(d), None);
}

/// The first definition of a label is the one that counts (a law of the library).
#[test]
fn first_link_definition_wins() {
    let mut table = LRDTable::new();
    assert!(!table.contains_key(&String::from("foo")));
    table.entry_or_insert(String::from("foo"), def("/first"));
    table.entry_or_insert(String::from("bar"), def("/bar"));
    table.entry_or_insert(String::from("foo"), def("/second"));
    assert!(table.contains_key(&String::from("foo")));
    assert_eq!(table.get(&String::from("foo")).unwrap().dest, chars("/first"));
    assert_eq!(table.get(&String::from("bar")).unwrap().dest, chars("/bar"));
    assert!(table.get(&String::from("baz")).is_none());
}

/// A tab moves to the next multiple of four columns (a law of the library).
#[test]
fn tabs_reach_the_next_tab_stop() {
    let line = chars(" \tx");
    let mut state = LineState::new(&line);
    state.consume_indent();
    assert_eq!(state.effective_column_number, 4);
    assert_eq!(state.space_from_last_structure, 4);
    assert_eq!(state.peek(), Some('x'));

    let line = chars("\t\tx");
    let mut state = LineState::new(&line);
    state.consume_indent();
    assert_eq!(state.effective_column_number, 8);
}

#[test]
fn line_state_reads_the_rest_of_a_line() {
    let line = chars("  > a ");
    let mut state = LineState::new(&line);
    assert!(!state.is_blank_line());
    state.consume_indent();
    assert_eq!(state.get_remaining_str(), &chars("> a ")[..]);
    assert_eq!(state.next(), Some('>'));
    assert!(state.consume_one_space());
    assert_eq!(state.get_remaining_str(), &chars("a ")[..]);
    let blank = chars(" \t ");
    assert!(LineState::new(&blank).is_blank_line());
}

#[test]
fn a_single_line_becomes_one_paragraph() {
    let (ast, table) = create_block_structure(&chars("hello"));
    assert!(table.entries.is_empty());
    assert_eq!(ast.get_last_child_id(NodeId(0)), Some(NodeId(1)));
    assert!(matches!(ast.get_block_ref(NodeId(1)), Block::Paragraph(v, _) if *v == chars("hello")));
    let (ast, _) = create_block_structure(&chars(""));
    assert!(ast.has_no_children(NodeId(0)));
}

#[test]
fn collect_until_offset_gathers_a_stretch() {
    let text = chars("abcdef");
    let mut it = BorrowedStringPCI::new(&text);
    it.next();
    assert_eq!(it.collect_until_offset(4), chars("bcd"));
    assert_eq!(it.offset(), 4);
    assert_eq!(it.collect_until_offset(2), Vec::<char>::new());
    assert_eq!(it.offset(), 4);
}

#[test]
fn positions_are_ordered_by_row_then_offset() {
    let a = IndexPosition::new(0, Some(3));
    let b = IndexPosition::new(0, None);
    let c = IndexPosition::new(1, Some(0));
    assert!(a.is_before(&b));
    assert!(b.is_before(&c));
    assert!(a.is_before(&c));
    assert!(!b.is_before(&a));
    assert!(!a.is_before(&a));
    assert_eq!(IndexPosition::from((1, Some(0))), c);
    assert_eq!(a.add(2), IndexPosition::new(0, Some(5)));
    assert_eq!(b.add(2), b);
}

#[test]
fn lines_read_as_one_text() {
    let l0 = chars("ab");
    let l1 = chars("c");
    let coll = LineOffsetStrCollection::new(vec![(0, &l0[..]), (0, &l1[..])]);
    let mut it = coll.to_peekable_iter();
    assert_eq!(it.peek_and_index(), Some((IndexPosition::new(0, Some(0)), 'a')));
    assert_eq!(it.next_and_index(), Some((IndexPosition::new(0, Some(0)), 'a')));
    assert_eq!(it.next_and_index(), Some((IndexPosition::new(0, Some(1)), 'b')));
    assert_eq!(it.next_and_index(), Some((IndexPosition::new(0, None), '\n')));
    assert_eq!(it.offset(), IndexPosition::new(1, Some(0)));
    assert_eq!(it.next(), Some('c'));
    assert_eq!(it.next(), None);
    assert_eq!(it.next_and_index(), None);
}

fn collect_range(coll: &LineOffsetStrCollection, start: IndexPosition, end: IndexPosition) -> String {
    let mut out = String::new();
    let mut r = coll.chars_in_range(start..end);
    while let Some(c) = r.next() {
        out.push(c);
    }
    out
}

#[test]
fn ranges_of_lines_give_their_characters() {
    let l0 = chars("ab");
    let l1 = chars("cd");
    let coll = LineOffsetStrCollection::new(vec![(0, &l0[..]), (0, &l1[..])]);
    assert_eq!(collect_range(&coll, IndexPosition::new(0, Some(1)), IndexPosition::new(1, Some(1))), "b\nc");
    assert_eq!(collect_range(&coll, IndexPosition::new(0, None), IndexPosition::new(1, None)), "\ncd");
    assert_eq!(collect_range(&coll, IndexPosition::new(0, Some(0)), IndexPosition::new(0, Some(0))), "");
    assert_eq!(collect_range(&coll, IndexPosition::new(1, None), IndexPosition::new(5, None)), "");
    assert_eq!(collect_range(&coll, IndexPosition::new(7, Some(0)), IndexPosition::new(9, None)), "");
    let empty = LineOffsetStrCollection::new(vec![]);
    assert_eq!(collect_range(&empty, IndexPosition::new(0, Some(0)), IndexPosition::new(1, None)), "");
}

fn item(line: &str) -> Option<(ListType, usize, usize, usize)> {
    let text = chars(line);
    let mut ls = LineState::new(&text);
    match list_item_encountered(&mut ls) {
        Some((lt, Block::ListItem(_, w))) => Some((lt, w, ls.offset(), ls.space_from_last_structure)),
        _ => None,
    }
}

#[test]
fn list_item_content_indent() {
    // one to four spaces after the marker belong to it
    assert_eq!(item("- a"), Some((ListType::UnorderedList('-'), 2, 2, 0)));
    assert_eq!(item("-    a"), Some((ListType::UnorderedList('-'), 5, 5, 0)));
    // five or more: the marker takes one, the rest are the content's indentation
    assert_eq!(item("-      a"), Some((ListType::UnorderedList('-'), 2, 2, 0)));
    // the line ends after the marker
    assert_eq!(item("*"), Some((ListType::UnorderedList('*'), 2, 1, 0)));
    assert_eq!(item("10) x"), Some((ListType::OrderedList(')', 10), 4, 4, 0)));
    assert_eq!(item("3.  y"), Some((ListType::OrderedList('.', 3), 4, 4, 0)));
    assert_eq!(item("-a"), None);
    assert_eq!(item("1234567890. x"), None);
}

#[test]
fn block_quote_marker_takes_one_space() {
    let text = chars(">  a");
    let mut ls = LineState::new(&text);
    assert!(block_quote_encountered(&mut ls));
    assert_eq!(ls.offset(), 2);
    assert_eq!(ls.space_from_last_structure, 0);
    let text = chars(">a");
    let mut ls = LineState::new(&text);
    assert!(block_quote_encountered(&mut ls));
    assert_eq!(ls.offset(), 1);
    let text = chars("a");
    let mut ls = LineState::new(&text);
    assert!(!block_quote_encountered(&mut ls));
    assert_eq!(ls.offset(), 0);
}
