use vstd::prelude::*;

verus! {

/// The handle of a node of an `ArenaDLL`: its index in the arena.
#[derive(Debug, Copy, Clone, PartialEq, Eq, Structural)]
pub struct DLLNodeID(pub usize);

/// A node of an `ArenaDLL`: its position in the text, its content (until taken) and its links.
#[derive(Debug)]
pub struct DLLnode<T, O> {
    /// Where in the text the node's content starts.
    pub underlying_position: O,
    pub content: Option<T>,
    pub id_of_prev: Option<DLLNodeID>,
    pub id_of_next: Option<DLLNodeID>,
}

impl<T, O> DLLnode<T, O> {
    fn new(
        underlying_position: O,
        content: T,
        id_of_prev: Option<DLLNodeID>,
        id_of_next: Option<DLLNodeID>,
    ) -> (r: Self)
        ensures
            r.underlying_position == underlying_position,
            r.content == Some(content),
            r.id_of_prev == id_of_prev,
            r.id_of_next == id_of_next,
    {
        DLLnode { underlying_position, content: Some(content), id_of_prev, id_of_next }
    }
}

/// A doubly linked list whose nodes live in one vector and are never freed.
///
/// Its model: `order()`, the handles of the linked nodes from first to last, and for every node
/// ever made its content (`None` once taken), its position and its links.
pub struct ArenaDLL<T, O> {
    /// Every node ever made; nodes are only added, so none needs to be freed for reuse.
    pub nodes: Vec<DLLnode<T, O>>,
    pub start_id: Option<DLLNodeID>,
    pub end_id: Option<DLLNodeID>,
    pub order: Ghost<Seq<usize>>,
}

pub open spec fn id_opt(s: Seq<usize>, k: int) -> Option<DLLNodeID> {
    if 0 <= k < s.len() {
        Some(DLLNodeID(s[k]))
    } else {
        None
    }
}

impl<T, O> ArenaDLL<T, O> {
    /// The linked nodes, first to last.
    pub open spec fn order(&self) -> Seq<usize> {
        self.order@
    }

    /// How many nodes were ever made.
    pub open spec fn size(&self) -> nat {
        self.nodes@.len()
    }

    pub open spec fn content_of(&self, id: usize) -> Option<T> {
        self.nodes@[id as int].content
    }

    pub open spec fn pos_of(&self, id: usize) -> O {
        self.nodes@[id as int].underlying_position
    }

    pub open spec fn next_of(&self, id: usize) -> Option<DLLNodeID> {
        self.nodes@[id as int].id_of_next
    }

    pub open spec fn prev_of(&self, id: usize) -> Option<DLLNodeID> {
        self.nodes@[id as int].id_of_prev
    }

    /// The links agree with `order()`, no node is linked twice, and linked nodes hold content.
    pub open spec fn wf(&self) -> bool {
        let s = self.order@;
        &&& forall|k: int| 0 <= k < s.len() ==> #[trigger] s[k] < self.nodes@.len()
        &&& s.no_duplicates()
        &&& s.len() <= self.nodes@.len()
        &&& self.start_id == id_opt(s, 0)
        &&& self.end_id == id_opt(s, s.len() - 1)
        &&& forall|k: int|
            0 <= k < s.len() ==> (#[trigger] self.nodes@[s[k] as int]).id_of_prev == id_opt(s, k - 1)
                && self.nodes@[s[k] as int].id_of_next == id_opt(s, k + 1)
                && self.nodes@[s[k] as int].content is Some
    }

    /// What stays the same for nodes that an operation does not touch.
    pub open spec fn same_nodes_except(&self, other: &Self, touched: Set<usize>) -> bool {
        &&& self.nodes@.len() <= other.nodes@.len()
        &&& forall|i: int|
            0 <= i < self.nodes@.len() && !touched.contains(i as usize) ==> #[trigger] other.nodes@[i]
                == self.nodes@[i]
    }

    pub fn default() -> (r: Self)
        ensures
            r.wf(),
            r.order() == Seq::<usize>::empty(),
            r.size() == 0,
    {
        ArenaDLL { nodes: Vec::new(), start_id: None, end_id: None, order: Ghost(Seq::empty()) }
    }

    pub fn push_back(&mut self, relative_position: O, content: T) -> (id: DLLNodeID)
        requires
            old(self).wf(),
            old(self).size() < usize::MAX,
        ensures
            final(self).wf(),
            id.0 == old(self).size(),
            final(self).size() == old(self).size() + 1,
            final(self).order() == old(self).order().push(id.0),
            final(self).content_of(id.0) == Some(content),
            final(self).pos_of(id.0) == relative_position,
            forall|i: usize| i < old(self).size() ==> #[trigger] final(self).content_of(i) == old(self).content_of(i) && final(self).pos_of(i) == old(self).pos_of(i),
            forall|i: usize|
                i < old(self).size() && !old(self).order().contains(i) ==> #[trigger] final(self).next_of(i) == old(self).next_of(i) && final(self).prev_of(i) == old(self).prev_of(
                    i,
                ),
    {
        let ghost s = self.order@;
        let id_of_this = DLLNodeID(self.nodes.len());
        let id_of_prev = if self.start_id.is_none() {
            self.start_id = Some(id_of_this);
            None
        } else {
            let end = self.end_id.unwrap();
            self.nodes[end.0].id_of_next = Some(id_of_this);
            self.end_id
        };
        let id_of_next = None;
        self.nodes.push(DLLnode::new(relative_position, content, id_of_prev, id_of_next));
        self.end_id = Some(id_of_this);
        self.order = Ghost(s.push(id_of_this.0));
        proof {
            let s2 = s.push(id_of_this.0);
            assert forall|k: int| 0 <= k < s2.len() implies #[trigger] s2[k] < self.nodes@.len() by {}
            assert forall|k: int|
                0 <= k < s2.len() implies (#[trigger] self.nodes@[s2[k] as int]).id_of_prev == id_opt(s2, k - 1)
                    && self.nodes@[s2[k] as int].id_of_next == id_opt(s2, k + 1)
                    && self.nodes@[s2[k] as int].content is Some by {
                if k < s.len() {
                    assert(s2[k] == s[k]);
                    assert(s[k] != id_of_this.0);
                }
            }
            assert(s2.no_duplicates());
        }
        id_of_this
    }

    pub fn get_end_id(&self) -> (r: Option<DLLNodeID>)
        requires
            self.wf(),
        ensures
            r == id_opt(self.order(), self.order().len() - 1),
    {
        self.end_id
    }

    pub fn get_start_id(&self) -> (r: Option<DLLNodeID>)
        requires
            self.wf(),
        ensures
            r == id_opt(self.order(), 0),
    {
        self.start_id
    }

    pub fn get_content(&self, node_id: DLLNodeID) -> (r: &T)
        requires
            node_id.0 < self.size(),
            self.content_of(node_id.0) is Some,
        ensures
            Some(*r) == self.content_of(node_id.0),
    {
        match &self.nodes[node_id.0].content {
            Some(t_out) => t_out,
            None => vstd::pervasive::unreached(),
        }
    }

    /// Replaces the content of a node that still holds one.
    pub fn set_content(&mut self, node_id: DLLNodeID, t: T)
        requires
            old(self).wf(),
            node_id.0 < old(self).size(),
            old(self).content_of(node_id.0) is Some,
        ensures
            final(self).wf(),
            final(self).order() == old(self).order(),
            final(self).size() == old(self).size(),
            final(self).content_of(node_id.0) == Some(t),
            final(self).pos_of(node_id.0) == old(self).pos_of(node_id.0),
            final(self).next_of(node_id.0) == old(self).next_of(node_id.0),
            final(self).prev_of(node_id.0) == old(self).prev_of(node_id.0),
            old(self).same_nodes_except(&*final(self), set![node_id.0]),
    {
        self.nodes[node_id.0].content = Some(t);
        proof {
            let s = self.order@;
            assert forall|k: int|
                0 <= k < s.len() implies (#[trigger] self.nodes@[s[k] as int]).id_of_prev == id_opt(s, k - 1)
                    && self.nodes@[s[k] as int].id_of_next == id_opt(s, k + 1)
                    && self.nodes@[s[k] as int].content is Some by {
                assert(old(self).nodes@[s[k] as int].id_of_prev == id_opt(s, k - 1));
            }
        }
    }

    pub fn get_position_indicator(&self, node_id: DLLNodeID) -> (r: &O)
        requires
            node_id.0 < self.size(),
        ensures
            *r == self.pos_of(node_id.0),
    {
        &self.nodes[node_id.0].underlying_position
    }

    pub fn get_next_id(&self, node_id: DLLNodeID) -> (r: Option<DLLNodeID>)
        requires
            node_id.0 < self.size(),
        ensures
            r == self.next_of(node_id.0),
    {
        self.nodes[node_id.0].id_of_next
    }

    pub fn get_prev_id(&self, node_id: DLLNodeID) -> (r: Option<DLLNodeID>)
        requires
            node_id.0 < self.size(),
        ensures
            r == self.prev_of(node_id.0),
    {
        self.nodes[node_id.0].id_of_prev
    }

    /// How many nodes were ever made.
    pub fn len(&self) -> (r: usize)
        ensures
            r == self.size(),
    {
        self.nodes.len()
    }

    /// Where a node stands in the list, if it is linked (a walk from the first node).
    pub fn index_in_list(&self, node_id: DLLNodeID) -> (r: Option<usize>)
        requires
            self.wf(),
        ensures
            r matches Some(k) ==> k < self.order().len() && self.order()[k as int] == node_id.0
                && self.order().contains(node_id.0) && self.order().index_of(node_id.0) == k,
            r is None ==> !self.order().contains(node_id.0),
    {
        let ghost s = self.order@;
        let mut cur = self.start_id;
        let mut k: usize = 0;
        loop
            invariant
                self.wf(),
                s == self.order@,
                k <= s.len(),
                cur == id_opt(s, k as int),
                forall|m: int| 0 <= m < k ==> #[trigger] s[m] != node_id.0,
            decreases s.len() - k,
        {
            proof {
                vstd::std_specs::vec::axiom_spec_len(&self.nodes);
            }
            match cur {
                None => {
                    return None;
                },
                Some(c) => {
                    if c.0 == node_id.0 {
                        proof {
                            assert(s.contains(node_id.0));
                            let j = s.index_of(node_id.0);
                            assert(s[j] == node_id.0);
                            assert(j == k) by {
                                if j < k {
                                    assert(s[j] != node_id.0);
                                } else if j > k {
                                    assert(s[j] != s[k as int]);
                                }
                            }
                        }
                        return Some(k);
                    }
                    proof {
                        assert(self.nodes@[s[k as int] as int].id_of_next == id_opt(s, k + 1));
                    }
                    cur = self.nodes[c.0].id_of_next;
                    k = k + 1;
                },
            }
        }
    }

    pub fn is_taken(&self, node_id: DLLNodeID) -> (r: bool)
        requires
            node_id.0 < self.size(),
        ensures
            r == (self.content_of(node_id.0) is None),
    {
        self.nodes[node_id.0].content.is_none()
    }

    pub fn get_content_mut(&mut self, node_id: DLLNodeID) -> (r: &mut T)
        requires
            old(self).wf(),
            node_id.0 < old(self).size(),
            old(self).content_of(node_id.0) is Some,
        ensures
            Some(*r) == old(self).content_of(node_id.0),
            final(self).order() == old(self).order(),
            final(self).size() == old(self).size(),
            final(self).content_of(node_id.0) == Some(*final(r)),
            final(self).pos_of(node_id.0) == old(self).pos_of(node_id.0),
            final(self).next_of(node_id.0) == old(self).next_of(node_id.0),
            final(self).prev_of(node_id.0) == old(self).prev_of(node_id.0),
            final(self).start_id == old(self).start_id,
            final(self).end_id == old(self).end_id,
            old(self).same_nodes_except(&*final(self), set![node_id.0]),
    {
        match &mut self.nodes[node_id.0].content {
            Some(t_out) => t_out,
            None => vstd::pervasive::unreached(),
        }
    }

    /// Unlinks a linked node and hands out its content; the node keeps its own links.
    pub fn take_content_at_id(&mut self, node_id: DLLNodeID) -> (r: T)
        requires
            old(self).wf(),
            old(self).order().contains(node_id.0),
        ensures
            final(self).wf(),
            Some(r) == old(self).content_of(node_id.0),
            final(self).order() == old(self).order().remove(old(self).order().index_of(node_id.0)),
            final(self).size() == old(self).size(),
            final(self).content_of(node_id.0) is None,
            final(self).pos_of(node_id.0) == old(self).pos_of(node_id.0),
            final(self).next_of(node_id.0) == old(self).next_of(node_id.0),
            final(self).prev_of(node_id.0) == old(self).prev_of(node_id.0),
            forall|i: usize| i < old(self).size() && i != node_id.0 ==> #[trigger] final(self).content_of(i)
                == old(self).content_of(i) && final(self).pos_of(i) == old(self).pos_of(i),
            forall|i: usize|
                i < old(self).size() && !old(self).order().contains(i) ==> #[trigger] final(self).next_of(i)
                    == old(self).next_of(i) && final(self).prev_of(i) == old(self).prev_of(i),
    {
        let ghost s = self.order@;
        let ghost k = s.index_of(node_id.0);
        proof {
            assert(s[k] == node_id.0);
        }
        let next_op = self.nodes[node_id.0].id_of_next;
        let prev_op = self.nodes[node_id.0].id_of_prev;
        let content_out = self.nodes[node_id.0].content.take();
        if let Some(prev_index) = prev_op {
            self.nodes[prev_index.0].id_of_next = next_op;
        } else {
            self.start_id = next_op;
        }
        if let Some(next_index) = next_op {
            self.nodes[next_index.0].id_of_prev = prev_op;
        } else {
            self.end_id = prev_op;
        }
        self.order = Ghost(s.remove(k));
        proof {
            self.lemma_remove_wf(&*old(self), k);
        }
        match content_out {
            Some(c) => c,
            None => vstd::pervasive::unreached(),
        }
    }

    proof fn lemma_remove_wf(&self, old_self: &Self, k: int)
        requires
            old_self.wf(),
            0 <= k < old_self.order@.len(),
            self.order@ == old_self.order@.remove(k),
            self.nodes@.len() == old_self.nodes@.len(),
            self.start_id == (if k == 0 { id_opt(old_self.order@, 1) } else { old_self.start_id }),
            self.end_id == (if k == old_self.order@.len() - 1 { id_opt(old_self.order@, k - 1) } else { old_self.end_id }),
            k > 0 ==> self.nodes@[old_self.order@[k - 1] as int].id_of_next == id_opt(old_self.order@, k + 1)
                && self.nodes@[old_self.order@[k - 1] as int].id_of_prev == old_self.nodes@[old_self.order@[k - 1] as int].id_of_prev
                && self.nodes@[old_self.order@[k - 1] as int].content == old_self.nodes@[old_self.order@[k - 1] as int].content,
            k + 1 < old_self.order@.len() ==> self.nodes@[old_self.order@[k + 1] as int].id_of_prev == id_opt(old_self.order@, k - 1)
                && self.nodes@[old_self.order@[k + 1] as int].id_of_next == old_self.nodes@[old_self.order@[k + 1] as int].id_of_next
                && self.nodes@[old_self.order@[k + 1] as int].content == old_self.nodes@[old_self.order@[k + 1] as int].content,
            forall|i: int|
                0 <= i < self.nodes@.len() && i != old_self.order@[k] && (k == 0 || i != old_self.order@[k - 1])
                    && (k + 1 >= old_self.order@.len() || i != old_self.order@[k + 1]) ==> #[trigger] self.nodes@[i]
                    == old_self.nodes@[i],
        ensures
            self.wf(),
    {
        let s = old_self.order@;
        let s2 = self.order@;
        assert forall|m: int| 0 <= m < s2.len() implies #[trigger] s2[m] < self.nodes@.len() by {
            if m < k {
                assert(s2[m] == s[m]);
            } else {
                assert(s2[m] == s[m + 1]);
            }
        }
        assert forall|m: int|
            0 <= m < s2.len() implies (#[trigger] self.nodes@[s2[m] as int]).id_of_prev == id_opt(s2, m - 1)
                && self.nodes@[s2[m] as int].id_of_next == id_opt(s2, m + 1)
                && self.nodes@[s2[m] as int].content is Some by {
            if m < k {
                assert(s2[m] == s[m]);
                assert(old_self.nodes@[s[m] as int].id_of_prev == id_opt(s, m - 1));
                if m + 1 < k {
                    assert(s2[m + 1] == s[m + 1]);
                } else {
                    assert(m == k - 1);
                    if k + 1 < s.len() {
                        assert(s2[k] == s[k + 1]);
                    }
                }
                if m >= 1 {
                    assert(s2[m - 1] == s[m - 1]);
                }
            } else {
                assert(s2[m] == s[m + 1]);
                assert(old_self.nodes@[s[m + 1] as int].id_of_prev == id_opt(s, m));
                if m + 2 < s.len() {
                    assert(s2[m + 1] == s[m + 2]);
                }
                if m > k {
                    assert(s2[m - 1] == s[m]);
                } else if k > 0 {
                    assert(s2[m - 1] == s[k - 1]);
                }
            }
        }
        assert(s2.no_duplicates()) by {
            assert forall|a: int, b: int| 0 <= a < s2.len() && 0 <= b < s2.len() && a != b implies s2[a] != s2[b] by {
                let a1 = if a < k { a } else { a + 1 };
                let b1 = if b < k { b } else { b + 1 };
                assert(s2[a] == s[a1]);
                assert(s2[b] == s[b1]);
            }
        }
        if s2.len() > 0 {
            if k == 0 {
                assert(s2[0] == s[1]);
            } else {
                assert(s2[0] == s[0]);
            }
            if k == s.len() - 1 {
                assert(s2[s2.len() - 1] == s[k - 1]);
            } else {
                assert(s2[s2.len() - 1] == s[s.len() - 1]);
            }
        }
    }

    /// Unlinks a linked node, leaving its content in place.
    pub fn delete(&mut self, node_id: DLLNodeID)
        requires
            old(self).wf(),
            old(self).order().contains(node_id.0),
        ensures
            final(self).wf(),
            final(self).order() == old(self).order().remove(old(self).order().index_of(node_id.0)),
            final(self).size() == old(self).size(),
            forall|i: usize| i < old(self).size() ==> #[trigger] final(self).content_of(i)
                == old(self).content_of(i) && final(self).pos_of(i) == old(self).pos_of(i),
            final(self).next_of(node_id.0) == old(self).next_of(node_id.0),
            final(self).prev_of(node_id.0) == old(self).prev_of(node_id.0),
            forall|i: usize|
                i < old(self).size() && !old(self).order().contains(i) ==> #[trigger] final(self).next_of(i)
                    == old(self).next_of(i) && final(self).prev_of(i) == old(self).prev_of(i),
    {
        let ghost s = self.order@;
        let ghost k = s.index_of(node_id.0);
        proof {
            assert(s[k] == node_id.0);
        }
        let prev_node_op = self.nodes[node_id.0].id_of_prev;
        let next_node_op = self.nodes[node_id.0].id_of_next;
        if let Some(prev_node) = prev_node_op {
            self.nodes[prev_node.0].id_of_next = next_node_op;
        } else {
            self.start_id = next_node_op;
        }
        if let Some(next_node) = next_node_op {
            self.nodes[next_node.0].id_of_prev = prev_node_op;
        } else {
            self.end_id = prev_node_op;
        }
        self.order = Ghost(s.remove(k));
        proof {
            self.lemma_remove_wf(&*old(self), k);
        }
    }

    /// Links a new node between two linked nodes, unlinking every node that stood between them.
    pub fn replace_inside_stack_range(
        &mut self,
        bottom_node_index: DLLNodeID,
        top_node_index: DLLNodeID,
        relative_position: O,
        item: T,
    ) -> (id: DLLNodeID)
        requires
            old(self).wf(),
            old(self).size() < usize::MAX,
            old(self).order().contains(bottom_node_index.0),
            old(self).order().contains(top_node_index.0),
            old(self).order().index_of(bottom_node_index.0) < old(self).order().index_of(top_node_index.0),
        ensures
            final(self).wf(),
            id.0 == old(self).size(),
            final(self).size() == old(self).size() + 1,
            final(self).order() == old(self).order().take(old(self).order().index_of(bottom_node_index.0) + 1)
                + seq![id.0] + old(self).order().skip(old(self).order().index_of(top_node_index.0)),
            old(self).order().index_of(top_node_index.0) == old(self).order().index_of(bottom_node_index.0) + 1
                ==> final(self).order() == old(self).order().insert(
                old(self).order().index_of(bottom_node_index.0) + 1,
                id.0,
            ),
            final(self).content_of(id.0) == Some(item),
            final(self).pos_of(id.0) == relative_position,
            forall|i: usize| i < old(self).size() ==> #[trigger] final(self).content_of(i)
                == old(self).content_of(i) && final(self).pos_of(i) == old(self).pos_of(i),
            forall|i: usize|
                i < old(self).size() && !old(self).order().contains(i) ==> #[trigger] final(self).next_of(i)
                    == old(self).next_of(i) && final(self).prev_of(i) == old(self).prev_of(i),
    {
        let ghost s = self.order@;
        let ghost k = s.index_of(bottom_node_index.0);
        let ghost kt = s.index_of(top_node_index.0);
        proof {
            assert(s[k] == bottom_node_index.0);
            assert(s[kt] == top_node_index.0);
        }
        let id_of_this = DLLNodeID(self.nodes.len());
        self.nodes.push(DLLnode {
            underlying_position: relative_position,
            content: Some(item),
            id_of_prev: Some(bottom_node_index),
            id_of_next: Some(top_node_index),
        });
        self.nodes[bottom_node_index.0].id_of_next = Some(id_of_this);
        self.nodes[top_node_index.0].id_of_prev = Some(id_of_this);
        let ghost s2 = s.take(k + 1) + seq![id_of_this.0] + s.skip(kt);
        self.order = Ghost(s2);
        proof {
            let d = kt - k - 1;
            assert(s2.len() == s.len() - d + 1);
            assert forall|m: int| 0 <= m < s2.len() && m != k + 1 implies #[trigger] s2[m] == s[if m <= k {
                m
            } else {
                m - 1 + d
            }] by {
                if m > k + 1 {
                    assert(s2[m] == s.skip(kt)[m - k - 2]);
                }
            }
            assert(s2[k + 1] == id_of_this.0);
            assert forall|m: int| 0 <= m < s2.len() implies #[trigger] s2[m] < self.nodes@.len() by {
                if m != k + 1 {
                    let j = if m <= k { m } else { m - 1 + d };
                    assert(s2[m] == s[j]);
                }
            }
            assert(s2.no_duplicates()) by {
                assert forall|a: int, b: int| 0 <= a < s2.len() && 0 <= b < s2.len() && a != b implies s2[a]
                    != s2[b] by {
                    let a1 = if a <= k { a } else { a - 1 + d };
                    let b1 = if b <= k { b } else { b - 1 + d };
                    if a != k + 1 {
                        assert(s2[a] == s[a1]);
                    }
                    if b != k + 1 {
                        assert(s2[b] == s[b1]);
                    }
                }
            }
            assert forall|m: int|
                0 <= m < s2.len() implies (#[trigger] self.nodes@[s2[m] as int]).id_of_prev == id_opt(s2, m - 1)
                    && self.nodes@[s2[m] as int].id_of_next == id_opt(s2, m + 1)
                    && self.nodes@[s2[m] as int].content is Some by {
                if m < k {
                    assert(s2[m] == s[m]);
                    assert(s2[m + 1] == s[m + 1]);
                    if m >= 1 {
                        assert(s2[m - 1] == s[m - 1]);
                    }
                    assert(s[m] != s[k] && s[m] != s[kt]);
                } else if m == k {
                    assert(s2[m] == s[k]);
                    if m >= 1 {
                        assert(s2[m - 1] == s[m - 1]);
                    }
                } else if m == k + 1 {
                } else if m == k + 2 {
                    assert(s2[m] == s[kt]);
                    if m + 1 < s2.len() {
                        assert(s2[m + 1] == s[kt + 1]);
                    }
                } else {
                    assert(s2[m] == s[m - 1 + d]);
                    assert(s2[m - 1] == s[m - 2 + d]);
                    if m + 1 < s2.len() {
                        assert(s2[m + 1] == s[m + d]);
                    }
                    assert(s[m - 1 + d] != s[k] && s[m - 1 + d] != s[kt]);
                }
            }
            assert(s2[0] == s[0]);
            assert(s2[s2.len() - 1] == s[s.len() - 1]);
            if kt == k + 1 {
                assert(s2 =~= s.insert(k + 1, id_of_this.0));
            }
        }
        id_of_this
    }

    /// Unlinks a linked node and every node after it.
    pub fn delete_stack_above_including(&mut self, node_id: DLLNodeID)
        requires
            old(self).wf(),
            old(self).order().contains(node_id.0),
        ensures
            final(self).wf(),
            final(self).order() == old(self).order().take(old(self).order().index_of(node_id.0)),
            final(self).size() == old(self).size(),
            forall|i: usize| i < old(self).size() ==> #[trigger] final(self).content_of(i)
                == old(self).content_of(i) && final(self).pos_of(i) == old(self).pos_of(i),
    {
        let ghost s = self.order@;
        let ghost k = s.index_of(node_id.0);
        proof {
            assert(s[k] == node_id.0);
        }
        let prev_node_op = self.nodes[node_id.0].id_of_prev;
        if let Some(prev_node) = prev_node_op {
            self.nodes[prev_node.0].id_of_next = None;
            self.end_id = Some(prev_node);
        } else {
            self.start_id = None;
            self.end_id = None;
        }
        self.order = Ghost(s.take(k));
        proof {
            let s2 = s.take(k);
            assert forall|m: int|
                0 <= m < s2.len() implies (#[trigger] self.nodes@[s2[m] as int]).id_of_prev == id_opt(s2, m - 1)
                    && self.nodes@[s2[m] as int].id_of_next == id_opt(s2, m + 1)
                    && self.nodes@[s2[m] as int].content is Some by {
                assert(s2[m] == s[m]);
                if m >= 1 {
                    assert(s2[m - 1] == s[m - 1]);
                }
                if m + 1 < k {
                    assert(s2[m + 1] == s[m + 1]);
                }
            }
            assert forall|m: int| 0 <= m < s2.len() implies #[trigger] s2[m] < self.nodes@.len() by {
                assert(s2[m] == s[m]);
            }
            if k > 0 {
                assert(s2[0] == s[0]);
            }
        }
    }
}

/// Hands out, in order, the contents of the linked nodes from `current_id_op` up to (not
/// including) `last_id`, unlinking each.
pub struct DLLIter {
    pub current_id_op: Option<DLLNodeID>,
    pub last_id: Option<DLLNodeID>,
}

impl DLLIter {
    /// The nodes still to hand out, given the arena.
    pub open spec fn remaining<T, O>(&self, arena: &ArenaDLL<T, O>) -> Seq<usize> {
        match self.current_id_op {
            None => Seq::empty(),
            Some(cur) => {
                let s = arena.order();
                let a = s.index_of(cur.0);
                match self.last_id {
                    None => s.subrange(a, s.len() as int),
                    Some(last) => s.subrange(a, s.index_of(last.0)),
                }
            },
        }
    }

    /// The iterator's place is a linked node (or nothing), and its end is linked after it.
    pub open spec fn valid_for<T, O>(&self, arena: &ArenaDLL<T, O>) -> bool {
        let s = arena.order();
        &&& arena.wf()
        &&& (self.last_id matches Some(last) ==> s.contains(last.0))
        &&& match self.current_id_op {
            None => self.last_id is None,
            Some(cur) => s.contains(cur.0) && (self.last_id matches Some(last) ==> s.index_of(
                cur.0,
            ) <= s.index_of(last.0)),
        }
    }

    pub fn next<T, O: Copy>(&mut self, base_arena: &mut ArenaDLL<T, O>) -> (r: Option<(T, O)>)
        requires
            old(self).valid_for(&*old(base_arena)),
        ensures
            final(self).valid_for(&*final(base_arena)),
            old(self).remaining(&*old(base_arena)).len() == 0 ==> r is None && *final(base_arena)
                == *old(base_arena),
            old(self).remaining(&*old(base_arena)).len() > 0 ==> {
                let id = old(self).remaining(&*old(base_arena))[0];
                &&& r matches Some((c, p)) && Some(c) == old(base_arena).content_of(id) && p
                    == old(base_arena).pos_of(id)
                &&& final(base_arena).order() == old(base_arena).order().remove(
                    old(base_arena).order().index_of(id),
                )
                &&& final(self).remaining(&*final(base_arena)) == old(self).remaining(
                    &*old(base_arena),
                ).drop_first()
                &&& final(base_arena).size() == old(base_arena).size()
                &&& final(base_arena).content_of(id) is None
                &&& forall|i: usize|
                    i < old(base_arena).size() && i != id ==> #[trigger] final(base_arena).content_of(i)
                        == old(base_arena).content_of(i) && final(base_arena).pos_of(i)
                        == old(base_arena).pos_of(i)
            },
    {
        if self.current_id_op == self.last_id {
            proof {
                if let Some(c) = self.current_id_op {
                    let s = base_arena.order();
                    assert(s.subrange(s.index_of(c.0), s.index_of(c.0)) =~= Seq::<usize>::empty());
                }
            }
            None
        } else {
            let current_id = match self.current_id_op {
                Some(c) => c,
                None => {
                    return None;
                },
            };
            let ghost s = base_arena.order();
            let ghost a = s.index_of(current_id.0);
            proof {
                assert(s[a] == current_id.0);
                if let Some(last) = self.last_id {
                    assert(s[s.index_of(last.0)] == last.0);
                    assert(s.index_of(last.0) != a);
                }
            }
            let content_out = base_arena.take_content_at_id(current_id);
            let pos_out = *base_arena.get_position_indicator(current_id);
            self.current_id_op = base_arena.get_next_id(current_id);
            proof {
                let s2 = base_arena.order();
                assert(old(base_arena).nodes@[s[a] as int].id_of_next == id_opt(s, a + 1));
                assert(s2 =~= s.remove(a));
                if a + 1 < s.len() {
                    assert(s2[a] == s[a + 1]);
                    assert(s2.index_of(s[a + 1]) == a) by {
                        assert(s2.contains(s[a + 1]));
                        let j = s2.index_of(s[a + 1]);
                        assert(s2[j] == s[a + 1]);
                        let j1 = if j < a { j } else { j + 1 };
                        assert(s2[j] == s[j1]);
                    }
                }
                if let Some(last) = self.last_id {
                    let l = s.index_of(last.0);
                    assert(s[l] == last.0);
                    assert(s2[l - 1] == s[l]);
                    assert(s2.index_of(last.0) == l - 1) by {
                        let j = s2.index_of(last.0);
                        assert(s2.contains(last.0));
                        assert(s2[j] == last.0);
                        let j1 = if j < a { j } else { j + 1 };
                        assert(s2[j] == s[j1]);
                    }
                }
                let rem_old = old(self).remaining(&*old(base_arena));
                let rem_new = self.remaining(&*base_arena);
                assert(rem_new =~= rem_old.drop_first());
            }
            Some((content_out, pos_out))
        }
    }
}

impl<T, O> ArenaDLL<T, O> {
    /// An iterator over the linked nodes strictly between two linked nodes.
    pub fn take_content_between(&self, bottom_node_id: DLLNodeID, top_node_id: DLLNodeID) -> (r: DLLIter)
        requires
            self.wf(),
            self.order().contains(bottom_node_id.0),
            self.order().contains(top_node_id.0),
            self.order().index_of(bottom_node_id.0) < self.order().index_of(top_node_id.0),
        ensures
            r.valid_for(self),
            r.remaining(self) == self.order().subrange(
                self.order().index_of(bottom_node_id.0) + 1,
                self.order().index_of(top_node_id.0),
            ),
    {
        let ghost s = self.order@;
        proof {
            let b = s.index_of(bottom_node_id.0);
            assert(s[b] == bottom_node_id.0);
            assert(self.nodes@[s[b] as int].id_of_next == id_opt(s, b + 1));
            assert(s.index_of(s[b + 1]) == b + 1) by {
                let j = s.index_of(s[b + 1]);
                assert(s.contains(s[b + 1]));
            }
        }
        DLLIter { current_id_op: self.get_next_id(bottom_node_id), last_id: Some(top_node_id) }
    }

    /// An iterator over the linked nodes after `bottom_node_id` (after none: all of them).
    pub fn take_content_above(&self, bottom_node_id: Option<DLLNodeID>) -> (r: DLLIter)
        requires
            self.wf(),
            bottom_node_id matches Some(b) ==> self.order().contains(b.0),
        ensures
            r.valid_for(self),
            r.remaining(self) == match bottom_node_id {
                Some(b) => self.order().subrange(self.order().index_of(b.0) + 1, self.order().len() as int),
                None => self.order(),
            },
    {
        let ghost s = self.order@;
        let current = match bottom_node_id {
            Some(b) => {
                proof {
                    let bi = s.index_of(b.0);
                    assert(s[bi] == b.0);
                    assert(self.nodes@[s[bi] as int].id_of_next == id_opt(s, bi + 1));
                    if bi + 1 < s.len() {
                        assert(s.index_of(s[bi + 1]) == bi + 1) by {
                            assert(s.contains(s[bi + 1]));
                        }
                    } else {
                        assert(s.subrange(bi + 1, s.len() as int) =~= Seq::<usize>::empty());
                    }
                }
                self.get_next_id(b)
            },
            None => {
                proof {
                    if s.len() > 0 {
                        assert(s.index_of(s[0]) == 0) by {
                            assert(s.contains(s[0]));
                        }
                        assert(s.subrange(0, s.len() as int) =~= s);
                    }
                }
                self.start_id
            },
        };
        DLLIter { current_id_op: current, last_id: None }
    }
}

} // verus!

verus! {

/// Deleting a linked node unlinks it and only it: the list is one shorter and the other nodes
/// keep their order.
pub proof fn law_delete_unlinks<T, O>(before: ArenaDLL<T, O>, after: ArenaDLL<T, O>, id: DLLNodeID)
    requires
        before.wf(),
        before.order().contains(id.0),
        after.order() == before.order().remove(before.order().index_of(id.0)),
    ensures
        !after.order().contains(id.0),
        after.order().len() == before.order().len() - 1,
        forall|x: usize| x != id.0 ==> (after.order().contains(x) <==> before.order().contains(x)),
{
    let s = before.order();
    let k = s.index_of(id.0);
    assert(s[k] == id.0);
    let s2 = s.remove(k);
    assert forall|x: usize| x != id.0 implies (s2.contains(x) <==> s.contains(x)) by {
        if s.contains(x) {
            let j = s.index_of(x);
            assert(s[j] == x);
            assert(j != k);
            if j < k {
                assert(s2[j] == x);
            } else {
                assert(s2[j - 1] == x);
            }
        }
        if s2.contains(x) {
            let j = choose|j: int| 0 <= j < s2.len() && s2[j] == x;
            if j < k {
                assert(s[j] == x);
            } else {
                assert(s[j + 1] == x);
            }
        }
    }
    if s2.contains(id.0) {
        let j = choose|j: int| 0 <= j < s2.len() && s2[j] == id.0;
        if j < k {
            assert(s[j] == id.0);
        } else {
            assert(s[j + 1] == id.0);
        }
    }
}

/// A node pushed at the back is the last linked node, linked after the old last one and before
/// none; the first node stays, unless the list was empty and the new node is now the first.
pub proof fn law_push_back_then_end<T, O>(before: ArenaDLL<T, O>, after: ArenaDLL<T, O>, id: DLLNodeID)
    requires
        after.wf(),
        after.order() == before.order().push(id.0),
    ensures
        id_opt(after.order(), after.order().len() - 1) == Some(id),
        after.end_id == Some(id),
        after.start_id == (if before.order().len() == 0 {
            Some(id)
        } else {
            id_opt(before.order(), 0)
        }),
        after.prev_of(id.0) == id_opt(before.order(), before.order().len() - 1),
        after.next_of(id.0) is None,
{
    let s = after.order();
    let k = s.len() - 1;
    assert(s[k] == id.0);
    assert(after.nodes@[s[k] as int].id_of_prev == id_opt(s, k - 1));
}

/// A node put in place of the nodes between `b` and `t` is linked after `b` and before `t`.
pub proof fn law_replace_range_links<T, O>(
    before: ArenaDLL<T, O>,
    after: ArenaDLL<T, O>,
    b: DLLNodeID,
    t: DLLNodeID,
    id: DLLNodeID,
)
    requires
        after.wf(),
        before.wf(),
        before.order().contains(b.0),
        before.order().contains(t.0),
        before.order().index_of(b.0) < before.order().index_of(t.0),
        after.order() == before.order().take(before.order().index_of(b.0) + 1) + seq![id.0] + before.order().skip(
            before.order().index_of(t.0),
        ),
    ensures
        after.prev_of(id.0) == Some(b),
        after.next_of(id.0) == Some(t),
        after.order().contains(id.0),
{
    let s0 = before.order();
    let i = s0.index_of(b.0);
    let j = s0.index_of(t.0);
    assert(s0[i] == b.0);
    assert(s0[j] == t.0);
    let s = after.order();
    assert(s[i + 1] == id.0);
    assert(s[i] == b.0);
    assert(s[i + 2] == t.0);
    assert(after.nodes@[s[i + 1] as int].id_of_prev == id_opt(s, i));
}

} // verus!
