use crate::gapbuffer::deque_slot;
use std::collections::VecDeque;
use vstd::prelude::*;

verus! {

/// The store a piece takes its bytes from.
#[derive(Copy, Clone, PartialEq, Eq, Structural, Debug)]
pub enum BufferType {
    Original,
    Added,
}

/// A piece: `offset` bytes of the store `from`, starting at `index`, with the
/// offsets (from the piece's start) at which its lines start.
#[derive(Clone, PartialEq, Debug)]
pub struct BufferNode {
    pub from: BufferType,
    pub index: usize,
    pub offset: usize,
    pub line_offsets: Vec<usize>,
}

/// Two pieces are the same piece.
pub open spec fn same_node(a: BufferNode, b: BufferNode) -> bool {
    &&& a.from == b.from
    &&& a.index == b.index
    &&& a.offset == b.offset
    &&& a.line_offsets@ == b.line_offsets@
}

/// The piece has a line end, that is more than one line start.
pub open spec fn node_has_newline(n: BufferNode) -> bool {
    n.line_offsets@.len() > 1
}

impl BufferNode {
    pub fn new(from: BufferType, index: usize, offset: usize, line_offsets: Vec<usize>) -> (r:
        BufferNode)
        ensures
            r.from == from,
            r.index == index,
            r.offset == offset,
            r.line_offsets == line_offsets,
    {
        BufferNode { from, index, offset, line_offsets }
    }

    pub fn index(&self) -> (r: usize)
        ensures
            r == self.index,
    {
        self.index
    }

    pub fn offset(&self) -> (r: usize)
        ensures
            r == self.offset,
    {
        self.offset
    }

    pub fn from(&self) -> (r: BufferType)
        ensures
            r == self.from,
    {
        self.from
    }

    pub fn line_offsets(&mut self) -> (r: &mut Vec<usize>)
        ensures
            *r == old(self).line_offsets,
            final(self).from == old(self).from,
            final(self).index == old(self).index,
            final(self).offset == old(self).offset,
            final(self).line_offsets == *final(r),
    {
        &mut self.line_offsets
    }

    pub fn line_offset_at(&self, idx: usize) -> (r: usize)
        requires
            idx < self.line_offsets@.len(),
        ensures
            r == self.line_offsets@[idx as int],
    {
        self.line_offsets[idx]
    }

    pub fn line_offsets_len(&self) -> (r: usize)
        ensures
            r == self.line_offsets@.len(),
    {
        self.line_offsets.len()
    }

    pub fn last_line_offset(&self) -> (r: usize)
        requires
            self.line_offsets@.len() > 0,
        ensures
            r == self.line_offsets@.last(),
    {
        self.line_offsets[self.line_offsets.len() - 1]
    }

    pub fn has_newline(&self) -> (r: bool)
        ensures
            r == node_has_newline(*self),
    {
        self.line_offsets_len() > 1
    }
}

/// Compares two pieces field by field.
pub fn nodes_equal(a: &BufferNode, b: &BufferNode) -> (r: bool)
    ensures
        r == same_node(*a, *b),
{
    if a.from != b.from || a.index != b.index || a.offset != b.offset
        || a.line_offsets.len() != b.line_offsets.len() {
        return false;
    }
    let mut i: usize = 0;
    while i < a.line_offsets.len()
        invariant
            i <= a.line_offsets@.len(),
            a.line_offsets@.len() == b.line_offsets@.len(),
            forall|j: int| 0 <= j < i ==> a.line_offsets@[j] == b.line_offsets@[j],
        decreases a.line_offsets@.len() - i,
    {
        if a.line_offsets[i] != b.line_offsets[i] {
            return false;
        }
        i = i + 1;
    }
    proof {
        assert(a.line_offsets@ =~= b.line_offsets@);
    }
    true
}

/// The pieces of a document with a current one: `left_list` holds the pieces
/// up to and including the current one (its last entry), `right_list` those
/// after it.
#[derive(Debug)]
pub struct NodeList {
    pub left_list: VecDeque<BufferNode>,
    pub right_list: VecDeque<BufferNode>,
}

impl NodeList {
    /// All the pieces, in order.
    pub open spec fn nodes(&self) -> Seq<BufferNode> {
        self.left_list@ + self.right_list@
    }

    /// Pieces after the current one imply a current one.
    pub open spec fn wf(&self) -> bool {
        self.left_list@.len() == 0 ==> self.right_list@.len() == 0
    }

    /// Position of the current piece.
    pub open spec fn cur_index(&self) -> int {
        self.left_list@.len() - 1
    }

    pub fn new() -> (r: NodeList)
        ensures
            r.left_list@.len() == 0,
            r.right_list@.len() == 0,
    {
        NodeList { left_list: VecDeque::new(), right_list: VecDeque::new() }
    }

    /// The pieces of `contents`, the first one current.
    pub fn with_contents(contents: Vec<BufferNode>) -> (r: NodeList)
        requires
            contents@.len() > 0,
        ensures
            r.left_list@ == contents@.take(1),
            r.right_list@ == contents@.skip(1),
    {
        let ghost orig = contents@;
        let mut contents = contents;
        let first = contents.remove(0);
        let mut left: VecDeque<BufferNode> = VecDeque::new();
        left.push_back(first);
        let mut right: VecDeque<BufferNode> = VecDeque::new();
        let ghost rest = contents@;
        while contents.len() > 0
            invariant
                right@ + contents@ == rest,
            decreases contents.len(),
        {
            let e = contents.remove(0);
            right.push_back(e);
            proof {
                assert(right@ + contents@ =~= rest);
            }
        }
        proof {
            assert(right@ =~= rest);
            assert(rest =~= orig.skip(1));
            assert(left@ =~= orig.take(1));
        }
        NodeList { left_list: left, right_list: right }
    }

    pub fn is_empty(&self) -> (r: bool)
        requires
            self.wf(),
        ensures
            r == (self.nodes().len() == 0),
    {
        self.left_list.len() == 0
    }

    pub fn len(&self) -> (r: usize)
        requires
            self.left_list@.len() + self.right_list@.len() <= usize::MAX,
        ensures
            r == self.nodes().len(),
    {
        self.left_list.len() + self.right_list.len()
    }

    pub fn index(&self) -> (r: usize)
        requires
            self.left_list@.len() > 0,
        ensures
            r == self.cur_index(),
    {
        self.left_list.len() - 1
    }

    /// Makes the piece at `index` current.
    pub fn shift_to_index(&mut self, index: usize)
        requires
            old(self).wf(),
            index < old(self).nodes().len(),
            old(self).nodes().len() <= usize::MAX,
        ensures
            final(self).nodes() == old(self).nodes(),
            final(self).cur_index() == index,
    {
        while self.index() < index
            invariant
                self.nodes() == old(self).nodes(),
                self.left_list@.len() > 0,
                index < self.nodes().len(),
            decreases self.right_list@.len(),
        {
            self.move_right();
        }
        while self.index() > index
            invariant
                self.nodes() == old(self).nodes(),
                self.left_list@.len() > 0,
                index <= self.cur_index(),
            decreases self.left_list@.len(),
        {
            self.move_left();
        }
    }

    pub fn get_curr(&self) -> (r: &BufferNode)
        requires
            self.left_list@.len() > 0,
        ensures
            *r == self.left_list@.last(),
    {
        &self.left_list[self.left_list.len() - 1]
    }

    pub fn get_next(&self) -> (r: &BufferNode)
        requires
            self.right_list@.len() > 0,
        ensures
            *r == self.right_list@[0],
    {
        &self.right_list[0]
    }

    pub fn get_prev(&self) -> (r: &BufferNode)
        requires
            self.left_list@.len() >= 2,
        ensures
            *r == self.left_list@[self.left_list@.len() - 2],
    {
        &self.left_list[self.left_list.len() - 2]
    }

    pub fn get_curr_mut(&mut self) -> (r: &mut BufferNode)
        requires
            old(self).left_list@.len() > 0,
        ensures
            *r == old(self).left_list@.last(),
            final(self).left_list@ == old(self).left_list@.update(
                old(self).left_list@.len() - 1,
                *final(r),
            ),
            final(self).right_list@ == old(self).right_list@,
    {
        let i = self.left_list.len() - 1;
        deque_slot(&mut self.left_list, i)
    }

    pub fn get_next_mut(&mut self) -> (r: &mut BufferNode)
        requires
            old(self).right_list@.len() > 0,
        ensures
            *r == old(self).right_list@[0],
            final(self).right_list@ == old(self).right_list@.update(0, *final(r)),
            final(self).left_list@ == old(self).left_list@,
    {
        deque_slot(&mut self.right_list, 0)
    }

    pub fn get_prev_mut(&mut self) -> (r: &mut BufferNode)
        requires
            old(self).left_list@.len() >= 2,
        ensures
            *r == old(self).left_list@[old(self).left_list@.len() - 2],
            final(self).left_list@ == old(self).left_list@.update(
                old(self).left_list@.len() - 2,
                *final(r),
            ),
            final(self).right_list@ == old(self).right_list@,
    {
        let i = self.left_list.len() - 2;
        deque_slot(&mut self.left_list, i)
    }

    /// Appends `node` to the first part: it becomes current.
    pub fn insert_curr(&mut self, node: BufferNode)
        ensures
            final(self).left_list@ == old(self).left_list@.push(node),
            final(self).right_list@ == old(self).right_list@,
    {
        self.left_list.push_back(node);
    }

    /// Puts `node` right after the current piece (it becomes current in an
    /// empty list).
    pub fn insert_next(&mut self, node: BufferNode)
        ensures
            old(self).left_list@.len() == 0 ==> final(self).left_list@ == seq![node]
                && final(self).right_list@ == old(self).right_list@,
            old(self).left_list@.len() > 0 ==> final(self).left_list@ == old(self).left_list@
                && final(self).right_list@ == seq![node] + old(self).right_list@,
    {
        if self.left_list.len() == 0 {
            self.left_list.push_front(node);
        } else {
            self.right_list.push_front(node);
        }
    }

    /// Puts `node` right before the current piece (it becomes current in an
    /// empty list).
    pub fn insert_prev(&mut self, node: BufferNode)
        ensures
            final(self).left_list@ == if old(self).left_list@.len() == 0 {
                seq![node]
            } else {
                old(self).left_list@.insert(old(self).left_list@.len() - 1, node)
            },
            final(self).right_list@ == old(self).right_list@,
    {
        if self.left_list.len() == 0 {
            self.left_list.push_front(node);
            return ;
        }
        let idx = self.left_list.len() - 1;
        self.left_list.insert(idx, node);
    }

    /// Replaces the current piece with `nodes`, in order; the last of them
    /// becomes current.
    pub fn replace_curr(&mut self, nodes: Vec<BufferNode>)
        requires
            old(self).left_list@.len() > 0,
            nodes@.len() > 0,
        ensures
            final(self).left_list@ == old(self).left_list@.drop_last() + nodes@,
            final(self).right_list@ == old(self).right_list@,
    {
        let _ = self.left_list.pop_back();
        let mut nodes = nodes;
        let ghost orig = nodes@;
        let ghost base = self.left_list@;
        while nodes.len() > 0
            invariant
                self.left_list@ + nodes@ == base + orig,
                self.right_list@ == old(self).right_list@,
            decreases nodes.len(),
        {
            let n = nodes.remove(0);
            self.left_list.push_back(n);
            proof {
                assert(self.left_list@ + nodes@ =~= base + orig);
            }
        }
        proof {
            assert(self.left_list@ =~= base + orig);
        }
    }

    /// Drops the current piece. The following piece moves into the current
    /// slot when there is one; otherwise the previous piece becomes current,
    /// or the list is left empty.
    pub fn remove_curr(&mut self)
        requires
            old(self).left_list@.len() > 0,
        ensures
            final(self).nodes() == old(self).nodes().remove(old(self).cur_index()),
            old(self).right_list@.len() > 0 ==> final(self).left_list@ == old(self).left_list@.drop_last().push(old(self).right_list@[0])
                && final(self).right_list@ == old(self).right_list@.drop_first(),
            old(self).right_list@.len() == 0 ==> final(self).left_list@ == old(self).left_list@.drop_last() && final(self).right_list@ == old(self).right_list@,
    {
        let _ = self.left_list.pop_back();
        if self.right_list.len() > 0 {
            match self.right_list.pop_front() {
                Some(e) => {
                    self.left_list.push_back(e);
                },
                None => {},
            }
        }
        proof {
            assert(final(self).nodes() =~= old(self).nodes().remove(old(self).cur_index()));
        }
    }

    /// Drops the piece before the current one, if any.
    pub fn remove_prev(&mut self)
        ensures
            final(self).left_list@ == if old(self).left_list@.len() < 2 {
                old(self).left_list@
            } else {
                old(self).left_list@.remove(old(self).left_list@.len() - 2)
            },
            final(self).right_list@ == old(self).right_list@,
    {
        if self.left_list.len() < 2 {
            return ;
        }
        match self.left_list.pop_back() {
            Some(e) => {
                let _ = self.left_list.pop_back();
                self.left_list.push_back(e);
                proof {
                    let l = old(self).left_list@;
                    assert(final(self).left_list@ =~= l.remove(l.len() - 2));
                }
            },
            None => {},
        }
    }

    /// Drops the piece after the current one, if any.
    pub fn remove_next(&mut self)
        ensures
            final(self).left_list@ == old(self).left_list@,
            final(self).right_list@ == if old(self).right_list@.len() == 0 {
                old(self).right_list@
            } else {
                old(self).right_list@.drop_first()
            },
    {
        let _ = self.right_list.pop_front();
    }

    pub fn at_head(&self) -> (r: bool)
        ensures
            r == (self.left_list@.len() == 1),
    {
        self.left_list.len() == 1
    }

    pub fn at_tail(&self) -> (r: bool)
        requires
            self.wf(),
        ensures
            r == (self.right_list@.len() == 0 && self.left_list@.len() > 0),
    {
        self.right_list.len() == 0 && !self.is_empty()
    }

    /// Makes the previous piece current; nothing happens at the head.
    pub fn move_left(&mut self)
        ensures
            final(self).nodes() == old(self).nodes(),
            old(self).left_list@.len() < 2 ==> final(self).left_list@ == old(self).left_list@
                && final(self).right_list@ == old(self).right_list@,
            old(self).left_list@.len() >= 2 ==> final(self).left_list@ == old(self).left_list@.drop_last() && final(self).right_list@ == seq![
                old(self).left_list@.last(),
            ] + old(self).right_list@,
    {
        if self.left_list.len() < 2 {
            return ;
        }
        match self.left_list.pop_back() {
            Some(e) => {
                self.right_list.push_front(e);
                proof {
                    assert(final(self).nodes() =~= old(self).nodes());
                }
            },
            None => {},
        }
    }

    /// Makes the next piece current; nothing happens at the tail.
    pub fn move_right(&mut self)
        ensures
            final(self).nodes() == old(self).nodes(),
            old(self).right_list@.len() == 0 ==> final(self).left_list@ == old(self).left_list@
                && final(self).right_list@ == old(self).right_list@,
            old(self).right_list@.len() > 0 ==> final(self).left_list@ == old(self).left_list@.push(old(self).right_list@[0]) && final(self).right_list@ == old(self).right_list@.drop_first(),
    {
        if self.right_list.len() < 1 {
            return ;
        }
        match self.right_list.pop_front() {
            Some(e) => {
                self.left_list.push_back(e);
                proof {
                    assert(final(self).nodes() =~= old(self).nodes());
                }
            },
            None => {},
        }
    }

    /// The piece at position `index`.
    pub fn get(&self, index: usize) -> (r: &BufferNode)
        requires
            index < self.nodes().len(),
        ensures
            *r == self.nodes()[index as int],
    {
        if index < self.left_list.len() {
            &self.left_list[index]
        } else {
            &self.right_list[index - self.left_list.len()]
        }
    }

    /// The piece at position `index`.
    pub fn get_mut(&mut self, index: usize) -> (r: &BufferNode)
        requires
            index < old(self).nodes().len(),
        ensures
            *r == old(self).nodes()[index as int],
            final(self).left_list@ == old(self).left_list@,
            final(self).right_list@ == old(self).right_list@,
    {
        if index < self.left_list.len() {
            &self.left_list[index]
        } else {
            &self.right_list[index - self.left_list.len()]
        }
    }

    /// References to all the pieces, in order.
    pub fn iter(&self) -> (r: Vec<&BufferNode>)
        ensures
            r@.len() == self.nodes().len(),
            forall|i: int| 0 <= i < r@.len() ==> *r@[i] == self.nodes()[i],
    {
        let mut out = node_refs(&self.left_list);
        let mut rest = node_refs(&self.right_list);
        out.append(&mut rest);
        out
    }

    /// References to the pieces up to and including the current one.
    pub fn iter_until_curr(&self) -> (r: Vec<&BufferNode>)
        ensures
            r@.len() == self.left_list@.len(),
            forall|i: int| 0 <= i < r@.len() ==> *r@[i] == self.left_list@[i],
    {
        node_refs(&self.left_list)
    }

    /// References to the pieces after the current one.
    pub fn iter_from_after_curr(&self) -> (r: Vec<&BufferNode>)
        ensures
            r@.len() == self.right_list@.len(),
            forall|i: int| 0 <= i < r@.len() ==> *r@[i] == self.right_list@[i],
    {
        node_refs(&self.right_list)
    }

    /// Steps left at least once (unless at the head) and on to the nearest
    /// piece with a line end, stopping at the head.
    pub fn move_to_prev_newline(&mut self)
        requires
            old(self).left_list@.len() > 0,
        ensures
            final(self).nodes() == old(self).nodes(),
            final(self).left_list@.len() > 0,
            old(self).cur_index() == 0 ==> final(self).cur_index() == 0,
            old(self).cur_index() > 0 ==> final(self).cur_index() < old(self).cur_index(),
            final(self).cur_index() > 0 ==> node_has_newline(
                final(self).nodes()[final(self).cur_index()],
            ),
            forall|i: int|
                final(self).cur_index() < i < old(self).cur_index() ==> !node_has_newline(
                    old(self).nodes()[i],
                ),
    {
        self.move_left();
        while !self.get_curr().has_newline() && !self.at_head()
            invariant
                self.nodes() == old(self).nodes(),
                self.left_list@.len() > 0,
                old(self).cur_index() == 0 ==> self.cur_index() == 0,
                old(self).cur_index() > 0 ==> self.cur_index() < old(self).cur_index(),
                forall|i: int|
                    self.cur_index() < i < old(self).cur_index() ==> !node_has_newline(
                        old(self).nodes()[i],
                    ),
            decreases self.left_list@.len(),
        {
            self.move_left();
        }
    }

    /// Steps right at least once (unless at the tail) and on to the nearest
    /// piece with a line end, stopping at the tail.
    pub fn move_to_next_newline(&mut self)
        requires
            old(self).left_list@.len() > 0,
        ensures
            final(self).nodes() == old(self).nodes(),
            final(self).left_list@.len() > 0,
            old(self).right_list@.len() == 0 ==> final(self).cur_index() == old(self).cur_index(),
            old(self).right_list@.len() > 0 ==> final(self).cur_index() > old(self).cur_index(),
            final(self).right_list@.len() > 0 && final(self).cur_index() > old(self).cur_index()
                ==> node_has_newline(final(self).nodes()[final(self).cur_index()]),
            forall|i: int|
                old(self).cur_index() < i < final(self).cur_index() ==> !node_has_newline(
                    old(self).nodes()[i],
                ),
    {
        self.move_right();
        while !self.get_curr().has_newline() && self.right_list.len() > 0
            invariant
                self.nodes() == old(self).nodes(),
                self.left_list@.len() > 0,
                old(self).right_list@.len() == 0 ==> self.cur_index() == old(self).cur_index(),
                old(self).right_list@.len() > 0 ==> self.cur_index() > old(self).cur_index(),
                forall|i: int|
                    old(self).cur_index() < i < self.cur_index() ==> !node_has_newline(
                        old(self).nodes()[i],
                    ),
            decreases self.right_list@.len(),
        {
            self.move_right();
        }
    }
}

fn node_refs(d: &VecDeque<BufferNode>) -> (r: Vec<&BufferNode>)
    ensures
        r@.len() == d@.len(),
        forall|i: int| 0 <= i < r@.len() ==> *r@[i] == d@[i],
{
    let mut out: Vec<&BufferNode> = Vec::new();
    let mut i: usize = 0;
    while i < d.len()
        invariant
            i <= d@.len(),
            out@.len() == i,
            forall|j: int| 0 <= j < i ==> *out@[j] == d@[j],
        decreases d@.len() - i,
    {
        out.push(&d[i]);
        i = i + 1;
    }
    out
}

impl PartialEq<Vec<BufferNode>> for NodeList {
    fn eq(&self, other: &Vec<BufferNode>) -> (r: bool) {
        if other.len() < self.left_list.len() || other.len() - self.left_list.len()
            != self.right_list.len() {
            return false;
        }
        let mut i: usize = 0;
        while i < other.len()
            invariant
                i <= other@.len(),
                other@.len() == self.nodes().len(),
                forall|j: int| 0 <= j < i ==> same_node(self.nodes()[j], other@[j]),
            decreases other@.len() - i,
        {
            if !nodes_equal(self.get(i), &other[i]) {
                return false;
            }
            i = i + 1;
        }
        true
    }
}

impl vstd::std_specs::cmp::PartialEqSpecImpl<Vec<BufferNode>> for NodeList {
    open spec fn obeys_eq_spec() -> bool {
        true
    }

    open spec fn eq_spec(&self, other: &Vec<BufferNode>) -> bool {
        &&& self.nodes().len() == other@.len()
        &&& forall|j: int| 0 <= j < other@.len() ==> same_node(self.nodes()[j], other@[j])
    }
}

} // verus!
