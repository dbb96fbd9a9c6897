use crate::nodelist::{BufferNode, BufferType, NodeList};
use crate::text::{
    column, lemma_column_concat, lemma_column_window, lemma_counts_bounded, lemma_down_counts,
    lemma_has_line_below, lemma_line_starts, lemma_line_starts_nonempty, lemma_line_starts_split,
    lemma_newline_count_concat, lemma_prev_line_end, lemma_push, lemma_rest_concat,
    lemma_rest_from_line_starts, lemma_take_skip, line_above, line_below, line_starts,
    newline_count, rest_of_line, NEWLINE,
};
use crate::utils::Cursor;
use vstd::prelude::*;
use vstd::string::StringSliceAdditionalSpecFns;
use vstd::utf8::{decode_utf8, encode_utf8, valid_utf8};

verus! {

/// The store that pieces from `from` read.
pub open spec fn store(orig: Seq<u8>, added: Seq<u8>, from: BufferType) -> Seq<u8> {
    match from {
        BufferType::Original => orig,
        BufferType::Added => added,
    }
}

/// The bytes a piece stands for.
pub open spec fn node_text(orig: Seq<u8>, added: Seq<u8>, n: BufferNode) -> Seq<u8> {
    store(orig, added, n.from).subrange(n.index as int, n.index + n.offset)
}

/// A piece is non-empty, lies within its store, and its line table is right.
pub open spec fn node_ok(orig: Seq<u8>, added: Seq<u8>, n: BufferNode) -> bool {
    &&& n.offset > 0
    &&& n.index + n.offset <= store(orig, added, n.from).len()
    &&& n.line_offsets@ == line_starts(node_text(orig, added, n))
}

/// The text of a run of pieces.
pub open spec fn flat(orig: Seq<u8>, added: Seq<u8>, nodes: Seq<BufferNode>) -> Seq<u8>
    decreases nodes.len(),
{
    if nodes.len() == 0 {
        Seq::empty()
    } else {
        flat(orig, added, nodes.drop_last()) + node_text(orig, added, nodes.last())
    }
}

pub open spec fn all_ok(orig: Seq<u8>, added: Seq<u8>, nodes: Seq<BufferNode>) -> bool {
    forall|i: int| 0 <= i < nodes.len() ==> node_ok(orig, added, #[trigger] nodes[i])
}

/// The text of two runs one after the other.
pub proof fn lemma_flat_concat(orig: Seq<u8>, added: Seq<u8>, x: Seq<BufferNode>, y: Seq<BufferNode>)
    ensures
        flat(orig, added, x + y) == flat(orig, added, x) + flat(orig, added, y),
    decreases y.len(),
{
    if y.len() == 0 {
        assert(x + y =~= x);
        assert(flat(orig, added, x) + Seq::<u8>::empty() =~= flat(orig, added, x));
    } else {
        lemma_flat_concat(orig, added, x, y.drop_last());
        assert((x + y).drop_last() =~= x + y.drop_last());
        assert((x + y).last() == y.last());
        assert(flat(orig, added, x + y) =~= flat(orig, added, x) + flat(orig, added, y));
    }
}

/// Appending to the added store changes no piece that is already there.
proof fn lemma_flat_extend(orig: Seq<u8>, added: Seq<u8>, added2: Seq<u8>, nodes: Seq<BufferNode>)
    requires
        added.len() <= added2.len(),
        added2.take(added.len() as int) == added,
        all_ok(orig, added, nodes),
    ensures
        flat(orig, added2, nodes) == flat(orig, added, nodes),
        all_ok(orig, added2, nodes),
    decreases nodes.len(),
{
    assert forall|i: int| 0 <= i < nodes.len() implies node_text(orig, added2, nodes[i])
        == node_text(orig, added, nodes[i]) by {
        let n = nodes[i];
        assert(node_ok(orig, added, n));
        if n.from == BufferType::Added {
            assert(added2.subrange(n.index as int, n.index + n.offset) =~= added.subrange(
                n.index as int,
                n.index + n.offset,
            ));
        }
    }
    assert forall|i: int| 0 <= i < nodes.len() implies node_ok(orig, added2, #[trigger] nodes[i]) by {
        assert(node_ok(orig, added, nodes[i]));
        assert(node_text(orig, added2, nodes[i]) == node_text(orig, added, nodes[i]));
    }
    if nodes.len() > 0 {
        let d = nodes.drop_last();
        assert forall|i: int| 0 <= i < d.len() implies node_ok(orig, added, #[trigger] d[i]) by {
            assert(d[i] == nodes[i]);
        }
        lemma_flat_extend(orig, added, added2, d);
        assert(node_text(orig, added2, nodes[nodes.len() - 1]) == node_text(orig, added, nodes[nodes.len() - 1]));
    }
}

/// The text of a single piece.
proof fn lemma_flat_single(orig: Seq<u8>, added: Seq<u8>, x: BufferNode)
    ensures
        flat(orig, added, seq![x]) == node_text(orig, added, x),
{
    assert(seq![x].drop_last() =~= Seq::<BufferNode>::empty());
    assert(seq![x].last() == x);
    assert(flat(orig, added, Seq::<BufferNode>::empty()) =~= Seq::<u8>::empty());
    assert(flat(orig, added, seq![x]) == flat(orig, added, seq![x].drop_last()) + node_text(
        orig,
        added,
        seq![x].last(),
    ));
    assert(flat(orig, added, seq![x]) =~= node_text(orig, added, x));
}

/// Validity of a run splits over concatenation.
proof fn lemma_all_ok_concat(orig: Seq<u8>, added: Seq<u8>, x: Seq<BufferNode>, y: Seq<BufferNode>)
    ensures
        all_ok(orig, added, x + y) == (all_ok(orig, added, x) && all_ok(orig, added, y)),
{
    if all_ok(orig, added, x + y) {
        assert forall|i: int| 0 <= i < x.len() implies node_ok(orig, added, #[trigger] x[i]) by {
            assert(x[i] == (x + y)[i]);
        }
        assert forall|i: int| 0 <= i < y.len() implies node_ok(orig, added, #[trigger] y[i]) by {
            assert(y[i] == (x + y)[x.len() + i]);
        }
    }
    if all_ok(orig, added, x) && all_ok(orig, added, y) {
        assert forall|i: int| 0 <= i < (x + y).len() implies node_ok(orig, added, #[trigger] (x + y)[i]) by {
            if i < x.len() {
                assert(x[i] == (x + y)[i]);
            } else {
                assert(y[i - x.len()] == (x + y)[i]);
            }
        }
    }
}

/// Validity of a run with one more piece.
proof fn lemma_all_ok_push(orig: Seq<u8>, added: Seq<u8>, x: Seq<BufferNode>, n: BufferNode)
    ensures
        all_ok(orig, added, x.push(n)) == (all_ok(orig, added, x) && node_ok(orig, added, n)),
{
    lemma_all_ok_concat(orig, added, x, seq![n]);
    assert(x.push(n) =~= x + seq![n]);
    assert(seq![n][0] == n);
}

/// A run of valid pieces is at least as long as it has pieces.
proof fn lemma_flat_len(orig: Seq<u8>, added: Seq<u8>, nodes: Seq<BufferNode>)
    requires
        all_ok(orig, added, nodes),
    ensures
        flat(orig, added, nodes).len() >= nodes.len(),
    decreases nodes.len(),
{
    if nodes.len() > 0 {
        let d = nodes.drop_last();
        assert forall|i: int| 0 <= i < d.len() implies node_ok(orig, added, #[trigger] d[i]) by {
            assert(d[i] == nodes[i]);
        }
        lemma_flat_len(orig, added, d);
        assert(node_ok(orig, added, nodes[nodes.len() - 1]));
    }
}

/// Where each piece reads from: its store, start and length.
pub open spec fn spans(nodes: Seq<BufferNode>) -> Seq<(BufferType, usize, usize)> {
    nodes.map_values(|n: BufferNode| (n.from, n.index, n.offset))
}

/// The pieces after inserting `n` bytes (appended to the added store) at
/// the caret of `b`: a new piece after the last one when the caret is at the
/// end, before the current one when the caret is at its start, and otherwise
/// between the two halves of the current one.
pub open spec fn layout_after_insert(b: Buffer, n: nat) -> Seq<(BufferType, usize, usize)> {
    let piece = (BufferType::Added, b.added_str@.len() as usize, n as usize);
    let k = b.cursor.node_offset;
    let c = b.cur();
    if n == 0 {
        spans(b.nodes())
    } else if b.node_list.left_list@.len() == 0 || k == c.offset {
        spans(b.nodes()).push(piece)
    } else if k == 0 {
        spans(b.nodes()).insert(b.node_list.cur_index(), piece)
    } else {
        spans(b.before()) + seq![
            (c.from, c.index, k),
            piece,
            (c.from, (c.index + k) as usize, (c.offset - k) as usize),
        ] + spans(b.node_list.right_list@)
    }
}

/// The pieces after a backspace at the caret of `b`: the piece holding the
/// byte before the caret loses that byte (and goes when it had only that
/// one); a byte strictly inside the current piece splits it, dropping a
/// first half that would be empty.
pub open spec fn layout_after_remove(b: Buffer) -> Seq<(BufferType, usize, usize)> {
    let k = b.cursor.node_offset;
    let c = b.cur();
    let i = b.node_list.cur_index();
    let sp = spans(b.nodes());
    if b.node_list.left_list@.len() == 0 || (k == 0 && i == 0) {
        sp
    } else if k == 0 {
        let pv = b.nodes()[i - 1];
        if pv.offset == 1 {
            sp.remove(i - 1)
        } else {
            sp.update(i - 1, (pv.from, pv.index, (pv.offset - 1) as usize))
        }
    } else if k == c.offset {
        if c.offset == 1 {
            sp.remove(i)
        } else {
            sp.update(i, (c.from, c.index, (c.offset - 1) as usize))
        }
    } else {
        spans(b.before()) + (if k == 1 {
            Seq::empty()
        } else {
            seq![(c.from, c.index, (k - 1) as usize)]
        }) + seq![(c.from, (c.index + k) as usize, (c.offset - k) as usize)] + spans(
            b.node_list.right_list@,
        )
    }
}

/// A piece-table document: an original store fixed at construction, a store
/// that only grows, the pieces over them, a caret and the line counters.
#[derive(Debug)]
pub struct Buffer {
    pub original_str: Vec<u8>,
    pub added_str: Vec<u8>,
    pub node_list: NodeList,
    pub cursor: Cursor,
    pub current_line: usize,
    pub line_count: usize,
}

impl Buffer {
    pub open spec fn nodes(&self) -> Seq<BufferNode> {
        self.node_list.nodes()
    }

    /// The document.
    pub open spec fn text(&self) -> Seq<u8> {
        flat(self.original_str@, self.added_str@, self.nodes())
    }

    /// The pieces before the current one.
    pub open spec fn before(&self) -> Seq<BufferNode> {
        self.node_list.left_list@.drop_last()
    }

    pub open spec fn cur(&self) -> BufferNode {
        self.node_list.left_list@.last()
    }

    pub open spec fn cur_text(&self) -> Seq<u8> {
        node_text(self.original_str@, self.added_str@, self.cur())
    }

    /// Where the current piece starts in the document.
    pub open spec fn cur_start(&self) -> int {
        flat(self.original_str@, self.added_str@, self.before()).len() as int
    }

    /// The caret as an offset into the document.
    pub open spec fn pos(&self) -> int {
        if self.node_list.left_list@.len() == 0 {
            0
        } else {
            self.cur_start() + self.cursor.node_offset
        }
    }

    /// The pieces are valid and the document fits in memory.
    pub open spec fn pieces_ok(&self) -> bool {
        &&& self.node_list.wf()
        &&& all_ok(self.original_str@, self.added_str@, self.nodes())
        &&& self.text().len() <= usize::MAX
        &&& self.original_str@.len() <= usize::MAX
        &&& self.added_str@.len() <= usize::MAX
        &&& self.text().len() <= self.original_str@.len() + self.added_str@.len()
    }

    /// The caret sits in the current piece, at its end only at the end of the
    /// document, and `line_idx` counts the piece's line ends before it.
    pub open spec fn cursor_ok(&self) -> bool {
        if self.node_list.left_list@.len() == 0 {
            &&& self.cursor.node_offset == 0
            &&& self.cursor.line_idx == 0
        } else {
            &&& self.cursor.node_offset <= self.cur().offset
            &&& self.cursor.node_offset == self.cur().offset ==> self.node_list.right_list@.len()
                == 0
            &&& self.cursor.line_idx + 1 == line_starts(
                self.cur_text().take(self.cursor.node_offset as int),
            ).len()
        }
    }

    /// The counters agree with the document and the caret.
    pub open spec fn counts_ok(&self) -> bool {
        &&& self.line_count == newline_count(self.text())
        &&& self.current_line == newline_count(self.text().take(self.pos()))
        &&& self.cursor.line_offset == column(self.text().take(self.pos()))
    }

    pub open spec fn wf(&self) -> bool {
        &&& self.pieces_ok()
        &&& self.cursor_ok()
        &&& self.counts_ok()
    }

    /// The document is the pieces before the current one, the current one,
    /// and those after it.
    pub proof fn lemma_split_text(&self)
        requires
            self.pieces_ok(),
            self.node_list.left_list@.len() > 0,
            self.cursor.node_offset <= self.cur().offset,
        ensures
            node_ok(self.original_str@, self.added_str@, self.cur()),
            self.cur_text().len() == self.cur().offset,
            self.text() == flat(self.original_str@, self.added_str@, self.before())
                + self.cur_text() + flat(
                self.original_str@,
                self.added_str@,
                self.node_list.right_list@,
            ),
            self.text().take(self.pos()) == flat(self.original_str@, self.added_str@, self.before())
                + self.cur_text().take(self.cursor.node_offset as int),
            self.text().skip(self.pos()) == self.cur_text().skip(self.cursor.node_offset as int)
                + flat(self.original_str@, self.added_str@, self.node_list.right_list@),
    {
        let o = self.original_str@;
        let a = self.added_str@;
        let l = self.node_list.left_list@;
        let r = self.node_list.right_list@;
        assert(self.nodes()[l.len() - 1] == self.cur());
        assert(node_ok(o, a, self.nodes()[l.len() - 1]));
        lemma_flat_concat(o, a, l, r);
        assert(l.drop_last() == self.before());
        let b = flat(o, a, self.before());
        let c = self.cur_text();
        let k = self.cursor.node_offset as int;
        assert(flat(o, a, l) == b + c);
        assert(self.text() == b + c + flat(o, a, r));
        assert(self.text().take(self.pos()) =~= b + c.take(k));
        assert(self.text().skip(self.pos()) =~= c.skip(k) + flat(o, a, r));
    }

    /// The caret lies within the document.
    pub proof fn lemma_pos_bound(&self)
        requires
            self.pieces_ok(),
            self.cursor_ok(),
        ensures
            0 <= self.pos() <= self.text().len(),
    {
        if self.node_list.left_list@.len() > 0 {
            self.lemma_split_text();
        }
    }

    /// An empty document.
    pub fn new() -> (r: Buffer)
        ensures
            r.wf(),
            r.text() == Seq::<u8>::empty(),
            r.pos() == 0,
            r.original_str@ == Seq::<u8>::empty(),
            r.added_str@ == Seq::<u8>::empty(),
            r.nodes().len() == 0,
            r.cursor.original_line_offset == 0,
    {
        let r = Buffer {
            original_str: Vec::new(),
            added_str: Vec::new(),
            node_list: NodeList::new(),
            cursor: Cursor::new(),
            current_line: 0,
            line_count: 0,
        };
        proof {
            assert(r.nodes() =~= Seq::<BufferNode>::empty());
            assert(r.text().take(0) =~= Seq::<u8>::empty());
        }
        r
    }

    /// A document holding `contents`, with the caret at its start.
    #[verifier::rlimit(40)]
    pub fn with_contents(contents: String) -> (r: Buffer)
        ensures
            r.wf(),
            r.text() == encode_utf8(contents@),
            r.original_str@ == encode_utf8(contents@),
            r.added_str@ == Seq::<u8>::empty(),
            r.pos() == 0,
            r.cursor.original_line_offset == 0,
            encode_utf8(contents@).len() > 0 ==> r.nodes() == seq![
                BufferNode {
                    from: BufferType::Original,
                    index: 0,
                    offset: encode_utf8(contents@).len() as usize,
                    line_offsets: r.nodes()[0].line_offsets,
                },
            ] && r.nodes()[0].line_offsets@ == line_starts(encode_utf8(contents@)),
            encode_utf8(contents@).len() == 0 ==> r.nodes().len() == 0,
    {
        let bytes = contents.as_str().as_bytes();
        let mut original: Vec<u8> = Vec::new();
        let mut i: usize = 0;
        while i < bytes.len()
            invariant
                i <= bytes@.len(),
                original@ == bytes@.take(i as int),
            decreases bytes@.len() - i,
        {
            original.push(bytes[i]);
            i = i + 1;
            proof {
                assert(original@ =~= bytes@.take(i as int));
            }
        }
        proof {
            assert(original@ =~= bytes@);
        }
        let n = original.len();
        if n == 0 {
            let r = Buffer {
                original_str: original,
                added_str: Vec::new(),
                node_list: NodeList::new(),
                cursor: Cursor::new(),
                current_line: 0,
                line_count: 0,
            };
            proof {
                assert(r.nodes() =~= Seq::<BufferNode>::empty());
                assert(r.text().take(0) =~= Seq::<u8>::empty());
                assert(r.text() =~= encode_utf8(contents@));
            }
            return r;
        }
        let table = line_starts_of(original.as_slice(), 0, n);
        proof {
            assert(original@.subrange(0, n as int) =~= original@);
            lemma_line_starts(original@);
        }
        let count = table.len() - 1;
        let node = BufferNode { from: BufferType::Original, index: 0, offset: n, line_offsets: table };
        let mut list = NodeList::new();
        list.insert_curr(node);
        let r = Buffer {
            original_str: original,
            added_str: Vec::new(),
            node_list: list,
            cursor: Cursor::new(),
            current_line: 0,
            line_count: count,
        };
        proof {
            let o = r.original_str@;
            let a = r.added_str@;
            assert(r.nodes() =~= seq![node]);
            assert(node_text(o, a, node) =~= o);
            assert(r.nodes().drop_last() =~= Seq::<BufferNode>::empty());
            assert(flat(o, a, r.nodes().drop_last()) =~= Seq::<u8>::empty());
            assert(r.text() =~= o);
            assert(r.before() =~= Seq::<BufferNode>::empty());
            assert(r.text().take(0) =~= Seq::<u8>::empty());
            assert(r.cur_text().take(0) =~= Seq::<u8>::empty());
        }
        r
    }

    /// A document holding `string`, with the caret at its start (the same as
    /// `with_contents`).
    pub fn with_string(string: String) -> (r: Buffer)
        ensures
            r.wf(),
            r.text() == encode_utf8(string@),
            r.original_str@ == encode_utf8(string@),
            r.added_str@ == Seq::<u8>::empty(),
            r.pos() == 0,
            r.cursor.original_line_offset == 0,
    {
        Buffer::with_contents(string)
    }

    /// The line starts of `string`: 0, then the offset just past each line
    /// end.
    pub fn get_offsets(string: &str) -> (r: Vec<usize>)
        ensures
            r@ == line_starts(encode_utf8(string@)),
    {
        let bytes = string.as_bytes();
        let r = line_starts_of(bytes, 0, bytes.len());
        proof {
            assert(bytes@.subrange(0, bytes@.len() as int) =~= bytes@);
        }
        r
    }

    /// The bytes of the document, piece by piece.
    #[verifier::rlimit(40)]
    pub fn as_bytes(&self) -> (r: Vec<u8>)
        requires
            self.pieces_ok(),
        ensures
            r@ == self.text(),
    {
        let ghost l = self.node_list.left_list@;
        let ghost rt = self.node_list.right_list@;
        let mut out: Vec<u8> = Vec::new();
        let mut i: usize = 0;
        while i < self.node_list.left_list.len()
            invariant
                self.pieces_ok(),
                l == self.node_list.left_list@,
                rt == self.node_list.right_list@,
                i <= l.len(),
                out@ == flat(self.original_str@, self.added_str@, l.take(i as int)),
            decreases l.len() - i,
        {
            proof {
                assert(all_ok(self.original_str@, self.added_str@, self.nodes()));
                assert(l[i as int] == self.nodes()[i as int]);
                assert(node_ok(self.original_str@, self.added_str@, self.nodes()[i as int]));
                assert(l.take(i as int + 1).drop_last() =~= l.take(i as int));
                assert(l.take(i as int + 1).last() == l[i as int]);
                lemma_flat_concat(self.original_str@, self.added_str@, l, rt);
                assert(l.take(i as int + 1) + l.skip(i as int + 1) =~= l);
                lemma_flat_concat(self.original_str@, self.added_str@, l.take(i as int + 1), l.skip(i as int + 1));
                assert(flat(self.original_str@, self.added_str@, l.take(i as int + 1))
                    == flat(self.original_str@, self.added_str@, l.take(i as int))
                    + node_text(self.original_str@, self.added_str@, l[i as int]));
                assert(flat(self.original_str@, self.added_str@, l.take(i as int + 1)).len()
                    <= self.text().len());
            }
            append_node(&mut out, &self.original_str, &self.added_str, &self.node_list.left_list[i]);
            i = i + 1;
        }
        proof {
            assert(l.take(l.len() as int) =~= l);
            assert(rt.take(0) =~= Seq::<BufferNode>::empty());
            assert(flat(self.original_str@, self.added_str@, rt.take(0)) =~= Seq::<u8>::empty());
            assert(out@ =~= flat(self.original_str@, self.added_str@, l) + flat(self.original_str@, self.added_str@, rt.take(0)));
        }
        let mut j: usize = 0;
        while j < self.node_list.right_list.len()
            invariant
                self.pieces_ok(),
                l == self.node_list.left_list@,
                rt == self.node_list.right_list@,
                j <= rt.len(),
                out@ == flat(self.original_str@, self.added_str@, l) + flat(self.original_str@, self.added_str@, rt.take(j as int)),
            decreases rt.len() - j,
        {
            proof {
                assert(all_ok(self.original_str@, self.added_str@, self.nodes()));
                assert(rt[j as int] == self.nodes()[l.len() + j]);
                assert(node_ok(self.original_str@, self.added_str@, self.nodes()[l.len() + j]));
                assert(rt.take(j as int + 1).drop_last() =~= rt.take(j as int));
                assert(rt.take(j as int + 1).last() == rt[j as int]);
                lemma_flat_concat(self.original_str@, self.added_str@, l, rt);
                assert(rt.take(j as int + 1) + rt.skip(j as int + 1) =~= rt);
                lemma_flat_concat(self.original_str@, self.added_str@, rt.take(j as int + 1), rt.skip(j as int + 1));
            }
            append_node(&mut out, &self.original_str, &self.added_str, &self.node_list.right_list[j]);
            j = j + 1;
            proof {
                assert(out@ =~= flat(self.original_str@, self.added_str@, l) + flat(self.original_str@, self.added_str@, rt.take(j as int)));
            }
        }
        proof {
            assert(l.take(l.len() as int) =~= l);
            assert(rt.take(rt.len() as int) =~= rt);
            lemma_flat_concat(self.original_str@, self.added_str@, l, rt);
        }
        out
    }

    /// The document as text (bytes that are not UTF-8 become replacement
    /// characters).
    pub fn as_str(&self) -> (r: String)
        requires
            self.pieces_ok(),
        ensures
            r@ == lossy_text(self.text()),
            valid_utf8(self.text()) ==> r@ == decode_utf8(self.text()),
    {
        let bytes = self.as_bytes();
        text_of_bytes(&bytes)
    }

    /// The document split at the caret; a single empty string when the
    /// document has no pieces.
    #[verifier::rlimit(40)]
    pub fn as_str_split_by_cursors(&self) -> (r: Vec<String>)
        requires
            self.wf(),
        ensures
            self.nodes().len() == 0 ==> r@.len() == 1 && r@[0]@ == lossy_text(Seq::empty()),
            self.nodes().len() > 0 ==> r@.len() == 2 && r@[0]@ == lossy_text(
                self.text().take(self.pos()),
            ) && r@[1]@ == lossy_text(self.text().skip(self.pos())),
            self.nodes().len() > 0 && valid_utf8(self.text().take(self.pos())) ==> r@[0]@
                == decode_utf8(self.text().take(self.pos())),
            self.nodes().len() > 0 && valid_utf8(self.text().skip(self.pos())) ==> r@[1]@
                == decode_utf8(self.text().skip(self.pos())),
    {
        let bytes = self.as_bytes();
        if self.node_list.left_list.len() == 0 {
            let mut out: Vec<String> = Vec::new();
            let empty: Vec<u8> = Vec::new();
            out.push(text_of_bytes(&empty));
            proof {
                assert(empty@ =~= Seq::<u8>::empty());
            }
            return out;
        }
        let at = self.cursor_position();
        proof {
            self.lemma_pos_bound();
        }
        let mut left: Vec<u8> = Vec::new();
        let mut right: Vec<u8> = Vec::new();
        let mut i: usize = 0;
        while i < bytes.len()
            invariant
                i <= bytes@.len(),
                at <= bytes@.len(),
                left@ == bytes@.take(if i < at { i as int } else { at as int }),
                right@ == if i < at { Seq::<u8>::empty() } else { bytes@.subrange(at as int, i as int) },
            decreases bytes@.len() - i,
        {
            if i < at {
                left.push(bytes[i]);
            } else {
                right.push(bytes[i]);
            }
            i = i + 1;
            proof {
                assert(left@ =~= bytes@.take(if i < at { i as int } else { at as int }));
                assert(right@ =~= if i < at { Seq::<u8>::empty() } else { bytes@.subrange(at as int, i as int) });
            }
        }
        proof {
            assert(right@ =~= bytes@.skip(at as int));
        }
        let mut out: Vec<String> = Vec::new();
        out.push(text_of_bytes(&left));
        out.push(text_of_bytes(&right));
        out
    }

    /// The caret as an offset into the document, counted piece by piece.
    pub fn cursor_position(&self) -> (r: usize)
        requires
            self.pieces_ok(),
            self.cursor_ok(),
        ensures
            r == self.pos(),
    {
        if self.node_list.left_list.len() == 0 {
            return 0;
        }
        let ghost l = self.node_list.left_list@;
        let last = self.node_list.left_list.len() - 1;
        let mut acc: usize = 0;
        let mut i: usize = 0;
        proof {
            self.lemma_split_text();
            lemma_flat_concat(self.original_str@, self.added_str@, self.before(), seq![self.cur()]);
        }
        while i < last
            invariant
                self.pieces_ok(),
                l == self.node_list.left_list@,
                last == l.len() - 1,
                i <= last,
                acc == flat(self.original_str@, self.added_str@, l.take(i as int)).len(),
                flat(self.original_str@, self.added_str@, l.drop_last()).len() <= usize::MAX,
            decreases last - i,
        {
            proof {
                assert(all_ok(self.original_str@, self.added_str@, self.nodes()));
                assert(l[i as int] == self.nodes()[i as int]);
                assert(node_ok(self.original_str@, self.added_str@, self.nodes()[i as int]));
                assert(l.take(i as int + 1).drop_last() =~= l.take(i as int));
                assert(l.take(i as int + 1).last() == l[i as int]);
                assert(l.take(i as int + 1) + l.drop_last().skip(i as int + 1) =~= l.drop_last());
                lemma_flat_concat(self.original_str@, self.added_str@, l.take(i as int + 1), l.drop_last().skip(i as int + 1));
            }
            acc = acc + self.node_list.left_list[i].offset;
            i = i + 1;
        }
        proof {
            assert(l.take(last as int) =~= l.drop_last());
        }
        acc + self.cursor.node_offset
    }

    /// Inserts `ch` at the caret.
    pub fn insert(&mut self, ch: char)
        requires
            old(self).wf(),
            old(self).text().len() + 4 <= usize::MAX,
            old(self).added_str@.len() + 4 <= usize::MAX,
        ensures
            final(self).wf(),
            final(self).text() == old(self).text().take(old(self).pos()) + encode_utf8(seq![ch])
                + old(self).text().skip(old(self).pos()),
            final(self).pos() == old(self).pos() + encode_utf8(seq![ch]).len(),
            final(self).cursor.original_line_offset == final(self).cursor.line_offset,
            final(self).original_str@ == old(self).original_str@,
            final(self).added_str@ == old(self).added_str@ + encode_utf8(seq![ch]),
            spans(final(self).nodes()) == layout_after_insert(
                *old(self),
                encode_utf8(seq![ch]).len(),
            ),
    {
        let s = char_string(ch);
        proof {
            vstd::utf8::encode_utf8_first_scalar(seq![ch]);
            lemma_utf8_single_len(ch);
        }
        self.insert_str(s);
    }

    /// Inserts `string` at the caret, as a new piece over the added store,
    /// and leaves the caret after it.
    #[verifier::rlimit(60)]
    pub fn insert_str(&mut self, string: String)
        requires
            old(self).wf(),
            old(self).text().len() + encode_utf8(string@).len() <= usize::MAX,
            old(self).added_str@.len() + encode_utf8(string@).len() <= usize::MAX,
        ensures
            final(self).wf(),
            final(self).text() == old(self).text().take(old(self).pos()) + encode_utf8(string@)
                + old(self).text().skip(old(self).pos()),
            final(self).pos() == old(self).pos() + encode_utf8(string@).len(),
            final(self).cursor.original_line_offset == final(self).cursor.line_offset,
            final(self).original_str@ == old(self).original_str@,
            final(self).added_str@ == old(self).added_str@ + encode_utf8(string@),
            spans(final(self).nodes()) == layout_after_insert(
                *old(self),
                encode_utf8(string@).len(),
            ),
    {
        let bytes = string.as_str().as_bytes();
        let n = bytes.len();
        let ghost t = self.text();
        let ghost p = self.pos();
        let ghost sb = bytes@;
        proof {
            self.lemma_pos_bound();
        }
        if n == 0 {
            self.cursor.original_line_offset = self.cursor.line_offset;
            proof {
                assert(t.take(p) + sb + t.skip(p) =~= t);
                assert(self.added_str@ =~= old(self).added_str@ + sb);
            }
            return ;
        }
        let piece = self.push_added(bytes);
        proof {
            lemma_line_starts(sb);
            lemma_counts_bounded(t.take(p) + sb + t.skip(p));
            lemma_counts_bounded(t.take(p) + sb);
            lemma_newline_count_concat(t.take(p), sb);
            lemma_newline_count_concat(t.take(p) + sb, t.skip(p));
            lemma_newline_count_concat(t.take(p), t.skip(p));
            lemma_column_concat(t.take(p), sb);
            lemma_take_skip(t, p);
            assert(self.text() == t);
            assert(self.pos() == p);
        }
        let added_lines = piece.line_offsets.len() - 1;
        let last_start = piece.line_offsets[piece.line_offsets.len() - 1];
        let at_end_of_piece = self.node_list.left_list.len() > 0
            && self.cursor.node_offset == self.node_list.left_list[self.node_list.left_list.len() - 1].offset;
        if self.node_list.left_list.len() == 0 || at_end_of_piece {
            self.splice_after_current(piece);
        } else if self.cursor.node_offset == 0 {
            self.splice_before_current(piece);
        } else {
            self.splice_into_current(piece);
        }
        if added_lines > 0 {
            self.cursor.line_offset = n - last_start;
        } else {
            self.cursor.line_offset = self.cursor.line_offset + n;
        }
        self.cursor.original_line_offset = self.cursor.line_offset;
        self.current_line = self.current_line + added_lines;
        self.line_count = self.line_count + added_lines;
        proof {
            let t2 = t.take(p) + sb + t.skip(p);
            if old(self).node_list.left_list@.len() == 0 || old(self).cursor.node_offset == old(self).cur().offset {
                assert(spans(self.nodes()) =~= spans(old(self).nodes()).push((BufferType::Added, old(self).added_str@.len() as usize, n)));
            } else if old(self).cursor.node_offset == 0 {
                assert(spans(self.nodes()) =~= spans(old(self).nodes()).insert(old(self).node_list.cur_index(), (BufferType::Added, old(self).added_str@.len() as usize, n)));
            }
            assert(self.text() == t2);
            assert(self.pos() == p + n);
            assert(t2.take(p + n) =~= t.take(p) + sb);
        }
    }

    /// Appends `bytes` to the added store and returns a piece over them; the
    /// document does not change.
    #[verifier::rlimit(40)]
    fn push_added(&mut self, bytes: &[u8]) -> (piece: BufferNode)
        requires
            old(self).wf(),
            bytes@.len() > 0,
            old(self).added_str@.len() + bytes@.len() <= usize::MAX,
        ensures
            final(self).wf(),
            final(self).text() == old(self).text(),
            final(self).pos() == old(self).pos(),
            final(self).node_list == old(self).node_list,
            final(self).cursor == old(self).cursor,
            final(self).current_line == old(self).current_line,
            final(self).line_count == old(self).line_count,
            final(self).original_str@ == old(self).original_str@,
            final(self).added_str@ == old(self).added_str@ + bytes@,
            node_ok(final(self).original_str@, final(self).added_str@, piece),
            node_text(final(self).original_str@, final(self).added_str@, piece) == bytes@,
            piece.from == BufferType::Added,
            piece.index == old(self).added_str@.len(),
            piece.offset == bytes@.len(),
            piece.line_offsets@ == line_starts(bytes@),
    {
        let start = self.added_str.len();
        let mut i: usize = 0;
        while i < bytes.len()
            invariant
                i <= bytes@.len(),
                start == old(self).added_str@.len(),
                start + bytes@.len() <= usize::MAX,
                self.added_str@ == old(self).added_str@ + bytes@.take(i as int),
                self.original_str == old(self).original_str,
                self.node_list == old(self).node_list,
                self.cursor == old(self).cursor,
                self.current_line == old(self).current_line,
                self.line_count == old(self).line_count,
            decreases bytes@.len() - i,
        {
            self.added_str.push(bytes[i]);
            i = i + 1;
            proof {
                assert(self.added_str@ =~= old(self).added_str@ + bytes@.take(i as int));
            }
        }
        proof {
            assert(bytes@.take(bytes@.len() as int) =~= bytes@);
            assert(self.added_str@.subrange(start as int, start + bytes@.len()) =~= bytes@);
        }
        let table = line_starts_of(self.added_str.as_slice(), start, bytes.len());
        let piece = BufferNode { from: BufferType::Added, index: start, offset: bytes.len(), line_offsets: table };
        proof {
            let o = self.original_str@;
            let a0 = old(self).added_str@;
            let a1 = self.added_str@;
            assert(a1.take(a0.len() as int) =~= a0);
            let nodes = self.nodes();
            lemma_flat_extend(o, a0, a1, nodes);
            let l = self.node_list.left_list@;
            if l.len() > 0 {
                let b = self.before();
                assert forall|i: int| 0 <= i < b.len() implies node_ok(o, a0, #[trigger] b[i]) by {
                    assert(b[i] == nodes[i]);
                    assert(node_ok(o, a0, nodes[i]));
                }
                lemma_flat_extend(o, a0, a1, b);
                assert(nodes[l.len() - 1] == self.cur());
                assert(node_ok(o, a0, nodes[l.len() - 1]));
                assert(node_text(o, a1, self.cur()) =~= node_text(o, a0, self.cur()));
            }
        }
        piece
    }

    /// Puts `piece` after the current one, the document being empty or the
    /// caret at its end, and leaves the caret at the end of `piece`.
    #[verifier::rlimit(40)]
    fn splice_after_current(&mut self, piece: BufferNode)
        requires
            old(self).pieces_ok(),
            old(self).cursor_ok(),
            node_ok(old(self).original_str@, old(self).added_str@, piece),
            old(self).text().len() + piece.offset <= usize::MAX,
            old(self).text().len() + piece.offset <= old(self).original_str@.len() + old(
                self,
            ).added_str@.len(),
            old(self).node_list.left_list@.len() == 0 || old(self).cursor.node_offset == old(
                self,
            ).cur().offset,
        ensures
            final(self).pieces_ok(),
            final(self).cursor_ok(),
            ({
                let t = old(self).text();
                let p = old(self).pos();
                final(self).text() == t.take(p) + node_text(old(self).original_str@, old(self).added_str@, piece) + t.skip(p)
            }),
            final(self).pos() == old(self).pos() + piece.offset,
            final(self).original_str == old(self).original_str,
            final(self).added_str == old(self).added_str,
            final(self).current_line == old(self).current_line,
            final(self).line_count == old(self).line_count,
            final(self).cursor.line_offset == old(self).cursor.line_offset,
            final(self).nodes() == old(self).nodes().push(piece),
    {
        let ghost t = self.text();
        let ghost p = self.pos();
        let ghost o = self.original_str@;
        let ghost a = self.added_str@;
        let ghost l = self.node_list.left_list@;
        proof {
            if l.len() > 0 {
                self.lemma_split_text();
                assert(self.node_list.right_list@.len() == 0);
                assert(flat(o, a, self.node_list.right_list@) =~= Seq::<u8>::empty());
            } else {
                assert(self.nodes() =~= Seq::<BufferNode>::empty());
            }
        }
        let n = piece.offset;
        proof {
            lemma_line_starts_nonempty(node_text(o, a, piece));
        }
        let lines = piece.line_offsets.len() - 1;
        self.node_list.insert_curr(piece);
        self.cursor.node_offset = n;
        self.cursor.line_idx = lines;
        proof {
            let s = node_text(o, a, piece);
            assert(self.node_list.left_list@.drop_last() =~= l);
            assert(self.node_list.right_list@ =~= Seq::<BufferNode>::empty());
            assert(self.nodes() =~= l.push(piece));
            assert(flat(o, a, l) =~= t) by {
                lemma_flat_concat(o, a, l, old(self).node_list.right_list@);
                assert(old(self).node_list.right_list@ =~= Seq::<BufferNode>::empty());
                assert(old(self).nodes() =~= l);
            }
            assert(t.take(p) =~= t);
            assert(t.skip(p) =~= Seq::<u8>::empty());
            assert(self.text() =~= t.take(p) + s + t.skip(p));
            assert(s.take(n as int) =~= s);
            assert(self.nodes() =~= old(self).nodes().push(piece));
            assert forall|i: int| 0 <= i < self.nodes().len() implies node_ok(o, a, #[trigger] self.nodes()[i]) by {
                if i < l.len() {
                    assert(self.nodes()[i] == old(self).nodes()[i]);
                }
            }
        }
    }

    /// Puts `piece` before the current one, the caret being at its start; the
    /// caret stays there.
    #[verifier::rlimit(40)]
    fn splice_before_current(&mut self, piece: BufferNode)
        requires
            old(self).pieces_ok(),
            old(self).cursor_ok(),
            node_ok(old(self).original_str@, old(self).added_str@, piece),
            old(self).text().len() + piece.offset <= usize::MAX,
            old(self).text().len() + piece.offset <= old(self).original_str@.len() + old(
                self,
            ).added_str@.len(),
            old(self).node_list.left_list@.len() > 0,
            old(self).cursor.node_offset == 0,
        ensures
            final(self).pieces_ok(),
            final(self).cursor_ok(),
            ({
                let t = old(self).text();
                let p = old(self).pos();
                final(self).text() == t.take(p) + node_text(old(self).original_str@, old(self).added_str@, piece) + t.skip(p)
            }),
            final(self).pos() == old(self).pos() + piece.offset,
            final(self).original_str == old(self).original_str,
            final(self).added_str == old(self).added_str,
            final(self).current_line == old(self).current_line,
            final(self).line_count == old(self).line_count,
            final(self).cursor == old(self).cursor,
            final(self).nodes() == old(self).nodes().insert(old(self).node_list.cur_index(), piece),
    {
        let ghost t = self.text();
        let ghost p = self.pos();
        let ghost o = self.original_str@;
        let ghost a = self.added_str@;
        let ghost l = self.node_list.left_list@;
        let ghost rt = self.node_list.right_list@;
        proof {
            self.lemma_split_text();
        }
        self.node_list.insert_prev(piece);
        proof {
            let s = node_text(o, a, piece);
            let b = l.drop_last();
            let c = l.last();
            assert(self.node_list.left_list@ =~= b.push(piece).push(c));
            assert(self.before() =~= b.push(piece));
            assert(self.cur() == c);
            assert(self.before().drop_last() =~= b);
            lemma_flat_concat(o, a, self.node_list.left_list@, rt);
            assert(self.node_list.left_list@.drop_last() =~= b.push(piece));
            assert(self.node_list.left_list@.last() == c);
            assert(b.push(piece).drop_last() =~= b);
            assert(b.push(piece).last() == piece);
            assert(flat(o, a, b.push(piece)) == flat(o, a, b) + s);
            assert(flat(o, a, self.node_list.left_list@) == flat(o, a, b.push(piece)) + node_text(o, a, c));
            assert(self.text() =~= flat(o, a, b) + s + node_text(o, a, c) + flat(o, a, rt));
            assert(t.take(p) =~= flat(o, a, b));
            assert(self.text() =~= t.take(p) + s + t.skip(p));
            assert(self.nodes() =~= old(self).nodes().insert(old(self).node_list.cur_index(), piece));
            assert forall|i: int| 0 <= i < self.nodes().len() implies node_ok(o, a, #[trigger] self.nodes()[i]) by {
                if i < b.len() {
                    assert(self.nodes()[i] == old(self).nodes()[i]);
                } else if i == b.len() {
                } else {
                    assert(self.nodes()[i] == old(self).nodes()[i - 1]);
                }
            }
        }
    }

    /// Splits the current piece at the caret, strictly inside it, and puts
    /// `piece` between the halves; the caret goes to the start of the second
    /// half.
    #[verifier::rlimit(40)]
    fn splice_into_current(&mut self, piece: BufferNode)
        requires
            old(self).pieces_ok(),
            old(self).cursor_ok(),
            node_ok(old(self).original_str@, old(self).added_str@, piece),
            old(self).text().len() + piece.offset <= usize::MAX,
            old(self).text().len() + piece.offset <= old(self).original_str@.len() + old(
                self,
            ).added_str@.len(),
            old(self).node_list.left_list@.len() > 0,
            0 < old(self).cursor.node_offset < old(self).cur().offset,
        ensures
            final(self).pieces_ok(),
            final(self).cursor_ok(),
            ({
                let t = old(self).text();
                let p = old(self).pos();
                final(self).text() == t.take(p) + node_text(old(self).original_str@, old(self).added_str@, piece) + t.skip(p)
            }),
            final(self).pos() == old(self).pos() + piece.offset,
            final(self).original_str == old(self).original_str,
            final(self).added_str == old(self).added_str,
            final(self).current_line == old(self).current_line,
            final(self).line_count == old(self).line_count,
            final(self).cursor.line_offset == old(self).cursor.line_offset,
            final(self).cursor.original_line_offset == old(self).cursor.original_line_offset,
            spans(final(self).nodes()) == spans(old(self).before()) + seq![
                (old(self).cur().from, old(self).cur().index, old(self).cursor.node_offset),
                (piece.from, piece.index, piece.offset),
                (
                    old(self).cur().from,
                    (old(self).cur().index + old(self).cursor.node_offset) as usize,
                    (old(self).cur().offset - old(self).cursor.node_offset) as usize,
                ),
            ] + spans(old(self).node_list.right_list@),
    {
        let ghost t = self.text();
        let ghost p = self.pos();
        let ghost o = self.original_str@;
        let ghost a = self.added_str@;
        let ghost l = self.node_list.left_list@;
        let ghost rt = self.node_list.right_list@;
        proof {
            self.lemma_split_text();
        }
        let k = self.cursor.node_offset;
        proof {
            let ct = self.cur_text().take(k as int);
            lemma_line_starts(ct);
            lemma_counts_bounded(ct);
        }
        let c = self.cursor.line_idx + 1;
        let last = self.node_list.left_list.len() - 1;
        let left_piece = left_part(Ghost(o), Ghost(a), &self.node_list.left_list[last], k, c);
        let right_piece = right_part(Ghost(o), Ghost(a), &self.node_list.left_list[last], k, c);
        let mut parts: Vec<BufferNode> = Vec::new();
        parts.push(left_piece);
        parts.push(piece);
        parts.push(right_piece);
        proof {
            assert(parts@ =~= seq![left_piece, piece, right_piece]);
        }
        self.node_list.replace_curr(parts);
        self.cursor.node_offset = 0;
        self.cursor.line_idx = 0;
        proof {
            let s = node_text(o, a, piece);
            let b = l.drop_last();
            let cur = l.last();
            let ct = node_text(o, a, cur);
            assert(self.node_list.left_list@ =~= b.push(left_piece).push(piece).push(right_piece));
            assert(self.before() =~= b.push(left_piece).push(piece));
            assert(self.before().drop_last() =~= b.push(left_piece));
            assert(b.push(left_piece).drop_last() =~= b);
            let l2 = self.node_list.left_list@;
            assert(l2.drop_last() =~= b.push(left_piece).push(piece));
            assert(l2.last() == right_piece);
            assert(b.push(left_piece).push(piece).drop_last() =~= b.push(left_piece));
            assert(b.push(left_piece).push(piece).last() == piece);
            assert(b.push(left_piece).last() == left_piece);
            assert(flat(o, a, b.push(left_piece)) == flat(o, a, b) + ct.take(k as int));
            assert(flat(o, a, b.push(left_piece).push(piece)) == flat(o, a, b) + ct.take(k as int) + s);
            assert(flat(o, a, l2) == flat(o, a, b) + ct.take(k as int) + s + ct.skip(k as int));
            lemma_flat_concat(o, a, self.node_list.left_list@, rt);
            assert(self.text() =~= flat(o, a, b) + ct.take(k as int) + s + ct.skip(k as int) + flat(o, a, rt));
            assert(self.text() =~= t.take(p) + s + t.skip(p));
            assert(self.cur_text().take(0) =~= Seq::<u8>::empty());
            assert(self.nodes() =~= b + seq![left_piece, piece, right_piece] + rt);
            assert(spans(self.nodes()) =~= spans(b) + spans(seq![left_piece, piece, right_piece]) + spans(rt));
            assert forall|i: int| 0 <= i < self.nodes().len() implies node_ok(o, a, #[trigger] self.nodes()[i]) by {
                if i < b.len() {
                    assert(self.nodes()[i] == old(self).nodes()[i]);
                } else if i <= b.len() + 2 {
                } else {
                    assert(self.nodes()[i] == old(self).nodes()[i - 2]);
                }
            }
        }
    }

    /// The caret's column, found by walking back over the pieces before it
    /// up to the nearest one with a line end.
    #[verifier::rlimit(40)]
    pub fn column_at_cursor(&self) -> (r: usize)
        requires
            self.pieces_ok(),
            self.cursor_ok(),
        ensures
            r == column(self.text().take(self.pos())),
    {
        if self.node_list.left_list.len() == 0 {
            proof {
                assert(self.text().take(0) =~= Seq::<u8>::empty());
            }
            return 0;
        }
        let ghost o = self.original_str@;
        let ghost a = self.added_str@;
        let ghost l = self.node_list.left_list@;
        let last = self.node_list.left_list.len() - 1;
        let k = self.cursor.node_offset;
        let j = self.cursor.line_idx;
        proof {
            self.lemma_split_text();
            let ct = self.cur_text();
            crate::text::lemma_line_starts_prefix(ct, k as int);
            lemma_line_starts(ct.take(k as int));
            lemma_column_concat(flat(o, a, self.before()), ct.take(k as int));
            assert(l.take(last as int) =~= self.before());
        }
        if j > 0 {
            return k - self.node_list.left_list[last].line_offsets[j];
        }
        let mut acc: usize = k;
        let mut i: usize = last;
        while i > 0
            invariant
                self.pieces_ok(),
                self.cursor_ok(),
                l == self.node_list.left_list@,
                o == self.original_str@,
                a == self.added_str@,
                i <= last < l.len(),
                acc + flat(o, a, l.take(i as int)).len() == self.pos(),
                column(self.text().take(self.pos())) == column(flat(o, a, l.take(i as int))) + acc,
                self.pos() <= usize::MAX,
            decreases i,
        {
            i = i - 1;
            let ghost pt = node_text(o, a, l[i as int]);
            proof {
                assert(self.nodes()[i as int] == l[i as int]);
                assert(node_ok(o, a, self.nodes()[i as int]));
                assert(l.take(i as int + 1).drop_last() =~= l.take(i as int));
                assert(l.take(i as int + 1).last() == l[i as int]);
                lemma_column_concat(flat(o, a, l.take(i as int)), pt);
                lemma_line_starts(pt);
            }
            let node = &self.node_list.left_list[i];
            if node.line_offsets.len() > 1 {
                return acc + (node.offset - node.line_offsets[node.line_offsets.len() - 1]);
            }
            acc = acc + node.offset;
        }
        proof {
            assert(l.take(0) =~= Seq::<BufferNode>::empty());
        }
        acc
    }

    /// Deletes the byte before the caret (a backspace); nothing happens at
    /// the start of the document.
    #[verifier::rlimit(60)]
    pub fn remove(&mut self)
        requires
            old(self).wf(),
        ensures
            final(self).wf(),
            old(self).pos() == 0 ==> *final(self) == *old(self),
            old(self).pos() > 0 ==> final(self).text() == old(self).text().take(old(self).pos() - 1)
                + old(self).text().skip(old(self).pos()),
            old(self).pos() > 0 ==> final(self).pos() == old(self).pos() - 1,
            old(self).pos() > 0 ==> final(self).cursor.original_line_offset
                == final(self).cursor.line_offset,
            final(self).original_str@ == old(self).original_str@,
            final(self).added_str@ == old(self).added_str@,
            spans(final(self).nodes()) == layout_after_remove(*old(self)),
    {
        if self.node_list.left_list.len() == 0 {
            return ;
        }
        let last = self.node_list.left_list.len() - 1;
        let k = self.cursor.node_offset;
        if k == 0 && last == 0 {
            return ;
        }
        let ghost t = self.text();
        let ghost p = self.pos();
        proof {
            self.lemma_split_text();
            assert forall|i: int| 0 <= i < self.before().len() implies node_ok(self.original_str@, self.added_str@, #[trigger] self.before()[i]) by {
                assert(self.before()[i] == self.nodes()[i]);
            }
            lemma_flat_len(self.original_str@, self.added_str@, self.before());
            assert(p > 0);
        }
        let removed = if k == 0 {
            self.remove_before_current()
        } else if k == self.node_list.left_list[last].offset {
            self.remove_at_end()
        } else {
            self.remove_inside()
        };
        proof {
            let t2 = t.take(p - 1) + t.skip(p);
            assert(t.take(p) =~= t.take(p - 1).push(removed));
            lemma_push(t.take(p - 1), removed);
            assert(t =~= t.take(p - 1).push(removed) + t.skip(p));
            lemma_newline_count_concat(t.take(p - 1).push(removed), t.skip(p));
            lemma_newline_count_concat(t.take(p - 1), t.skip(p));
            assert(t2.take(p - 1) =~= t.take(p - 1));
            lemma_counts_bounded(t.take(p - 1));
        }
        if removed == NEWLINE {
            self.current_line = self.current_line - 1;
            self.line_count = self.line_count - 1;
            self.cursor.line_offset = self.column_at_cursor();
        } else {
            self.cursor.line_offset = self.cursor.line_offset - 1;
        }
        self.cursor.original_line_offset = self.cursor.line_offset;
    }

    /// Removes the last byte of the piece before the current one, the caret
    /// being at the start of the current one.
    #[verifier::rlimit(60)]
    fn remove_before_current(&mut self) -> (b: u8)
        requires
            old(self).pieces_ok(),
            old(self).cursor_ok(),
            old(self).node_list.left_list@.len() >= 2,
            old(self).cursor.node_offset == 0,
        ensures
            final(self).pieces_ok(),
            final(self).cursor_ok(),
            old(self).pos() > 0,
            b == old(self).text()[old(self).pos() - 1],
            final(self).text() == old(self).text().take(old(self).pos() - 1) + old(self).text().skip(
                old(self).pos(),
            ),
            final(self).pos() == old(self).pos() - 1,
            final(self).original_str == old(self).original_str,
            final(self).added_str == old(self).added_str,
            final(self).current_line == old(self).current_line,
            final(self).line_count == old(self).line_count,
            final(self).cursor.line_offset == old(self).cursor.line_offset,
            final(self).cursor.original_line_offset == old(self).cursor.original_line_offset,
            spans(final(self).nodes()) == layout_after_remove(*old(self)),
    {
        let ghost t = self.text();
        let ghost p = self.pos();
        let ghost o = self.original_str@;
        let ghost a = self.added_str@;
        let ghost l = self.node_list.left_list@;
        let ghost rt = self.node_list.right_list@;
        let ghost b0 = l.take(l.len() - 2);
        let ghost pv = l[l.len() - 2];
        let ghost cur = l.last();
        let ghost pt = node_text(o, a, pv);
        proof {
            self.lemma_split_text();
            assert(self.nodes()[l.len() - 2] == pv);
            assert(node_ok(o, a, self.nodes()[l.len() - 2]));
            assert(self.before() =~= b0.push(pv));
            assert(self.before().drop_last() =~= b0);
            lemma_all_ok_concat(o, a, l, rt);
            assert(l =~= b0.push(pv).push(cur));
            lemma_all_ok_push(o, a, b0.push(pv), cur);
            lemma_all_ok_push(o, a, b0, pv);
            assert(flat(o, a, self.before()) == flat(o, a, b0) + pt);
            assert(t == flat(o, a, b0) + pt + node_text(o, a, cur) + flat(o, a, rt));
        }
        let last = self.node_list.left_list.len() - 1;
        let m = self.node_list.left_list[last - 1].offset - 1;
        let b = self.byte_of(&self.node_list.left_list[last - 1], m);
        proof {
            assert(pt.take(m as int + 1) =~= pt);
            assert(pt =~= pt.take(m as int).push(b));
            lemma_push(pt.take(m as int), b);
            lemma_line_starts_nonempty(pt.take(m as int));
            assert(t[p - 1] == b);
        }
        if m == 0 {
            self.node_list.remove_prev();
            proof {
                assert(self.node_list.left_list@ =~= b0.push(cur));
                assert(self.node_list.left_list@.drop_last() =~= b0);
                assert(self.before() =~= b0);
                assert(pt.take(0) =~= Seq::<u8>::empty());
                assert(flat(o, a, self.node_list.left_list@) == flat(o, a, b0) + node_text(o, a, cur));
                lemma_flat_concat(o, a, self.node_list.left_list@, rt);
                assert(self.text() =~= t.take(p - 1) + t.skip(p));
                lemma_all_ok_push(o, a, b0, cur);
                lemma_all_ok_concat(o, a, self.node_list.left_list@, rt);
                assert(self.nodes() =~= old(self).nodes().remove(l.len() - 2));
                assert(spans(self.nodes()) =~= spans(old(self).nodes()).remove(l.len() - 2));
            }
            return b;
        }
        let c = starts_without_last(Ghost(o), Ghost(a), &self.node_list.left_list[last - 1], b);
        let shrunk = left_part(Ghost(o), Ghost(a), &self.node_list.left_list[last - 1], m, c);
        let cur_node = match self.node_list.left_list.pop_back() {
            Some(x) => x,
            None => { return b; },
        };
        let _ = self.node_list.left_list.pop_back();
        self.node_list.left_list.push_back(shrunk);
        self.node_list.left_list.push_back(cur_node);
        proof {
            let l2 = self.node_list.left_list@;
            assert(l2 =~= b0.push(shrunk).push(cur));
            assert(l2.drop_last() =~= b0.push(shrunk));
            assert(b0.push(shrunk).drop_last() =~= b0);
            assert(self.before() =~= b0.push(shrunk));
            assert(flat(o, a, b0.push(shrunk)) == flat(o, a, b0) + pt.take(m as int));
            assert(flat(o, a, l2) == flat(o, a, b0) + pt.take(m as int) + node_text(o, a, cur));
            lemma_flat_concat(o, a, l2, rt);
            assert(self.text() =~= t.take(p - 1) + t.skip(p));
            lemma_all_ok_push(o, a, b0, shrunk);
            lemma_all_ok_push(o, a, b0.push(shrunk), cur);
            lemma_all_ok_concat(o, a, l2, rt);
            assert(self.nodes() =~= old(self).nodes().update(l.len() - 2, shrunk));
            assert(spans(self.nodes()) =~= spans(old(self).nodes()).update(l.len() - 2, (pv.from, pv.index, (pv.offset - 1) as usize)));
        }
        b
    }

    /// Removes the last byte of the document, the caret being at its end.
    #[verifier::rlimit(60)]
    fn remove_at_end(&mut self) -> (b: u8)
        requires
            old(self).pieces_ok(),
            old(self).cursor_ok(),
            old(self).node_list.left_list@.len() >= 1,
            old(self).cursor.node_offset == old(self).cur().offset,
        ensures
            final(self).pieces_ok(),
            final(self).cursor_ok(),
            old(self).pos() > 0,
            b == old(self).text()[old(self).pos() - 1],
            final(self).text() == old(self).text().take(old(self).pos() - 1) + old(self).text().skip(
                old(self).pos(),
            ),
            final(self).pos() == old(self).pos() - 1,
            final(self).original_str == old(self).original_str,
            final(self).added_str == old(self).added_str,
            final(self).current_line == old(self).current_line,
            final(self).line_count == old(self).line_count,
            final(self).cursor.line_offset == old(self).cursor.line_offset,
            final(self).cursor.original_line_offset == old(self).cursor.original_line_offset,
            spans(final(self).nodes()) == layout_after_remove(*old(self)),
    {
        let ghost t = self.text();
        let ghost p = self.pos();
        let ghost o = self.original_str@;
        let ghost a = self.added_str@;
        let ghost l = self.node_list.left_list@;
        let ghost bf = self.before();
        let ghost ct = self.cur_text();
        proof {
            self.lemma_split_text();
            assert(self.node_list.right_list@.len() == 0);
            assert(flat(o, a, self.node_list.right_list@) =~= Seq::<u8>::empty());
            assert(self.nodes() =~= l);
        }
        let last = self.node_list.left_list.len() - 1;
        let k = self.cursor.node_offset;
        let b = self.byte_of(&self.node_list.left_list[last], k - 1);
        proof {
            assert(ct.take(k as int) =~= ct);
            assert(ct =~= ct.take(k - 1).push(b));
            lemma_push(ct.take(k - 1), b);
            lemma_line_starts_nonempty(ct.take(k - 1));
            lemma_all_ok_concat(o, a, l, self.node_list.right_list@);
            assert(l =~= bf.push(self.cur()));
            lemma_all_ok_push(o, a, bf, self.cur());
            assert(t[p - 1] == b);
        }
        if k == 1 {
            self.node_list.remove_curr();
            proof {
                assert(t.skip(p) =~= Seq::<u8>::empty());
            }
            if self.node_list.left_list.len() == 0 {
                self.cursor.node_offset = 0;
                self.cursor.line_idx = 0;
                proof {
                    assert(self.nodes() =~= Seq::<BufferNode>::empty());
                    assert(t.take(p - 1) =~= Seq::<u8>::empty());
                    assert(self.text() =~= t.take(p - 1) + t.skip(p));
                    assert(old(self).nodes() =~= l);
                    assert(spans(self.nodes()) =~= spans(old(self).nodes()).remove(l.len() - 1));
                }
            } else {
                let nl = self.node_list.left_list.len() - 1;
                proof {
                    assert(self.nodes() =~= bf);
                    assert(self.node_list.left_list@ =~= bf);
                    assert(bf[nl as int] == self.cur());
                    assert(node_ok(o, a, bf[nl as int]));
                    lemma_line_starts_nonempty(self.cur_text());
                }
                let off = self.node_list.left_list[nl].offset;
                let lines = self.node_list.left_list[nl].line_offsets.len() - 1;
                self.cursor.node_offset = off;
                self.cursor.line_idx = lines;
                proof {
                    assert(self.nodes() =~= bf);
                    assert(self.cur_text().take(off as int) =~= self.cur_text());
                    assert(self.text() =~= t.take(p - 1) + t.skip(p));
                    assert(old(self).nodes() =~= l);
                    assert(spans(self.nodes()) =~= spans(old(self).nodes()).remove(l.len() - 1));
                }
            }
            return b;
        }
        let c = starts_without_last(Ghost(o), Ghost(a), &self.node_list.left_list[last], b);
        let shrunk = left_part(Ghost(o), Ghost(a), &self.node_list.left_list[last], k - 1, c);
        let mut parts: Vec<BufferNode> = Vec::new();
        parts.push(shrunk);
        proof {
            assert(parts@ =~= seq![shrunk]);
        }
        self.node_list.replace_curr(parts);
        self.cursor.node_offset = k - 1;
        self.cursor.line_idx = c - 1;
        proof {
            let l2 = self.node_list.left_list@;
            assert(l2 =~= bf.push(shrunk));
            assert(l2.drop_last() =~= bf);
            assert(self.nodes() =~= l2);
            assert(self.cur_text().take(k - 1) =~= self.cur_text());
            assert(self.text() =~= t.take(p - 1) + t.skip(p));
            lemma_all_ok_push(o, a, bf, shrunk);
            assert(old(self).nodes() =~= l);
            assert(self.nodes() =~= old(self).nodes().update(l.len() - 1, shrunk));
            assert(spans(self.nodes()) =~= spans(old(self).nodes()).update(l.len() - 1, (self.cur().from, self.cur().index, (k - 1) as usize)));
        }
        b
    }

    /// Removes the byte before the caret, strictly inside the current piece,
    /// which splits in two; the caret goes to the start of the second part.
    #[verifier::rlimit(60)]
    fn remove_inside(&mut self) -> (b: u8)
        requires
            old(self).pieces_ok(),
            old(self).cursor_ok(),
            old(self).node_list.left_list@.len() >= 1,
            0 < old(self).cursor.node_offset < old(self).cur().offset,
        ensures
            final(self).pieces_ok(),
            final(self).cursor_ok(),
            old(self).pos() > 0,
            b == old(self).text()[old(self).pos() - 1],
            final(self).text() == old(self).text().take(old(self).pos() - 1) + old(self).text().skip(
                old(self).pos(),
            ),
            final(self).pos() == old(self).pos() - 1,
            final(self).original_str == old(self).original_str,
            final(self).added_str == old(self).added_str,
            final(self).current_line == old(self).current_line,
            final(self).line_count == old(self).line_count,
            final(self).cursor.line_offset == old(self).cursor.line_offset,
            final(self).cursor.original_line_offset == old(self).cursor.original_line_offset,
            spans(final(self).nodes()) == layout_after_remove(*old(self)),
    {
        let ghost t = self.text();
        let ghost p = self.pos();
        let ghost o = self.original_str@;
        let ghost a = self.added_str@;
        let ghost l = self.node_list.left_list@;
        let ghost rt = self.node_list.right_list@;
        let ghost bf = self.before();
        let ghost ct = self.cur_text();
        let last = self.node_list.left_list.len() - 1;
        let k = self.cursor.node_offset;
        proof {
            self.lemma_split_text();
            lemma_line_starts(ct.take(k as int));
            lemma_counts_bounded(ct.take(k as int));
        }
        let b = self.byte_of(&self.node_list.left_list[last], k - 1);
        proof {
            assert(ct.take(k as int) =~= ct.take(k - 1).push(b));
            lemma_push(ct.take(k - 1), b);
            lemma_line_starts_nonempty(ct.take(k - 1));
            lemma_all_ok_concat(o, a, l, rt);
            assert(l =~= bf.push(self.cur()));
            lemma_all_ok_push(o, a, bf, self.cur());
            assert(t[p - 1] == b);
        }
        let j = self.cursor.line_idx;
        let right_piece = right_part(Ghost(o), Ghost(a), &self.node_list.left_list[last], k, j + 1);
        if k == 1 {
            let mut parts: Vec<BufferNode> = Vec::new();
            parts.push(right_piece);
            proof {
                assert(parts@ =~= seq![right_piece]);
            }
            self.node_list.replace_curr(parts);
            proof {
                assert(ct.take(0) =~= Seq::<u8>::empty());
                let l2 = self.node_list.left_list@;
                assert(l2 =~= bf.push(right_piece));
                assert(l2.drop_last() =~= bf);
                lemma_flat_concat(o, a, l2, rt);
                assert(self.text() =~= t.take(p - 1) + t.skip(p));
                lemma_all_ok_push(o, a, bf, right_piece);
                lemma_all_ok_concat(o, a, l2, rt);
                assert(self.nodes() =~= bf + seq![right_piece] + rt);
                assert(spans(self.nodes()) =~= spans(bf) + Seq::empty() + spans(seq![right_piece]) + spans(rt));
            }
        } else {
            let c = if b == NEWLINE {
                j
            } else {
                j + 1
            };
            let left_piece = left_part(Ghost(o), Ghost(a), &self.node_list.left_list[last], k - 1, c);
            let mut parts: Vec<BufferNode> = Vec::new();
            parts.push(left_piece);
            parts.push(right_piece);
            proof {
                assert(parts@ =~= seq![left_piece, right_piece]);
            }
            self.node_list.replace_curr(parts);
            proof {
                let l2 = self.node_list.left_list@;
                assert(l2 =~= bf.push(left_piece).push(right_piece));
                assert(l2.drop_last() =~= bf.push(left_piece));
                assert(bf.push(left_piece).drop_last() =~= bf);
                assert(flat(o, a, bf.push(left_piece)) == flat(o, a, bf) + ct.take(k - 1));
                lemma_flat_concat(o, a, l2, rt);
                assert(self.text() =~= t.take(p - 1) + t.skip(p));
                lemma_all_ok_push(o, a, bf, left_piece);
                lemma_all_ok_push(o, a, bf.push(left_piece), right_piece);
                lemma_all_ok_concat(o, a, l2, rt);
                assert(self.nodes() =~= bf + seq![left_piece] + seq![right_piece] + rt);
                assert(spans(self.nodes()) =~= spans(bf) + spans(seq![left_piece]) + spans(seq![right_piece]) + spans(rt));
            }
        }
        self.cursor.node_offset = 0;
        self.cursor.line_idx = 0;
        proof {
            assert(self.cur_text().take(0) =~= Seq::<u8>::empty());
        }
        b
    }

    /// Moves the caret one byte left; nothing happens at the start of the
    /// document.
    #[verifier::rlimit(60)]
    pub fn move_cursor_left(&mut self)
        requires
            old(self).wf(),
        ensures
            final(self).wf(),
            old(self).pos() == 0 ==> *final(self) == *old(self),
            final(self).text() == old(self).text(),
            final(self).nodes() == old(self).nodes(),
            old(self).pos() > 0 ==> final(self).pos() == old(self).pos() - 1,
            old(self).pos() > 0 ==> final(self).cursor.original_line_offset
                == final(self).cursor.line_offset,
            final(self).original_str == old(self).original_str,
            final(self).added_str == old(self).added_str,
    {
        if self.node_list.left_list.len() == 0 {
            return ;
        }
        let last = self.node_list.left_list.len() - 1;
        let k = self.cursor.node_offset;
        if k == 0 && last == 0 {
            return ;
        }
        let ghost t = self.text();
        let ghost p = self.pos();
        let ghost o = self.original_str@;
        let ghost a = self.added_str@;
        let ghost l = self.node_list.left_list@;
        let ghost rt = self.node_list.right_list@;
        proof {
            self.lemma_split_text();
            lemma_all_ok_concat(o, a, l, rt);
            assert(l =~= self.before().push(self.cur()));
            lemma_all_ok_push(o, a, self.before(), self.cur());
            lemma_flat_len(o, a, self.before());
        }
        let b: u8;
        if k > 0 {
            b = self.byte_of(&self.node_list.left_list[last], k - 1);
            proof {
                let ct = self.cur_text();
                assert(ct.take(k as int) =~= ct.take(k - 1).push(b));
                lemma_push(ct.take(k - 1), b);
                lemma_line_starts_nonempty(ct.take(k - 1));
                assert(t[p - 1] == b);
            }
            self.cursor.node_offset = k - 1;
            if b == NEWLINE {
                self.cursor.line_idx = self.cursor.line_idx - 1;
            }
        } else {
            self.node_list.move_left();
            let nl = self.node_list.left_list.len() - 1;
            proof {
                assert(self.node_list.left_list@ =~= l.drop_last());
                assert(l.drop_last()[nl as int] == self.cur());
                assert(node_ok(o, a, l.drop_last()[nl as int]));
                assert(self.before() =~= l.drop_last().drop_last());
                assert(flat(o, a, l.drop_last()) == flat(o, a, self.before()) + self.cur_text());
            }
            let m = self.node_list.left_list[nl].offset - 1;
            b = self.byte_of(&self.node_list.left_list[nl], m);
            let c = starts_without_last(Ghost(o), Ghost(a), &self.node_list.left_list[nl], b);
            self.cursor.node_offset = m;
            self.cursor.line_idx = c - 1;
            proof {
                assert(self.cur_text().last() == b);
                assert(t[p - 1] == b);
            }
        }
        proof {
            assert(self.text() == t);
            assert(self.pos() == p - 1);
            assert(t.take(p) =~= t.take(p - 1).push(b));
            lemma_push(t.take(p - 1), b);
            lemma_counts_bounded(t.take(p - 1));
        }
        if b == NEWLINE {
            self.current_line = self.current_line - 1;
            self.cursor.line_offset = self.column_at_cursor();
        } else {
            self.cursor.line_offset = self.cursor.line_offset - 1;
        }
        self.cursor.original_line_offset = self.cursor.line_offset;
    }

    /// Moves the caret one byte right; nothing happens at the end of the
    /// document.
    #[verifier::rlimit(60)]
    pub fn move_cursor_right(&mut self)
        requires
            old(self).wf(),
        ensures
            final(self).wf(),
            old(self).pos() == old(self).text().len() ==> *final(self) == *old(self),
            final(self).text() == old(self).text(),
            final(self).nodes() == old(self).nodes(),
            old(self).pos() < old(self).text().len() ==> final(self).pos() == old(self).pos() + 1,
            old(self).pos() < old(self).text().len() ==> final(self).cursor.original_line_offset
                == final(self).cursor.line_offset,
            final(self).original_str == old(self).original_str,
            final(self).added_str == old(self).added_str,
    {
        if self.node_list.left_list.len() == 0 {
            proof {
                assert(self.nodes() =~= Seq::<BufferNode>::empty());
            }
            return ;
        }
        let last = self.node_list.left_list.len() - 1;
        let k = self.cursor.node_offset;
        let ghost t = self.text();
        let ghost p = self.pos();
        let ghost o = self.original_str@;
        let ghost a = self.added_str@;
        let ghost l = self.node_list.left_list@;
        let ghost rt = self.node_list.right_list@;
        proof {
            self.lemma_split_text();
            lemma_all_ok_concat(o, a, l, rt);
            assert(l =~= self.before().push(self.cur()));
            lemma_all_ok_push(o, a, self.before(), self.cur());
        }
        if k == self.node_list.left_list[last].offset {
            proof {
                assert(flat(o, a, rt) =~= Seq::<u8>::empty());
            }
            return ;
        }
        let b = self.byte_of(&self.node_list.left_list[last], k);
        proof {
            let ct = self.cur_text();
            assert(ct.take(k + 1) =~= ct.take(k as int).push(b));
            lemma_push(ct.take(k as int), b);
            lemma_line_starts(ct.take(k + 1));
            lemma_counts_bounded(ct.take(k + 1));
            assert(t[p] == b);
            assert(t.take(p + 1) =~= t.take(p).push(b));
            lemma_push(t.take(p), b);
            lemma_counts_bounded(t.take(p + 1));
            lemma_newline_count_concat(t.take(p + 1), t.skip(p + 1));
            assert(t =~= t.take(p + 1) + t.skip(p + 1));
        }
        if k + 1 == self.node_list.left_list[last].offset && self.node_list.right_list.len() > 0 {
            self.node_list.move_right();
            self.cursor.node_offset = 0;
            self.cursor.line_idx = 0;
            proof {
                let l2 = self.node_list.left_list@;
                assert(l2 =~= l.push(rt[0]));
                assert(l2.drop_last() =~= l);
                assert(self.cur() == rt[0]);
                assert(self.nodes()[l.len() as int] == rt[0]);
                assert(node_ok(o, a, self.nodes()[l.len() as int]));
                assert(self.cur_text().take(0) =~= Seq::<u8>::empty());
                assert(flat(o, a, l) == flat(o, a, self.before()));
            }
        } else {
            self.cursor.node_offset = k + 1;
            if b == NEWLINE {
                self.cursor.line_idx = self.cursor.line_idx + 1;
            }
        }
        proof {
            assert(self.text() == t);
            assert(self.pos() == p + 1);
        }
        if b == NEWLINE {
            self.current_line = self.current_line + 1;
            self.cursor.line_offset = 0;
        } else {
            self.cursor.line_offset = self.cursor.line_offset + 1;
        }
        self.cursor.original_line_offset = self.cursor.line_offset;
    }

    /// Moves the caret to the line above, at the column it aims for (or that
    /// line's end when it is shorter); nothing happens on the first line.
    #[verifier::rlimit(40)]
    pub fn move_cursor_up(&mut self)
        requires
            old(self).wf(),
        ensures
            final(self).wf(),
            old(self).current_line == 0 ==> *final(self) == *old(self),
            final(self).text() == old(self).text(),
            final(self).nodes() == old(self).nodes(),
            old(self).current_line > 0 ==> final(self).pos() == line_above(
                old(self).text(),
                old(self).pos(),
                old(self).cursor.original_line_offset as int,
            ),
            old(self).current_line > 0 ==> final(self).current_line == old(self).current_line - 1,
            final(self).cursor.original_line_offset == old(self).cursor.original_line_offset,
            final(self).original_str == old(self).original_str,
            final(self).added_str == old(self).added_str,
    {
        if self.current_line == 0 {
            return ;
        }
        let ghost t = self.text();
        let ghost p = self.pos();
        proof {
            self.lemma_pos_bound();
            lemma_prev_line_end(t.take(p));
        }
        let back = self.cursor.line_offset + 1;
        self.seek_back(back);
        let ghost e = self.pos();
        let len = self.column_at_cursor();
        let sticky = self.cursor.original_line_offset;
        let col = if sticky < len {
            sticky
        } else {
            len
        };
        proof {
            lemma_counts_bounded(t.take(e));
        }
        self.seek_back(len - col);
        proof {
            let q = self.pos();
            assert(t.take(p).take(e) =~= t.take(e));
            lemma_column_window(t.take(e), q);
            assert(t.take(e).take(q) =~= t.take(q));
        }
        self.cursor.line_offset = col;
        self.current_line = self.current_line - 1;
    }

    /// Moves the caret to the line below, at the column it aims for (or that
    /// line's end when it is shorter); nothing happens on the last line.
    #[verifier::rlimit(40)]
    pub fn move_cursor_down(&mut self)
        requires
            old(self).wf(),
        ensures
            final(self).wf(),
            old(self).current_line == old(self).line_count ==> *final(self) == *old(self),
            final(self).text() == old(self).text(),
            final(self).nodes() == old(self).nodes(),
            old(self).current_line < old(self).line_count ==> final(self).pos() == line_below(
                old(self).text(),
                old(self).pos(),
                old(self).cursor.original_line_offset as int,
            ),
            old(self).current_line < old(self).line_count ==> final(self).current_line == old(
                self,
            ).current_line + 1,
            final(self).cursor.original_line_offset == old(self).cursor.original_line_offset,
            final(self).original_str == old(self).original_str,
            final(self).added_str == old(self).added_str,
    {
        if self.current_line == self.line_count {
            return ;
        }
        let ghost t = self.text();
        let ghost p = self.pos();
        proof {
            self.lemma_pos_bound();
            lemma_take_skip(t, p);
            lemma_newline_count_concat(t.take(p), t.skip(p));
            lemma_has_line_below(t, p);
        }
        let r1 = self.distance_to_line_end();
        self.seek_forward(r1 + 1);
        let r2 = self.distance_to_line_end();
        let sticky = self.cursor.original_line_offset;
        let col = if sticky < r2 {
            sticky
        } else {
            r2
        };
        self.seek_forward(col);
        proof {
            lemma_down_counts(t, p, col as int);
            lemma_counts_bounded(t);
        }
        self.cursor.line_offset = col;
        self.current_line = self.current_line + 1;
    }

    /// Moves the caret `d` bytes left, across pieces as needed; the counters
    /// are left for the caller.
    #[verifier::rlimit(40)]
    fn seek_back(&mut self, d: usize)
        requires
            old(self).pieces_ok(),
            old(self).cursor_ok(),
            d <= old(self).pos(),
        ensures
            final(self).pieces_ok(),
            final(self).cursor_ok(),
            final(self).nodes() == old(self).nodes(),
            final(self).text() == old(self).text(),
            final(self).pos() == old(self).pos() - d,
            final(self).original_str == old(self).original_str,
            final(self).added_str == old(self).added_str,
            final(self).current_line == old(self).current_line,
            final(self).line_count == old(self).line_count,
            final(self).cursor.line_offset == old(self).cursor.line_offset,
            final(self).cursor.original_line_offset == old(self).cursor.original_line_offset,
    {
        let ghost target = self.pos() - d;
        let ghost o = self.original_str@;
        let ghost a = self.added_str@;
        let mut d = d;
        while d > self.cursor.node_offset
            invariant
                self.pieces_ok(),
                self.nodes() == old(self).nodes(),
                self.original_str == old(self).original_str,
                self.added_str == old(self).added_str,
                o == self.original_str@,
                a == self.added_str@,
                self.current_line == old(self).current_line,
                self.line_count == old(self).line_count,
                self.cursor.line_offset == old(self).cursor.line_offset,
                self.cursor.original_line_offset == old(self).cursor.original_line_offset,
                self.node_list.left_list@.len() > 0 ==> self.cursor.node_offset <= self.cur().offset,
                self.node_list.left_list@.len() > 0 && self.cursor.node_offset == self.cur().offset
                    ==> self.node_list.right_list@.len() == 0 || d > 0,
                self.node_list.left_list@.len() == 0 ==> self.cursor.node_offset == 0
                    && self.cursor.line_idx == 0,
                d <= self.pos(),
                self.pos() - d == target,
            decreases self.node_list.left_list@.len(),
        {
            let ghost l = self.node_list.left_list@;
            let ghost rt = self.node_list.right_list@;
            proof {
                lemma_all_ok_concat(o, a, l, rt);
                assert(l =~= self.before().push(self.cur()));
                lemma_all_ok_push(o, a, self.before(), self.cur());
                lemma_flat_len(o, a, self.before());
            }
            d = d - self.cursor.node_offset;
            self.node_list.move_left();
            let last = self.node_list.left_list.len() - 1;
            proof {
                assert(self.node_list.left_list@ =~= l.drop_last());
                assert(l.drop_last()[last as int] == self.cur());
                assert(node_ok(o, a, l.drop_last()[last as int]));
                assert(self.before() =~= l.drop_last().drop_last());
                assert(flat(o, a, l.drop_last()) == flat(o, a, self.before()) + self.cur_text());
            }
            self.cursor.node_offset = self.node_list.left_list[last].offset;
        }
        self.cursor.node_offset = self.cursor.node_offset - d;
        if self.node_list.left_list.len() > 0 {
            let last = self.node_list.left_list.len() - 1;
            proof {
                let l = self.node_list.left_list@;
                lemma_all_ok_concat(o, a, l, self.node_list.right_list@);
                assert(l =~= self.before().push(self.cur()));
                lemma_all_ok_push(o, a, self.before(), self.cur());
            }
            let c = starts_upto(Ghost(o), Ghost(a), &self.node_list.left_list[last], self.cursor.node_offset);
            self.cursor.line_idx = c - 1;
        } else {
            self.cursor.line_idx = 0;
        }
    }

    /// Moves the caret `d` bytes right, across pieces as needed; the counters
    /// are left for the caller.
    #[verifier::rlimit(40)]
    fn seek_forward(&mut self, d: usize)
        requires
            old(self).pieces_ok(),
            old(self).cursor_ok(),
            old(self).pos() + d <= old(self).text().len(),
        ensures
            final(self).pieces_ok(),
            final(self).cursor_ok(),
            final(self).nodes() == old(self).nodes(),
            final(self).text() == old(self).text(),
            final(self).pos() == old(self).pos() + d,
            final(self).original_str == old(self).original_str,
            final(self).added_str == old(self).added_str,
            final(self).current_line == old(self).current_line,
            final(self).line_count == old(self).line_count,
            final(self).cursor.line_offset == old(self).cursor.line_offset,
            final(self).cursor.original_line_offset == old(self).cursor.original_line_offset,
    {
        let ghost target = self.pos() + d;
        let ghost o = self.original_str@;
        let ghost a = self.added_str@;
        proof {
            if self.node_list.left_list@.len() == 0 {
                assert(self.nodes() =~= Seq::<BufferNode>::empty());
            }
        }
        let mut d = d;
        while d > 0 && self.room_in_current() <= d && self.node_list.right_list.len() > 0
            invariant
                self.pieces_ok(),
                self.nodes() == old(self).nodes(),
                self.original_str == old(self).original_str,
                self.added_str == old(self).added_str,
                o == self.original_str@,
                a == self.added_str@,
                self.current_line == old(self).current_line,
                self.line_count == old(self).line_count,
                self.cursor.line_offset == old(self).cursor.line_offset,
                self.cursor.original_line_offset == old(self).cursor.original_line_offset,
                self.node_list.left_list@.len() > 0 ==> self.cursor.node_offset <= self.cur().offset,
                self.node_list.left_list@.len() > 0 && self.cursor.node_offset == self.cur().offset
                    ==> self.node_list.right_list@.len() == 0,
                self.node_list.left_list@.len() == 0 ==> self.cursor.node_offset == 0 && d == 0
                    && self.cursor.line_idx == 0,
                self.pos() + d == target,
                target <= self.text().len(),
            decreases self.node_list.right_list@.len(),
        {
            let ghost l = self.node_list.left_list@;
            let ghost rt = self.node_list.right_list@;
            proof {
                lemma_all_ok_concat(o, a, l, rt);
                assert(l =~= self.before().push(self.cur()));
                lemma_all_ok_push(o, a, self.before(), self.cur());
            }
            d = d - self.room_in_current();
            self.node_list.move_right();
            self.cursor.node_offset = 0;
            proof {
                let l2 = self.node_list.left_list@;
                assert(l2 =~= l.push(rt[0]));
                assert(l2.drop_last() =~= l);
                assert(self.nodes()[l.len() as int] == rt[0]);
                assert(node_ok(o, a, self.nodes()[l.len() as int]));
                assert(l =~= l.drop_last().push(l.last()));
            }
        }
        proof {
            if self.node_list.left_list@.len() > 0 {
                self.lemma_split_text();
                if self.node_list.right_list@.len() == 0 {
                    assert(flat(o, a, self.node_list.right_list@) =~= Seq::<u8>::empty());
                }
            }
        }
        self.cursor.node_offset = self.cursor.node_offset + d;
        if self.node_list.left_list.len() > 0 {
            let last = self.node_list.left_list.len() - 1;
            proof {
                let l = self.node_list.left_list@;
                lemma_all_ok_concat(o, a, l, self.node_list.right_list@);
                assert(l =~= self.before().push(self.cur()));
                lemma_all_ok_push(o, a, self.before(), self.cur());
            }
            let c = starts_upto(Ghost(o), Ghost(a), &self.node_list.left_list[last], self.cursor.node_offset);
            self.cursor.line_idx = c - 1;
        }
    }

    /// How many bytes of the current piece lie after the caret.
    fn room_in_current(&self) -> (r: usize)
        requires
            self.node_list.left_list@.len() > 0,
            self.cursor.node_offset <= self.cur().offset,
        ensures
            r == self.cur().offset - self.cursor.node_offset,
    {
        self.node_list.left_list[self.node_list.left_list.len() - 1].offset - self.cursor.node_offset
    }

    /// How many bytes lie between the caret and the end of its line.
    #[verifier::rlimit(40)]
    pub fn distance_to_line_end(&self) -> (r: usize)
        requires
            self.pieces_ok(),
            self.cursor_ok(),
        ensures
            r == rest_of_line(self.text().skip(self.pos())),
            self.pos() + r <= self.text().len(),
    {
        let ghost o = self.original_str@;
        let ghost a = self.added_str@;
        let ghost t = self.text();
        let ghost p = self.pos();
        if self.node_list.left_list.len() == 0 {
            proof {
                assert(self.nodes() =~= Seq::<BufferNode>::empty());
                assert(t.skip(0) =~= Seq::<u8>::empty());
            }
            return 0;
        }
        let ghost rt = self.node_list.right_list@;
        let last = self.node_list.left_list.len() - 1;
        let k = self.cursor.node_offset;
        let j = self.cursor.line_idx;
        let ghost ct = self.cur_text();
        let ghost u = ct.skip(k as int);
        proof {
            self.lemma_split_text();
            lemma_line_starts_split(ct, k as int);
            crate::text::lemma_line_starts_prefix(ct, k as int);
            lemma_line_starts(ct);
            lemma_rest_from_line_starts(u);
            lemma_rest_concat(u, flat(o, a, rt));
            lemma_all_ok_concat(o, a, self.node_list.left_list@, rt);
        }
        let table_len = self.node_list.left_list[last].line_offsets.len();
        if j < table_len - 1 {
            proof {
                assert(line_starts(u)[1] == line_starts(ct)[j + 1] - k);
            }
            return self.node_list.left_list[last].line_offsets[j + 1] - 1 - k;
        }
        let mut acc: usize = self.node_list.left_list[last].offset - k;
        let mut i: usize = 0;
        proof {
            assert(rt.skip(0) =~= rt);
        }
        while i < self.node_list.right_list.len()
            invariant
                self.pieces_ok(),
                o == self.original_str@,
                a == self.added_str@,
                t == self.text(),
                p == self.pos(),
                rt == self.node_list.right_list@,
                all_ok(o, a, rt),
                i <= rt.len(),
                rest_of_line(t.skip(p)) == acc + rest_of_line(flat(o, a, rt.skip(i as int))),
                p + acc + flat(o, a, rt.skip(i as int)).len() == t.len(),
            decreases rt.len() - i,
        {
            let ghost nt = node_text(o, a, rt[i as int]);
            proof {
                assert(rt.skip(i as int) =~= seq![rt[i as int]] + rt.skip(i as int + 1));
                lemma_flat_concat(o, a, seq![rt[i as int]], rt.skip(i as int + 1));
                lemma_flat_single(o, a, rt[i as int]);
                assert(node_ok(o, a, rt[i as int]));
                lemma_rest_from_line_starts(nt);
                lemma_rest_concat(nt, flat(o, a, rt.skip(i as int + 1)));
            }
            let node = &self.node_list.right_list[i];
            if node.line_offsets.len() > 1 {
                return acc + (node.line_offsets[1] - 1);
            }
            proof {
                lemma_line_starts_nonempty(nt);
                assert(rest_of_line(nt) == nt.len());
                assert(flat(o, a, rt.skip(i as int)) == nt + flat(o, a, rt.skip(i as int + 1)));
                assert(rest_of_line(flat(o, a, rt.skip(i as int))) == nt.len() + rest_of_line(
                    flat(o, a, rt.skip(i as int + 1)),
                ));
            }
            acc = acc + node.offset;
            i = i + 1;
        }
        proof {
            assert(rt.skip(i as int) =~= Seq::<BufferNode>::empty());
        }
        acc
    }

    /// The stores leave room for `n` more bytes.
    pub open spec fn has_room_spec(&self, n: usize) -> bool {
        self.original_str@.len() + self.added_str@.len() + n <= usize::MAX
    }

    /// Whether `n` more bytes can be inserted without the stores or the
    /// document outgrowing memory.
    pub fn has_room(&self, n: usize) -> (r: bool)
        requires
            self.pieces_ok(),
        ensures
            r == self.has_room_spec(n),
            r ==> self.text().len() + n <= usize::MAX && self.added_str@.len() + n <= usize::MAX,
    {
        let o = self.original_str.len();
        let a = self.added_str.len();
        o <= usize::MAX - a && n <= usize::MAX - a - o
    }

    /// How many line ends the document holds.
    pub fn total_newline_count(&self) -> (r: usize)
        requires
            self.wf(),
        ensures
            r == newline_count(self.text()),
    {
        self.line_count
    }

    /// The caret's line, counted from 0.
    pub fn current_line_number(&self) -> (r: usize)
        requires
            self.wf(),
        ensures
            r == newline_count(self.text().take(self.pos())),
    {
        self.current_line
    }

    /// The caret's column.
    pub fn column(&self) -> (r: usize)
        requires
            self.wf(),
        ensures
            r == column(self.text().take(self.pos())),
    {
        self.cursor.line_offset
    }

    /// How many lines the document has: one more than its line ends.
    pub fn num_lines(&self) -> (r: usize)
        requires
            self.wf(),
            self.text().len() < usize::MAX,
        ensures
            r == newline_count(self.text()) + 1,
    {
        proof {
            lemma_counts_bounded(self.text());
        }
        self.line_count + 1
    }

    /// In every well-formed state the line counter is the number of line
    /// ends in the document, and the caret's line number lies between 0 and
    /// that total.
    pub proof fn lemma_newline_accounting(&self)
        requires
            self.wf(),
        ensures
            self.line_count == newline_count(self.text()),
            0 <= self.current_line <= self.line_count,
    {
        self.lemma_pos_bound();
        lemma_take_skip(self.text(), self.pos());
        lemma_newline_count_concat(self.text().take(self.pos()), self.text().skip(self.pos()));
    }

    /// In every well-formed state no piece is empty, and the caret sits on a
    /// live piece whenever there is one.
    pub proof fn lemma_pieces_nonempty(&self)
        requires
            self.wf(),
        ensures
            forall|i: int| 0 <= i < self.nodes().len() ==> #[trigger] self.nodes()[i].offset > 0,
            self.nodes().len() > 0 ==> self.node_list.left_list@.len() > 0,
    {
        assert forall|i: int| 0 <= i < self.nodes().len() implies #[trigger] self.nodes()[i].offset > 0 by {
            assert(node_ok(self.original_str@, self.added_str@, self.nodes()[i]));
        }
    }

    /// Byte `i` of piece `n`.
    fn byte_of(&self, n: &BufferNode, i: usize) -> (r: u8)
        requires
            node_ok(self.original_str@, self.added_str@, *n),
            i < n.offset,
            self.pieces_ok(),
        ensures
            r == node_text(self.original_str@, self.added_str@, *n)[i as int],
    {
        match n.from {
            BufferType::Original => self.original_str[n.index + i],
            BufferType::Added => self.added_str[n.index + i],
        }
    }
}

/// Appends the bytes of piece `n` to `out`.
fn append_node(out: &mut Vec<u8>, o: &Vec<u8>, a: &Vec<u8>, n: &BufferNode)
    requires
        node_ok(o@, a@, *n),
        old(out)@.len() + n.offset <= usize::MAX,
    ensures
        final(out)@ == old(out)@ + node_text(o@, a@, *n),
{
    let src = match n.from {
        BufferType::Original => o,
        BufferType::Added => a,
    };
    let total = src.len();
    let mut k: usize = 0;
    while k < n.offset
        invariant
            k <= n.offset,
            n.index + n.offset <= src@.len(),
            src@.len() == total,
            src@ == store(o@, a@, n.from),
            out@ == old(out)@ + src@.subrange(n.index as int, n.index + k),
        decreases n.offset - k,
    {
        out.push(src[n.index + k]);
        k = k + 1;
        proof {
            assert(out@ =~= old(out)@ + src@.subrange(n.index as int, n.index + k));
        }
    }
}

/// The line starts of `len` bytes of `v` from `start`.
fn line_starts_of(v: &[u8], start: usize, len: usize) -> (r: Vec<usize>)
    requires
        start + len <= v@.len(),
        start + len <= usize::MAX,
    ensures
        r@ == line_starts(v@.subrange(start as int, start + len)),
{
    let ghost t = v@.subrange(start as int, start + len);
    let mut r: Vec<usize> = Vec::new();
    r.push(0);
    proof {
        assert(t.take(0) =~= Seq::<u8>::empty());
    }
    let mut i: usize = 0;
    while i < len
        invariant
            i <= len,
            start + len <= v@.len(),
            start + len <= usize::MAX,
            t == v@.subrange(start as int, start + len),
            r@ == line_starts(t.take(i as int)),
        decreases len - i,
    {
        let b = v[start + i];
        proof {
            assert(t.take(i as int + 1) =~= t.take(i as int).push(b));
            lemma_push(t.take(i as int), b);
        }
        if b == NEWLINE {
            r.push(i + 1);
        }
        i = i + 1;
    }
    proof {
        assert(t.take(len as int) =~= t);
    }
    r
}

} // verus!

verus! {

/// The piece of the first `k` bytes of `n`; `c` counts the line starts of
/// those bytes.
fn left_part(o: Ghost<Seq<u8>>, a: Ghost<Seq<u8>>, n: &BufferNode, k: usize, c: usize) -> (r:
    BufferNode)
    requires
        node_ok(o@, a@, *n),
        0 < k <= n.offset,
        c == line_starts(node_text(o@, a@, *n).take(k as int)).len(),
    ensures
        node_ok(o@, a@, r),
        r.from == n.from,
        r.index == n.index,
        r.offset == k,
        node_text(o@, a@, r) == node_text(o@, a@, *n).take(k as int),
{
    let ghost t = node_text(o@, a@, *n);
    proof {
        lemma_line_starts_split(t, k as int);
        crate::text::lemma_line_starts_prefix(t, k as int);
        lemma_line_starts(t);
    }
    let r = BufferNode {
        from: n.from,
        index: n.index,
        offset: k,
        line_offsets: table_take(&n.line_offsets, c),
    };
    proof {
        assert(node_text(o@, a@, r) =~= t.take(k as int));
    }
    r
}

/// The piece of the bytes of `n` from `k` on; `c` counts the line starts of
/// the bytes before `k`.
fn right_part(o: Ghost<Seq<u8>>, a: Ghost<Seq<u8>>, n: &BufferNode, k: usize, c: usize) -> (r:
    BufferNode)
    requires
        node_ok(o@, a@, *n),
        n.index + n.offset <= usize::MAX,
        k < n.offset,
        c == line_starts(node_text(o@, a@, *n).take(k as int)).len(),
    ensures
        node_ok(o@, a@, r),
        r.from == n.from,
        r.index == n.index + k,
        r.offset == n.offset - k,
        node_text(o@, a@, r) == node_text(o@, a@, *n).skip(k as int),
{
    let ghost t = node_text(o@, a@, *n);
    proof {
        lemma_line_starts_split(t, k as int);
        crate::text::lemma_line_starts_prefix(t, k as int);
        lemma_line_starts(t);
    }
    let r = BufferNode {
        from: n.from,
        index: n.index + k,
        offset: n.offset - k,
        line_offsets: table_rebase(&n.line_offsets, c, k),
    };
    proof {
        assert(node_text(o@, a@, r) =~= t.skip(k as int));
    }
    r
}

/// How many line starts piece `n` has before its last byte `b`.
fn starts_without_last(o: Ghost<Seq<u8>>, a: Ghost<Seq<u8>>, n: &BufferNode, b: u8) -> (c: usize)
    requires
        node_ok(o@, a@, *n),
        b == node_text(o@, a@, *n).last(),
    ensures
        c == line_starts(node_text(o@, a@, *n).take(n.offset - 1)).len(),
        c >= 1,
{
    let ghost t = node_text(o@, a@, *n);
    proof {
        assert(t =~= t.take(n.offset - 1).push(b));
        lemma_push(t.take(n.offset - 1), b);
        lemma_line_starts_nonempty(t.take(n.offset - 1));
    }
    if b == NEWLINE {
        n.line_offsets.len() - 1
    } else {
        n.line_offsets.len()
    }
}

/// How many line starts piece `n` has at or before offset `k`.
fn starts_upto(o: Ghost<Seq<u8>>, a: Ghost<Seq<u8>>, n: &BufferNode, k: usize) -> (c: usize)
    requires
        node_ok(o@, a@, *n),
        k <= n.offset,
    ensures
        c == line_starts(node_text(o@, a@, *n).take(k as int)).len(),
        c >= 1,
{
    let ghost t = node_text(o@, a@, *n);
    proof {
        crate::text::lemma_line_starts_prefix(t, k as int);
        lemma_line_starts(t);
        lemma_line_starts(t.take(k as int));
    }
    let ghost c0 = line_starts(t.take(k as int)).len() as int;
    let mut i: usize = 0;
    while i < n.line_offsets.len() && n.line_offsets[i] <= k
        invariant
            i <= c0,
            c0 <= n.line_offsets@.len(),
            n.line_offsets@ == line_starts(t),
            forall|x: int| c0 <= x < n.line_offsets@.len() ==> n.line_offsets@[x] > k,
        decreases n.line_offsets@.len() - i,
    {
        i = i + 1;
    }
    proof {
        if i < c0 {
            assert(n.line_offsets@[i as int] == line_starts(t.take(k as int))[i as int]);
        }
    }
    i
}

/// The first `c` entries of `tbl`.
fn table_take(tbl: &Vec<usize>, c: usize) -> (r: Vec<usize>)
    requires
        c <= tbl@.len(),
    ensures
        r@ == tbl@.take(c as int),
{
    let mut r: Vec<usize> = Vec::new();
    let mut i: usize = 0;
    while i < c
        invariant
            i <= c <= tbl@.len(),
            r@ == tbl@.take(i as int),
        decreases c - i,
    {
        r.push(tbl[i]);
        i = i + 1;
        proof {
            assert(r@ =~= tbl@.take(i as int));
        }
    }
    r
}

/// 0, then the entries of `tbl` from `c` on, less `k`.
fn table_rebase(tbl: &Vec<usize>, c: usize, k: usize) -> (r: Vec<usize>)
    requires
        c <= tbl@.len(),
        forall|i: int| c <= i < tbl@.len() ==> tbl@[i] >= k,
    ensures
        r@ == seq![0usize] + tbl@.skip(c as int).map_values(|x: usize| (x - k) as usize),
{
    let mut r: Vec<usize> = Vec::new();
    r.push(0);
    let mut i: usize = c;
    while i < tbl.len()
        invariant
            c <= i <= tbl@.len(),
            forall|j: int| c <= j < tbl@.len() ==> tbl@[j] >= k,
            r@ == seq![0usize] + tbl@.subrange(c as int, i as int).map_values(
                |x: usize| (x - k) as usize,
            ),
        decreases tbl@.len() - i,
    {
        r.push(tbl[i] - k);
        i = i + 1;
        proof {
            assert(r@ =~= seq![0usize] + tbl@.subrange(c as int, i as int).map_values(
                |x: usize| (x - k) as usize,
            ));
        }
    }
    proof {
        assert(tbl@.subrange(c as int, tbl@.len() as int) =~= tbl@.skip(c as int));
    }
    r
}

/// The length of one character in UTF-8.
pub(crate) proof fn lemma_utf8_single_len(ch: char)
    ensures
        1 <= encode_utf8(seq![ch]).len() <= 4,
{
    assert(seq![ch].drop_first() =~= Seq::<char>::empty());
    assert(encode_utf8(seq![ch]) == vstd::utf8::encode_scalar(ch as u32) + encode_utf8(
        Seq::<char>::empty(),
    ));
}

/// What `String::from_utf8_lossy` makes of a byte string.
pub uninterp spec fn lossy_text(b: Seq<u8>) -> Seq<char>;

/// Relies on `String::from_utf8_lossy`: the text of the bytes, with invalid
/// sequences replaced; bytes that are valid UTF-8 come back as the text they
/// encode.
#[verifier::external_body]
pub(crate) fn text_of_bytes(b: &Vec<u8>) -> (r: String)
    ensures
        r@ == lossy_text(b@),
        valid_utf8(b@) ==> r@ == decode_utf8(b@),
{
    String::from_utf8_lossy(b).into_owned()
}

/// Relies on `ToString` for `char`: the string holding just that character.
#[verifier::external_body]
pub(crate) fn char_string(c: char) -> (r: String)
    ensures
        r@ == seq![c],
{
    c.to_string()
}

} // verus!
