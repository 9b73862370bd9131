//! The node table of a U8 archive: walking it yields the directories and
//! files it holds, each with the path of directory names that leads to it.
use vstd::prelude::*;
use vstd::utf8::{decode_utf8, valid_utf8};
use crate::bytes::{be32_at, be_u32_at};
use crate::text::{utf8_error_text, utf8_strict};

verus! {

/// Where the node table and string table of an archive lie in the buffer.
#[derive(Clone, Copy, Debug)]
pub struct U8Layout {
    /// Offset that file data offsets are relative to.
    pub data_base: u64,
    /// Absolute offset of the root node.
    pub rootnode_abs: u64,
    /// Number of nodes, the root included.
    pub total_nodes: u64,
    /// Absolute offset of the string table (just past the last node).
    pub string_table_abs: u64,
}

impl U8Layout {
    /// The header checks passed: at least one node, and the whole node
    /// table lies inside the buffer, right before the string table.
    pub open spec fn wf(self, len: int) -> bool {
        &&& self.total_nodes >= 1
        &&& self.string_table_abs == self.rootnode_abs + 12 * self.total_nodes
        &&& self.string_table_abs <= len
        &&& self.data_base <= 0x1_0000_0000
        &&& self.string_table_abs <= 0x10_0000_0000
    }
}

/// Why a node could not be turned into an entry.
#[derive(Debug)]
pub enum U8WalkError {
    /// The name offset lies past the end of the buffer.
    NameOffsetOutOfBounds { offset: u64 },
    /// No NUL byte ends the name.
    MissingNul { offset: u64 },
    /// The name is not UTF-8; `detail` is the decoder's message.
    InvalidUtf8 { offset: u64, detail: String },
    /// A file's bytes reach past the end of the buffer.
    FileOutOfBounds { name: String },
    /// The node type is neither file (0) nor directory (1).
    UnknownNodeType { node_type: u8, index: u64 },
}

/// The walk errors as values (without the decoder's message).
pub enum WalkErrorView {
    NameOffsetOutOfBounds { offset: int },
    MissingNul { offset: int },
    InvalidUtf8 { offset: int, detail: Seq<char> },
    FileOutOfBounds { name: Seq<char> },
    UnknownNodeType { node_type: int, index: int },
}

impl View for U8WalkError {
    type V = WalkErrorView;

    open spec fn view(&self) -> WalkErrorView {
        match self {
            U8WalkError::NameOffsetOutOfBounds { offset } => WalkErrorView::NameOffsetOutOfBounds {
                offset: *offset as int,
            },
            U8WalkError::MissingNul { offset } => WalkErrorView::MissingNul { offset: *offset as int },
            U8WalkError::InvalidUtf8 { offset, detail } => WalkErrorView::InvalidUtf8 {
                offset: *offset as int,
                detail: detail@,
            },
            U8WalkError::FileOutOfBounds { name } => WalkErrorView::FileOutOfBounds { name: name@ },
            U8WalkError::UnknownNodeType { node_type, index } => WalkErrorView::UnknownNodeType {
                node_type: *node_type as int,
                index: *index as int,
            },
        }
    }
}

/// What a node is.
#[derive(Debug)]
pub enum U8NodeKind {
    /// A directory; nodes before index `end` lie inside it.
    Dir { end_index: u64 },
    /// A file whose bytes are `data[start..end]`.
    File { start: usize, end: usize },
}

/// One node of the archive, with the directory names that lead to it.
#[derive(Debug)]
pub struct U8Node {
    pub index: u64,
    pub dir: Vec<String>,
    pub name: String,
    pub kind: U8NodeKind,
}

/// A node as values.
pub struct NodeView {
    pub index: int,
    pub dir: Seq<Seq<char>>,
    pub name: Seq<char>,
    pub is_dir: bool,
    pub start: int,
    pub end: int,
}

impl View for U8Node {
    type V = NodeView;

    open spec fn view(&self) -> NodeView {
        match self.kind {
            U8NodeKind::Dir { end_index } => NodeView {
                index: self.index as int,
                dir: self.dir.deep_view(),
                name: self.name@,
                is_dir: true,
                start: 0,
                end: end_index as int,
            },
            U8NodeKind::File { start, end } => NodeView {
                index: self.index as int,
                dir: self.dir.deep_view(),
                name: self.name@,
                is_dir: false,
                start: start as int,
                end: end as int,
            },
        }
    }
}

/// The entries a walk produced, and the error that stopped it, if any.
#[derive(Debug)]
pub struct U8Walk {
    pub nodes: Vec<U8Node>,
    pub error: Option<U8WalkError>,
}

/// Views of a list of nodes.
pub open spec fn nodes_view(v: Seq<U8Node>) -> Seq<NodeView> {
    v.map_values(|n: U8Node| n@)
}

/// View of an optional walk error.
pub open spec fn error_view(e: Option<U8WalkError>) -> Option<WalkErrorView> {
    match e {
        Some(e) => Some(e@),
        None => None,
    }
}

// ---------------------------------------------------------------------------
// Specification of the walk.
// ---------------------------------------------------------------------------

/// Index of the first NUL byte at or after `i`.
pub open spec fn first_nul(data: Seq<u8>, i: int) -> Option<int>
    decreases data.len() - i,
{
    if i < 0 || i >= data.len() {
        None
    } else if data[i] == 0 {
        Some(i)
    } else {
        first_nul(data, i + 1)
    }
}

/// How reading a NUL-terminated UTF-8 name at `off` fails.
pub enum NameFailure {
    OffsetOutOfBounds,
    MissingNul,
    /// The name is not UTF-8; `detail` is the decoder's message.
    InvalidUtf8 { detail: Seq<char> },
}

/// The NUL-terminated UTF-8 name stored at `off`.
pub open spec fn name_at_spec(data: Seq<u8>, off: int) -> Result<Seq<char>, NameFailure> {
    if off > data.len() {
        Err(NameFailure::OffsetOutOfBounds)
    } else {
        match first_nul(data, off) {
            None => Err(NameFailure::MissingNul),
            Some(e) => {
                let raw = data.subrange(off, e);
                if valid_utf8(raw) {
                    Ok(decode_utf8(raw))
                } else {
                    Err(NameFailure::InvalidUtf8 { detail: utf8_error_text(raw) })
                }
            },
        }
    }
}

/// Offset of node `i`.
pub open spec fn node_abs(lay: U8Layout, i: int) -> int {
    lay.rootnode_abs + 12 * i
}

/// Type byte of node `i` (top byte of its first word).
pub open spec fn node_type(data: Seq<u8>, lay: U8Layout, i: int) -> int {
    be32_at(data, node_abs(lay, i)) / 0x1000000
}

/// Name offset of node `i` (low 24 bits of its first word).
pub open spec fn node_name_off(data: Seq<u8>, lay: U8Layout, i: int) -> int {
    be32_at(data, node_abs(lay, i)) % 0x1000000
}

/// Data offset (files) or parent index (directories) of node `i`.
pub open spec fn node_data_off(data: Seq<u8>, lay: U8Layout, i: int) -> int {
    be32_at(data, node_abs(lay, i) + 4)
}

/// Size (files) or end index (directories) of node `i`.
pub open spec fn node_size(data: Seq<u8>, lay: U8Layout, i: int) -> int {
    be32_at(data, node_abs(lay, i) + 8)
}

/// A directory frame: the index where it ends, and its path.
pub type Frame = (int, Seq<Seq<char>>);

/// Drops the directories that end at or before node `i`.
pub open spec fn unwind(stack: Seq<Frame>, i: int) -> Seq<Frame>
    decreases stack.len(),
{
    if stack.len() > 0 && i >= stack.last().0 {
        unwind(stack.drop_last(), i)
    } else {
        stack
    }
}

/// The path of the innermost open directory.
pub open spec fn current_path(stack: Seq<Frame>) -> Seq<Seq<char>> {
    if stack.len() == 0 { Seq::empty() } else { stack.last().1 }
}

/// What node `i` yields, given the open directories: the entry and the
/// directories open afterwards, or the error it stops at.
pub open spec fn node_step(data: Seq<u8>, lay: U8Layout, i: int, stack: Seq<Frame>) -> Result<
    (NodeView, Seq<Frame>),
    WalkErrorView,
> {
    let off = lay.string_table_abs + node_name_off(data, lay, i);
    match name_at_spec(data, off) {
        Err(NameFailure::OffsetOutOfBounds) => Err(WalkErrorView::NameOffsetOutOfBounds { offset: off }),
        Err(NameFailure::MissingNul) => Err(WalkErrorView::MissingNul { offset: off }),
        Err(NameFailure::InvalidUtf8 { detail }) => Err(WalkErrorView::InvalidUtf8 { offset: off, detail }),
        Ok(name) => {
            let open = unwind(stack, i);
            let dir = current_path(open);
            let ty = node_type(data, lay, i);
            if ty == 1 {
                let end = node_size(data, lay, i);
                Ok((
                    NodeView { index: i, dir, name, is_dir: true, start: 0, end },
                    open.push((end, dir.push(name))),
                ))
            } else if ty == 0 {
                let start = lay.data_base + node_data_off(data, lay, i);
                let end = start + node_size(data, lay, i);
                if end <= data.len() {
                    Ok((NodeView { index: i, dir, name, is_dir: false, start, end }, open))
                } else {
                    Err(WalkErrorView::FileOutOfBounds { name })
                }
            } else {
                Err(WalkErrorView::UnknownNodeType { node_type: ty, index: i })
            }
        },
    }
}

/// The entries of nodes `i..total`, and the error that stops the walk.
pub open spec fn walk_from(data: Seq<u8>, lay: U8Layout, i: int, stack: Seq<Frame>) -> (
    Seq<NodeView>,
    Option<WalkErrorView>,
)
    decreases lay.total_nodes - i,
{
    if i >= lay.total_nodes || i < 1 {
        (Seq::empty(), None)
    } else {
        match node_step(data, lay, i, stack) {
            Err(e) => (Seq::empty(), Some(e)),
            Ok((n, next)) => {
                let rest = walk_from(data, lay, i + 1, next);
                (seq![n] + rest.0, rest.1)
            },
        }
    }
}

/// The whole walk: node 0 is the root directory, spanning all nodes.
pub open spec fn walk_spec(data: Seq<u8>, lay: U8Layout) -> (Seq<NodeView>, Option<WalkErrorView>) {
    walk_from(data, lay, 1, seq![(lay.total_nodes as int, Seq::<Seq<char>>::empty())])
}

// ---------------------------------------------------------------------------
// Laws.
// ---------------------------------------------------------------------------

/// Unwinding never removes a directory that is still open at `i`.
proof fn lemma_unwind_keeps_bottom(stack: Seq<Frame>, i: int)
    requires
        stack.len() >= 1,
        i < stack[0].0,
    ensures
        unwind(stack, i).len() >= 1,
        unwind(stack, i)[0] == stack[0],
        unwind(stack, i).len() <= stack.len(),
        forall|k: int| 0 <= k < unwind(stack, i).len() ==> #[trigger] unwind(stack, i)[k] == stack[k],
    decreases stack.len(),
{
    if stack.len() > 0 && i >= stack.last().0 {
        lemma_unwind_keeps_bottom(stack.drop_last(), i);
    }
}

/// Every file that a walk yields lies inside the buffer, every entry has a
/// node index inside the table, and the indices increase by one from 1.
pub proof fn law_walk_entries_in_bounds(data: Seq<u8>, lay: U8Layout)
    requires
        lay.wf(data.len() as int),
    ensures
        ({
            let w = walk_spec(data, lay).0;
            &&& w.len() <= lay.total_nodes - 1
            &&& forall|k: int| 0 <= k < w.len() ==> (#[trigger] w[k]).index == k + 1
            &&& forall|k: int| 0 <= k < w.len() && !(#[trigger] w[k]).is_dir ==>
                0 <= w[k].start <= w[k].end <= data.len()
        }),
{
    lemma_walk_from_bounds(data, lay, 1, seq![(lay.total_nodes as int, Seq::<Seq<char>>::empty())]);
}

proof fn lemma_walk_from_bounds(data: Seq<u8>, lay: U8Layout, i: int, stack: Seq<Frame>)
    requires
        lay.wf(data.len() as int),
        1 <= i,
    ensures
        ({
            let w = walk_from(data, lay, i, stack).0;
            &&& w.len() <= if i <= lay.total_nodes { lay.total_nodes - i } else { 0 }
            &&& forall|k: int| 0 <= k < w.len() ==> (#[trigger] w[k]).index == k + i
            &&& forall|k: int| 0 <= k < w.len() && !(#[trigger] w[k]).is_dir ==>
                0 <= w[k].start <= w[k].end <= data.len()
        }),
    decreases lay.total_nodes - i,
{
    if i >= lay.total_nodes {
    } else {
        match node_step(data, lay, i, stack) {
            Err(e) => {},
            Ok((n, next)) => {
                lemma_walk_from_bounds(data, lay, i + 1, next);
                let rest = walk_from(data, lay, i + 1, next).0;
                let w = walk_from(data, lay, i, stack).0;
                assert(w == seq![n] + rest);
                assert forall|k: int| 0 <= k < w.len() implies (#[trigger] w[k]).index == k + i by {
                    if k > 0 {
                        assert(w[k] == rest[k - 1]);
                    }
                }
                assert forall|k: int| 0 <= k < w.len() && !(#[trigger] w[k]).is_dir implies
                    0 <= w[k].start <= w[k].end <= data.len() by {
                    if k > 0 {
                        assert(w[k] == rest[k - 1]);
                    }
                }
            },
        }
    }
}

/// The names of the directories among `prev` whose range reaches past
/// index `t` (their end index is exclusive), in order.
pub open spec fn enclosing_at(prev: Seq<NodeView>, t: int) -> Seq<Seq<char>>
    decreases prev.len(),
{
    if prev.len() == 0 {
        Seq::empty()
    } else {
        let p = enclosing_at(prev.drop_last(), t);
        let d = prev.last();
        if d.is_dir && d.end > t {
            p.push(d.name)
        } else {
            p
        }
    }
}

/// Directories nest: a directory that starts inside another ends no later
/// than it.
pub open spec fn well_nested(w: Seq<NodeView>) -> bool {
    forall|a: int, b: int|
        0 <= a < b < w.len() && (#[trigger] w[a]).is_dir && (#[trigger] w[b]).is_dir && w[b].index < w[a].end
            ==> w[b].end <= w[a].end
}

/// Unwinding to `i`, then to a later `t`, is unwinding to `t`.
proof fn lemma_unwind_twice(stack: Seq<Frame>, i: int, t: int)
    requires
        i <= t,
    ensures
        unwind(unwind(stack, i), t) == unwind(stack, t),
    decreases stack.len(),
{
    if stack.len() > 0 && i >= stack.last().0 {
        lemma_unwind_twice(stack.drop_last(), i, t);
    }
}

/// When every directory of `prev` reaching past `i` also reaches past
/// `t`, the same directories enclose `i` and `t`.
proof fn lemma_enclosing_same(prev: Seq<NodeView>, i: int, t: int)
    requires
        i <= t,
        forall|j: int| 0 <= j < prev.len() && (#[trigger] prev[j]).is_dir && prev[j].end > i ==> prev[j].end > t,
    ensures
        enclosing_at(prev, t) == enclosing_at(prev, i),
    decreases prev.len(),
{
    if prev.len() > 0 {
        let q = prev.drop_last();
        assert forall|j: int| 0 <= j < q.len() && (#[trigger] q[j]).is_dir && q[j].end > i implies q[j].end > t by {
            assert(q[j] == prev[j]);
        }
        lemma_enclosing_same(q, i, t);
        assert(prev.last() == prev[prev.len() - 1]);
    }
}

/// Walking from node `i`, with the directories of `prev` already seen and
/// `stack` open, puts each entry in the directories that enclose it.
proof fn lemma_walk_paths(data: Seq<u8>, lay: U8Layout, i: int, stack: Seq<Frame>, prev: Seq<NodeView>)
    requires
        1 <= i,
        forall|t: int| t >= i ==> #[trigger] current_path(unwind(stack, t)) == enclosing_at(prev, t),
        forall|j: int| 0 <= j < prev.len() ==> (#[trigger] prev[j]).index < i,
        well_nested(prev + walk_from(data, lay, i, stack).0),
    ensures
        ({
            let rest = walk_from(data, lay, i, stack).0;
            forall|k: int|
                0 <= k < rest.len() ==> (#[trigger] rest[k]).dir == enclosing_at(prev + rest.take(k), rest[k].index)
        }),
    decreases lay.total_nodes - i,
{
    let rest = walk_from(data, lay, i, stack).0;
    if i >= lay.total_nodes || i < 1 {
    } else {
        match node_step(data, lay, i, stack) {
            Err(e) => {},
            Ok((n, next)) => {
                let open = unwind(stack, i);
                let dir = current_path(open);
                assert(current_path(unwind(stack, i)) == enclosing_at(prev, i));
                let prev2 = prev.push(n);
                let rest2 = walk_from(data, lay, i + 1, next).0;
                assert(rest == seq![n] + rest2);
                assert(prev2 + rest2 =~= prev + rest);
                assert(prev2.drop_last() =~= prev);
                assert forall|t: int| t >= i + 1 implies #[trigger] current_path(unwind(next, t)) == enclosing_at(
                    prev2,
                    t,
                ) by {
                    lemma_unwind_twice(stack, i, t);
                    assert(current_path(unwind(stack, t)) == enclosing_at(prev, t));
                    if node_type(data, lay, i) == 1 {
                        let end = node_size(data, lay, i);
                        assert(n.is_dir && n.end == end && n.name == next.last().1.last());
                        assert(next == open.push((end, dir.push(n.name))));
                        if end > t {
                            assert(unwind(next, t) == next);
                            assert forall|j: int|
                                0 <= j < prev.len() && (#[trigger] prev[j]).is_dir && prev[j].end > i implies prev[j].end
                                > t by {
                                assert((prev + rest)[j] == prev[j]);
                                assert((prev + rest)[prev.len() as int] == n);
                            }
                            lemma_enclosing_same(prev, i, t);
                            assert(enclosing_at(prev2, t) == enclosing_at(prev, t).push(n.name));
                        } else {
                            assert(next.drop_last() =~= open);
                            assert(unwind(next, t) == unwind(open, t));
                            assert(enclosing_at(prev2, t) == enclosing_at(prev, t));
                        }
                    } else {
                        assert(!n.is_dir);
                        assert(next == open);
                        assert(enclosing_at(prev2, t) == enclosing_at(prev, t));
                    }
                }
                assert forall|j: int| 0 <= j < prev2.len() implies (#[trigger] prev2[j]).index < i + 1 by {
                    if j < prev.len() {
                        assert(prev2[j] == prev[j]);
                    }
                }
                lemma_walk_paths(data, lay, i + 1, next, prev2);
                assert forall|k: int| 0 <= k < rest.len() implies (#[trigger] rest[k]).dir == enclosing_at(
                    prev + rest.take(k),
                    rest[k].index,
                ) by {
                    if k == 0 {
                        assert(prev + rest.take(0) =~= prev);
                    } else {
                        assert(rest[k] == rest2[k - 1]);
                        assert(prev2 + rest2.take(k - 1) =~= prev + rest.take(k));
                    }
                }
            },
        }
    }
}

/// When directories nest, each entry of a walk lies in exactly the
/// directories that enclose it: its path is the names, in order, of the
/// earlier directory entries whose end index lies past its own index (a
/// directory's end index is exclusive).
pub proof fn law_walk_paths(data: Seq<u8>, lay: U8Layout)
    requires
        well_nested(walk_spec(data, lay).0),
    ensures
        ({
            let w = walk_spec(data, lay).0;
            forall|k: int| 0 <= k < w.len() ==> (#[trigger] w[k]).dir == enclosing_at(w.take(k), w[k].index)
        }),
{
    let stack = seq![(lay.total_nodes as int, Seq::<Seq<char>>::empty())];
    let prev = Seq::<NodeView>::empty();
    assert forall|t: int| t >= 1 implies #[trigger] current_path(unwind(stack, t)) == enclosing_at(prev, t) by {
        assert(enclosing_at(prev, t) == Seq::<Seq<char>>::empty());
        if t >= stack.last().0 {
            assert(stack.drop_last() =~= Seq::<Frame>::empty());
            assert(unwind(stack.drop_last(), t) == stack.drop_last());
            assert(unwind(stack, t) == Seq::<Frame>::empty());
        } else {
            assert(unwind(stack, t) == stack);
            assert(current_path(stack) == stack.last().1);
        }
    }
    let w = walk_spec(data, lay).0;
    assert(prev + w =~= w);
    lemma_walk_paths(data, lay, 1, stack, prev);
    assert forall|k: int| 0 <= k < w.len() implies (#[trigger] w[k]).dir == enclosing_at(w.take(k), w[k].index) by {
        assert(prev + w.take(k) =~= w.take(k));
    }
}

/// What the node table says of entry `n`: its type byte (1 directory,
/// 0 file), for a directory its end index, for a file its data offset
/// (from the archive's data base) and size, and its name, the UTF-8 text
/// up to the first NUL at the string table plus the 24-bit name offset.
pub open spec fn node_fields_hold(data: Seq<u8>, lay: U8Layout, n: NodeView) -> bool {
    let a = node_abs(lay, n.index);
    let off = lay.string_table_abs + data[a + 1] * 0x10000 + data[a + 2] * 0x100 + data[a + 3];
    &&& (n.is_dir <==> data[a] == 1)
    &&& (!n.is_dir ==> data[a] == 0)
    &&& (n.is_dir ==> n.end == be32_at(data, a + 8))
    &&& (!n.is_dir ==> n.start == lay.data_base + be32_at(data, a + 4) && n.end == n.start + be32_at(data, a + 8))
    &&& first_nul(data, off) matches Some(e) && valid_utf8(data.subrange(off, e)) && n.name == decode_utf8(
        data.subrange(off, e),
    )
}

/// The type byte and name offset are the top byte and low 24 bits of a
/// node's first word.
proof fn lemma_node_word(data: Seq<u8>, lay: U8Layout, i: int)
    ensures
        node_type(data, lay, i) == data[node_abs(lay, i)],
        node_name_off(data, lay, i) == data[node_abs(lay, i) + 1] * 0x10000 + data[node_abs(lay, i) + 2] * 0x100
            + data[node_abs(lay, i) + 3],
{
    let a = node_abs(lay, i);
    let b0 = data[a] as int;
    let b1 = data[a + 1] as int;
    let b2 = data[a + 2] as int;
    let b3 = data[a + 3] as int;
    let low = b1 * 0x10000 + b2 * 0x100 + b3;
    assert(0 <= low < 0x1000000);
    assert(be32_at(data, a) == b0 * 0x1000000 + low);
    assert((b0 * 0x1000000 + low) / 0x1000000 == b0 && (b0 * 0x1000000 + low) % 0x1000000 == low)
        by (nonlinear_arith)
        requires
            0 <= low < 0x1000000,
            0 <= b0,
    ;
}

proof fn lemma_walk_fields(data: Seq<u8>, lay: U8Layout, i: int, stack: Seq<Frame>)
    ensures
        forall|k: int|
            0 <= k < walk_from(data, lay, i, stack).0.len() ==> node_fields_hold(
                data,
                lay,
                #[trigger] walk_from(data, lay, i, stack).0[k],
            ),
    decreases lay.total_nodes - i,
{
    if i >= lay.total_nodes || i < 1 {
    } else {
        match node_step(data, lay, i, stack) {
            Err(e) => {},
            Ok((n, next)) => {
                lemma_node_word(data, lay, i);
                lemma_walk_fields(data, lay, i + 1, next);
                let rest = walk_from(data, lay, i + 1, next).0;
                let w = walk_from(data, lay, i, stack).0;
                assert(w == seq![n] + rest);
                assert(node_fields_hold(data, lay, n));
                assert forall|k: int| 0 <= k < w.len() implies node_fields_hold(data, lay, #[trigger] w[k]) by {
                    if k > 0 {
                        assert(w[k] == rest[k - 1]);
                    }
                }
            },
        }
    }
}

/// Every entry of a walk is what its node says: directory or file by its
/// type byte, a directory's end index, a file's data range (offset from
/// the data base, then size), and the UTF-8 name at its name offset.
pub proof fn law_walk_node_fields(data: Seq<u8>, lay: U8Layout)
    ensures
        forall|k: int|
            0 <= k < walk_spec(data, lay).0.len() ==> node_fields_hold(data, lay, #[trigger] walk_spec(data, lay).0[k]),
{
    lemma_walk_fields(data, lay, 1, seq![(lay.total_nodes as int, Seq::<Seq<char>>::empty())]);
}

// ---------------------------------------------------------------------------
// Executable walk.
// ---------------------------------------------------------------------------

/// Reads the NUL-terminated UTF-8 name at `off`.
pub fn name_at(data: &[u8], off: u64) -> (r: Result<String, U8WalkError>)
    ensures
        match name_at_spec(data@, off as int) {
            Ok(s) => r matches Ok(n) && n@ == s,
            Err(NameFailure::OffsetOutOfBounds) => r matches Err(
                U8WalkError::NameOffsetOutOfBounds { offset },
            ) && offset == off,
            Err(NameFailure::MissingNul) => r matches Err(U8WalkError::MissingNul { offset })
                && offset == off,
            Err(NameFailure::InvalidUtf8 { detail }) => r matches Err(U8WalkError::InvalidUtf8 { offset, detail: d })
                && offset == off && d@ == detail,
        },
{
    let len = data.len();
    if off > len as u64 {
        return Err(U8WalkError::NameOffsetOutOfBounds { offset: off });
    }
    let start = off as usize;
    let mut e: usize = start;
    while e < len && data[e] != 0
        invariant
            start <= e <= len,
            len == data@.len(),
            first_nul(data@, e as int) == first_nul(data@, start as int),
        decreases len - e,
    {
        e = e + 1;
    }
    if e == len {
        return Err(U8WalkError::MissingNul { offset: off });
    }
    let raw = crate::text::slice_range(data, start, e);
    match utf8_strict(raw) {
        Ok(s) => Ok(s),
        Err(detail) => Err(U8WalkError::InvalidUtf8 { offset: off, detail }),
    }
}

/// Deep view of a directory stack.
pub open spec fn stack_view(v: Seq<(u64, Vec<String>)>) -> Seq<Frame> {
    v.map_values(|f: (u64, Vec<String>)| (f.0 as int, f.1.deep_view()))
}

/// A copy of a path.
pub fn clone_path(p: &Vec<String>) -> (r: Vec<String>)
    ensures
        r.deep_view() == p.deep_view(),
{
    let mut r: Vec<String> = Vec::new();
    let mut i: usize = 0;
    while i < p.len()
        invariant
            i <= p@.len(),
            r.deep_view() == p.deep_view().subrange(0, i as int),
        decreases p.len() - i,
    {
        let s = p[i].clone();
        assert(s@ == p.deep_view()[i as int]);
        let ghost old_r = r.deep_view();
        r.push(s);
        assert(r.deep_view() =~= old_r.push(s@));
        i = i + 1;
        assert(r.deep_view() =~= p.deep_view().subrange(0, i as int));
    }
    assert(p.deep_view().subrange(0, p@.len() as int) =~= p.deep_view());
    r
}

/// Walks nodes `1..total` of the archive: each node is reported in order
/// with the names of the directories around it, until a node fails.
pub fn walk_u8(data: &[u8], lay: &U8Layout) -> (r: U8Walk)
    requires
        lay.wf(data@.len() as int),
    ensures
        (nodes_view(r.nodes@), error_view(r.error)) == walk_spec(data@, *lay),
{
    let ghost d = data@;
    let mut nodes: Vec<U8Node> = Vec::new();
    let mut stack: Vec<(u64, Vec<String>)> = Vec::new();
    let root_path: Vec<String> = Vec::new();
    assert(root_path.deep_view() =~= Seq::<Seq<char>>::empty());
    stack.push((lay.total_nodes, root_path));
    proof {
        assert(stack_view(stack@) =~= seq![(lay.total_nodes as int, Seq::<Seq<char>>::empty())]);
    }
    let mut i: u64 = 1;
    let len = data.len();
    while i < lay.total_nodes
        invariant
            1 <= i <= lay.total_nodes,
            len == d.len(),
            lay.wf(d.len() as int),
            d == data@,
            stack@.len() >= 1,
            stack@[0].0 == lay.total_nodes,
            walk_spec(d, *lay) == (
                nodes_view(nodes@) + walk_from(d, *lay, i as int, stack_view(stack@)).0,
                walk_from(d, *lay, i as int, stack_view(stack@)).1,
            ),
        decreases lay.total_nodes - i,
    {
        let ghost st = stack_view(stack@);
        let node_abs_u: u64 = lay.rootnode_abs + i * 12;
        let na: usize = node_abs_u as usize;
        let tan = be_u32_at(data, na);
        let data_offset = be_u32_at(data, na + 4);
        let size = be_u32_at(data, na + 8);
        let ty: u32 = (tan >> 24) & 0xFF;
        let name_off: u32 = tan & 0x00FF_FFFF;
        proof {
            assert((tan >> 24) & 0xFF == tan / 0x1000000) by (bit_vector);
            assert(tan & 0x00FF_FFFF == tan % 0x1000000) by (bit_vector);
        }
        let off: u64 = lay.string_table_abs + name_off as u64;
        assert(na as int == node_abs(*lay, i as int));
        assert(name_off as int == node_name_off(d, *lay, i as int));
        assert(ty as int == node_type(d, *lay, i as int));
        let name = match name_at(data, off) {
            Ok(n) => n,
            Err(e) => {
                proof {
                    assert(node_step(d, *lay, i as int, st) == Err::<(NodeView, Seq<Frame>), WalkErrorView>(e@));
                    assert(walk_from(d, *lay, i as int, st).1 == Some(e@));
                    assert(walk_from(d, *lay, i as int, st).0 =~= Seq::<NodeView>::empty());
                    assert(nodes_view(nodes@) + Seq::<NodeView>::empty() =~= nodes_view(nodes@));
                }
                return U8Walk { nodes, error: Some(e) };
            },
        };
        // Close the directories that end before this node.
        while stack.len() > 0 && i >= stack[stack.len() - 1].0
            invariant
                stack@.len() >= 1,
                stack@[0].0 == lay.total_nodes,
                i < lay.total_nodes,
                unwind(stack_view(stack@), i as int) == unwind(st, i as int),
            decreases stack.len(),
        {
            let ghost before = stack_view(stack@);
            stack.pop();
            proof {
                assert(stack_view(stack@) =~= before.drop_last());
            }
        }
        proof {
            assert(unwind(stack_view(stack@), i as int) == stack_view(stack@));
        }
        let ghost open = stack_view(stack@);
        let parent = clone_path(&stack[stack.len() - 1].1);
        assert(parent.deep_view() == current_path(open));
        if ty == 1 {
            let mut path = clone_path(&parent);
            let nm = name.clone();
            path.push(nm);
            let node = U8Node { index: i, dir: parent, name, kind: U8NodeKind::Dir { end_index: size as u64 } };
            nodes.push(node);
            stack.push((size as u64, path));
            proof {
                assert(path.deep_view() =~= current_path(open).push(nm@));
                assert(stack_view(stack@) =~= open.push((size as int, current_path(open).push(nm@))));
            }
        } else if ty == 0 {
            let start: u64 = lay.data_base + data_offset as u64;
            let end: u64 = start + size as u64;
            if end > data.len() as u64 {
                proof {
                    assert(walk_from(d, *lay, i as int, st).0 =~= Seq::<NodeView>::empty());
                    assert(nodes_view(nodes@) + Seq::<NodeView>::empty() =~= nodes_view(nodes@));
                }
                return U8Walk { nodes, error: Some(U8WalkError::FileOutOfBounds { name }) };
            }
            let node = U8Node {
                index: i,
                dir: parent,
                name,
                kind: U8NodeKind::File { start: start as usize, end: end as usize },
            };
            nodes.push(node);
        } else {
            proof {
                assert(walk_from(d, *lay, i as int, st).0 =~= Seq::<NodeView>::empty());
                assert(nodes_view(nodes@) + Seq::<NodeView>::empty() =~= nodes_view(nodes@));
            }
            return U8Walk {
                nodes,
                error: Some(U8WalkError::UnknownNodeType { node_type: ty as u8, index: i }),
            };
        }
        proof {
            let prev = nodes@.drop_last();
            assert(nodes_view(nodes@) =~= nodes_view(prev).push(nodes@.last()@));
        }
        i = i + 1;
    }
    proof {
        assert(nodes_view(nodes@) + Seq::<NodeView>::empty() =~= nodes_view(nodes@));
    }
    U8Walk { nodes, error: None }
}

} // verus!
