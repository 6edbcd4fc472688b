use vstd::prelude::*;

use crate::selection::Range;
use crate::syntax::{
    build_injection_index, deepest_from, exact_from, index_in_bounds, index_sorted, key_le,
    layer_containing, layer_of_exact_range, lemma_sort_entries_sorted, partition_from,
    InjectionRange, Syntax,
};
use crate::text::{byte_offset, char_to_byte};
use crate::tree::SyntaxTree;

verus! {

/// A node of one layer's tree: the layer's id and the node's index in that
/// tree's node table.
#[derive(Clone, Copy, Debug, PartialEq, Eq, Structural)]
pub struct NodeRef {
    pub layer: usize,
    pub node: usize,
}

pub open spec fn valid_ref(syn: &Syntax, at: NodeRef) -> bool {
    &&& at.layer < syn.num_layers()
    &&& at.node < syn.tree(at.layer as int).size()
}

pub open spec fn start_of(syn: &Syntax, at: NodeRef) -> int {
    syn.tree(at.layer as int).start_of(at.node as int) as int
}

pub open spec fn end_of(syn: &Syntax, at: NodeRef) -> int {
    syn.tree(at.layer as int).end_of(at.node as int) as int
}

/// `p` is strictly higher than `at`: in a shallower layer, or earlier in
/// the same layer's tree.
pub open spec fn ascends(syn: &Syntax, p: NodeRef, at: NodeRef) -> bool {
    ||| syn.depth_of(p.layer as int) < syn.depth_of(at.layer as int)
    ||| (syn.depth_of(p.layer as int) == syn.depth_of(at.layer as int) && p.node < at.node)
}

/// The parent of `at` across layers: its parent in its own tree; for the
/// root of an injected layer, the smallest node of the parent layer that
/// covers its span; none at the top of the root layer.
pub open spec fn parent_step(syn: &Syntax, at: NodeRef) -> Option<NodeRef> {
    match syn.tree(at.layer as int).parent_of(at.node as int) {
        Some(p) => Some(NodeRef { layer: at.layer, node: p }),
        None => if at.layer == syn.root {
            None
        } else {
            match syn.layers@[at.layer as int].parent {
                Some(pl) => Some(
                    NodeRef {
                        layer: pl,
                        node: syn.tree(pl as int).descendant_for_range(
                            start_of(syn, at),
                            end_of(syn, at),
                        ) as usize,
                    },
                ),
                None => None,
            }
        },
    }
}

/// The first (named) child of `at` across layers: the root of the layer
/// injected at exactly `at`'s span, if that is another layer; else its first
/// (named) child in its own tree.
pub open spec fn child_step(syn: &Syntax, idx: Seq<InjectionRange>, at: NodeRef, named: bool) -> Option<
    NodeRef,
> {
    let injected = layer_of_exact_range(idx, start_of(syn, at), end_of(syn, at));
    if injected is Some && injected->Some_0 != at.layer {
        Some(NodeRef { layer: injected->Some_0, node: 0 })
    } else {
        let t = syn.tree(at.layer as int);
        let c = if named {
            t.first_named_child_of(at.node as int)
        } else {
            t.first_child_of(at.node as int)
        };
        match c {
            Some(c) => Some(NodeRef { layer: at.layer, node: c }),
            None => None,
        }
    }
}

/// The next or previous (named) sibling of `at` in its own tree.
pub open spec fn sibling_step(syn: &Syntax, at: NodeRef, forward: bool, named: bool) -> Option<
    NodeRef,
> {
    let t = syn.tree(at.layer as int);
    let n = at.node as int;
    let s = if forward {
        if named {
            t.next_named_sibling_of(n)
        } else {
            t.next_sibling_of(n)
        }
    } else {
        if named {
            t.prev_named_sibling_of(n)
        } else {
            t.prev_sibling_of(n)
        }
    };
    match s {
        Some(s) => Some(NodeRef { layer: at.layer, node: s }),
        None => None,
    }
}

/// Where the entries that end before `end` stop, the scan from any earlier
/// index finds that place.
proof fn lemma_partition_point(idx: Seq<InjectionRange>, end: int, p: int, j: int)
    requires
        0 <= j <= p <= idx.len(),
        forall|i: int| 0 <= i < p ==> (#[trigger] idx[i]).end < end,
        forall|i: int| p <= i < idx.len() ==> (#[trigger] idx[i]).end >= end,
    ensures
        partition_from(idx, end, j) == p,
    decreases p - j,
{
    if j < p {
        lemma_partition_point(idx, end, p, j + 1);
    }
}

/// Where the cursor stands after a move that may fail.
pub open spec fn moved_to(step: Option<NodeRef>, at: NodeRef) -> NodeRef {
    match step {
        Some(p) => p,
        None => at,
    }
}

/// Where `reset_to_byte_range(start, end)` puts the cursor.
pub open spec fn reset_target(syn: &Syntax, idx: Seq<InjectionRange>, start: int, end: int) -> NodeRef {
    let l = layer_containing(idx, syn.root, start, end);
    NodeRef { layer: l, node: syn.tree(l as int).descendant_for_range(start, end) as usize }
}

/// Total number of nodes in the first `l` layers.
pub open spec fn nodes_upto(syn: &Syntax, l: int) -> int
    decreases l,
{
    if l <= 0 {
        0
    } else {
        nodes_upto(syn, l - 1) + syn.tree(l - 1).size()
    }
}

/// How many steps a descendant walk may take: the number of nodes in the
/// store, capped at `usize::MAX`.
pub open spec fn walk_budget(syn: &Syntax) -> int {
    let n = nodes_upto(syn, syn.num_layers());
    if n > usize::MAX {
        usize::MAX as int
    } else {
        n
    }
}

pub proof fn lemma_descendant_in_tree(t: SyntaxTree, n: int, start: int, end: int)
    requires
        t.wf(),
        0 <= n < t.size(),
    ensures
        0 <= t.descendant_from(n, start, end) < t.size(),
    decreases t.size() - n,
{
    match t.covering_child_from(n, start, end, 0) {
        Some(c) => if n < c < t.size() {
            lemma_descendant_in_tree(t, c as int, start, end);
        },
        None => {},
    }
}

/// A step up stays in the store and goes strictly higher.
pub proof fn lemma_parent_step(syn: &Syntax, at: NodeRef)
    requires
        syn.wf(),
        valid_ref(syn, at),
    ensures
        parent_step(syn, at) matches Some(p) ==> valid_ref(syn, p) && ascends(syn, p, at),
{
    let t = syn.tree(at.layer as int);
    assert(t.wf());
    match t.parent_of(at.node as int) {
        Some(p) => {
            assert(at.node != 0);
            assert(t.parent_link(at.node as int));
        },
        None => {
            if at.layer != syn.root {
                assert(syn.layer_link(at.layer as int));
                match syn.layers@[at.layer as int].parent {
                    Some(pl) => {
                        assert(syn.tree(pl as int).wf());
                        lemma_descendant_in_tree(
                            syn.tree(pl as int),
                            0,
                            start_of(syn, at),
                            end_of(syn, at),
                        );
                    },
                    None => {},
                }
            }
        },
    }
}

/// The cursor of a session over one store: a current layer, a node of that
/// layer's tree, and the store's injection index.
pub struct TreeCursor<'a> {
    pub layers: &'a Syntax,
    pub root: usize,
    pub current: usize,
    pub injection_ranges: Vec<InjectionRange>,
    pub cursor: usize,
}

impl<'a> TreeCursor<'a> {
    pub open spec fn at(&self) -> NodeRef {
        NodeRef { layer: self.current, node: self.cursor }
    }

    pub open spec fn index(&self) -> Seq<InjectionRange> {
        self.injection_ranges@
    }

    pub open spec fn wf(&self) -> bool {
        &&& self.layers.wf()
        &&& self.root == self.layers.root
        &&& self.index() == self.layers.injection_index()
        &&& index_in_bounds(self.index(), self.layers.num_layers())
        &&& index_sorted(self.index())
        &&& valid_ref(self.layers, self.at())
    }

    /// `other` is a later state of the same session.
    pub open spec fn same_session(&self, other: &TreeCursor) -> bool {
        &&& self.layers == other.layers
        &&& self.root == other.root
        &&& self.index() == other.index()
    }

    /// A cursor at the root node of `layers`' root layer.
    pub fn new(layers: &'a Syntax) -> (r: TreeCursor<'a>)
        requires
            layers.wf(),
        ensures
            r.wf(),
            r.layers == layers,
            r.at() == (NodeRef { layer: layers.root, node: 0 }),
    {
        let injection_ranges = build_injection_index(layers);
        proof {
            assert(layers.tree(layers.root as int).wf());
            lemma_sort_entries_sorted(layers.entries_upto(layers.num_layers()));
        }
        TreeCursor { layers, root: layers.root, current: layers.root, injection_ranges, cursor: 0 }
    }

    pub fn node(&self) -> (r: NodeRef)
        ensures
            r == self.at(),
    {
        NodeRef { layer: self.current, node: self.cursor }
    }

    /// Start and end byte of the current node.
    pub fn byte_range(&self) -> (r: (usize, usize))
        requires
            self.wf(),
        ensures
            r.0 == start_of(self.layers, self.at()),
            r.1 == end_of(self.layers, self.at()),
    {
        let syn: &Syntax = self.layers;
        let node = &syn.layers[self.current].tree.nodes[self.cursor];
        (node.start_byte, node.end_byte)
    }

    pub fn goto_parent(&mut self) -> (r: bool)
        requires
            old(self).wf(),
        ensures
            final(self).wf(),
            final(self).same_session(old(self)),
            r == (parent_step(old(self).layers, old(self).at()) is Some),
            final(self).at() == moved_to(parent_step(old(self).layers, old(self).at()), old(self).at()),
            r ==> ascends(old(self).layers, final(self).at(), old(self).at()),
    {
        proof {
            lemma_parent_step(self.layers, self.at());
        }
        let syn: &Syntax = self.layers;
        let t = &syn.layers[self.current].tree;
        match t.parent(self.cursor) {
            Some(p) => {
                self.cursor = p;
                return true;
            },
            None => {},
        }
        if self.current == self.root {
            return false;
        }
        let start = t.nodes[self.cursor].start_byte;
        let end = t.nodes[self.cursor].end_byte;
        let parent_id = match syn.layers[self.current].parent {
            Some(p) => p,
            None => {
                return false;
            },
        };
        self.current = parent_id;
        self.cursor = syn.layers[parent_id].tree.descendant_for_byte_range(start, end);
        true
    }

    /// The first index entry whose end is at least `end`, by binary search.
    fn partition_point(&self, end: usize) -> (r: usize)
        requires
            self.wf(),
        ensures
            r == partition_from(self.index(), end as int, 0),
            r <= self.index().len(),
    {
        let ghost idx = self.index();
        let mut lo: usize = 0;
        let mut hi: usize = self.injection_ranges.len();
        while lo < hi
            invariant
                self.wf(),
                idx == self.index(),
                lo <= hi <= idx.len(),
                forall|i: int| 0 <= i < lo ==> (#[trigger] idx[i]).end < end,
                forall|i: int| hi <= i < idx.len() ==> (#[trigger] idx[i]).end >= end,
            decreases hi - lo,
        {
            let mid = lo + (hi - lo) / 2;
            if self.injection_ranges[mid].end < end {
                assert forall|i: int| 0 <= i < mid + 1 implies (#[trigger] idx[i]).end < end by {
                    if i < mid {
                        assert(key_le(idx[i], idx[mid as int]));
                    }
                }
                lo = mid + 1;
            } else {
                assert forall|i: int| mid <= i < idx.len() implies (#[trigger] idx[i]).end
                    >= end by {
                    if i > mid {
                        assert(key_le(idx[mid as int], idx[i]));
                    }
                }
                hi = mid;
            }
        }
        proof {
            lemma_partition_point(idx, end as int, lo as int, 0);
        }
        lo
    }

    /// The layer injected at exactly `[start, end)`, if any.
    pub fn layer_id_of_byte_range(&self, start: usize, end: usize) -> (r: Option<usize>)
        requires
            self.wf(),
        ensures
            r == layer_of_exact_range(self.index(), start as int, end as int),
            r matches Some(l) ==> l < self.layers.num_layers(),
    {
        let len = self.injection_ranges.len();
        let mut i = self.partition_point(end);
        while i < len
            invariant
                self.wf(),
                len == self.index().len(),
                i <= len,
                layer_of_exact_range(self.index(), start as int, end as int) == exact_from(
                    self.index(),
                    start as int,
                    end as int,
                    i as int,
                ),
            decreases len - i,
        {
            let x = self.injection_ranges[i];
            if x.end != end {
                return None;
            }
            if x.start == start {
                return Some(x.layer_id);
            }
            i = i + 1;
        }
        None
    }

    /// The layer that owns `[start, end)`: the deepest layer injected at a
    /// span that contains it (the earliest in the index among equally deep
    /// ones); the root layer when there is none.
    pub fn layer_id_containing_byte_range(&self, start: usize, end: usize) -> (r: usize)
        requires
            self.wf(),
        ensures
            r == layer_containing(self.index(), self.root, start as int, end as int),
            r < self.layers.num_layers(),
    {
        let len = self.injection_ranges.len();
        let mut i = self.partition_point(end);
        let ghost p = i as int;
        let mut best: Option<usize> = None;
        let mut best_depth: u32 = 0;
        while i < len
            invariant
                self.wf(),
                len == self.index().len(),
                p <= i <= len,
                best matches Some(b) ==> b < i && best_depth == self.index()[b as int].depth,
                deepest_from(self.index(), start as int, end as int, p, None) == deepest_from(
                    self.index(),
                    start as int,
                    end as int,
                    i as int,
                    match best {
                        Some(b) => Some(b as int),
                        None => None,
                    },
                ),
            decreases len - i,
        {
            let x = self.injection_ranges[i];
            if x.start <= start && end <= x.end && (best.is_none() || x.depth > best_depth) {
                best = Some(i);
                best_depth = x.depth;
            }
            i = i + 1;
        }
        match best {
            Some(b) => self.injection_ranges[b].layer_id,
            None => self.root,
        }
    }

    fn goto_first_child_impl(&mut self, named: bool) -> (r: bool)
        requires
            old(self).wf(),
        ensures
            final(self).wf(),
            final(self).same_session(old(self)),
            r == (child_step(old(self).layers, old(self).index(), old(self).at(), named) is Some),
            final(self).at() == moved_to(
                child_step(old(self).layers, old(self).index(), old(self).at(), named),
                old(self).at(),
            ),
    {
        let syn: &Syntax = self.layers;
        let (start, end) = self.byte_range();
        match self.layer_id_of_byte_range(start, end) {
            Some(layer_id) => {
                if layer_id != self.current {
                    proof {
                        assert(syn.tree(layer_id as int).wf());
                    }
                    self.current = layer_id;
                    self.cursor = 0;
                    return true;
                }
            },
            None => {},
        }
        let t = &syn.layers[self.current].tree;
        let child = if named {
            t.first_named_child(self.cursor)
        } else {
            t.first_child(self.cursor)
        };
        match child {
            Some(c) => {
                self.cursor = c;
                true
            },
            None => false,
        }
    }

    /// Moves to the root of the layer injected at exactly the current node's
    /// span, or else to the current node's first child.
    pub fn goto_first_child(&mut self) -> (r: bool)
        requires
            old(self).wf(),
        ensures
            final(self).wf(),
            final(self).same_session(old(self)),
            r == (child_step(old(self).layers, old(self).index(), old(self).at(), false) is Some),
            final(self).at() == moved_to(
                child_step(old(self).layers, old(self).index(), old(self).at(), false),
                old(self).at(),
            ),
    {
        self.goto_first_child_impl(false)
    }

    /// Moves to the root of the layer injected at exactly the current node's
    /// span, or else to the current node's first named child.
    pub fn goto_first_named_child(&mut self) -> (r: bool)
        requires
            old(self).wf(),
        ensures
            final(self).wf(),
            final(self).same_session(old(self)),
            r == (child_step(old(self).layers, old(self).index(), old(self).at(), true) is Some),
            final(self).at() == moved_to(
                child_step(old(self).layers, old(self).index(), old(self).at(), true),
                old(self).at(),
            ),
    {
        self.goto_first_child_impl(true)
    }

    fn goto_sibling(&mut self, forward: bool, named: bool) -> (r: bool)
        requires
            old(self).wf(),
        ensures
            final(self).wf(),
            final(self).same_session(old(self)),
            r == (sibling_step(old(self).layers, old(self).at(), forward, named) is Some),
            final(self).at() == moved_to(
                sibling_step(old(self).layers, old(self).at(), forward, named),
                old(self).at(),
            ),
    {
        let syn: &Syntax = self.layers;
        let t = &syn.layers[self.current].tree;
        proof {
            assert(syn.tree(self.current as int).wf());
        }
        let s = if forward {
            if named {
                t.next_named_sibling(self.cursor)
            } else {
                t.next_sibling(self.cursor)
            }
        } else {
            if named {
                t.prev_named_sibling(self.cursor)
            } else {
                t.prev_sibling(self.cursor)
            }
        };
        match s {
            Some(s) => {
                self.cursor = s;
                true
            },
            None => false,
        }
    }

    pub fn goto_next_sibling(&mut self) -> (r: bool)
        requires
            old(self).wf(),
        ensures
            final(self).wf(),
            final(self).same_session(old(self)),
            r == (sibling_step(old(self).layers, old(self).at(), true, false) is Some),
            final(self).at() == moved_to(
                sibling_step(old(self).layers, old(self).at(), true, false),
                old(self).at(),
            ),
    {
        self.goto_sibling(true, false)
    }

    pub fn goto_next_named_sibling(&mut self) -> (r: bool)
        requires
            old(self).wf(),
        ensures
            final(self).wf(),
            final(self).same_session(old(self)),
            r == (sibling_step(old(self).layers, old(self).at(), true, true) is Some),
            final(self).at() == moved_to(
                sibling_step(old(self).layers, old(self).at(), true, true),
                old(self).at(),
            ),
    {
        self.goto_sibling(true, true)
    }

    pub fn goto_prev_sibling(&mut self) -> (r: bool)
        requires
            old(self).wf(),
        ensures
            final(self).wf(),
            final(self).same_session(old(self)),
            r == (sibling_step(old(self).layers, old(self).at(), false, false) is Some),
            final(self).at() == moved_to(
                sibling_step(old(self).layers, old(self).at(), false, false),
                old(self).at(),
            ),
    {
        self.goto_sibling(false, false)
    }

    pub fn goto_prev_named_sibling(&mut self) -> (r: bool)
        requires
            old(self).wf(),
        ensures
            final(self).wf(),
            final(self).same_session(old(self)),
            r == (sibling_step(old(self).layers, old(self).at(), false, true) is Some),
            final(self).at() == moved_to(
                sibling_step(old(self).layers, old(self).at(), false, true),
                old(self).at(),
            ),
    {
        self.goto_sibling(false, true)
    }

    /// Moves to the smallest node, in the layer that owns `[start, end)`,
    /// that covers that span.
    pub fn reset_to_byte_range(&mut self, start: usize, end: usize)
        requires
            old(self).wf(),
        ensures
            final(self).wf(),
            final(self).same_session(old(self)),
            final(self).at() == reset_target(old(self).layers, old(self).index(), start as int, end as int),
    {
        let syn: &Syntax = self.layers;
        self.current = self.layer_id_containing_byte_range(start, end);
        proof {
            assert(syn.tree(self.current as int).wf());
        }
        self.cursor = syn.layers[self.current].tree.descendant_for_byte_range(start, end);
    }

    /// Places the cursor on `at`.
    pub fn set_node(&mut self, at: NodeRef)
        requires
            old(self).wf(),
            valid_ref(old(self).layers, at),
        ensures
            final(self).wf(),
            final(self).same_session(old(self)),
            final(self).at() == at,
    {
        self.current = at.layer;
        self.cursor = at.node;
    }
}

/// Pops queued nodes from `head` on until one has a first named child
/// (across layers): the cursor's place, the new head, and that child.
pub open spec fn drain(syn: &Syntax, idx: Seq<InjectionRange>, at: NodeRef, queue: Seq<NodeRef>, head: int) -> (
    NodeRef,
    int,
    Option<NodeRef>,
)
    decreases queue.len() - head,
{
    if head < 0 || head >= queue.len() {
        (at, head, None)
    } else {
        let q = queue[head];
        match child_step(syn, idx, q, true) {
            Some(c) => (c, head + 1, Some(c)),
            None => drain(syn, idx, q, queue, head + 1),
        }
    }
}

/// One step of the descendant walk from `root`: the next named sibling of
/// the cursor's node (queueing that node), or else the first named child of
/// the next queued node that has one. Gives the cursor's place, the queue,
/// its head, and the node yielded.
pub open spec fn walk_step(
    syn: &Syntax,
    idx: Seq<InjectionRange>,
    root: NodeRef,
    at: NodeRef,
    queue: Seq<NodeRef>,
    head: int,
) -> (NodeRef, Seq<NodeRef>, int, Option<NodeRef>) {
    let sibling = if at != root {
        sibling_step(syn, at, true, true)
    } else {
        None
    };
    match sibling {
        Some(s) => (s, queue.push(at), head, Some(s)),
        None => {
            let (a, h, y) = drain(syn, idx, at, queue, head);
            (a, queue, h, y)
        },
    }
}

/// `n` lies inside `[from, to)` and differs from it on at least one side.
pub open spec fn properly_inside(syn: &Syntax, n: NodeRef, from: int, to: int) -> bool {
    ||| (start_of(syn, n) > from && end_of(syn, n) <= to)
    ||| (start_of(syn, n) >= from && end_of(syn, n) < to)
}

/// The first node that the walk yields within `budget` steps that lies
/// properly inside `[from, to)`.
pub open spec fn find_contained(
    syn: &Syntax,
    idx: Seq<InjectionRange>,
    root: NodeRef,
    at: NodeRef,
    queue: Seq<NodeRef>,
    head: int,
    budget: int,
    from: int,
    to: int,
) -> Option<NodeRef>
    decreases budget,
{
    if budget <= 0 {
        None
    } else {
        let (a, q, h, y) = walk_step(syn, idx, root, at, queue, head);
        match y {
            None => None,
            Some(n) => if properly_inside(syn, n, from, to) {
                Some(n)
            } else {
                find_contained(syn, idx, root, a, q, h, budget - 1, from, to)
            },
        }
    }
}

/// The search that `first_contained_child` makes from `at` for the byte
/// span `[from, to)`.
pub open spec fn first_contained(syn: &Syntax, at: NodeRef, from: int, to: int) -> Option<NodeRef> {
    find_contained(syn, syn.injection_index(), at, at, seq![at], 0, walk_budget(syn), from, to)
}

/// The nearest strict ancestor of `at`, across layers, with more than one
/// child.
pub open spec fn branching_ancestor(syn: &Syntax, at: NodeRef) -> Option<NodeRef>
    decreases syn.depth_of(at.layer as int), at.node,
{
    match parent_step(syn, at) {
        None => None,
        Some(p) => if syn.tree(p.layer as int).child_count_of(p.node as int) > 1 {
            Some(p)
        } else if ascends(syn, p, at) && syn.depth_of(p.layer as int) >= 0 {
            branching_ancestor(syn, p)
        } else {
            None
        },
    }
}

fn walk_budget_exec(syn: &Syntax) -> (r: usize)
    ensures
        r == walk_budget(syn),
{
    let n = syn.layers.len();
    let mut total: usize = 0;
    let mut l: usize = 0;
    while l < n
        invariant
            n == syn.num_layers(),
            l <= n,
            total as int == (if nodes_upto(syn, l as int) > usize::MAX {
                usize::MAX as int
            } else {
                nodes_upto(syn, l as int)
            }),
        decreases n - l,
    {
        let size = syn.layers[l].tree.nodes.len();
        if total > usize::MAX - size {
            total = usize::MAX;
        } else {
            total = total + size;
        }
        l = l + 1;
    }
    total
}

/// A walk over the named descendants of `root`, across layers: each
/// node's chain of named siblings is walked before the children of those
/// siblings, which are expanded in the order they were found.
pub struct TreeRecursiveWalker {
    pub queue: Vec<NodeRef>,
    pub head: usize,
    pub root: NodeRef,
}

impl TreeRecursiveWalker {
    pub open spec fn wf(&self, syn: &Syntax) -> bool {
        &&& self.head <= self.queue@.len()
        &&& forall|i: int| 0 <= i < self.queue@.len() ==> valid_ref(syn, #[trigger] self.queue@[i])
    }

    /// A walk below the cursor's current node.
    pub fn new(cursor: &TreeCursor) -> (r: TreeRecursiveWalker)
        requires
            cursor.wf(),
        ensures
            r.wf(cursor.layers),
            r.queue@ == seq![cursor.at()],
            r.head == 0,
            r.root == cursor.at(),
    {
        let root = cursor.node();
        let mut queue: Vec<NodeRef> = Vec::new();
        queue.push(root);
        TreeRecursiveWalker { queue, head: 0, root }
    }

    /// The next node of the walk, with `cursor` moved onto it; `None` once
    /// the walk is over.
    pub fn next(&mut self, cursor: &mut TreeCursor) -> (r: Option<NodeRef>)
        requires
            old(cursor).wf(),
            old(self).wf(old(cursor).layers),
        ensures
            final(cursor).wf(),
            final(cursor).same_session(old(cursor)),
            final(self).wf(final(cursor).layers),
            final(self).root == old(self).root,
            (final(cursor).at(), final(self).queue@, final(self).head as int, r) == walk_step(
                old(cursor).layers,
                old(cursor).index(),
                old(self).root,
                old(cursor).at(),
                old(self).queue@,
                old(self).head as int,
            ),
            r matches Some(n) ==> n == final(cursor).at(),
    {
        let current = cursor.node();
        if current != self.root && cursor.goto_next_named_sibling() {
            assert(current != old(self).root);
            assert(sibling_step(old(cursor).layers, current, true, true) == Some(cursor.at()));
            assert(valid_ref(cursor.layers, current));
            self.queue.push(current);
            assert(self.queue@[self.queue@.len() - 1] == current);
            return Some(cursor.node());
        }
        let ghost queue = self.queue@;
        let ghost start = drain(cursor.layers, cursor.index(), cursor.at(), queue, self.head as int);
        assert(walk_step(
            old(cursor).layers,
            old(cursor).index(),
            old(self).root,
            old(cursor).at(),
            old(self).queue@,
            old(self).head as int,
        ) == (start.0, queue, start.1, start.2));
        while self.head < self.queue.len()
            invariant
                cursor.wf(),
                cursor.same_session(old(cursor)),
                self.wf(cursor.layers),
                self.root == old(self).root,
                self.queue@ == queue,
                queue == old(self).queue@,
                start == drain(cursor.layers, cursor.index(), cursor.at(), queue, self.head as int),
                walk_step(
                    old(cursor).layers,
                    old(cursor).index(),
                    old(self).root,
                    old(cursor).at(),
                    old(self).queue@,
                    old(self).head as int,
                ) == (start.0, queue, start.1, start.2),
            decreases self.queue@.len() - self.head,
        {
            let queued = self.queue[self.head];
            let ghost h0 = self.head as int;
            let ghost prev = cursor.at();
            self.head = self.head + 1;
            cursor.set_node(queued);
            if cursor.goto_first_named_child() {
                assert(drain(cursor.layers, cursor.index(), prev, queue, h0) == (
                    cursor.at(),
                    h0 + 1,
                    Some(cursor.at()),
                ));
                return Some(cursor.node());
            }
            assert(drain(cursor.layers, cursor.index(), prev, queue, h0) == drain(
                cursor.layers,
                cursor.index(),
                queued,
                queue,
                h0 + 1,
            ));
        }
        assert(start == (cursor.at(), self.head as int, None::<NodeRef>));
        None
    }
}

impl<'a> TreeCursor<'a> {
    /// The first node of the descendant walk from the current node that lies
    /// properly inside `range` (given in chars of `text`): inside it, and
    /// not the same span. The walk stops after as many steps as the store
    /// has nodes.
    pub fn first_contained_child(&mut self, range: &Range, text: &str) -> (r: Option<NodeRef>)
        requires
            old(self).wf(),
            range.to_spec() <= text@.len(),
        ensures
            final(self).wf(),
            final(self).same_session(old(self)),
            r == first_contained(
                old(self).layers,
                old(self).at(),
                byte_offset(text@, range.from_spec() as int) as int,
                byte_offset(text@, range.to_spec() as int) as int,
            ),
            r matches Some(n) ==> valid_ref(old(self).layers, n) && properly_inside(
                old(self).layers,
                n,
                byte_offset(text@, range.from_spec() as int) as int,
                byte_offset(text@, range.to_spec() as int) as int,
            ),
    {
        let syn: &Syntax = self.layers;
        let from = char_to_byte(text, range.from());
        let to = char_to_byte(text, range.to());
        let mut walker = TreeRecursiveWalker::new(self);
        let budget = walk_budget_exec(syn);
        let ghost at0 = self.at();
        let mut steps = budget;
        while steps > 0
            invariant
                self.wf(),
                self.same_session(old(self)),
                self.layers == syn,
                syn == old(self).layers,
                at0 == old(self).at(),
                from == byte_offset(text@, range.from_spec() as int),
                to == byte_offset(text@, range.to_spec() as int),
                walker.wf(self.layers),
                walker.root == at0,
                first_contained(syn, at0, from as int, to as int) == find_contained(
                    syn,
                    syn.injection_index(),
                    at0,
                    self.at(),
                    walker.queue@,
                    walker.head as int,
                    steps as int,
                    from as int,
                    to as int,
                ),
            decreases steps,
        {
            let ghost at1 = self.at();
            let ghost q1 = walker.queue@;
            let ghost h1 = walker.head as int;
            let ghost step = walk_step(syn, syn.injection_index(), at0, at1, q1, h1);
            match walker.next(self) {
                None => {
                    return None;
                },
                Some(n) => {
                    let (s, e) = self.byte_range();
                    if (s > from && e <= to) || (s >= from && e < to) {
                        assert(properly_inside(syn, n, from as int, to as int));
                        return Some(n);
                    }
                    assert(!properly_inside(syn, n, from as int, to as int));
                    assert(find_contained(
                        syn,
                        syn.injection_index(),
                        at0,
                        at1,
                        q1,
                        h1,
                        steps as int,
                        from as int,
                        to as int,
                    ) == find_contained(
                        syn,
                        syn.injection_index(),
                        at0,
                        step.0,
                        step.1,
                        step.2,
                        steps - 1,
                        from as int,
                        to as int,
                    ));
                },
            }
            steps = steps - 1;
        }
        None
    }

    /// Whether the descendant walk finds a node properly inside `range`;
    /// the cursor is left where the walk stopped.
    pub fn goto_first_contained_child(&mut self, range: &Range, text: &str) -> (r: bool)
        requires
            old(self).wf(),
            range.to_spec() <= text@.len(),
        ensures
            final(self).wf(),
            final(self).same_session(old(self)),
            r == first_contained(
                old(self).layers,
                old(self).at(),
                byte_offset(text@, range.from_spec() as int) as int,
                byte_offset(text@, range.to_spec() as int) as int,
            ) is Some,
    {
        self.first_contained_child(range, text).is_some()
    }

    /// Ascends to the nearest ancestor with more than one child.
    pub fn goto_branching_parent(&mut self) -> (r: bool)
        requires
            old(self).wf(),
        ensures
            final(self).wf(),
            final(self).same_session(old(self)),
            r == (branching_ancestor(old(self).layers, old(self).at()) is Some),
            r ==> final(self).at() == branching_ancestor(old(self).layers, old(self).at())->Some_0,
    {
        let syn: &Syntax = self.layers;
        let ghost target = branching_ancestor(syn, self.at());
        loop
            invariant
                self.wf(),
                self.same_session(old(self)),
                self.layers == syn,
                syn == old(self).layers,
                target == branching_ancestor(syn, self.at()),
                target == branching_ancestor(old(self).layers, old(self).at()),
            decreases syn.depth_of(self.current as int), self.cursor,
        {
            let ghost prev = self.at();
            if !self.goto_parent() {
                assert(parent_step(syn, prev) is None);
                assert(branching_ancestor(syn, prev) is None);
                assert(target is None);
                return false;
            }
            let t = &syn.layers[self.current].tree;
            proof {
                assert(syn.tree(self.current as int).wf());
            }
            if t.child_count(self.cursor) > 1 {
                return true;
            }
            assert(branching_ancestor(syn, prev) == branching_ancestor(syn, self.at()));
        }
    }
}

} // verus!
