use vstd::prelude::*;

use crate::cursor::{
    ascends, branching_ancestor, end_of, first_contained, lemma_parent_step, parent_step,
    properly_inside, reset_target, sibling_step, start_of, valid_ref, NodeRef, TreeCursor,
};
use crate::selection::{span_range, Direction, Range, Selection};
use crate::syntax::Syntax;
use crate::text::{
    byte_len, byte_offset, byte_to_char, char_of_byte, char_to_byte, lemma_char_of_byte_exists,
    lemma_char_of_byte_monotone, lemma_char_of_offset,
};
use crate::tree::SyntaxTree;

verus! {

/// Node `n` of layer `l` ends, and starts, within a text of `len` bytes.
pub open spec fn node_in_text(syn: &Syntax, l: int, n: int, len: int) -> bool {
    &&& syn.tree(l).start_of(n) <= len
    &&& syn.tree(l).end_of(n) <= len
}

/// `syn` is a well-formed store whose nodes all lie within `text`.
pub open spec fn fits(syn: &Syntax, text: Seq<char>) -> bool {
    &&& syn.wf()
    &&& text.len() <= usize::MAX
    &&& forall|l: int, n: int|
        0 <= l < syn.num_layers() && 0 <= n < syn.tree(l).size() ==> #[trigger] node_in_text(
            syn,
            l,
            n,
            byte_len(text) as int,
        )
}

/// Every range of `ranges` lies within `text`.
pub open spec fn ranges_within(ranges: Seq<Range>, text: Seq<char>) -> bool {
    forall|i: int| 0 <= i < ranges.len() ==> (#[trigger] ranges[i]).to_spec() <= text.len()
}

pub open spec fn byte_from(text: Seq<char>, r: Range) -> int {
    byte_offset(text, r.from_spec() as int) as int
}

pub open spec fn byte_to(text: Seq<char>, r: Range) -> int {
    byte_offset(text, r.to_spec() as int) as int
}

/// No node of any layer lies properly inside `[from, to)`.
pub open spec fn no_node_inside(syn: &Syntax, from: int, to: int) -> bool {
    forall|n: NodeRef| valid_ref(syn, n) ==> !#[trigger] properly_inside(syn, n, from, to)
}

/// Node `at` covers the byte span `[from, to)`.
pub open spec fn covers(syn: &Syntax, at: NodeRef, from: int, to: int) -> bool {
    start_of(syn, at) <= from && to <= end_of(syn, at)
}

/// The char range of node `n`, oriented in direction `d`.
pub open spec fn node_range(syn: &Syntax, text: Seq<char>, n: NodeRef, d: Direction) -> Range {
    span_range(text, start_of(syn, n), end_of(syn, n), d)
}

/// Where the cursor starts for range `r`: the smallest node that covers its
/// byte span, in the layer that owns it.
pub open spec fn start_node(syn: &Syntax, text: Seq<char>, r: Range) -> NodeRef {
    reset_target(syn, syn.injection_index(), byte_from(text, r), byte_to(text, r))
}

/// From `at`, the first ancestor (across layers) whose span is not exactly
/// `[from, to)`; the topmost node reached where there is none.
pub open spec fn expand_target(syn: &Syntax, at: NodeRef, from: int, to: int) -> NodeRef
    decreases syn.depth_of(at.layer as int), at.node,
{
    if start_of(syn, at) != from || end_of(syn, at) != to {
        at
    } else {
        match parent_step(syn, at) {
            Some(p) => if ascends(syn, p, at) && syn.depth_of(p.layer as int) >= 0 {
                expand_target(syn, p, from, to)
            } else {
                at
            },
            None => at,
        }
    }
}

/// From `at`, going up across layers, the first next (or previous) sibling.
pub open spec fn sibling_target(syn: &Syntax, at: NodeRef, forward: bool) -> Option<NodeRef>
    decreases syn.depth_of(at.layer as int), at.node,
{
    match sibling_step(syn, at, forward, false) {
        Some(s) => Some(s),
        None => match parent_step(syn, at) {
            Some(p) => if ascends(syn, p, at) && syn.depth_of(p.layer as int) >= 0 {
                sibling_target(syn, p, forward)
            } else {
                None
            },
            None => None,
        },
    }
}

/// `r` grown to the nearest enclosing node with a different span.
pub open spec fn expanded(syn: &Syntax, text: Seq<char>, r: Range) -> Range {
    node_range(
        syn,
        text,
        expand_target(syn, start_node(syn, text, r), byte_from(text, r), byte_to(text, r)),
        r.direction_spec(),
    )
}

/// `r` shrunk to the first node properly inside it, or `r` itself.
pub open spec fn shrunk(syn: &Syntax, text: Seq<char>, r: Range) -> Range {
    match first_contained(syn, start_node(syn, text, r), byte_from(text, r), byte_to(text, r)) {
        Some(n) => node_range(syn, text, n, r.direction_spec()),
        None => r,
    }
}

/// `r` moved to the next (or previous) sibling, or `r` itself.
pub open spec fn sibling_range(syn: &Syntax, text: Seq<char>, r: Range, forward: bool) -> Range {
    match sibling_target(syn, start_node(syn, text, r), forward) {
        Some(n) => node_range(syn, text, n, r.direction_spec()),
        None => r,
    }
}

/// The ranges of the named children of `at`, in order, oriented in `d`.
pub open spec fn children_ranges(syn: &Syntax, text: Seq<char>, at: NodeRef, d: Direction) -> Seq<
    Range,
> {
    syn.tree(at.layer as int).named_children_of(at.node as int).map_values(
        |c: usize| node_range(syn, text, NodeRef { layer: at.layer, node: c }, d),
    )
}

/// `ranges`, or `r` alone where `ranges` is empty.
pub open spec fn or_original(ranges: Seq<Range>, r: Range) -> Seq<Range> {
    if ranges.len() > 0 {
        ranges
    } else {
        seq![r]
    }
}

/// The ranges that replace `r` when all children are selected.
pub open spec fn all_children_of(syn: &Syntax, text: Seq<char>, r: Range) -> Seq<Range> {
    or_original(children_ranges(syn, text, start_node(syn, text, r), r.direction_spec()), r)
}

/// The ranges that replace `r` when all siblings are selected.
pub open spec fn all_siblings_of(syn: &Syntax, text: Seq<char>, r: Range) -> Seq<Range> {
    match branching_ancestor(syn, start_node(syn, text, r)) {
        Some(p) => or_original(children_ranges(syn, text, p, r.direction_spec()), r),
        None => seq![r],
    }
}

/// The replacements of the first `i` ranges, one after another; with
/// `siblings`, those of `all_siblings_of`, else those of `all_children_of`.
pub open spec fn flat_replace(
    syn: &Syntax,
    text: Seq<char>,
    ranges: Seq<Range>,
    i: int,
    siblings: bool,
) -> Seq<Range>
    decreases i,
{
    if i <= 0 {
        Seq::empty()
    } else {
        let r = ranges[i - 1];
        flat_replace(syn, text, ranges, i - 1, siblings) + if siblings {
            all_siblings_of(syn, text, r)
        } else {
            all_children_of(syn, text, r)
        }
    }
}

proof fn lemma_covering_child(t: SyntaxTree, n: int, start: int, end: int, k: int)
    requires
        t.wf(),
        0 <= n < t.size(),
    ensures
        t.covering_child_from(n, start, end, k) matches Some(c) ==> t.start_of(c as int) <= start
            && end <= t.end_of(c as int),
    decreases t.children_of(n).len() - k,
{
    if 0 <= k < t.children_of(n).len() {
        let c = t.children_of(n)[k] as int;
        if t.end_of(c) < end || t.end_of(c) <= start {
            lemma_covering_child(t, n, start, end, k + 1);
        }
    }
}

/// The node found for a span below a node that covers it covers it too.
proof fn lemma_descendant_covers(t: SyntaxTree, n: int, start: int, end: int)
    requires
        t.wf(),
        0 <= n < t.size(),
        t.start_of(n) <= start,
        end <= t.end_of(n),
    ensures
        t.start_of(t.descendant_from(n, start, end)) <= start,
        end <= t.end_of(t.descendant_from(n, start, end)),
    decreases t.size() - n,
{
    lemma_covering_child(t, n, start, end, 0);
    match t.covering_child_from(n, start, end, 0) {
        Some(c) => if n < c < t.size() {
            lemma_descendant_covers(t, c as int, start, end);
        },
        None => {},
    }
}

/// A step up lands on a node whose span contains the one left.
proof fn lemma_parent_step_contains(syn: &Syntax, at: NodeRef)
    requires
        syn.wf(),
        valid_ref(syn, at),
    ensures
        parent_step(syn, at) matches Some(p) ==> start_of(syn, p) <= start_of(syn, at) && end_of(
            syn,
            at,
        ) <= end_of(syn, p),
{
    let t = syn.tree(at.layer as int);
    assert(t.wf());
    let n = at.node as int;
    match t.parent_of(n) {
        Some(p) => {
            assert(n != 0);
            assert(t.parent_link(n));
            assert(t.child_link(p as int, t.nodes@[n].index_in_parent as int));
        },
        None => {
            if at.layer != syn.root {
                assert(syn.layer_link(at.layer as int));
                if n != 0 {
                    assert(t.parent_link(n));
                }
                match syn.layers@[at.layer as int].parent {
                    Some(pl) => {
                        assert(n == 0);
                        assert(syn.tree(pl as int).wf());
                        lemma_descendant_covers(
                            syn.tree(pl as int),
                            0,
                            start_of(syn, at),
                            end_of(syn, at),
                        );
                        crate::cursor::lemma_descendant_in_tree(
                            syn.tree(pl as int),
                            0,
                            start_of(syn, at),
                            end_of(syn, at),
                        );
                        let d = syn.tree(pl as int).descendant_for_range(
                            start_of(syn, at),
                            end_of(syn, at),
                        );
                    },
                    None => {},
                }
            }
        },
    }
}

/// Growing from `at` ends on a node whose span contains `at`'s.
proof fn lemma_expand_contains(syn: &Syntax, at: NodeRef, from: int, to: int)
    requires
        syn.wf(),
        valid_ref(syn, at),
    ensures
        start_of(syn, expand_target(syn, at, from, to)) <= start_of(syn, at),
        end_of(syn, at) <= end_of(syn, expand_target(syn, at, from, to)),
    decreases syn.depth_of(at.layer as int), at.node,
{
    lemma_parent_step(syn, at);
    lemma_parent_step_contains(syn, at);
    if start_of(syn, at) == from && end_of(syn, at) == to {
        match parent_step(syn, at) {
            Some(p) => {
                lemma_expand_contains(syn, p, from, to);
            },
            None => {},
        }
    }
}

/// A next sibling found from `at` starts at or after `at` ends; a previous
/// one ends at or before `at` starts.
proof fn lemma_sibling_target_order(syn: &Syntax, at: NodeRef, forward: bool)
    requires
        syn.wf(),
        valid_ref(syn, at),
    ensures
        sibling_target(syn, at, forward) matches Some(s) ==> {
            &&& valid_ref(syn, s)
            &&& forward ==> end_of(syn, at) <= start_of(syn, s)
            &&& !forward ==> end_of(syn, s) <= start_of(syn, at)
        },
    decreases syn.depth_of(at.layer as int), at.node,
{
    let t = syn.tree(at.layer as int);
    assert(t.wf());
    let n = at.node as int;
    lemma_parent_step(syn, at);
    lemma_parent_step_contains(syn, at);
    match sibling_step(syn, at, forward, false) {
        Some(sib) => {
            let p = t.nodes@[n].parent->Some_0 as int;
            let k = t.nodes@[n].index_in_parent as int;
            assert(n != 0);
            assert(t.parent_link(n));
            if forward {
                assert(t.child_link(p, k));
                assert(t.child_link(p, k + 1));
            } else {
                assert(t.child_link(p, k));
                assert(t.child_link(p, k - 1));
            }
        },
        None => match parent_step(syn, at) {
            Some(p) => {
                lemma_sibling_target_order(syn, p, forward);
            },
            None => {},
        },
    }
}

/// The ends of a node's char range are the chars of its start and end.
proof fn lemma_node_range_ends(syn: &Syntax, text: Seq<char>, n: NodeRef, d: Direction)
    requires
        fits(syn, text),
        valid_ref(syn, n),
    ensures
        node_range(syn, text, n, d).from_spec() == char_of_byte(text, start_of(syn, n)),
        node_range(syn, text, n, d).to_spec() == char_of_byte(text, end_of(syn, n)),
        start_of(syn, n) <= end_of(syn, n) <= byte_len(text),
{
    let t = syn.tree(n.layer as int);
    assert(t.wf());
    assert(node_in_text(syn, n.layer as int, n.node as int, byte_len(text) as int));
    if n.node != 0 {
        assert(t.parent_link(n.node as int));
        let p = t.nodes@[n.node as int].parent->Some_0 as int;
        assert(t.child_link(p, t.nodes@[n.node as int].index_in_parent as int));
    }
    lemma_char_of_byte_exists(text, start_of(syn, n));
    lemma_char_of_byte_exists(text, end_of(syn, n));
    lemma_char_of_byte_monotone(text, start_of(syn, n), end_of(syn, n));
}

fn node_range_exec(syn: &Syntax, text: &str, n: NodeRef, d: Direction) -> (r: Range)
    requires
        fits(syn, text@),
        valid_ref(syn, n),
    ensures
        r == node_range(syn, text@, n, d),
{
    proof {
        assert(node_in_text(syn, n.layer as int, n.node as int, byte_len(text@) as int));
    }
    let node = &syn.layers[n.layer].tree.nodes[n.node];
    let from = byte_to_char(text, node.start_byte);
    let to = byte_to_char(text, node.end_byte);
    Range::new(from, to).with_direction(d)
}

/// Puts the cursor on the start node of `range`.
fn reset_to_range(cursor: &mut TreeCursor, text: &str, range: Range)
    requires
        old(cursor).wf(),
        range.to_spec() <= text@.len(),
    ensures
        final(cursor).wf(),
        final(cursor).same_session(old(cursor)),
        final(cursor).at() == start_node(old(cursor).layers, text@, range),
{
    let from = char_to_byte(text, range.from());
    let to = char_to_byte(text, range.to());
    cursor.reset_to_byte_range(from, to);
}

fn expand_range(cursor: &mut TreeCursor, text: &str, range: Range) -> (r: Range)
    requires
        old(cursor).wf(),
        fits(old(cursor).layers, text@),
        range.to_spec() <= text@.len(),
    ensures
        final(cursor).wf(),
        final(cursor).same_session(old(cursor)),
        r == expanded(old(cursor).layers, text@, range),
        covers(
            old(cursor).layers,
            start_node(old(cursor).layers, text@, range),
            byte_from(text@, range),
            byte_to(text@, range),
        ) ==> r.from_spec() <= range.from_spec() && range.to_spec() <= r.to_spec(),
{
    let syn: &Syntax = cursor.layers;
    let from = char_to_byte(text, range.from());
    let to = char_to_byte(text, range.to());
    cursor.reset_to_byte_range(from, to);
    let ghost at0 = cursor.at();
    let ghost target = expand_target(syn, cursor.at(), from as int, to as int);
    loop
        invariant
            cursor.wf(),
            cursor.same_session(old(cursor)),
            cursor.layers == syn,
            syn == old(cursor).layers,
            from == byte_from(text@, range),
            to == byte_to(text@, range),
            target == expand_target(syn, start_node(syn, text@, range), from as int, to as int),
            target == expand_target(syn, cursor.at(), from as int, to as int),
        ensures
            target == cursor.at(),
        decreases syn.depth_of(cursor.current as int), cursor.cursor,
    {
        let (s, e) = cursor.byte_range();
        if s != from || e != to {
            break ;
        }
        let ghost prev = cursor.at();
        if !cursor.goto_parent() {
            assert(expand_target(syn, prev, from as int, to as int) == prev);
            break ;
        }
        assert(expand_target(syn, prev, from as int, to as int) == expand_target(
            syn,
            cursor.at(),
            from as int,
            to as int,
        ));
    }
    proof {
        let f = from as int;
        let t = to as int;
        lemma_expand_contains(syn, at0, f, t);
        lemma_node_range_ends(syn, text@, target, range.direction_spec());
        lemma_char_of_offset(text@, range.from_spec() as int);
        lemma_char_of_offset(text@, range.to_spec() as int);
        if covers(syn, at0, f, t) {
            lemma_char_of_byte_monotone(text@, start_of(syn, target), f);
            lemma_char_of_byte_monotone(text@, t, end_of(syn, target));
        }
    }
    node_range_exec(syn, text, cursor.node(), range.direction())
}

fn shrink_range(cursor: &mut TreeCursor, text: &str, range: Range) -> (r: Range)
    requires
        old(cursor).wf(),
        fits(old(cursor).layers, text@),
        range.to_spec() <= text@.len(),
    ensures
        final(cursor).wf(),
        final(cursor).same_session(old(cursor)),
        r == shrunk(old(cursor).layers, text@, range),
        no_node_inside(old(cursor).layers, byte_from(text@, range), byte_to(text@, range)) ==> r
            == range,
{
    let syn: &Syntax = cursor.layers;
    reset_to_range(cursor, text, range);
    match cursor.first_contained_child(&range, text) {
        Some(n) => {
            assert(properly_inside(syn, n, byte_from(text@, range), byte_to(text@, range)));
            node_range_exec(syn, text, n, range.direction())
        },
        None => range,
    }
}

fn sibling_range_exec(cursor: &mut TreeCursor, text: &str, range: Range, forward: bool) -> (r: Range)
    requires
        old(cursor).wf(),
        fits(old(cursor).layers, text@),
        range.to_spec() <= text@.len(),
    ensures
        final(cursor).wf(),
        final(cursor).same_session(old(cursor)),
        r == sibling_range(old(cursor).layers, text@, range, forward),
        covers(
            old(cursor).layers,
            start_node(old(cursor).layers, text@, range),
            byte_from(text@, range),
            byte_to(text@, range),
        ) && r != range ==> if forward {
            range.to_spec() <= r.from_spec()
        } else {
            r.to_spec() <= range.from_spec()
        },
{
    let syn: &Syntax = cursor.layers;
    reset_to_range(cursor, text, range);
    let ghost at0 = cursor.at();
    let ghost target = sibling_target(syn, cursor.at(), forward);
    loop
        invariant_except_break
            target == sibling_target(syn, cursor.at(), forward),
        invariant
            cursor.wf(),
            cursor.same_session(old(cursor)),
            cursor.layers == syn,
            syn == old(cursor).layers,
            target == sibling_target(syn, start_node(syn, text@, range), forward),
        ensures
            target == Some(cursor.at()),
        decreases syn.depth_of(cursor.current as int), cursor.cursor,
    {
        let ghost prev = cursor.at();
        let moved = if forward {
            cursor.goto_next_sibling()
        } else {
            cursor.goto_prev_sibling()
        };
        if moved {
            assert(sibling_target(syn, prev, forward) == Some(cursor.at()));
            break ;
        }
        if !cursor.goto_parent() {
            return range;
        }
        assert(sibling_target(syn, prev, forward) == sibling_target(syn, cursor.at(), forward));
    }
    proof {
        let f = byte_from(text@, range);
        let t = byte_to(text@, range);
        let s = cursor.at();
        lemma_sibling_target_order(syn, at0, forward);
        lemma_node_range_ends(syn, text@, s, range.direction_spec());
        lemma_char_of_offset(text@, range.from_spec() as int);
        lemma_char_of_offset(text@, range.to_spec() as int);
        if covers(syn, at0, f, t) {
            if forward {
                lemma_char_of_byte_monotone(text@, t, start_of(syn, s));
            } else {
                lemma_char_of_byte_monotone(text@, end_of(syn, s), f);
            }
        }
    }
    node_range_exec(syn, text, cursor.node(), range.direction())
}

/// The ranges of the named children of `at`, or `None` where it has none.
fn select_children(syn: &Syntax, text: &str, at: NodeRef, d: Direction) -> (r: Option<Vec<Range>>)
    requires
        fits(syn, text@),
        valid_ref(syn, at),
    ensures
        match r {
            Some(v) => v@ == children_ranges(syn, text@, at, d) && v@.len() > 0,
            None => children_ranges(syn, text@, at, d).len() == 0,
        },
{
    proof {
        assert(syn.tree(at.layer as int).wf());
    }
    let cs = syn.layers[at.layer].tree.named_children(at.node);
    let mut out: Vec<Range> = Vec::new();
    let mut i: usize = 0;
    while i < cs.len()
        invariant
            fits(syn, text@),
            valid_ref(syn, at),
            cs@ == syn.tree(at.layer as int).named_children_of(at.node as int),
            forall|j: int| 0 <= j < cs@.len() ==> #[trigger] cs@[j] < syn.tree(at.layer as int).size(),
            i <= cs@.len(),
            out@.len() == i,
            forall|j: int|
                0 <= j < i ==> #[trigger] out@[j] == node_range(
                    syn,
                    text@,
                    NodeRef { layer: at.layer, node: cs@[j] },
                    d,
                ),
        decreases cs@.len() - i,
    {
        let c = cs[i];
        let rr = node_range_exec(syn, text, NodeRef { layer: at.layer, node: c }, d);
        out.push(rr);
        i = i + 1;
    }
    assert(out@ =~= children_ranges(syn, text@, at, d));
    if out.len() > 0 {
        Some(out)
    } else {
        None
    }
}

/// Grows each range to the nearest enclosing node whose span differs from
/// it; nodes that only wrap the same span are passed over.
pub fn expand_selection(syntax: &Syntax, text: &str, selection: Selection) -> (r: Selection)
    requires
        fits(syntax, text@),
        ranges_within(selection.ranges@, text@),
    ensures
        r.ranges@ == selection.ranges@.map_values(|x: Range| expanded(syntax, text@, x)),
        forall|i: int|
            0 <= i < selection.ranges@.len() && covers(
                syntax,
                start_node(syntax, text@, selection.ranges@[i]),
                byte_from(text@, selection.ranges@[i]),
                byte_to(text@, selection.ranges@[i]),
            ) ==> (#[trigger] r.ranges@[i]).from_spec() <= selection.ranges@[i].from_spec()
                && selection.ranges@[i].to_spec() <= r.ranges@[i].to_spec(),
{
    let mut cursor = TreeCursor::new(syntax);
    let mut out: Vec<Range> = Vec::new();
    let n = selection.ranges.len();
    let mut i: usize = 0;
    while i < n
        invariant
            cursor.wf(),
            cursor.layers == syntax,
            fits(syntax, text@),
            ranges_within(selection.ranges@, text@),
            n == selection.ranges@.len(),
            i <= n,
            out@.len() == i,
            forall|j: int|
                0 <= j < i ==> #[trigger] out@[j] == expanded(syntax, text@, selection.ranges@[j]),
            forall|j: int|
                0 <= j < i && covers(
                    syntax,
                    start_node(syntax, text@, selection.ranges@[j]),
                    byte_from(text@, selection.ranges@[j]),
                    byte_to(text@, selection.ranges@[j]),
                ) ==> (#[trigger] out@[j]).from_spec() <= selection.ranges@[j].from_spec()
                    && selection.ranges@[j].to_spec() <= out@[j].to_spec(),
        decreases n - i,
    {
        let range = selection.ranges[i];
        let rr = expand_range(&mut cursor, text, range);
        out.push(rr);
        i = i + 1;
    }
    assert(out@ =~= selection.ranges@.map_values(|x: Range| expanded(syntax, text@, x)));
    Selection { ranges: out }
}

/// Shrinks each range to the first node, in the descendant walk from the
/// node that covers it, that lies properly inside it; a range with no such
/// node stays as it is.
pub fn shrink_selection(syntax: &Syntax, text: &str, selection: Selection) -> (r: Selection)
    requires
        fits(syntax, text@),
        ranges_within(selection.ranges@, text@),
    ensures
        r.ranges@ == selection.ranges@.map_values(|x: Range| shrunk(syntax, text@, x)),
        forall|i: int|
            0 <= i < selection.ranges@.len() && no_node_inside(
                syntax,
                byte_from(text@, selection.ranges@[i]),
                byte_to(text@, selection.ranges@[i]),
            ) ==> #[trigger] r.ranges@[i] == selection.ranges@[i],
{
    let mut cursor = TreeCursor::new(syntax);
    let mut out: Vec<Range> = Vec::new();
    let n = selection.ranges.len();
    let mut i: usize = 0;
    while i < n
        invariant
            cursor.wf(),
            cursor.layers == syntax,
            fits(syntax, text@),
            ranges_within(selection.ranges@, text@),
            n == selection.ranges@.len(),
            i <= n,
            out@.len() == i,
            forall|j: int|
                0 <= j < i ==> #[trigger] out@[j] == shrunk(syntax, text@, selection.ranges@[j]),
            forall|j: int|
                0 <= j < i && no_node_inside(
                    syntax,
                    byte_from(text@, selection.ranges@[j]),
                    byte_to(text@, selection.ranges@[j]),
                ) ==> #[trigger] out@[j] == selection.ranges@[j],
        decreases n - i,
    {
        let range = selection.ranges[i];
        let rr = shrink_range(&mut cursor, text, range);
        out.push(rr);
        i = i + 1;
    }
    assert(out@ =~= selection.ranges@.map_values(|x: Range| shrunk(syntax, text@, x)));
    Selection { ranges: out }
}

fn select_sibling(syntax: &Syntax, text: &str, selection: Selection, forward: bool) -> (r: Selection)
    requires
        fits(syntax, text@),
        ranges_within(selection.ranges@, text@),
    ensures
        r.ranges@ == selection.ranges@.map_values(
            |x: Range| sibling_range(syntax, text@, x, forward),
        ),
        forall|i: int|
            0 <= i < selection.ranges@.len() && #[trigger] r.ranges@[i] != selection.ranges@[i]
                && covers(
                syntax,
                start_node(syntax, text@, selection.ranges@[i]),
                byte_from(text@, selection.ranges@[i]),
                byte_to(text@, selection.ranges@[i]),
            ) ==> if forward {
                selection.ranges@[i].to_spec() <= r.ranges@[i].from_spec()
            } else {
                r.ranges@[i].to_spec() <= selection.ranges@[i].from_spec()
            },
{
    let mut cursor = TreeCursor::new(syntax);
    let mut out: Vec<Range> = Vec::new();
    let n = selection.ranges.len();
    let mut i: usize = 0;
    while i < n
        invariant
            cursor.wf(),
            cursor.layers == syntax,
            fits(syntax, text@),
            ranges_within(selection.ranges@, text@),
            n == selection.ranges@.len(),
            i <= n,
            out@.len() == i,
            forall|j: int|
                0 <= j < i ==> #[trigger] out@[j] == sibling_range(
                    syntax,
                    text@,
                    selection.ranges@[j],
                    forward,
                ),
            forall|j: int|
                0 <= j < i && #[trigger] out@[j] != selection.ranges@[j] && covers(
                    syntax,
                    start_node(syntax, text@, selection.ranges@[j]),
                    byte_from(text@, selection.ranges@[j]),
                    byte_to(text@, selection.ranges@[j]),
                ) ==> if forward {
                    selection.ranges@[j].to_spec() <= out@[j].from_spec()
                } else {
                    out@[j].to_spec() <= selection.ranges@[j].from_spec()
                },
        decreases n - i,
    {
        let range = selection.ranges[i];
        let rr = sibling_range_exec(&mut cursor, text, range, forward);
        out.push(rr);
        i = i + 1;
    }
    assert(out@ =~= selection.ranges@.map_values(
        |x: Range| sibling_range(syntax, text@, x, forward),
    ));
    Selection { ranges: out }
}

/// Moves each range to the next sibling of its node, going up across layers
/// until there is one; a range with none stays as it is.
pub fn select_next_sibling(syntax: &Syntax, text: &str, selection: Selection) -> (r: Selection)
    requires
        fits(syntax, text@),
        ranges_within(selection.ranges@, text@),
    ensures
        r.ranges@ == selection.ranges@.map_values(|x: Range| sibling_range(syntax, text@, x, true)),
        forall|i: int|
            0 <= i < selection.ranges@.len() && #[trigger] r.ranges@[i] != selection.ranges@[i]
                && covers(
                syntax,
                start_node(syntax, text@, selection.ranges@[i]),
                byte_from(text@, selection.ranges@[i]),
                byte_to(text@, selection.ranges@[i]),
            ) ==> selection.ranges@[i].to_spec() <= r.ranges@[i].from_spec(),
{
    select_sibling(syntax, text, selection, true)
}

/// Moves each range to the previous sibling of its node, going up across
/// layers until there is one; a range with none stays as it is.
pub fn select_prev_sibling(syntax: &Syntax, text: &str, selection: Selection) -> (r: Selection)
    requires
        fits(syntax, text@),
        ranges_within(selection.ranges@, text@),
    ensures
        r.ranges@ == selection.ranges@.map_values(
            |x: Range| sibling_range(syntax, text@, x, false),
        ),
        forall|i: int|
            0 <= i < selection.ranges@.len() && #[trigger] r.ranges@[i] != selection.ranges@[i]
                && covers(
                syntax,
                start_node(syntax, text@, selection.ranges@[i]),
                byte_from(text@, selection.ranges@[i]),
                byte_to(text@, selection.ranges@[i]),
            ) ==> r.ranges@[i].to_spec() <= selection.ranges@[i].from_spec(),
{
    select_sibling(syntax, text, selection, false)
}

fn select_all(syntax: &Syntax, text: &str, selection: Selection, siblings: bool) -> (r: Selection)
    requires
        fits(syntax, text@),
        ranges_within(selection.ranges@, text@),
    ensures
        r.ranges@ == flat_replace(
            syntax,
            text@,
            selection.ranges@,
            selection.ranges@.len() as int,
            siblings,
        ),
{
    let mut cursor = TreeCursor::new(syntax);
    let mut out: Vec<Range> = Vec::new();
    let n = selection.ranges.len();
    let mut i: usize = 0;
    while i < n
        invariant
            cursor.wf(),
            cursor.layers == syntax,
            fits(syntax, text@),
            ranges_within(selection.ranges@, text@),
            n == selection.ranges@.len(),
            i <= n,
            out@ == flat_replace(syntax, text@, selection.ranges@, i as int, siblings),
        decreases n - i,
    {
        let range = selection.ranges[i];
        reset_to_range(&mut cursor, text, range);
        let found = if siblings {
            cursor.goto_branching_parent()
        } else {
            true
        };
        let mut add: Vec<Range> = Vec::new();
        if found {
            match select_children(syntax, text, cursor.node(), range.direction()) {
                Some(v) => {
                    add = v;
                },
                None => {
                    add.push(range);
                },
            }
        } else {
            add.push(range);
        }
        assert(add@ == (if siblings {
            all_siblings_of(syntax, text@, range)
        } else {
            all_children_of(syntax, text@, range)
        }));
        out.append(&mut add);
        assert(out@ == flat_replace(syntax, text@, selection.ranges@, i + 1, siblings));
        i = i + 1;
    }
    Selection { ranges: out }
}

/// Replaces each range with one range per named child of the nearest
/// ancestor (across layers) that has more than one child; a range with no
/// such ancestor, or whose ancestor has no named child, stays as it is.
pub fn select_all_siblings(syntax: &Syntax, text: &str, selection: Selection) -> (r: Selection)
    requires
        fits(syntax, text@),
        ranges_within(selection.ranges@, text@),
    ensures
        r.ranges@ == flat_replace(
            syntax,
            text@,
            selection.ranges@,
            selection.ranges@.len() as int,
            true,
        ),
{
    select_all(syntax, text, selection, true)
}

/// Replaces each range with one range per named child of the node that
/// covers it; a range whose node has no named child stays as it is.
pub fn select_all_children(syntax: &Syntax, text: &str, selection: Selection) -> (r: Selection)
    requires
        fits(syntax, text@),
        ranges_within(selection.ranges@, text@),
    ensures
        r.ranges@ == flat_replace(
            syntax,
            text@,
            selection.ranges@,
            selection.ranges@.len() as int,
            false,
        ),
{
    select_all(syntax, text, selection, false)
}

/// Growing from a node whose span is `[from, to)` stops at a node with
/// another span, or at the top of the document.
pub proof fn lemma_expand_target_stops(syn: &Syntax, at: NodeRef, from: int, to: int)
    requires
        syn.wf(),
        valid_ref(syn, at),
    ensures
        ({
            let t = expand_target(syn, at, from, to);
            start_of(syn, t) != from || end_of(syn, t) != to || parent_step(syn, t) is None
        }),
    decreases syn.depth_of(at.layer as int), at.node,
{
    lemma_parent_step(syn, at);
    if start_of(syn, at) == from && end_of(syn, at) == to {
        match parent_step(syn, at) {
            Some(p) => {
                lemma_expand_target_stops(syn, p, from, to);
            },
            None => {},
        }
    }
}

/// In a store of one layer, growing a range that spans node `n` exactly
/// gives `n`'s parent where that parent's span differs; where the parent has
/// the same span it is passed over and growing goes on from it; the node
/// reached has another span than `n`, or is the root.
pub proof fn lemma_expand_single_layer(syn: &Syntax, n: usize)
    requires
        syn.wf(),
        syn.num_layers() == 1,
        n < syn.tree(0).size(),
    ensures
        ({
            let at = NodeRef { layer: 0, node: n };
            let from = start_of(syn, at);
            let to = end_of(syn, at);
            let t = expand_target(syn, at, from, to);
            &&& match syn.tree(0).parent_of(n as int) {
                Some(p) => {
                    let up = NodeRef { layer: 0, node: p };
                    if start_of(syn, up) != from || end_of(syn, up) != to {
                        t == up
                    } else {
                        t == expand_target(syn, up, from, to)
                    }
                },
                None => t == at,
            }
            &&& start_of(syn, t) != from || end_of(syn, t) != to || parent_step(syn, t) is None
        }),
{
    let at = NodeRef { layer: 0, node: n };
    let from = start_of(syn, at);
    let to = end_of(syn, at);
    lemma_parent_step(syn, at);
    lemma_expand_target_stops(syn, at, from, to);
    assert(syn.root == 0);
    match syn.tree(0).parent_of(n as int) {
        Some(p) => {
            let up = NodeRef { layer: 0, node: p };
            assert(parent_step(syn, at) == Some(up));
            if start_of(syn, up) != from || end_of(syn, up) != to {
                assert(expand_target(syn, up, from, to) == up);
            }
        },
        None => {
            assert(parent_step(syn, at) is None);
        },
    }
}

/// Selecting all children of a lone range whose node is a leaf gives the
/// range back.
pub proof fn lemma_all_children_of_leaf(syn: &Syntax, text: Seq<char>, r: Range)
    requires
        syn.tree(start_node(syn, text, r).layer as int).children_of(
            start_node(syn, text, r).node as int,
        ).len() == 0,
    ensures
        flat_replace(syn, text, seq![r], 1, false) == seq![r],
{
    let at = start_node(syn, text, r);
    assert(children_ranges(syn, text, at, r.direction_spec()) =~= Seq::empty());
    assert(all_children_of(syn, text, r) == seq![r]);
    assert(flat_replace(syn, text, seq![r], 0, false) =~= Seq::<Range>::empty());
    assert(seq![r][0] == r);
    assert(flat_replace(syn, text, seq![r], 1, false) =~= seq![r]);
}

/// Selecting all siblings of a lone range whose node has no parent, in its
/// own tree or above its layer, gives the range back.
pub proof fn lemma_all_siblings_at_top(syn: &Syntax, text: Seq<char>, r: Range)
    requires
        parent_step(syn, start_node(syn, text, r)) is None,
    ensures
        flat_replace(syn, text, seq![r], 1, true) == seq![r],
{
    assert(branching_ancestor(syn, start_node(syn, text, r)) is None);
    assert(all_siblings_of(syn, text, r) == seq![r]);
    assert(flat_replace(syn, text, seq![r], 0, true) =~= Seq::<Range>::empty());
    assert(seq![r][0] == r);
    assert(flat_replace(syn, text, seq![r], 1, true) =~= seq![r]);
}

/// Children of `n` stand in order: an earlier one ends at or before a
/// later one starts.
proof fn lemma_children_ordered(t: SyntaxTree, n: int, q: int, m: int)
    requires
        t.wf(),
        0 <= n < t.size(),
        0 <= q < m < t.children_of(n).len(),
    ensures
        t.end_of(t.children_of(n)[q] as int) <= t.start_of(t.children_of(n)[m] as int),
    decreases m - q,
{
    assert(t.child_link(n, q));
    if q + 1 < m {
        assert(t.child_link(n, q + 1));
        lemma_children_ordered(t, n, q + 1, m);
    }
}

/// The named children among the first `k` children of `n` are children of
/// `n` and stand in order.
proof fn lemma_named_children_upto(t: SyntaxTree, n: int, k: int)
    requires
        t.wf(),
        0 <= n < t.size(),
        0 <= k <= t.children_of(n).len(),
    ensures
        forall|i: int|
            0 <= i < t.named_children_upto(n, k).len() ==> exists|q: int|
                0 <= q < k && t.children_of(n)[q] == #[trigger] t.named_children_upto(n, k)[i],
        forall|i: int, j: int|
            0 <= i < j < t.named_children_upto(n, k).len() ==> t.end_of(
                #[trigger] t.named_children_upto(n, k)[i] as int,
            ) <= t.start_of(#[trigger] t.named_children_upto(n, k)[j] as int),
    decreases k,
{
    if k > 0 {
        lemma_named_children_upto(t, n, k - 1);
        let prev = t.named_children_upto(n, k - 1);
        let cur = t.named_children_upto(n, k);
        let c = t.children_of(n)[k - 1];
        assert forall|i: int| 0 <= i < cur.len() implies exists|q: int|
            0 <= q < k && t.children_of(n)[q] == #[trigger] cur[i] by {
            if i < prev.len() {
                assert(cur[i] == prev[i]);
                let q = choose|q: int| 0 <= q < k - 1 && t.children_of(n)[q] == prev[i];
                assert(t.children_of(n)[q] == cur[i]);
            } else {
                assert(t.children_of(n)[k - 1] == cur[i]);
            }
        }
        assert forall|i: int, j: int| 0 <= i < j < cur.len() implies t.end_of(
            #[trigger] cur[i] as int,
        ) <= t.start_of(#[trigger] cur[j] as int) by {
            if j < prev.len() {
                assert(cur[i] == prev[i] && cur[j] == prev[j]);
            } else {
                assert(cur[i] == prev[i]);
                assert(cur[j] == c);
                let q = choose|q: int| 0 <= q < k - 1 && t.children_of(n)[q] == prev[i];
                lemma_children_ordered(t, n, q, k - 1);
            }
        }
    }
}

/// The ranges made for the named children of `at` lie within `at`'s span
/// and stand in order: each ends at or before the next one starts.
pub proof fn lemma_children_ranges_ordered(syn: &Syntax, text: Seq<char>, at: NodeRef, d: Direction)
    requires
        fits(syn, text),
        valid_ref(syn, at),
    ensures
        ({
            let cs = children_ranges(syn, text, at, d);
            &&& forall|i: int|
                0 <= i < cs.len() ==> char_of_byte(text, start_of(syn, at)) <= (
                #[trigger] cs[i]).from_spec() && cs[i].to_spec() <= char_of_byte(
                    text,
                    end_of(syn, at),
                )
            &&& forall|i: int, j: int|
                0 <= i < j < cs.len() ==> (#[trigger] cs[i]).to_spec() <= (
                #[trigger] cs[j]).from_spec()
        }),
{
    let t = syn.tree(at.layer as int);
    assert(t.wf());
    let n = at.node as int;
    let ns = t.named_children_of(n);
    let cs = children_ranges(syn, text, at, d);
    lemma_named_children_upto(t, n, t.children_of(n).len() as int);
    lemma_node_range_ends(syn, text, at, d);
    assert forall|i: int| 0 <= i < ns.len() implies valid_ref(
        syn,
        NodeRef { layer: at.layer, node: #[trigger] ns[i] },
    ) && start_of(syn, at) <= t.start_of(ns[i] as int) && t.end_of(ns[i] as int) <= end_of(
        syn,
        at,
    ) by {
        let q = choose|q: int| 0 <= q < t.children_of(n).len() && t.children_of(n)[q] == ns[i];
        assert(t.child_link(n, q));
    }
    assert forall|i: int| 0 <= i < cs.len() implies char_of_byte(text, start_of(syn, at)) <= (
    #[trigger] cs[i]).from_spec() && cs[i].to_spec() <= char_of_byte(text, end_of(syn, at)) by {
        let c = NodeRef { layer: at.layer, node: ns[i] };
        assert(valid_ref(syn, c));
        lemma_node_range_ends(syn, text, c, d);
        lemma_char_of_byte_monotone(text, start_of(syn, at), start_of(syn, c));
        lemma_char_of_byte_monotone(text, end_of(syn, c), end_of(syn, at));
    }
    assert forall|i: int, j: int| 0 <= i < j < cs.len() implies (#[trigger] cs[i]).to_spec() <= (
    #[trigger] cs[j]).from_spec() by {
        let a = NodeRef { layer: at.layer, node: ns[i] };
        let b = NodeRef { layer: at.layer, node: ns[j] };
        assert(valid_ref(syn, a));
        assert(valid_ref(syn, b));
        lemma_node_range_ends(syn, text, a, d);
        lemma_node_range_ends(syn, text, b, d);
        lemma_char_of_byte_monotone(text, end_of(syn, a), start_of(syn, b));
    }
}

} // verus!
