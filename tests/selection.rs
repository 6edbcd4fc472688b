use syntax_select::text::byte_to_char;
use syntax_select::{
    expand_selection, select_all_children, select_all_siblings, select_next_sibling,
    select_prev_sibling, shrink_selection, ByteRange, LanguageLayer, Range, Selection, Syntax,
    SyntaxNode, SyntaxTree,
};

/// Builds a tree from (start, end, named, parent) rows, parents first.
fn tree(rows: &[(usize, usize, bool, Option<usize>)]) -> SyntaxTree {
    let mut nodes: Vec<SyntaxNode> = rows
        .iter()
        .map(|&(start_byte, end_byte, named, parent)| SyntaxNode {
            start_byte,
            end_byte,
            named,
            parent,
            index_in_parent: 0,
            children: Vec::new(),
        })
        .collect();
    for i in 0..nodes.len() {
        if let Some(p) = nodes[i].parent {
            let k = nodes[p].children.len();
            nodes[p].children.push(i);
            nodes[i].index_in_parent = k;
        }
    }
    SyntaxTree { nodes }
}

fn single(t: SyntaxTree) -> Syntax {
    Syntax {
        layers: vec![LanguageLayer { tree: t, parent: None, depth: 0, ranges: Vec::new() }],
        root: 0,
    }
}

fn sel(ranges: &[(usize, usize)]) -> Selection {
    Selection::new(ranges.iter().map(|&(a, h)| Range::new(a, h)).collect())
}

fn pairs(s: &Selection) -> Vec<(usize, usize)> {
    s.ranges.iter().map(|r| (r.anchor, r.head)).collect()
}

/// `Some(thing)`: a call whose only named child is `thing`.
fn call_tree() -> Syntax {
    single(tree(&[
        (0, 11, true, None),     // 0 source_file
        (0, 11, true, Some(0)),  // 1 call_expression
        (0, 4, false, Some(1)),  // 2 Some
        (4, 5, false, Some(1)),  // 3 (
        (5, 10, true, Some(1)),  // 4 thing
        (10, 11, false, Some(1)), // 5 )
    ]))
}

#[test]
fn expand_then_shrink_call() {
    let syntax = call_tree();
    let text = "Some(thing)";
    let grown = expand_selection(&syntax, text, sel(&[(5, 10)]));
    assert_eq!(pairs(&grown), vec![(0, 11)]);
    let back = shrink_selection(&syntax, text, grown);
    assert_eq!(pairs(&back), vec![(5, 10)]);
}

#[test]
fn expand_keeps_backward_direction() {
    let syntax = call_tree();
    let grown = expand_selection(&syntax, "Some(thing)", sel(&[(10, 5)]));
    assert_eq!(pairs(&grown), vec![(11, 0)]);
}

#[test]
fn expand_skips_wrapper_with_same_span() {
    // block [0,20] > statement [2,18] > wrapper [2,10] > inner [2,10]
    let syntax = single(tree(&[
        (0, 20, true, None),
        (2, 18, true, Some(0)),
        (2, 10, true, Some(1)),
        (2, 10, true, Some(2)),
        (12, 18, true, Some(1)),
    ]));
    let text = "abcdefghijklmnopqrst";
    let grown = expand_selection(&syntax, text, sel(&[(2, 10)]));
    assert_eq!(pairs(&grown), vec![(2, 18)]);
    let again = expand_selection(&syntax, text, grown);
    assert_eq!(pairs(&again), vec![(0, 20)]);
}

#[test]
fn expand_at_top_keeps_span() {
    let syntax = call_tree();
    let grown = expand_selection(&syntax, "Some(thing)", sel(&[(0, 11)]));
    assert_eq!(pairs(&grown), vec![(0, 11)]);
}

#[test]
fn shrink_without_nested_node_is_identity() {
    let syntax = call_tree();
    let out = shrink_selection(&syntax, "Some(thing)", sel(&[(5, 10), (0, 2)]));
    assert_eq!(pairs(&out), vec![(5, 10), (0, 2)]);
}

/// `(a, b, c)`: a tuple of three identifiers.
fn tuple_tree() -> Syntax {
    single(tree(&[
        (0, 9, true, None),      // 0 source_file
        (0, 9, true, Some(0)),   // 1 tuple
        (0, 1, false, Some(1)),  // 2 (
        (1, 2, true, Some(1)),   // 3 a
        (2, 3, false, Some(1)),  // 4 ,
        (4, 5, true, Some(1)),   // 5 b
        (5, 6, false, Some(1)),  // 6 ,
        (7, 8, true, Some(1)),   // 7 c
        (8, 9, false, Some(1)),  // 8 )
    ]))
}

#[test]
fn next_and_prev_sibling() {
    let syntax = tuple_tree();
    let text = "(a, b, c)";
    let next = select_next_sibling(&syntax, text, sel(&[(4, 5)]));
    assert_eq!(pairs(&next), vec![(5, 6)]);
    let prev = select_prev_sibling(&syntax, text, sel(&[(4, 5)]));
    assert_eq!(pairs(&prev), vec![(2, 3)]);
}

#[test]
fn sibling_at_edge_climbs_or_stays() {
    let syntax = tuple_tree();
    let text = "(a, b, c)";
    // `)` has no next sibling, the tuple has none, the file is the top.
    let next = select_next_sibling(&syntax, text, sel(&[(8, 9)]));
    assert_eq!(pairs(&next), vec![(8, 9)]);
    let prev = select_prev_sibling(&syntax, text, sel(&[(0, 1)]));
    assert_eq!(pairs(&prev), vec![(0, 1)]);
}

#[test]
fn all_children_of_tuple() {
    let syntax = tuple_tree();
    let out = select_all_children(&syntax, "(a, b, c)", sel(&[(0, 9)]));
    assert_eq!(pairs(&out), vec![(1, 2), (4, 5), (7, 8)]);
}

#[test]
fn all_children_of_leaf_is_identity() {
    let syntax = tuple_tree();
    let out = select_all_children(&syntax, "(a, b, c)", sel(&[(4, 5)]));
    assert_eq!(pairs(&out), vec![(4, 5)]);
}

#[test]
fn all_siblings_of_element() {
    let syntax = tuple_tree();
    let out = select_all_siblings(&syntax, "(a, b, c)", sel(&[(5, 4)]));
    assert_eq!(pairs(&out), vec![(2, 1), (5, 4), (8, 7)]);
}

#[test]
fn all_siblings_of_root_is_identity() {
    let syntax = single(tree(&[(0, 3, true, None), (0, 3, true, Some(0))]));
    let out = select_all_siblings(&syntax, "abc", sel(&[(0, 3)]));
    assert_eq!(pairs(&out), vec![(0, 3)]);
}

/// `(Some(thing), Some(other_thing))`: two calls in a tuple.
fn two_calls() -> Syntax {
    single(tree(&[
        (0, 32, true, None),       // 0 source_file
        (0, 32, true, Some(0)),    // 1 tuple
        (0, 1, false, Some(1)),    // 2 (
        (1, 12, true, Some(1)),    // 3 Some(thing)
        (12, 13, false, Some(1)),  // 4 ,
        (14, 31, true, Some(1)),   // 5 Some(other_thing)
        (31, 32, false, Some(1)),  // 6 )
        (1, 5, true, Some(3)),     // 7 Some
        (5, 12, true, Some(3)),    // 8 (thing)
        (6, 11, true, Some(8)),    // 9 thing
        (14, 18, true, Some(5)),   // 10 Some
        (18, 31, true, Some(5)),   // 11 (other_thing)
        (19, 30, true, Some(11)),  // 12 other_thing
    ]))
}

#[test]
fn all_siblings_of_two_calls_share_the_tuple() {
    let syntax = two_calls();
    let text = "(Some(thing), Some(other_thing))";
    let out = select_all_siblings(&syntax, text, sel(&[(1, 12), (14, 31)]));
    assert_eq!(pairs(&out), vec![(1, 12), (14, 31), (1, 12), (14, 31)]);
}

#[test]
fn all_siblings_of_arguments_stay_in_each_call() {
    let syntax = two_calls();
    let text = "(Some(thing), Some(other_thing))";
    let out = select_all_siblings(&syntax, text, sel(&[(6, 11), (19, 30)]));
    // `thing` is an only child; its call is the nearest node with two children.
    assert_eq!(pairs(&out), vec![(1, 5), (5, 12), (14, 18), (18, 31)]);
}

#[test]
fn ranges_convert_through_multibyte_text() {
    // "é" takes two bytes: char offsets and byte offsets differ after it.
    let text = "é(ab)";
    let syntax = single(tree(&[(0, 6, true, None), (2, 6, true, Some(0)), (3, 5, true, Some(1))]));
    let grown = expand_selection(&syntax, text, sel(&[(2, 4)]));
    assert_eq!(pairs(&grown), vec![(1, 5)]);
}

#[test]
fn byte_to_char_counts_chars() {
    let text = "aé€b";
    assert_eq!(byte_to_char(text, 0), 0);
    assert_eq!(byte_to_char(text, 1), 1);
    assert_eq!(byte_to_char(text, 2), 1);
    assert_eq!(byte_to_char(text, 3), 2);
    assert_eq!(byte_to_char(text, 6), 3);
    assert_eq!(byte_to_char(text, 7), 4);
}

#[test]
fn empty_selection_stays_empty() {
    let syntax = call_tree();
    let out = expand_selection(&syntax, "Some(thing)", Selection::new(Vec::new()));
    assert!(out.ranges.is_empty());
}

#[test]
fn range_accessors() {
    let r = Range::new(7, 3);
    assert_eq!(r.from(), 3);
    assert_eq!(r.to(), 7);
    assert_eq!(r.direction(), syntax_select::Direction::Backward);
    assert_eq!(r.with_direction(syntax_select::Direction::Forward), Range::new(3, 7));
    let _ = ByteRange { start_byte: 0, end_byte: 1 };
}
