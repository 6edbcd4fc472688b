use syntax_select::{
    expand_selection, ByteRange, LanguageLayer, NodeRef, Range, Selection, Syntax, SyntaxNode,
    SyntaxTree, TreeCursor, TreeRecursiveWalker,
};

/// Builds a tree from (start, end, named, parent) rows, parents first.
fn build(rows: &[(usize, usize, bool, Option<usize>)]) -> SyntaxTree {
    let mut nodes: Vec<SyntaxNode> = rows
        .iter()
        .map(|&(start_byte, end_byte, named, parent)| SyntaxNode {
            start_byte,
            end_byte,
            named,
            parent,
            index_in_parent: 0,
            children: Vec::new(),
        })
        .collect();
    for i in 0..nodes.len() {
        if let Some(p) = nodes[i].parent {
            let k = nodes[p].children.len();
            nodes[p].children.push(i);
            nodes[i].index_in_parent = k;
        }
    }
    SyntaxTree { nodes }
}

/// A host document of 30 bytes with one embedded region at `[10, 20)`.
fn host_with_injection() -> Syntax {
    let host = build(&[
        (0, 30, true, None),     // 0 document
        (10, 20, true, Some(0)), // 1 region
        (22, 25, true, Some(0)), // 2 trailing node
    ]);
    let embedded = build(&[
        (10, 20, true, None),    // 0 embedded root
        (12, 15, true, Some(0)), // 1
        (16, 19, true, Some(0)), // 2
    ]);
    Syntax {
        layers: vec![
            LanguageLayer { tree: host, parent: None, depth: 0, ranges: Vec::new() },
            LanguageLayer {
                tree: embedded,
                parent: Some(0),
                depth: 1,
                ranges: vec![ByteRange { start_byte: 10, end_byte: 20 }],
            },
        ],
        root: 0,
    }
}

fn at(layer: usize, node: usize) -> NodeRef {
    NodeRef { layer, node }
}

#[test]
fn reset_enters_embedded_layer() {
    let syntax = host_with_injection();
    let mut cursor = TreeCursor::new(&syntax);
    cursor.reset_to_byte_range(12, 15);
    assert_eq!(cursor.node(), at(1, 1));
    cursor.reset_to_byte_range(0, 5);
    assert_eq!(cursor.node(), at(0, 0));
    cursor.reset_to_byte_range(22, 25);
    assert_eq!(cursor.node(), at(0, 2));
}

#[test]
fn layer_lookup() {
    let syntax = host_with_injection();
    let cursor = TreeCursor::new(&syntax);
    assert_eq!(cursor.layer_id_containing_byte_range(12, 15), 1);
    assert_eq!(cursor.layer_id_containing_byte_range(10, 20), 1);
    assert_eq!(cursor.layer_id_containing_byte_range(5, 15), 0);
    assert_eq!(cursor.layer_id_containing_byte_range(22, 25), 0);
    assert_eq!(cursor.layer_id_of_byte_range(10, 20), Some(1));
    assert_eq!(cursor.layer_id_of_byte_range(12, 15), None);
}

#[test]
fn layer_lookup_prefers_deeper_layer_on_equal_span() {
    let mut syntax = host_with_injection();
    let inner = build(&[(10, 20, true, None)]);
    syntax.layers.push(LanguageLayer {
        tree: inner,
        parent: Some(1),
        depth: 2,
        ranges: vec![ByteRange { start_byte: 10, end_byte: 20 }],
    });
    let cursor = TreeCursor::new(&syntax);
    assert_eq!(cursor.layer_id_containing_byte_range(12, 15), 2);
    assert_eq!(cursor.layer_id_of_byte_range(10, 20), Some(2));
}

#[test]
fn parent_climbs_out_of_embedded_layer() {
    let syntax = host_with_injection();
    let mut cursor = TreeCursor::new(&syntax);
    cursor.reset_to_byte_range(12, 15);
    assert!(cursor.goto_parent());
    assert_eq!(cursor.node(), at(1, 0));
    assert!(cursor.goto_parent());
    assert_eq!(cursor.node(), at(0, 1));
    assert!(cursor.goto_parent());
    assert_eq!(cursor.node(), at(0, 0));
    assert!(!cursor.goto_parent());
    assert_eq!(cursor.node(), at(0, 0));
}

#[test]
fn first_child_descends_into_embedded_layer() {
    let syntax = host_with_injection();
    let mut cursor = TreeCursor::new(&syntax);
    assert!(cursor.goto_first_child());
    assert_eq!(cursor.node(), at(0, 1));
    assert!(cursor.goto_first_named_child());
    assert_eq!(cursor.node(), at(1, 0));
    assert!(cursor.goto_first_child());
    assert_eq!(cursor.node(), at(1, 1));
    assert!(!cursor.goto_first_child());
}

#[test]
fn siblings_stay_in_their_layer() {
    let syntax = host_with_injection();
    let mut cursor = TreeCursor::new(&syntax);
    cursor.reset_to_byte_range(12, 15);
    assert!(cursor.goto_next_sibling());
    assert_eq!(cursor.node(), at(1, 2));
    assert!(!cursor.goto_next_named_sibling());
    assert!(cursor.goto_prev_named_sibling());
    assert_eq!(cursor.node(), at(1, 1));
    assert!(!cursor.goto_prev_sibling());
    assert_eq!(cursor.node(), at(1, 1));
}

#[test]
fn contained_child_found_across_layers() {
    let syntax = host_with_injection();
    let text = "abcdefghijklmnopqrstuvwxyz0123";
    let mut cursor = TreeCursor::new(&syntax);
    cursor.reset_to_byte_range(10, 20);
    assert_eq!(cursor.node(), at(1, 0));
    let found = cursor.first_contained_child(&Range::new(10, 20), text);
    assert_eq!(found, Some(at(1, 1)));
    let mut cursor = TreeCursor::new(&syntax);
    cursor.reset_to_byte_range(12, 15);
    assert!(!cursor.goto_first_contained_child(&Range::new(12, 15), text));
}

#[test]
fn expand_crosses_layer_boundary() {
    let syntax = host_with_injection();
    let text = "abcdefghijklmnopqrstuvwxyz0123";
    let sel = Selection::new(vec![Range::new(12, 15)]);
    let once = expand_selection(&syntax, text, sel);
    assert_eq!(once.ranges, vec![Range::new(10, 20)]);
    let twice = expand_selection(&syntax, text, once);
    assert_eq!(twice.ranges, vec![Range::new(0, 30)]);
}

#[test]
fn walker_visits_siblings_then_queued_children() {
    // (a, (b c), d): a tuple whose middle element has two children.
    let tree = build(&[
        (0, 12, true, None),     // 0 tuple
        (1, 2, true, Some(0)),   // 1 a
        (4, 9, true, Some(0)),   // 2 (b c)
        (11, 12, true, Some(0)), // 3 d
        (5, 6, true, Some(2)),   // 4 b
        (7, 8, true, Some(2)),   // 5 c
    ]);
    let syntax = Syntax {
        layers: vec![LanguageLayer { tree, parent: None, depth: 0, ranges: Vec::new() }],
        root: 0,
    };
    let mut cursor = TreeCursor::new(&syntax);
    let mut walker = TreeRecursiveWalker::new(&cursor);
    let mut seen = Vec::new();
    while let Some(n) = walker.next(&mut cursor) {
        seen.push(n.node);
    }
    assert_eq!(seen, vec![1, 2, 3, 4, 5]);
}

#[test]
fn layer_lookup_with_nested_injections() {
    // Layer 1 covers [0, 100); layer 2, inside it, covers [50, 60). The entry
    // [50, 60) comes first in the index but does not contain [10, 20): the
    // lookup goes on to layer 1.
    let outer = build(&[(0, 100, true, None)]);
    let inner = build(&[(50, 60, true, None)]);
    let syntax = Syntax {
        layers: vec![
            LanguageLayer { tree: build(&[(0, 120, true, None)]), parent: None, depth: 0, ranges: Vec::new() },
            LanguageLayer {
                tree: outer,
                parent: Some(0),
                depth: 1,
                ranges: vec![ByteRange { start_byte: 0, end_byte: 100 }],
            },
            LanguageLayer {
                tree: inner,
                parent: Some(1),
                depth: 2,
                ranges: vec![ByteRange { start_byte: 50, end_byte: 60 }],
            },
        ],
        root: 0,
    };
    let cursor = TreeCursor::new(&syntax);
    assert_eq!(cursor.layer_id_containing_byte_range(10, 20), 1);
    assert_eq!(cursor.layer_id_containing_byte_range(10, 70), 1);
    assert_eq!(cursor.layer_id_containing_byte_range(52, 58), 2);
    assert_eq!(cursor.layer_id_containing_byte_range(50, 60), 2);
    assert_eq!(cursor.layer_id_containing_byte_range(95, 110), 0);
    let mut cursor = TreeCursor::new(&syntax);
    cursor.reset_to_byte_range(10, 20);
    assert_eq!(cursor.node(), at(1, 0));
}
