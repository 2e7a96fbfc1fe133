use hlwm_shift::error::ShiftError;
use hlwm_shift::parser::{
    get_layout_stack, layout_type_from_name, parse_layout, resolve_layout_stack, LayoutNode,
    LayoutType,
};

fn leaf() -> LayoutNode {
    LayoutNode {
        layout: None,
        first: None,
        second: None,
    }
}

fn clients(l: LayoutType) -> LayoutNode {
    LayoutNode {
        layout: Some(l),
        first: None,
        second: None,
    }
}

fn split(l: LayoutType, a: LayoutNode, b: LayoutNode) -> LayoutNode {
    LayoutNode {
        layout: Some(l),
        first: Some(Box::new(a)),
        second: Some(Box::new(b)),
    }
}

const DUMP: &[u8] =
    b"(split horizontal:0.5:0 (clients vertical:0 0xa00009) (clients vertical:0))";

#[test]
fn parse_real_dump() {
    let tree = parse_layout(DUMP).unwrap();
    assert_eq!(tree.layout, Some(LayoutType::Horizontal));
    let first = tree.first.as_ref().unwrap();
    let second = tree.second.as_ref().unwrap();
    assert_eq!(first.layout, Some(LayoutType::Vertical));
    assert_eq!(second.layout, Some(LayoutType::Vertical));
    assert!(first.first.is_none());
    assert!(second.first.is_none());
}

#[test]
fn parse_nested_dump_stack() {
    let dump = b"(split vertical:0.3:1 (clients max:2 0x1a 0x2b) (split horizontal:0.5:0 (clients grid:0) (clients vertical:0)))";
    let stack = get_layout_stack(dump, &[1, 0]).unwrap();
    assert_eq!(stack, vec![LayoutType::Vertical, LayoutType::Horizontal]);
    let stack = get_layout_stack(dump, &[0]).unwrap();
    assert_eq!(stack, vec![LayoutType::Vertical]);
}

#[test]
fn parse_rejects_malformed_dumps() {
    assert_eq!(parse_layout(b""), Err(ShiftError::MalformedLayoutDump));
    assert_eq!(parse_layout(b"()"), Err(ShiftError::MalformedLayoutDump));
    assert_eq!(
        parse_layout(b"(clients vertical:0"),
        Err(ShiftError::MalformedLayoutDump)
    );
    assert_eq!(
        parse_layout(b"clients vertical:0)"),
        Err(ShiftError::MalformedLayoutDump)
    );
    assert_eq!(
        parse_layout(b"(clientz vertical:0)"),
        Err(ShiftError::MalformedLayoutDump)
    );
    assert_eq!(
        parse_layout(b"(clients vertical)"),
        Err(ShiftError::MalformedLayoutDump)
    );
}

#[test]
fn empty_path_yields_empty_stack_for_any_tree() {
    let trees = vec![
        leaf(),
        clients(LayoutType::Max),
        split(LayoutType::Horizontal, leaf(), leaf()),
    ];
    for t in &trees {
        assert_eq!(resolve_layout_stack(t, &[]), Ok(vec![]));
    }
}

#[test]
fn stack_length_equals_path_length_or_fails() {
    let t = split(
        LayoutType::Horizontal,
        split(LayoutType::Vertical, leaf(), leaf()),
        leaf(),
    );
    assert_eq!(resolve_layout_stack(&t, &[0]).unwrap().len(), 1);
    assert_eq!(resolve_layout_stack(&t, &[0, 1]).unwrap().len(), 2);
    // the path asks for a depth the tree does not have
    assert_eq!(
        resolve_layout_stack(&t, &[1, 0]),
        Err(ShiftError::MalformedLayoutDump)
    );
    assert_eq!(
        resolve_layout_stack(&t, &[0, 1, 0]),
        Err(ShiftError::MalformedLayoutDump)
    );
}

#[test]
fn missing_layout_clause_on_path_fails() {
    // the traversed node carries no layout clause
    let t = LayoutNode {
        layout: None,
        first: Some(Box::new(leaf())),
        second: Some(Box::new(leaf())),
    };
    assert_eq!(
        resolve_layout_stack(&t, &[0]),
        Err(ShiftError::MalformedLayoutDump)
    );
    let dump = b"(split (clients vertical:0) (clients vertical:0))";
    assert_eq!(
        get_layout_stack(dump, &[0]),
        Err(ShiftError::MalformedLayoutDump)
    );
    assert_eq!(get_layout_stack(dump, &[]), Ok(vec![]));
}

#[test]
fn round_trip_dump_preserves_every_stack() {
    let t = split(
        LayoutType::Horizontal,
        split(LayoutType::Vertical, clients(LayoutType::Max), leaf()),
        clients(LayoutType::Grid),
    );
    let text = t.to_dump();
    let paths: Vec<Vec<u8>> = vec![
        vec![],
        vec![0],
        vec![1],
        vec![0, 0],
        vec![0, 1],
        vec![1, 0],
        vec![0, 0, 0],
    ];
    for p in &paths {
        assert_eq!(
            get_layout_stack(&text, p),
            resolve_layout_stack(&t, p),
            "stacks differ for path {:?}",
            p
        );
    }
}

#[test]
fn serializer_writes_grammar_text() {
    let t = split(
        LayoutType::Horizontal,
        clients(LayoutType::Vertical),
        leaf(),
    );
    assert_eq!(
        t.to_dump(),
        b"(split horizontal:0.5 (clients vertical:0.5) (clients))".to_vec()
    );
    let reparsed = parse_layout(&t.to_dump()).unwrap();
    assert_eq!(reparsed, t);
}

#[test]
fn layout_type_names_round_trip() {
    assert_eq!(
        layout_type_from_name(b"vertical"),
        Some(LayoutType::Vertical)
    );
    assert_eq!(
        layout_type_from_name(b"horizontal"),
        Some(LayoutType::Horizontal)
    );
    assert_eq!(layout_type_from_name(b"max"), Some(LayoutType::Max));
    assert_eq!(layout_type_from_name(b"grid"), Some(LayoutType::Grid));
    assert_eq!(layout_type_from_name(b"Max"), None);
    assert_eq!(layout_type_from_name(b"maximal"), None);
    assert_eq!(layout_type_from_name(b""), None);
}

#[test]
fn trailing_text_after_root_is_ignored() {
    let tree = parse_layout(b"(clients vertical:0)\n").unwrap();
    assert_eq!(tree.layout, Some(LayoutType::Vertical));
}
