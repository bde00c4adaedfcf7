use mo_fmt::tree::{normalize, Node, RawChild, RawNode};
use mo_fmt::verify::judge;

fn raw(kind: &'static str, start: usize, end: usize, named: bool, children: Vec<RawChild>) -> RawNode {
    RawNode {
        kind,
        grammar_id: 0,
        start,
        end,
        named,
        extra: false,
        error: false,
        missing: false,
        has_error: false,
        children,
    }
}

fn child(node: RawNode) -> RawChild {
    RawChild { field: None, node }
}

/// `let a = 1;` with its tokens where the source puts them.
fn dec(source: &str, value: &'static str) -> RawNode {
    let at = |t: &str| source.find(t).unwrap();
    let v = at(value);
    raw(
        "source_file",
        0,
        source.len(),
        true,
        vec![child(raw(
            "let_dec",
            at("let"),
            v + value.len(),
            true,
            vec![
                child(raw("let", at("let"), at("let") + 3, false, vec![])),
                child(raw("var_pat", at("a"), at("a") + 1, true, vec![])),
                child(raw("=", at("="), at("=") + 1, false, vec![])),
                child(raw("nat", v, v + value.len(), true, vec![])),
            ],
        ))],
    )
}

fn tree<'a>(source: &'a str, value: &'static str) -> Node<'a> {
    Node::Branch(normalize(&dec(source, value), source.as_bytes(), &[]).unwrap())
}

#[test]
fn layout_changes_are_accepted() {
    let input = "let a =\n  1";
    let output = "let a = 1";
    assert_eq!(judge(&tree(input, "1"), input, Ok(tree(output, "1"))), Ok(()));
}

#[test]
fn a_changed_token_is_reported_with_its_line() {
    let input = "\nlet a = 1";
    let output = "let a = 2";
    assert_eq!(
        judge(&tree(input, "1"), input, Ok(tree(output, "2"))),
        Err("the formatted code means something else, from line 2: `nat:1` became `nat:2`".to_string())
    );
}

#[test]
fn output_that_does_not_parse_is_reported() {
    let input = "let a = 1";
    assert_eq!(
        judge(&tree(input, "1"), input, Err(mo_fmt::Error::Internal("no tree".to_string()))),
        Err("no tree".to_string())
    );
}
