use mo_fmt::moc2::{apply, Edit};

fn edit(start: usize, end: usize, text: &str) -> Edit {
    Edit { start, end, text: text.as_bytes().to_vec() }
}

#[test]
fn edits_apply_in_the_order_of_their_ranges() {
    let source = b"if c x else y";
    let edits = vec![edit(13, 13, " }"), edit(12, 12, "{ "), edit(6, 6, " }"), edit(5, 5, "{ ")];
    assert_eq!(apply(source, &edits), b"if c { x } else { y }".to_vec());
}

#[test]
fn an_edit_overlapping_an_earlier_one_waits() {
    let source = b"abcdef";
    let edits = vec![edit(1, 4, "X"), edit(2, 5, "Y"), edit(5, 6, "Z")];
    assert_eq!(apply(source, &edits), b"aXeZ".to_vec());
}

#[test]
fn insertions_at_one_place_keep_their_order() {
    let source = b"ab";
    let edits = vec![edit(1, 1, "1"), edit(1, 1, "2")];
    assert_eq!(apply(source, &edits), b"a12b".to_vec());
}

use mo_fmt::moc2::{step, Rule};
use mo_fmt::tree::{normalize, Node, RawChild, RawNode};

fn raw(kind: &'static str, start: usize, end: usize, children: Vec<RawChild>) -> RawNode {
    RawNode {
        kind,
        grammar_id: 0,
        start,
        end,
        named: true,
        extra: false,
        error: false,
        missing: false,
        has_error: false,
        children,
    }
}

fn child(field: Option<&'static str>, node: RawNode) -> RawChild {
    RawChild { field, node }
}

fn var(at: usize) -> RawNode {
    raw("var_exp", at, at + 1, vec![child(None, raw("id", at, at + 1, vec![]))])
}

fn rewritten(rule: Rule, source: &str, tree: RawNode) -> Option<String> {
    let root = Node::Branch(normalize(&tree, source.as_bytes(), &[]).unwrap());
    step(rule, source, Ok(root), source).ok().unwrap().map(|v| String::from_utf8(v).unwrap())
}

#[test]
fn a_bare_body_gets_braces() {
    let source = "if c x";
    let tree = raw(
        "source_file",
        0,
        6,
        vec![child(
            None,
            raw(
                "if_exp",
                0,
                6,
                vec![
                    child(None, raw("if", 0, 2, vec![])),
                    child(Some("condition"), var(3)),
                    child(Some("then"), var(5)),
                ],
            ),
        )],
    );
    assert_eq!(rewritten(Rule::BraceBodies, source, tree), Some("if c { x }".to_string()));
}

#[test]
fn a_parenthesised_head_loses_its_parens_once_the_body_is_braced() {
    let source = "if (c) { x }";
    let par = raw(
        "par_exp",
        3,
        6,
        vec![child(None, raw("(", 3, 4, vec![])), child(None, var(4)), child(None, raw(")", 5, 6, vec![]))],
    );
    let block = raw(
        "block_exp",
        7,
        12,
        vec![child(None, raw("{", 7, 8, vec![])), child(None, var(9)), child(None, raw("}", 11, 12, vec![]))],
    );
    let tree = raw(
        "source_file",
        0,
        12,
        vec![child(
            None,
            raw(
                "if_exp",
                0,
                12,
                vec![child(None, raw("if", 0, 2, vec![])), child(Some("condition"), par), child(Some("then"), block)],
            ),
        )],
    );
    assert_eq!(rewritten(Rule::UnparenHeads, source, tree), Some("if c { x }".to_string()));
}

#[test]
fn a_settled_text_asks_for_no_round() {
    let source = "x";
    let tree = raw("source_file", 0, 1, vec![child(None, var(0))]);
    assert_eq!(rewritten(Rule::BraceBodies, source, tree), None);
}
