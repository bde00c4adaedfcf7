use mo_fmt::doc;
use mo_fmt::print::exp::chainable;
use mo_fmt::print::parts::{blank_in, list_of, newlines, Family};
use mo_fmt::tree::{normalize, Node, RawChild, RawNode};

fn raw(kind: &'static str, start: usize, end: usize, named: bool, children: Vec<RawChild>) -> RawNode {
    RawNode {
        kind,
        grammar_id: 0,
        start,
        end,
        named,
        extra: false,
        error: false,
        missing: false,
        has_error: false,
        children,
    }
}

fn child(node: RawNode) -> RawChild {
    RawChild { field: None, node }
}

fn token(kind: &'static str, start: usize, end: usize) -> RawChild {
    child(raw(kind, start, end, kind.chars().all(|c| c.is_alphabetic() || c == '_'), vec![]))
}

/// `[1,2]` or `[1,\n2]`: a source file holding one array.
fn array(source: &str) -> RawNode {
    let len = source.len();
    let two = source.find('2').unwrap();
    let array = raw(
        "array_exp",
        0,
        len,
        true,
        vec![
            token("[", 0, 1),
            token("nat", 1, 2),
            token(",", 2, 3),
            token("nat", two, two + 1),
            token("]", len - 1, len),
        ],
    );
    raw("source_file", 0, len, true, vec![child(array)])
}

fn formatted(source: &str) -> String {
    let root = normalize(&array(source), source.as_bytes(), &[]).unwrap();
    let root = Node::Branch(root);
    doc::print(mo_fmt::print::print(&root, source), 2)
}

#[test]
fn a_chain_never_breaks_inside_or_beside_an_indivisible_operator() {
    for op in [":=", "**", "+%", "<<", ">>", "->", "#"] {
        assert!(!chainable(op), "{op}");
    }
    for op in ["|>", "+", ">=", "and"] {
        assert!(chainable(op), "{op}");
    }
}

#[test]
fn a_list_written_on_one_line_stays_on_one_line() {
    assert_eq!(formatted("[1,2]"), "[1, 2]\n");
}

#[test]
fn a_list_broken_anywhere_goes_one_item_per_line() {
    assert_eq!(formatted("[1,\n2]"), "[\n  1,\n  2\n]\n");
}

#[test]
fn lists_are_found_by_kind() {
    let source = "[1,2]";
    let root = normalize(&array(source), source.as_bytes(), &[]).unwrap();
    let Node::Branch(array) = &root.children[0] else { panic!("the array is a branch") };
    let list = list_of(array).unwrap();
    assert!(list.family == Family::CommaSep);
    assert_eq!((list.open, list.close, list.spaced, list.close_glued), ("[", "]", false, false));
    assert!(list_of(&root).is_some());
}

#[test]
fn blank_lines_are_counted_in_gaps() {
    assert_eq!(newlines(b"\n \n\n"), 3);
    assert!(blank_in(Some(b"\n\n")));
    assert!(!blank_in(Some(b" \n ")));
    assert!(!blank_in(None));
}

/// `a + b` with the operator and gaps where `source` has them: a source file holding one sum.
fn sum(source: &str) -> RawNode {
    let len = source.len();
    let plus = source.find('+').unwrap();
    let sum = raw(
        "bin_exp",
        0,
        len,
        true,
        vec![
            token("identifier", 0, 1),
            child(raw("bin_op", plus, plus + 1, true, vec![token("+", plus, plus + 1)])),
            token("identifier", len - 1, len),
        ],
    );
    raw("source_file", 0, len, true, vec![child(sum)])
}

fn formatted_sum(source: &str) -> String {
    let root = normalize(&sum(source), source.as_bytes(), &[]).unwrap();
    let root = Node::Branch(root);
    doc::print(mo_fmt::print::print(&root, source), 2)
}

#[test]
fn a_chain_on_one_line_gets_single_spaces() {
    assert_eq!(formatted_sum("a  +  b"), "a + b\n");
    assert_eq!(formatted_sum("a+b"), "a + b\n");
}

#[test]
fn a_chain_breaks_only_where_the_source_did() {
    assert_eq!(formatted_sum("a +\nb"), "a +\nb\n");
    assert_eq!(formatted_sum("a\n+ b"), "a\n+ b\n");
}

#[test]
fn a_chain_continued_at_another_column_is_indented() {
    assert_eq!(formatted_sum("a +\n    b"), "a +\n  b\n");
}

#[test]
fn render_prints_the_tree_at_the_indent_width() {
    let source = "[1,\n2]";
    let root = Node::Branch(normalize(&array(source), source.as_bytes(), &[]).unwrap());
    match mo_fmt::render(&root, source, 4) {
        Ok(s) => assert_eq!(s, "[\n    1,\n    2\n]\n"),
        Err(e) => panic!("{e:?}"),
    }
}

#[test]
fn an_item_after_an_ignore_comment_is_left_as_written() {
    let source = "[// mo-fmt-ignore\nx   y,2]";
    let x = source.find('x').unwrap();
    let y = source.find('y').unwrap();
    let two = source.find('2').unwrap();
    let len = source.len();
    let array = raw(
        "array_exp",
        0,
        len,
        true,
        vec![
            token("[", 0, 1),
            token("line_comment", 1, x - 1),
            token("identifier", x, x + 1),
            token("identifier", y, y + 1),
            token(",", y + 1, y + 2),
            token("nat", two, two + 1),
            token("]", len - 1, len),
        ],
    );
    let file = raw("source_file", 0, len, true, vec![child(array)]);
    let root = Node::Branch(normalize(&file, source.as_bytes(), &[]).unwrap());
    let printed = doc::print(mo_fmt::print::print(&root, source), 2);
    assert_eq!(printed, "[\n  // mo-fmt-ignore\n  x   y,\n  2\n]\n");
}
