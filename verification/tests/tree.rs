use mo_fmt::tree::{normalize, strip_mode, syntax_error, tree_of, Lines, Mode, Node, RawChild, RawNode};
use mo_fmt::{normalize_line_endings, Error};

fn raw(kind: &'static str, start: usize, end: usize, children: Vec<RawChild>) -> RawNode {
    RawNode {
        kind,
        grammar_id: 0,
        start,
        end,
        named: true,
        extra: false,
        error: false,
        missing: false,
        has_error: false,
        children,
    }
}

fn child(node: RawNode) -> RawChild {
    RawChild { field: None, node }
}

fn leaves(n: &Node<'_>, out: &mut Vec<u8>) {
    match n {
        Node::Branch(b) => b.children.iter().for_each(|c| leaves(c, out)),
        _ => out.extend_from_slice(n.text()),
    }
}

#[test]
fn leaves_reproduce_the_source_and_gaps_fill_the_holes() {
    let source = "  let x =\n 1 ;\n";
    let tree = raw(
        "source_file",
        0,
        source.len(),
        vec![child(raw(
            "let_dec",
            2,
            14,
            vec![
                child(raw("let", 2, 5, vec![])),
                child(raw("var_pat", 6, 7, vec![])),
                child(raw("=", 8, 9, vec![])),
                child(raw("lit_exp_block", 11, 12, vec![])),
                child(raw(";", 13, 14, vec![])),
            ],
        ))],
    );
    let root = Node::Branch(normalize(&tree, source.as_bytes(), &[]).unwrap());
    let mut out = Vec::new();
    leaves(&root, &mut out);
    assert_eq!(out, source.as_bytes());
    let Node::Branch(b) = &root else { panic!("the root is a branch") };
    assert!(b.children[0].is_text());
    let Node::Branch(dec) = &b.children[1] else { panic!("the declaration is a branch") };
    assert_eq!(dec.nodes().len(), 5);
    let gaps: Vec<&[u8]> = dec.children.iter().filter(|c| c.is_text()).map(|c| c.text()).collect();
    assert_eq!(gaps, vec![&b" "[..], &b" "[..], &b"\n "[..], &b" "[..]]);
    let Node::Token(lit) = &dec.children[6] else { panic!("the literal is a token") };
    assert_eq!(lit.kind, "lit_exp_block");
}

#[test]
fn a_tree_that_does_not_fit_the_source_is_refused() {
    let source = "ab";
    let tree = raw("source_file", 0, 2, vec![child(raw("x", 1, 3, vec![]))]);
    assert!(normalize(&tree, source.as_bytes(), &[]).is_err());
}

#[test]
fn mode_suffixes_are_stripped() {
    assert_eq!(strip_mode("call_exp_block"), ("call_exp", Some(Mode::Block)));
    assert_eq!(strip_mode("obj_object"), ("obj", Some(Mode::Object)));
    assert_eq!(strip_mode("call_exp"), ("call_exp", None));
}

#[test]
fn lines_map_offsets_to_rows_and_character_columns() {
    let source = "ab\né你x\n";
    let lines = Lines::new(source.as_bytes());
    assert_eq!(lines.pos(0), (0, 0));
    assert_eq!(lines.pos(3), (1, 0));
    assert_eq!(lines.pos(8), (1, 2));
    assert_eq!(lines.row(9), 1);
    assert_eq!(lines.line(1), "é你x".as_bytes());
    assert_eq!(lines.line(2), b"");
}

#[test]
fn a_syntax_error_is_framed_with_its_line_and_a_caret() {
    let lines = Lines::new(b"let x = ;\n");
    let e = syntax_error(&lines, false, "ERROR", 6);
    assert_eq!((e.line, e.column), (1, 7));
    assert_eq!(e.message, "unexpected input");
    assert_eq!(e.frame, "  |\n1 | let x = ;\n  |       ^");
    assert_eq!(e.to_message(), "1:7: unexpected input\n  |\n1 | let x = ;\n  |       ^");
    let tabbed = Lines::new(b"\tlet x = @@@ ;\n");
    assert!(syntax_error(&tabbed, false, "ERROR", 9).frame.ends_with("| \t        ^"));
    let missing = syntax_error(&lines, true, "}", 9);
    assert_eq!(missing.message, "missing closing brace");
    assert_eq!(syntax_error(&lines, true, "*/", 9).message, "missing `*/`");
}

#[test]
fn line_endings_become_lf() {
    assert_eq!(normalize_line_endings("a\r\nb\rc\n"), "a\nb\nc\n");
    assert_eq!(normalize_line_endings("a\n\r\r\n"), "a\n\n\n");
    assert_eq!(normalize_line_endings("no returns"), "no returns");
}

#[test]
fn an_internal_error_asks_to_be_reported() {
    let e = Error::Internal("oops".to_string());
    assert_eq!(
        e.to_message(),
        "internal error: oops. The file was left unchanged; please report this with the file at https://github.com/caffeinelabs/tree-sitter-motoko/issues"
    );
}

#[test]
fn a_byte_order_mark_is_split_off_only_where_it_stands() {
    assert_eq!(mo_fmt::split_bom("\u{feff}let"), (true, "let"));
    assert_eq!(mo_fmt::split_bom("let\u{feff}"), (false, "let\u{feff}"));
    assert_eq!(mo_fmt::split_bom(""), (false, ""));
}

#[test]
fn a_tree_with_an_error_is_a_located_syntax_error() {
    let source = "let x = ;\n";
    let mut error = raw("ERROR", 8, 9, vec![child(raw(";", 8, 9, vec![]))]);
    error.error = true;
    error.named = false;
    let mut root = raw(
        "source_file",
        0,
        source.len(),
        vec![
            child(raw("let", 0, 3, vec![])),
            child(raw("identifier", 4, 5, vec![])),
            child(raw("=", 6, 7, vec![])),
            child(error),
        ],
    );
    root.has_error = true;
    match tree_of(&root, source, &[]) {
        Err(Error::Syntax(e)) => assert_eq!(e.to_message(), "1:9: unexpected input\n  |\n1 | let x = ;\n  |         ^"),
        other => panic!("{other:?}"),
    }
    let clean = raw("source_file", 0, 3, vec![child(raw("let", 0, 3, vec![]))]);
    assert!(tree_of(&clean, "let", &[]).is_ok());
}

#[test]
fn trailing_whitespace_leaves_every_branch_below_the_root() {
    // The grammar's `<` swallows the spaces after it.
    let source = "(a <  )b";
    let inner = raw(
        "bin_exp",
        0,
        7,
        vec![
            child(raw("(", 0, 1, vec![])),
            child(raw("identifier", 1, 2, vec![])),
            child(raw("<", 3, 6, vec![])),
            child(raw(")", 6, 7, vec![])),
        ],
    );
    let root = raw("source_file", 0, source.len(), vec![child(inner), child(raw("identifier", 7, 8, vec![]))]);
    let Ok(Node::Branch(b)) = tree_of(&root, source, &[]) else { panic!("the tree fits") };
    let Node::Branch(exp) = &b.children[0] else { panic!("a branch") };
    let Node::Token(lt) = &exp.children[3] else { panic!("a token") };
    assert_eq!(lt.text, b"<");
    assert_eq!(exp.children[4].text(), b"  ");
    // A branch that ends with such a token hands the whitespace on to its parent.
    let source = "(  <  b";
    let call = raw("call_exp", 0, 6, vec![child(raw("(", 0, 1, vec![])), child(raw("<", 3, 6, vec![]))]);
    let root = raw("source_file", 0, source.len(), vec![child(call), child(raw("identifier", 6, 7, vec![]))]);
    let Ok(Node::Branch(b)) = tree_of(&root, source, &[]) else { panic!("the tree fits") };
    let Node::Branch(call) = &b.children[0] else { panic!("a branch") };
    assert!(!call.children.last().unwrap().is_text());
    assert_eq!(call.end, 4);
    assert_eq!(b.children[1].text(), b"  ");
}

#[test]
fn a_tree_that_does_not_fit_is_an_internal_error() {
    let tree = raw("source_file", 0, 2, vec![child(raw("x", 1, 3, vec![]))]);
    assert!(matches!(tree_of(&tree, "ab", &[]), Err(Error::Internal(_))));
    let tree = raw("source_file", 0, 3, vec![child(raw("x", 0, 1, vec![])), child(raw("y", 2, 3, vec![]))]);
    assert!(matches!(tree_of(&tree, "a-b", &[]), Err(Error::Internal(_))));
    assert!(tree_of(&tree, "a b", &[]).is_ok());
}
