use mo_fmt::doc;
use mo_fmt::doc::{align, empty, group, indent, text, verbatim, BreakParent, Doc, HardLine, Line, SoftLine};

fn concat(parts: Vec<Doc>) -> Doc {
    doc::concat(parts)
}

fn print(d: Doc, width: usize) -> String {
    doc::print(d, width)
}

fn list(broken: bool, tail: Doc) -> Doc {
    group(
        concat(vec![
            text("["),
            indent(concat(vec![SoftLine, text("a,"), Line, text("b"), tail])),
            SoftLine,
            text("]"),
        ]),
        broken,
    )
}

#[test]
fn a_group_breaks_only_when_told_or_when_it_holds_a_hard_break() {
    assert_eq!(print(list(false, empty()), 2), "[a, b]");
    assert_eq!(print(list(true, empty()), 2), "[\n  a,\n  b\n]");
    assert_eq!(
        print(list(false, concat(vec![text(" // c"), BreakParent])), 2),
        "[\n  a,\n  b // c\n]"
    );
}

#[test]
fn hard_breaks_trim_trailing_spaces_and_literal_breaks_keep_them() {
    let doc = concat(vec![
        text("a  "),
        HardLine,
        align(3, concat(vec![text("b"), HardLine, verbatim("/* x  \n  y */")])),
    ]);
    assert_eq!(print(doc, 2), "a\nb\n   /* x  \n  y */");
}

#[test]
fn will_break_sees_forced_breaks_through_nesting() {
    assert!(!concat(vec![text("a"), Line, SoftLine]).will_break());
    assert!(indent(concat(vec![text("a"), HardLine])).will_break());
    assert!(group(text("a"), true).will_break());
    assert!(!group(text("a"), false).will_break());
}

#[test]
fn verbatim_keeps_every_line_and_its_spaces() {
    assert_eq!(print(verbatim("x  \n\n  y"), 4), "x  \n\n  y");
    assert_eq!(print(indent(concat(vec![text("a"), HardLine, verbatim("b\nc")])), 4), "a\n    b\nc");
    assert_eq!(print(verbatim(""), 2), "");
}

#[test]
fn printing_keeps_text_in_other_scripts_whole() {
    let d = group(
        concat(vec![text("é 你"), indent(concat(vec![HardLine, verbatim("ü  \n  ß")])), HardLine, text("√")]),
        false,
    );
    assert_eq!(print(d, 2), "é 你\n  ü  \n  ß\n√");
}

#[test]
fn printing_verbatim_text_gives_it_back() {
    for s in ["", "x", "a  \n b\n", "\n\n", "é\n  ß  "] {
        for w in [0, 2, 4] {
            assert_eq!(print(verbatim(s), w), s);
            assert_eq!(print(indent(verbatim(s)), w), s);
            assert_eq!(print(align(3, verbatim(s)), w), s);
        }
        assert_eq!(verbatim(s).will_break(), s.contains('\n'));
    }
}
