//! The printer keeps text valid UTF-8: laid out from a tree whose every node has a valid UTF-8
//! text, a doc's texts are all valid UTF-8.

use vstd::prelude::*;
use crate::bytes::{lemma_str_valid, lemma_trim_valid, sb};
use crate::doc::{lemma_utf8_texts_all, lemma_verbatim_utf8, utf8_texts, utf8_texts_all, verbatim_v, DocV};
use crate::tree::{lemma_child_smaller, lemma_utf8_child, lemma_utf8_nodes, text_of, utf8_tree, Branch, Node};
use super::after_item_v;
use super::parts::{
    between_separator_v, inner_break_v, items_v, list_indent_v, list_of_v, separator_char_v, separator_line_v,
    trailing_separator_v, Family, ItemV, List,
};
use super::exp::{coalesce_spine_v, op_text_v, planned_v, spine_v, three_parts_v, ChainV};
use super::control::{blank_v, control_ok_v, separator_v};
use super::layout::{
    after_v, arm_doc_v, branch_doc_v, branch_fold, chain_doc_v, chain_fold, child_doc_v, close_segment, control_doc_v,
    file_fold, item_doc_v, items_fold, list_doc_v, list_items_doc_v, node_doc_v, operand_doc_v, print_v, rest_fold,
    run_fold, source_file_doc_v,
};

verus! {

/// Text with no byte is valid UTF-8.
proof fn lemma_empty_utf8()
    ensures
        vstd::utf8::valid_utf8(Seq::<u8>::empty()),
{
}

proof fn lemma_text_utf8(s: &str)
    ensures
        utf8_texts(DocV::Text(sb(s))),
{
    lemma_str_valid(s);
}

/// A gap, if there is one, is valid UTF-8.
pub open spec fn gap_utf8(g: Option<Seq<u8>>) -> bool {
    g matches Some(x) ==> vstd::utf8::valid_utf8(x)
}

/// The nodes and gaps continuing an item all have valid texts.
pub open spec fn rest_utf8(rest: Seq<(Option<Seq<u8>>, Node)>) -> bool {
    forall|j: int| 0 <= j < rest.len() ==> utf8_tree(#[trigger] rest[j].1) && gap_utf8(rest[j].0)
}

/// The nodes and gaps of items all have valid texts.
pub open spec fn items_utf8(items: Seq<ItemV>) -> bool {
    forall|k: int| 0 <= k < items.len() ==> {
        &&& utf8_tree(#[trigger] items[k].0)
        &&& gap_utf8(items[k].1)
        &&& rest_utf8(items[k].3)
    }
}

/// The items of children with valid texts have valid texts.
proof fn lemma_items_utf8<'a>(cs: Seq<Node<'a>>, join: bool)
    requires
        forall|k: int| 0 <= k < cs.len() ==> utf8_tree(#[trigger] cs[k]),
    ensures
        items_utf8(items_v(cs, join).0),
        gap_utf8(items_v(cs, join).1),
    decreases cs.len(),
{
    if cs.len() > 0 {
        assert forall|k: int| 0 <= k < cs.drop_last().len() implies utf8_tree(#[trigger] cs.drop_last()[k]) by {
            assert(cs.drop_last()[k] == cs[k]);
        }
        lemma_items_utf8(cs.drop_last(), join);
        let (out, gap) = items_v(cs.drop_last(), join);
        let c = cs.last();
        assert(utf8_tree(c)) by {
            assert(cs[cs.len() - 1] == c);
        }
        let (now, _) = items_v(cs, join);
        assert forall|k: int| 0 <= k < now.len() implies {
            &&& utf8_tree(#[trigger] now[k].0)
            &&& gap_utf8(now[k].1)
            &&& rest_utf8(now[k].3)
        } by {
            if k < out.len() {
                let l = out[k];
                assert(utf8_tree(l.0));
                assert(rest_utf8(l.3));
                if now[k].3.len() > l.3.len() {
                    assert(now[k].3 == l.3.push((gap, c)));
                    assert forall|j: int| 0 <= j < now[k].3.len() implies utf8_tree(#[trigger] now[k].3[j].1) && gap_utf8(now[k].3[j].0) by {
                        if j < l.3.len() {
                            assert(now[k].3[j] == l.3[j]);
                        }
                    }
                } else {
                    assert(now[k].3 == l.3);
                }
            }
        }
    }
}

/// The operands and operators of a chain have valid texts.
pub open spec fn chain_utf8(c: ChainV) -> bool {
    &&& forall|k: int| 0 <= k < c.0.len() ==> utf8_tree(#[trigger] c.0[k])
    &&& forall|k: int| 0 <= k < c.1.len() ==> vstd::utf8::valid_utf8(#[trigger] c.1[k])
}

proof fn lemma_level_child<'a>(level: Branch<'a>, k: int)
    requires
        utf8_tree(Node::Branch(level)),
        0 <= k < level.children@.len(),
    ensures
        utf8_tree(level.children@[k]),
{
    assert(level.children@.contains(level.children@[k]));
    lemma_utf8_child(level, level.children@[k]);
}

proof fn lemma_spine_utf8<'a>(level: Branch<'a>, source: Seq<u8>)
    requires
        utf8_tree(Node::Branch(level)),
    ensures
        spine_v(level, source) matches Some(c) ==> chain_utf8(c),
    decreases level,
{
    if let Some((l, o, r)) = three_parts_v(level) {
        if 0 <= l < level.children@.len() && 0 <= o < level.children@.len() && 0 <= r < level.children@.len() {
            lemma_level_child(level, l);
            lemma_level_child(level, o);
            lemma_level_child(level, r);
            if let Some(op) = op_text_v(level.children@[o]) {
                if let Node::Branch(ob) = level.children@[o] {
                    lemma_level_child(ob, 0);
                    lemma_trim_valid(text_of(ob.children@[0]));
                }
                if let Node::Branch(lb) = level.children@[l] {
                    if lb.kind@ == "bin_exp"@ {
                        lemma_spine_utf8(lb, source);
                    }
                }
                if let Some(c) = spine_v(level, source) {
                    assert forall|k: int| 0 <= k < c.0.len() implies utf8_tree(#[trigger] c.0[k]) by {}
                    assert forall|k: int| 0 <= k < c.1.len() implies vstd::utf8::valid_utf8(#[trigger] c.1[k]) by {}
                }
            }
        }
    }
}

proof fn lemma_coalesce_utf8<'a>(level: Branch<'a>, source: Seq<u8>)
    requires
        utf8_tree(Node::Branch(level)),
    ensures
        coalesce_spine_v(level, source) matches Some(c) ==> chain_utf8(c),
    decreases level,
{
    lemma_str_valid("??");
    if let Some((l, o, r)) = three_parts_v(level) {
        if 0 <= l < level.children@.len() && 0 <= o < level.children@.len() && 0 <= r < level.children@.len() {
            lemma_level_child(level, l);
            lemma_level_child(level, r);
            if let Node::Branch(rb) = level.children@[r] {
                if rb.kind@ == "coalesce_exp"@ {
                    lemma_coalesce_utf8(rb, source);
                }
            }
            if let Some(c) = coalesce_spine_v(level, source) {
                assert forall|k: int| 0 <= k < c.0.len() implies utf8_tree(#[trigger] c.0[k]) by {}
                assert forall|k: int| 0 <= k < c.1.len() implies vstd::utf8::valid_utf8(#[trigger] c.1[k]) by {}
            }
        }
    }
}

proof fn lemma_planned_utf8<'a>(b: Branch<'a>, source: Seq<u8>)
    requires
        utf8_tree(Node::Branch(b)),
    ensures
        planned_v(b, source) matches Some(c) ==> chain_utf8(c),
{
    lemma_spine_utf8(b, source);
    lemma_coalesce_utf8(b, source);
}

proof fn lemma_join_utf8(a: Seq<DocV>, b: Seq<DocV>)
    requires
        utf8_texts_all(a),
        utf8_texts_all(b),
    ensures
        utf8_texts_all(a + b),
{
    lemma_utf8_texts_all(a);
    lemma_utf8_texts_all(b);
    lemma_utf8_texts_all(a + b);
    assert forall|k: int| 0 <= k < (a + b).len() implies utf8_texts(#[trigger] (a + b)[k]) by {
        if k < a.len() {
            assert((a + b)[k] == a[k]);
        } else {
            assert((a + b)[k] == b[k - a.len()]);
        }
    }
}

proof fn lemma_concat2(x: DocV, y: DocV)
    requires
        utf8_texts(x),
        utf8_texts(y),
    ensures
        utf8_texts(DocV::Concat(seq![x, y])),
        utf8_texts_all(seq![x, y]),
{
    lemma_utf8_texts_all(seq![x, y]);
}

proof fn lemma_concat3(x: DocV, y: DocV, z: DocV)
    requires
        utf8_texts(x),
        utf8_texts(y),
        utf8_texts(z),
    ensures
        utf8_texts(DocV::Concat(seq![x, y, z])),
        utf8_texts_all(seq![x, y, z]),
{
    lemma_utf8_texts_all(seq![x, y, z]);
}

proof fn lemma_concat5(x: DocV, y: DocV, z: DocV, u: DocV, v: DocV)
    requires
        utf8_texts(x),
        utf8_texts(y),
        utf8_texts(z),
        utf8_texts(u),
        utf8_texts(v),
    ensures
        utf8_texts(DocV::Concat(seq![x, y, z, u, v])),
{
    lemma_utf8_texts_all(seq![x, y, z, u, v]);
}

proof fn lemma_constants_utf8()
    ensures
        utf8_texts(DocV::Text(Seq::empty())),
        utf8_texts(DocV::Text(sb(" "))),
        utf8_texts(DocV::Text(sb(";"))),
        utf8_texts(DocV::Text(sb(","))),
        utf8_texts(DocV::Text(sb("{"))),
        utf8_texts(DocV::Text(sb("}"))),
        utf8_texts(DocV::Text(sb("switch"))),
        utf8_texts(DocV::Text(sb("case"))),
        utf8_texts(DocV::Concat(seq![DocV::HardLine, DocV::HardLine])),
{
    lemma_text_utf8(" ");
    lemma_text_utf8(";");
    lemma_text_utf8(",");
    lemma_text_utf8("{");
    lemma_text_utf8("}");
    lemma_text_utf8("switch");
    lemma_text_utf8("case");
    lemma_concat2(DocV::HardLine, DocV::HardLine);
}

proof fn lemma_separators_utf8(family: Family, left: DocV, gap: Option<Seq<u8>>, a: bool, b: bool, flat: bool)
    ensures
        utf8_texts(separator_char_v(family)),
        utf8_texts(separator_line_v(left, gap, a)),
        utf8_texts(between_separator_v(family, left, gap, a, b, flat)),
        utf8_texts(trailing_separator_v(family, a, b)),
        utf8_texts(separator_v(gap)),
{
    lemma_constants_utf8();
    let sep = separator_char_v(family);
    let line = separator_line_v(left, gap, b);
    lemma_concat2(sep, DocV::Text(sb(" ")));
    lemma_concat2(sep, line);
    lemma_concat3(DocV::HardLine, sep, line);
    lemma_concat2(DocV::HardLine, sep);
}

proof fn lemma_after_item_utf8(items: Seq<ItemV>, i: int, printed: DocV, family: Family, flat: bool)
    requires
        0 <= i < items.len(),
    ensures
        utf8_texts(after_item_v(items, i, printed, family, flat)),
{
    let item = items[i];
    lemma_separators_utf8(family, printed, None, item.2, super::parts::is_line_comment_v(item.0), flat);
    if i < items.len() - 1 {
        let next = items[i + 1];
        lemma_separators_utf8(family, printed, next.1, super::parts::is_line_comment_v(item.0), super::parts::is_comment_v(next.0), flat);
        lemma_separators_utf8(family, printed, next.1, super::parts::is_comment_v(next.0), false, flat);
    }
}

proof fn lemma_list_indent_utf8(joined: DocV, list: List, last: bool, flat: bool)
    requires
        utf8_texts(joined),
    ensures
        utf8_texts(list_indent_v(joined, list, last, flat)),
{
    lemma_constants_utf8();
    let b = inner_break_v(list, flat);
    assert(utf8_texts(b));
    lemma_concat3(b, joined, DocV::Text(Seq::empty()));
    lemma_concat3(b, joined, b);
    lemma_concat2(b, joined);
    let body = DocV::Indent(Box::new(DocV::Concat(seq![b, joined])));
    lemma_concat2(body, DocV::HardLine);
    lemma_concat2(body, b);
}

/// The doc of a node of a tree whose texts are valid UTF-8 has valid UTF-8 texts.
pub proof fn lemma_node_utf8<'a>(n: Node<'a>, source: Seq<u8>)
    requires
        utf8_tree(n),
    ensures
        utf8_texts(node_doc_v(n, source)),
    decreases n, 4int, 0int,
{
    lemma_verbatim_utf8(text_of(n));
    lemma_concat2(verbatim_v(text_of(n)), DocV::BreakParent);
    match n {
        Node::Branch(b) => if !super::parts::is_comment_v(n) {
            match list_of_v(b) {
                Some(list) => lemma_list_utf8(b, list, source),
                None => match planned_v(b, source) {
                    Some(c) => {
                        lemma_planned_utf8(b, source);
                        lemma_chain_utf8(b, c, source);
                    },
                    None => if control_ok_v(b) {
                        lemma_control_utf8(b, source);
                    } else {
                        lemma_branch_utf8(b, source);
                    },
                },
            }
        },
        _ => {},
    }
}

proof fn lemma_child_utf8<'a>(b: Branch<'a>, x: Node<'a>, source: Seq<u8>)
    requires
        utf8_tree(Node::Branch(b)),
    ensures
        utf8_texts(child_doc_v(b, x, source)),
    decreases Node::Branch(b), 0int, 0int,
{
    lemma_empty_utf8();
    if b.children@.contains(x) {
        lemma_child_smaller(b, x);
        lemma_utf8_child(b, x);
        lemma_node_utf8(x, source);
    }
}

proof fn lemma_branch_utf8<'a>(b: Branch<'a>, source: Seq<u8>)
    requires
        utf8_tree(Node::Branch(b)),
    ensures
        utf8_texts(branch_doc_v(b, source)),
    decreases Node::Branch(b), 3int, 0int,
{
    let base = super::indent_of_v(super::layout::line_v(source, b.start as int));
    lemma_branch_fold_utf8(b, b.children@.len() as int, base, source);
    let (out, seg) = branch_fold(b, b.children@.len() as int, base, source);
    lemma_close_utf8(out, seg);
}

proof fn lemma_close_utf8(out: Seq<DocV>, seg: Option<(nat, Seq<DocV>)>)
    requires
        utf8_texts_all(out),
        seg matches Some((_, docs)) ==> utf8_texts_all(docs),
    ensures
        utf8_texts_all(close_segment(out, seg)),
{
    if let Some((n, docs)) = seg {
        let a = DocV::Align(n, Box::new(DocV::Concat(docs)));
        assert(utf8_texts(DocV::Concat(docs)));
        assert(utf8_texts(a));
        lemma_utf8_texts_all(seq![a]);
        assert(seq![a][0] == a);
        lemma_join_utf8(out, seq![a]);
        assert(out.push(a) =~= out + seq![a]);
    }
}

proof fn lemma_branch_fold_utf8<'a>(b: Branch<'a>, k: int, base: nat, source: Seq<u8>)
    requires
        utf8_tree(Node::Branch(b)),
    ensures
        utf8_texts_all(branch_fold(b, k, base, source).0),
        branch_fold(b, k, base, source).1 matches Some((_, docs)) ==> utf8_texts_all(docs),
    decreases Node::Branch(b), 2int, k,
{
    if !(k <= 0 || k > b.children@.len()) {
        lemma_branch_fold_utf8(b, k - 1, base, source);
        let (out, seg) = branch_fold(b, k - 1, base, source);
        let c = b.children@[k - 1];
        if c is Text && text_of(c).contains(10u8) {
            lemma_close_utf8(out, seg);
            lemma_utf8_texts_all(seq![DocV::HardLine, DocV::HardLine]);
            lemma_utf8_texts_all(seq![DocV::HardLine]);
        } else {
            lemma_child_utf8(b, c, source);
            let d = child_doc_v(b, c, source);
            lemma_utf8_texts_all(seq![d]);
            match seg {
                Some((n, docs)) => {
                    lemma_join_utf8(docs, seq![d]);
                    assert(docs.push(d) =~= docs + seq![d]);
                },
                None => {
                    lemma_join_utf8(out, seq![d]);
                    assert(out.push(d) =~= out + seq![d]);
                },
            }
        }
    }
}

proof fn lemma_list_utf8<'a>(b: Branch<'a>, list: List, source: Seq<u8>)
    requires
        utf8_tree(Node::Branch(b)),
    ensures
        utf8_texts(list_doc_v(b, list, source)),
    decreases Node::Branch(b), 3int, 0int,
{
    lemma_constants_utf8();
    lemma_text_utf8(list.open);
    lemma_text_utf8(list.close);
    let items = items_v(b.children@, true).0;
    let open = DocV::Text(sb(list.open));
    let close = DocV::Text(sb(list.close));
    lemma_utf8_texts_all(seq![open, DocV::HardLine, DocV::HardLine, close]);
    lemma_concat2(open, close);
    if items.len() > 0 {
        lemma_utf8_nodes(b.children@);
        lemma_items_utf8(b.children@, true);
        let flat = super::flat_v(b);
        let joined = list_items_doc_v(b, items, list.family, flat, source);
        lemma_items_fold_utf8(b, items, list.family, flat, source, items.len() as int);
        let after = after_v(b, list);
        let iv = super::items_view_of(b);
        let before = if !flat && super::parts::blank_in_v(iv[0].1) { DocV::HardLine } else { DocV::Text(Seq::empty()) };
        lemma_concat3(before, joined, after);
        let body = DocV::Concat(seq![before, joined, after]);
        lemma_list_indent_utf8(body, list, super::parts::is_line_comment_v(iv.last().0), flat);
        lemma_concat3(open, list_indent_v(body, list, super::parts::is_line_comment_v(iv.last().0), flat), close);
    }
}

proof fn lemma_items_fold_utf8<'a>(b: Branch<'a>, items: Seq<ItemV<'a>>, family: Family, flat: bool, source: Seq<u8>, k: int)
    requires
        utf8_tree(Node::Branch(b)),
        items_utf8(items),
    ensures
        utf8_texts_all(items_fold(b, items, family, flat, source, k)),
    decreases Node::Branch(b), 2int, k,
{
    if !(k <= 0 || k > items.len()) {
        lemma_items_fold_utf8(b, items, family, flat, source, k - 1);
        lemma_item_utf8(b, items, k - 1, source);
        let d = item_doc_v(b, items, k - 1, source);
        lemma_after_item_utf8(items, k - 1, d, family, flat);
        lemma_concat2(d, after_item_v(items, k - 1, d, family, flat));
        lemma_join_utf8(items_fold(b, items, family, flat, source, k - 1), seq![d, after_item_v(items, k - 1, d, family, flat)]);
    }
}

proof fn lemma_item_utf8<'a>(b: Branch<'a>, items: Seq<ItemV<'a>>, i: int, source: Seq<u8>)
    requires
        utf8_tree(Node::Branch(b)),
        items_utf8(items),
    ensures
        utf8_texts(item_doc_v(b, items, i, source)),
    decreases Node::Branch(b), 1int, 0int,
{
    lemma_empty_utf8();
    if 0 <= i < items.len() {
        let item = items[i];
        assert(utf8_tree(item.0));
        let ignored = i > 0 && super::is_ignore_directive_v(items[i - 1].0);
        lemma_verbatim_utf8(text_of(item.0));
        lemma_child_utf8(b, item.0, source);
        let first = if ignored { verbatim_v(text_of(item.0)) } else { child_doc_v(b, item.0, source) };
        assert(rest_utf8(item.3));
        lemma_rest_fold_utf8(b, item.3, ignored, source, item.3.len() as int);
        lemma_utf8_texts_all(seq![first]);
        lemma_join_utf8(seq![first], rest_fold(b, item.3, ignored, source, item.3.len() as int));
    }
}

proof fn lemma_rest_fold_utf8<'a>(b: Branch<'a>, rest: Seq<(Option<Seq<u8>>, Node<'a>)>, ignored: bool, source: Seq<u8>, j: int)
    requires
        utf8_tree(Node::Branch(b)),
        rest_utf8(rest),
    ensures
        utf8_texts_all(rest_fold(b, rest, ignored, source, j)),
    decreases Node::Branch(b), 0int, j,
{
    if !(j <= 0 || j > rest.len()) {
        lemma_constants_utf8();
        let (gap, node) = rest[j - 1];
        assert(utf8_tree(rest[j - 1].1) && gap_utf8(rest[j - 1].0));
        lemma_rest_fold_utf8(b, rest, ignored, source, j - 1);
        let prev = rest_fold(b, rest, ignored, source, j - 1);
        if ignored {
            let g = DocV::Text(match gap { Some(g) => g, None => Seq::empty() });
            lemma_verbatim_utf8(text_of(node));
            lemma_concat2(g, verbatim_v(text_of(node)));
            lemma_join_utf8(prev, seq![g, verbatim_v(text_of(node))]);
            assert(rest_fold(b, rest, ignored, source, j) == prev + seq![g, verbatim_v(text_of(node))]);
        } else {
            let g = match gap {
                None => DocV::Text(Seq::empty()),
                Some(g) => if g.contains(10u8) { DocV::HardLine } else { DocV::Text(sb(" ")) },
            };
            lemma_child_utf8(b, node, source);
            lemma_concat2(g, child_doc_v(b, node, source));
            lemma_join_utf8(prev, seq![g, child_doc_v(b, node, source)]);
            assert(rest_fold(b, rest, ignored, source, j) == prev + seq![g, child_doc_v(b, node, source)]);
        }
    } else {
        assert(rest_fold(b, rest, ignored, source, j) =~= Seq::<DocV>::empty());
    }
}

proof fn lemma_file_utf8<'a>(b: Branch<'a>, source: Seq<u8>)
    requires
        utf8_tree(Node::Branch(b)),
    ensures
        utf8_texts(source_file_doc_v(b, source)),
    decreases Node::Branch(b), 3int, 0int,
{
    lemma_empty_utf8();
    let items = items_v(b.children@, false).0;
    lemma_utf8_nodes(b.children@);
    lemma_items_utf8(b.children@, false);
    lemma_file_fold_utf8(b, items, source, items.len() as int);
}

proof fn lemma_file_fold_utf8<'a>(b: Branch<'a>, items: Seq<ItemV<'a>>, source: Seq<u8>, k: int)
    requires
        utf8_tree(Node::Branch(b)),
        items_utf8(items),
    ensures
        utf8_texts_all(file_fold(b, items, source, k)),
    decreases Node::Branch(b), 2int, k,
{
    if !(k <= 0 || k > items.len()) {
        lemma_constants_utf8();
        lemma_file_fold_utf8(b, items, source, k - 1);
        lemma_item_utf8(b, items, k - 1, source);
        let item = items[k - 1];
        lemma_separators_utf8(Family::SemiSep, DocV::Text(Seq::empty()), None, item.2, super::parts::is_line_comment_v(item.0), false);
        let brk = if k < items.len() {
            let next = items[k];
            if super::parts::is_comment_v(next.0) && !super::parts::breaks_v(next.1) {
                DocV::Text(sb(" "))
            } else if super::parts::blank_in_v(next.1) {
                DocV::Concat(seq![DocV::HardLine, DocV::HardLine])
            } else {
                DocV::HardLine
            }
        } else {
            DocV::HardLine
        };
        let d = item_doc_v(b, items, k - 1, source);
        let t = trailing_separator_v(Family::SemiSep, item.2, super::parts::is_line_comment_v(item.0));
        lemma_concat3(d, t, brk);
        lemma_join_utf8(file_fold(b, items, source, k - 1), seq![d, t, brk]);
    }
}

proof fn lemma_operand_utf8<'a>(b: Branch<'a>, x: Node<'a>, source: Seq<u8>)
    requires
        utf8_tree(x),
    ensures
        utf8_texts(operand_doc_v(b, x, source)),
    decreases Node::Branch(b), 0int, 0int,
{
    lemma_empty_utf8();
    if decreases_to!(Node::Branch(b) => x) {
        lemma_node_utf8(x, source);
    }
}

proof fn lemma_chain_utf8<'a>(b: Branch<'a>, c: ChainV<'a>, source: Seq<u8>)
    requires
        chain_utf8(c),
    ensures
        utf8_texts(chain_doc_v(b, c, source)),
    decreases Node::Branch(b), 3int, 0int,
{
    lemma_empty_utf8();
    if c.0.len() > 0 {
        assert(utf8_tree(c.0[0]));
        lemma_operand_utf8(b, c.0[0], source);
        lemma_chain_fold_utf8(b, c, source, c.1.len() as int);
        let first = operand_doc_v(b, c.0[0], source);
        let rs = chain_fold(b, c, source, c.1.len() as int);
        lemma_concat2(first, DocV::Concat(rs));
        assert(utf8_texts(DocV::Concat(rs)));
        lemma_concat2(first, DocV::Indent(Box::new(DocV::Concat(rs))));
    }
}

proof fn lemma_chain_fold_utf8<'a>(b: Branch<'a>, c: ChainV<'a>, source: Seq<u8>, k: int)
    requires
        chain_utf8(c),
    ensures
        utf8_texts_all(chain_fold(b, c, source, k)),
    decreases Node::Branch(b), 2int, k,
{
    if !(k <= 0 || k > c.1.len() || k >= c.0.len() || k > c.2.len()) {
        lemma_constants_utf8();
        lemma_chain_fold_utf8(b, c, source, k - 1);
        assert(vstd::utf8::valid_utf8(c.1[k - 1]));
        assert(utf8_tree(c.0[k]));
        let op = DocV::Text(c.1[k - 1]);
        let space = DocV::Text(sb(" "));
        lemma_concat3(DocV::HardLine, op, space);
        lemma_concat3(space, op, DocV::HardLine);
        lemma_concat3(space, op, space);
        lemma_operand_utf8(b, c.0[k], source);
        let d = operand_doc_v(b, c.0[k], source);
        lemma_utf8_texts_all(seq![d]);
        let prev = chain_fold(b, c, source, k - 1);
        let around = match c.2[k - 1] {
            Some(super::exp::Break::Before) => seq![DocV::HardLine, op, space],
            Some(super::exp::Break::After) => seq![space, op, DocV::HardLine],
            None => seq![space, op, space],
        };
        lemma_join_utf8(prev, around);
        lemma_join_utf8(prev + around, seq![d]);
    }
}

proof fn lemma_control_utf8<'a>(b: Branch<'a>, source: Seq<u8>)
    requires
        utf8_tree(Node::Branch(b)),
    ensures
        utf8_texts(control_doc_v(b, source)),
    decreases Node::Branch(b), 3int, 0int,
{
    lemma_constants_utf8();
    let cs = b.children@;
    if cs.len() > 2 {
        lemma_child_utf8(b, cs[2], source);
    }
    let scrutinee = if cs.len() > 2 { child_doc_v(b, cs[2], source) } else { DocV::Text(Seq::empty()) };
    let head = DocV::Concat(seq![DocV::Text(sb("switch")), DocV::Text(sb(" ")), scrutinee, DocV::Text(sb(" ")), DocV::Text(sb("{"))]);
    lemma_concat5(DocV::Text(sb("switch")), DocV::Text(sb(" ")), scrutinee, DocV::Text(sb(" ")), DocV::Text(sb("{")));
    lemma_run_fold_utf8(b, source, cs.len() - 1);
    let run = DocV::Concat(run_fold(b, source, cs.len() - 1).0);
    if super::control::broken_v(b) {
        let first = blank_v(cs[5]);
        let last = blank_v(cs[cs.len() - 2]);
        lemma_concat3(DocV::HardLine, first, run);
        lemma_concat5(head, DocV::Indent(Box::new(DocV::Concat(seq![DocV::HardLine, first, run]))), last, DocV::HardLine, DocV::Text(sb("}")));
    } else {
        lemma_concat5(head, DocV::Text(sb(" ")), run, DocV::Text(sb(" ")), DocV::Text(sb("}")));
    }
}

proof fn lemma_run_fold_utf8<'a>(b: Branch<'a>, source: Seq<u8>, k: int)
    requires
        utf8_tree(Node::Branch(b)),
    ensures
        utf8_texts_all(run_fold(b, source, k).0),
    decreases Node::Branch(b), 2int, k,
{
    let cs = b.children@;
    if !(k <= 5 || k > cs.len()) {
        lemma_constants_utf8();
        lemma_run_fold_utf8(b, source, k - 1);
        let (run, gap) = run_fold(b, source, k - 1);
        let c = cs[k - 1];
        if !(c is Text) {
            lemma_utf8_texts_all(seq![DocV::Text(sb(";"))]);
            lemma_join_utf8(run, seq![DocV::Text(sb(";"))]);
            assert(run.push(DocV::Text(sb(";"))) =~= run + seq![DocV::Text(sb(";"))]);
            lemma_child_utf8(b, c, source);
            if let Node::Branch(arm) = c {
                assert(cs.contains(c));
                lemma_child_smaller(b, c);
                lemma_utf8_child(b, c);
                lemma_arm_utf8(arm, source);
            }
            let item = if super::parts::is_comment_v(c) {
                child_doc_v(b, c, source)
            } else {
                match c {
                    Node::Branch(arm) => arm_doc_v(arm, source),
                    _ => DocV::Text(Seq::empty()),
                }
            };
            lemma_separators_utf8(Family::SemiSep, DocV::Text(Seq::empty()), gap, false, false, false);
            let sep = if run.len() > 0 { run.push(separator_v(gap)) } else { run };
            lemma_utf8_texts_all(seq![separator_v(gap)]);
            lemma_join_utf8(run, seq![separator_v(gap)]);
            assert(run.push(separator_v(gap)) =~= run + seq![separator_v(gap)]);
            lemma_utf8_texts_all(seq![item]);
            lemma_join_utf8(sep, seq![item]);
            assert(sep.push(item) =~= sep + seq![item]);
        }
    }
}

proof fn lemma_arm_utf8<'a>(arm: Branch<'a>, source: Seq<u8>)
    requires
        utf8_tree(Node::Branch(arm)),
    ensures
        utf8_texts(arm_doc_v(arm, source)),
    decreases Node::Branch(arm), 3int, 0int,
{
    lemma_constants_utf8();
    let cs = arm.children@;
    if cs.len() == 5 {
        lemma_child_utf8(arm, cs[2], source);
        lemma_child_utf8(arm, cs[4], source);
        let pattern = child_doc_v(arm, cs[2], source);
        let body = child_doc_v(arm, cs[4], source);
        lemma_concat2(DocV::HardLine, body);
        lemma_concat2(DocV::Text(sb(" ")), body);
        let tail = if crate::tree::is_break_v(cs[3]) {
            DocV::Indent(Box::new(DocV::Concat(seq![DocV::HardLine, body])))
        } else {
            DocV::Concat(seq![DocV::Text(sb(" ")), body])
        };
        lemma_utf8_texts_all(seq![DocV::Text(sb("case")), DocV::Text(sb(" ")), pattern, tail]);
    }
}

/// The doc of a tree whose texts are valid UTF-8 has valid UTF-8 texts.
pub proof fn lemma_print_utf8<'a>(root: Node<'a>, source: Seq<u8>)
    requires
        utf8_tree(root),
    ensures
        utf8_texts(print_v(root, source)),
{
    lemma_node_utf8(root, source);
    if let Node::Branch(b) = root {
        lemma_file_utf8(b, source);
    }
}

} // verus!
