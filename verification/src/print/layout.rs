//! The layout the printer produces, stated exactly: the doc of every node as a function of the
//! node and the source.

use vstd::prelude::*;
use crate::bytes::sb;
use crate::doc::{verbatim_v, DocV};
use crate::tree::{lemma_child_smaller, line_starts, partition_point, text_of, Branch, Node};
use super::{after_item_v, flat_v, indent_of_v, is_ignore_directive_v, leaf_doc_v, list_shape, tail_chars};
use super::parts::{
    blank_in_v, breaks_v, has_blank_line_v, is_comment_v, is_line_comment_v, items_v, list_of_v, newlines_v,
    separator_char_v, separator_line_v, trailing_separator_v, Family, ItemV, List,
};
use super::exp::{chain_shape, planned_v, Break, ChainV};
use super::control::{arm_shape, control_ok_v, is_token_v, separator_v, switch_shape};

verus! {

/// The line an offset lies on, without its line break.
pub open spec fn line_v(source: Seq<u8>, offset: int) -> Seq<u8> {
    let starts = line_starts(source);
    let row = partition_point(starts, offset) - 1;
    source.subrange(
        starts[row] as int,
        if row + 1 < starts.len() { starts[row + 1] - 1 } else { source.len() as int },
    )
}

/// The doc of a node: a gap as written, a comment as written with a forced break after it, a
/// token as written; a branch as a list, a chain, a `switch`, or else with the source's gaps.
pub open spec fn node_doc_v<'a>(n: Node<'a>, source: Seq<u8>) -> DocV
    decreases n, 4int, 0int,
{
    match n {
        Node::Branch(b) => if is_comment_v(n) {
            DocV::Concat(seq![verbatim_v(text_of(n)), DocV::BreakParent])
        } else {
            match list_of_v(b) {
                Some(list) => list_doc_v(b, list, source),
                None => match planned_v(b, source) {
                    Some(c) => chain_doc_v(b, c, source),
                    None => if control_ok_v(b) {
                        control_doc_v(b, source)
                    } else {
                        branch_doc_v(b, source)
                    },
                },
            }
        },
        _ => leaf_doc_v(n),
    }
}

/// A child's doc, for a node that is a child of `b`.
pub open spec fn child_doc_v<'a>(b: Branch<'a>, x: Node<'a>, source: Seq<u8>) -> DocV
    decreases Node::Branch(b), 0int, 0int,
{
    if b.children@.contains(x) {
        proof {
            lemma_child_smaller(b, x);
        }
        node_doc_v(x, source)
    } else {
        DocV::Text(Seq::empty())
    }
}

/// A node with no layout of its own: its children with the source's gaps; after a copied line
/// break, the rest sits at its source column relative to the node's first line.
pub open spec fn branch_doc_v<'a>(b: Branch<'a>, source: Seq<u8>) -> DocV
    decreases Node::Branch(b), 3int, 0int,
{
    let base = indent_of_v(line_v(source, b.start as int));
    let (out, seg) = branch_fold(b, b.children@.len() as int, base, source);
    DocV::Concat(close_segment(out, seg))
}

/// The docs so far with the open segment, if any, aligned at its column.
pub open spec fn close_segment(out: Seq<DocV>, seg: Option<(nat, Seq<DocV>)>) -> Seq<DocV> {
    match seg {
        Some((n, docs)) => out.push(DocV::Align(n, Box::new(DocV::Concat(docs)))),
        None => out,
    }
}

/// The docs of the first `k` children of a branch with no layout of its own, and the segment
/// after the last line break among them: its column and its docs.
pub open spec fn branch_fold<'a>(b: Branch<'a>, k: int, base: nat, source: Seq<u8>) -> (Seq<DocV>, Option<(nat, Seq<DocV>)>)
    decreases Node::Branch(b), 2int, k,
{
    if k <= 0 || k > b.children@.len() {
        (Seq::empty(), None)
    } else {
        let (out, seg) = branch_fold(b, k - 1, base, source);
        let c = b.children@[k - 1];
        if c is Text && text_of(c).contains(10u8) {
            let col = tail_chars(text_of(c));
            let breaks = if newlines_v(text_of(c)) >= 2 {
                seq![DocV::HardLine, DocV::HardLine]
            } else {
                seq![DocV::HardLine]
            };
            (close_segment(out, seg), Some((if col > base { (col - base) as nat } else { 0nat }, breaks)))
        } else {
            let d = child_doc_v(b, c, source);
            match seg {
                Some((n, docs)) => (out, Some((n, docs.push(d)))),
                None => (out.push(d), None),
            }
        }
    }
}

/// The node before the last closing bracket of a list, if there is one.
pub open spec fn last_token(ks: Seq<Node>, t: &str) -> Option<int>
    decreases ks.len(),
{
    if ks.len() == 0 {
        None
    } else if is_token_v(ks.last(), t) {
        Some(ks.len() - 1)
    } else {
        last_token(ks.drop_last(), t)
    }
}

/// The blank line a broken list keeps before its closing bracket.
pub open spec fn after_v(b: Branch, list: List) -> DocV {
    let ks = b.children@;
    let blank = match last_token(ks, list.close) {
        Some(i) => i >= 1 && ks[i - 1] is Text && blank_in_v(Some(text_of(ks[i - 1]))),
        None => false,
    };
    if !flat_v(b) && blank { DocV::HardLine } else { DocV::Text(Seq::empty()) }
}

/// A list: its items one per line if the author broke it anywhere, otherwise on one line.
pub open spec fn list_doc_v<'a>(b: Branch<'a>, list: List, source: Seq<u8>) -> DocV
    decreases Node::Branch(b), 3int, 0int,
{
    let items = items_v(b.children@, true).0;
    if items.len() == 0 {
        if has_blank_line_v(b) {
            DocV::Concat(seq![DocV::Text(sb(list.open)), DocV::HardLine, DocV::HardLine, DocV::Text(sb(list.close))])
        } else {
            DocV::Concat(seq![DocV::Text(sb(list.open)), DocV::Text(sb(list.close))])
        }
    } else {
        list_shape(b, list, list_items_doc_v(b, items, list.family, flat_v(b), source), after_v(b, list))
    }
}

/// The items of a list, each followed by its separator or break.
pub open spec fn list_items_doc_v<'a>(b: Branch<'a>, items: Seq<ItemV<'a>>, family: Family, flat: bool, source: Seq<u8>) -> DocV
    decreases Node::Branch(b), 2int, items.len() + 1,
{
    DocV::Concat(items_fold(b, items, family, flat, source, items.len() as int))
}

pub open spec fn items_fold<'a>(b: Branch<'a>, items: Seq<ItemV<'a>>, family: Family, flat: bool, source: Seq<u8>, k: int) -> Seq<DocV>
    decreases Node::Branch(b), 2int, k,
{
    if k <= 0 || k > items.len() {
        Seq::empty()
    } else {
        let d = item_doc_v(b, items, k - 1, source);
        items_fold(b, items, family, flat, source, k - 1) + seq![d, after_item_v(items, k - 1, d, family, flat)]
    }
}

/// The doc of the `i`th item and the nodes that continue it. After an ignore directive, the item is
/// left as written, with its gaps.
pub open spec fn item_doc_v<'a>(b: Branch<'a>, items: Seq<ItemV<'a>>, i: int, source: Seq<u8>) -> DocV
    decreases Node::Branch(b), 1int, 0int,
{
    if 0 <= i < items.len() {
        let item = items[i];
        let ignored = i > 0 && is_ignore_directive_v(items[i - 1].0);
        let first = if ignored { verbatim_v(text_of(item.0)) } else { child_doc_v(b, item.0, source) };
        DocV::Concat(seq![first] + rest_fold(b, item.3, ignored, source, item.3.len() as int))
    } else {
        DocV::Text(Seq::empty())
    }
}

/// The docs of the nodes that continue an item, each after the break for its gap.
pub open spec fn rest_fold<'a>(b: Branch<'a>, rest: Seq<(Option<Seq<u8>>, Node<'a>)>, ignored: bool, source: Seq<u8>, j: int) -> Seq<DocV>
    decreases Node::Branch(b), 0int, j,
{
    if j <= 0 || j > rest.len() {
        Seq::empty()
    } else {
        let (gap, node) = rest[j - 1];
        let prev = rest_fold(b, rest, ignored, source, j - 1);
        if ignored {
            prev + seq![DocV::Text(match gap { Some(g) => g, None => Seq::empty() }), verbatim_v(text_of(node))]
        } else {
            let g = match gap {
                None => DocV::Text(Seq::empty()),
                Some(g) => if g.contains(10u8) { DocV::HardLine } else { DocV::Text(sb(" ")) },
            };
            prev + seq![g, child_doc_v(b, node, source)]
        }
    }
}

/// The source file: its items one per line, each with its separator, a comment staying on the line
/// of the item before it, blank lines kept, and a line break at the end.
pub open spec fn source_file_doc_v<'a>(b: Branch<'a>, source: Seq<u8>) -> DocV
    decreases Node::Branch(b), 3int, 0int,
{
    let items = items_v(b.children@, false).0;
    if items.len() == 0 {
        DocV::Text(Seq::empty())
    } else {
        DocV::Concat(file_fold(b, items, source, items.len() as int))
    }
}

pub open spec fn file_fold<'a>(b: Branch<'a>, items: Seq<ItemV<'a>>, source: Seq<u8>, k: int) -> Seq<DocV>
    decreases Node::Branch(b), 2int, k,
{
    if k <= 0 || k > items.len() {
        Seq::empty()
    } else {
        let item = items[k - 1];
        let brk = if k < items.len() {
            let next = items[k];
            if is_comment_v(next.0) && !breaks_v(next.1) {
                DocV::Text(sb(" "))
            } else if blank_in_v(next.1) {
                DocV::Concat(seq![DocV::HardLine, DocV::HardLine])
            } else {
                DocV::HardLine
            }
        } else {
            DocV::HardLine
        };
        file_fold(b, items, source, k - 1) + seq![
            item_doc_v(b, items, k - 1, source),
            trailing_separator_v(Family::SemiSep, item.2, is_line_comment_v(item.0)),
            brk,
        ]
    }
}

/// The doc of a whole tree: the source file's items, or the node on its own, in a group that
/// breaks only where it must.
pub open spec fn print_v<'a>(root: Node<'a>, source: Seq<u8>) -> DocV {
    DocV::Group {
        broken: false,
        contents: Box::new(match root {
            Node::Branch(b) => if list_of_v(b) is Some { source_file_doc_v(b, source) } else { node_doc_v(root, source) },
            _ => node_doc_v(root, source),
        }),
    }
}

/// A chain's operand, for a node inside the chain's branch.
pub open spec fn operand_doc_v<'a>(b: Branch<'a>, x: Node<'a>, source: Seq<u8>) -> DocV
    decreases Node::Branch(b), 0int, 0int,
{
    if decreases_to!(Node::Branch(b) => x) {
        node_doc_v(x, source)
    } else {
        DocV::Text(Seq::empty())
    }
}

/// A binary or `??` chain: its first operand, then each operator and operand, breaking only where
/// the source did.
pub open spec fn chain_doc_v<'a>(b: Branch<'a>, c: ChainV<'a>, source: Seq<u8>) -> DocV
    decreases Node::Branch(b), 3int, 0int,
{
    if c.0.len() == 0 {
        DocV::Text(Seq::empty())
    } else {
        chain_shape(c, source, operand_doc_v(b, c.0[0], source), chain_fold(b, c, source, c.1.len() as int))
    }
}

/// Each of the first `k` operators with the break the source had around it, then its operand.
pub open spec fn chain_fold<'a>(b: Branch<'a>, c: ChainV<'a>, source: Seq<u8>, k: int) -> Seq<DocV>
    decreases Node::Branch(b), 2int, k,
{
    if k <= 0 || k > c.1.len() || k >= c.0.len() || k > c.2.len() {
        Seq::empty()
    } else {
        let op = DocV::Text(c.1[k - 1]);
        let space = DocV::Text(sb(" "));
        let around = match c.2[k - 1] {
            Some(Break::Before) => seq![DocV::HardLine, op, space],
            Some(Break::After) => seq![space, op, DocV::HardLine],
            None => seq![space, op, space],
        };
        chain_fold(b, c, source, k - 1) + around + seq![operand_doc_v(b, c.0[k], source)]
    }
}

/// A `switch`: `switch`, the scrutinee and `{`, then its arms and comments, then `}`.
pub open spec fn control_doc_v<'a>(b: Branch<'a>, source: Seq<u8>) -> DocV
    decreases Node::Branch(b), 3int, 0int,
{
    let cs = b.children@;
    let scrutinee = if cs.len() > 2 { child_doc_v(b, cs[2], source) } else { DocV::Text(Seq::empty()) };
    let head = DocV::Concat(seq![DocV::Text(sb("switch")), DocV::Text(sb(" ")), scrutinee, DocV::Text(sb(" ")), DocV::Text(sb("{"))]);
    switch_shape(b, head, DocV::Concat(run_fold(b, source, cs.len() - 1).0))
}

/// The docs of the arms and comments among `children[5..k]`, and the gap waiting before the next.
pub open spec fn run_fold<'a>(b: Branch<'a>, source: Seq<u8>, k: int) -> (Seq<DocV>, Option<Seq<u8>>)
    decreases Node::Branch(b), 2int, k,
{
    let cs = b.children@;
    if k <= 5 || k > cs.len() {
        (Seq::empty(), None)
    } else {
        let (run, gap) = run_fold(b, source, k - 1);
        let c = cs[k - 1];
        if c is Text {
            (run, Some(text_of(c)))
        } else if is_token_v(c, ";") {
            (run.push(DocV::Text(sb(";"))), None)
        } else {
            let item = if is_comment_v(c) {
                child_doc_v(b, c, source)
            } else {
                match c {
                    Node::Branch(arm) => {
                        proof {
                            lemma_child_smaller(b, c);
                        }
                        arm_doc_v(arm, source)
                    },
                    _ => DocV::Text(Seq::empty()),
                }
            };
            let sep = if run.len() > 0 { run.push(separator_v(gap)) } else { run };
            (sep.push(item), None)
        }
    }
}

/// An arm: `case`, its pattern, and its body on the same line or, where the source broke before
/// it, indented on the next.
pub open spec fn arm_doc_v<'a>(arm: Branch<'a>, source: Seq<u8>) -> DocV
    decreases Node::Branch(arm), 3int, 0int,
{
    let cs = arm.children@;
    if cs.len() == 5 {
        arm_shape(arm, child_doc_v(arm, cs[2], source), child_doc_v(arm, cs[4], source))
    } else {
        DocV::Text(Seq::empty())
    }
}

/// A list keeps the author's choice: the group around a list with items is told to break
/// exactly when the author broke the list somewhere.
pub proof fn law_a_list_breaks_as_written<'a>(b: Branch<'a>, source: Seq<u8>)
    requires
        list_of_v(b) is Some,
        !is_comment_v(Node::Branch(b)),
        items_v(b.children@, true).0.len() > 0,
    ensures
        node_doc_v(Node::Branch(b), source) matches DocV::Group { broken, .. } && broken == !flat_v(b),
{
}

/// In a list written on one line, each item is followed by a space, with the separator before it
/// where the item had one: the items stay on one line.
pub proof fn law_a_flat_list_joins_items_on_one_line<'a>(b: Branch<'a>, list: List, i: int, printed: DocV)
    requires
        list_of_v(b) == Some(list),
        flat_v(b),
        0 <= i < items_v(b.children@, true).0.len() - 1,
    ensures
        ({
            let after = after_item_v(items_v(b.children@, true).0, i, printed, list.family, true);
            after == DocV::Text(sb(" ")) || after == DocV::Concat(seq![separator_char_v(list.family), DocV::Text(sb(" "))])
        }),
{
}

/// A line break: a forced one, one that breaks with its broken group, or a blank line.
pub open spec fn line_break_v(d: DocV) -> bool {
    d == DocV::HardLine || d == DocV::Line || d == DocV::Concat(seq![DocV::HardLine, DocV::HardLine])
}

/// In a list the author broke, each item is followed by a line break, after its separator if it
/// has one; the exceptions are a comment the author put on the same line as the item before it,
/// and a block comment that stays on the line of the item it annotates.
pub proof fn law_a_broken_list_puts_items_on_lines<'a>(b: Branch<'a>, list: List, i: int, printed: DocV)
    requires
        list_of_v(b) == Some(list),
        !flat_v(b),
        0 <= i < items_v(b.children@, true).0.len() - 1,
        ({
            let items = items_v(b.children@, true).0;
            &&& !(is_comment_v(items[i + 1].0) && !breaks_v(items[i + 1].1))
            &&& !(!items[i].2 && is_comment_v(items[i].0) && !is_line_comment_v(items[i].0))
        }),
    ensures
        exists|x: DocV| #![trigger line_break_v(x)] line_break_v(x) && {
            let after = after_item_v(items_v(b.children@, true).0, i, printed, list.family, false);
            ||| after == x
            ||| after == DocV::Concat(seq![separator_char_v(list.family), x])
            ||| after == DocV::Concat(seq![DocV::HardLine, separator_char_v(list.family), x])
        },
{
    let items = items_v(b.children@, true).0;
    let x = separator_line_v(printed, items[i + 1].1, is_comment_v(items[i + 1].0));
    assert(line_break_v(x));
}

/// A source file with items ends with a line break.
pub proof fn law_a_file_ends_with_a_line_break<'a>(b: Branch<'a>, source: Seq<u8>)
    requires
        items_v(b.children@, false).0.len() > 0,
    ensures
        source_file_doc_v(b, source) matches DocV::Concat(ps) && ps.len() > 0 && ps.last() == DocV::HardLine,
{
    let items = items_v(b.children@, false).0;
    let n = items.len() as int;
    assert(file_fold(b, items, source, n) == file_fold(b, items, source, n - 1) + seq![
        item_doc_v(b, items, n - 1, source),
        trailing_separator_v(Family::SemiSep, items[n - 1].2, is_line_comment_v(items[n - 1].0)),
        DocV::HardLine,
    ]);
}

proof fn lemma_rest_kept<'a>(b: Branch<'a>, rest: Seq<(Option<Seq<u8>>, Node<'a>)>, source: Seq<u8>, j: int)
    requires
        0 <= j <= rest.len(),
    ensures
        rest_fold(b, rest, true, source, j).len() == 2 * j,
        forall|k: int| 0 <= k < j ==> {
            &&& #[trigger] rest_fold(b, rest, true, source, j)[2 * k] == DocV::Text(match rest[k].0 { Some(g) => g, None => Seq::empty() })
            &&& rest_fold(b, rest, true, source, j)[2 * k + 1] == verbatim_v(text_of(rest[k].1))
        },
    decreases j,
{
    if j > 0 {
        lemma_rest_kept(b, rest, source, j - 1);
        let prev = rest_fold(b, rest, true, source, j - 1);
        let now = rest_fold(b, rest, true, source, j);
        assert forall|k: int| 0 <= k < j implies {
            &&& #[trigger] now[2 * k] == DocV::Text(match rest[k].0 { Some(g) => g, None => Seq::empty() })
            &&& now[2 * k + 1] == verbatim_v(text_of(rest[k].1))
        } by {
            if k < j - 1 {
                assert(now[2 * k] == prev[2 * k]);
                assert(now[2 * k + 1] == prev[2 * k + 1]);
            }
        }
    }
}

/// An item after a `mo-fmt-ignore` (or `prettier-ignore`) comment is left as written: its first
/// node and each node continuing it as their source text, each gap between them as it was.
pub proof fn law_an_ignored_item_is_left_as_written<'a>(b: Branch<'a>, items: Seq<ItemV<'a>>, i: int, source: Seq<u8>)
    requires
        0 < i < items.len(),
        is_ignore_directive_v(items[i - 1].0),
    ensures
        item_doc_v(b, items, i, source) matches DocV::Concat(ps) && {
            let rest = items[i].3;
            &&& ps.len() == 1 + 2 * rest.len()
            &&& ps[0] == verbatim_v(text_of(items[i].0))
            &&& forall|k: int| 0 <= k < rest.len() ==> {
                &&& #[trigger] ps[1 + 2 * k] == DocV::Text(match rest[k].0 { Some(g) => g, None => Seq::empty() })
                &&& ps[2 + 2 * k] == verbatim_v(text_of(rest[k].1))
            }
        },
{
    let rest = items[i].3;
    lemma_rest_kept(b, rest, source, rest.len() as int);
    let rf = rest_fold(b, rest, true, source, rest.len() as int);
    let ps = seq![verbatim_v(text_of(items[i].0))] + rf;
    assert forall|k: int| 0 <= k < rest.len() implies {
        &&& #[trigger] ps[1 + 2 * k] == DocV::Text(match rest[k].0 { Some(g) => g, None => Seq::empty() })
        &&& ps[2 + 2 * k] == verbatim_v(text_of(rest[k].1))
    } by {
        assert(ps[1 + 2 * k] == rf[2 * k]);
        assert(ps[2 + 2 * k] == rf[2 * k + 1]);
    }
}

} // verus!
