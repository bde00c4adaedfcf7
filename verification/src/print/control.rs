//! `switch`: its arms one per line if the author broke it, otherwise on one line.

use vstd::prelude::*;
use crate::bytes::{sb, str_eq};
use crate::doc::{concat, concat2, concat4, empty, indent, lemma_view_docs_push, text, view_docs, Doc, DocV, HardLine};
use crate::tree::{is_break_v, lemma_child_of, lemma_child_smaller, text_of, wf_node, Branch, Node};
use super::parts::{clean, gap_v, is_comment, is_comment_v, lemma_literals, newlines, newlines_v};
use crate::doc::free_of;
use super::{layout, node_doc, Ctx};

verus! {

/// Whether a node is the token `t`.
pub open spec fn is_token_v(n: Node, t: &str) -> bool {
    n is Token && text_of(n) == sb(t)
}

/// An arm the printer lays out: `case`, a gap, a pattern, a gap, a body.
pub open spec fn arm_ok_v(arm: Branch) -> bool {
    let cs = arm.children@;
    &&& cs.len() == 5
    &&& is_token_v(cs[0], "case")
    &&& cs[1] is Text
    &&& cs[2] is Branch
    &&& cs[3] is Text
    &&& cs[4] is Branch
}

/// Whether the body of a `switch` can be laid out, and whether it has an item yet: arms and
/// comments, each arm followed by at most one `;`.
pub open spec fn run_ok_v(cs: Seq<Node>) -> (bool, bool)
    decreases cs.len(),
{
    if cs.len() == 0 {
        (true, false)
    } else {
        let (ok, any) = run_ok_v(cs.drop_last());
        let c = cs.last();
        if !ok {
            (false, any)
        } else if c is Text {
            (true, any)
        } else if is_token_v(c, ";") {
            if any { (true, true) } else { (false, false) }
        } else if is_comment_v(c) {
            (true, true)
        } else if c matches Node::Branch(arm) && arm_ok_v(arm) {
            (true, true)
        } else {
            (false, any)
        }
    }
}

proof fn lemma_run_fails(s: Seq<Node>, t: Seq<Node>)
    requires
        !run_ok_v(s).0,
    ensures
        !run_ok_v(s + t).0,
    decreases t.len(),
{
    if t.len() > 0 {
        lemma_run_fails(s, t.drop_last());
        assert((s + t).drop_last() =~= s + t.drop_last());
    }
}

/// A `switch` the printer lays out: `switch`, a gap, a branch, a gap, `{`, arms, `}`.
pub open spec fn control_ok_v(node: Branch) -> bool {
    let cs = node.children@;
    &&& node.kind@ == "switch_exp"@
    &&& cs.len() >= 9
    &&& is_token_v(cs[0], "switch")
    &&& cs[1] is Text
    &&& cs[2] is Branch
    &&& cs[3] is Text
    &&& is_token_v(cs[4], "{")
    &&& is_token_v(cs.last(), "}")
    &&& run_ok_v(cs.subrange(5, cs.len() - 1)) == (true, true)
}

/// A line break before a node that is a gap holding a blank line.
pub open spec fn blank_v(c: Node) -> DocV {
    if c is Text && newlines_v(text_of(c)) >= 2 { DocV::HardLine } else { DocV::Text(Seq::empty()) }
}

fn blank(c: &Node<'_>) -> (r: Doc)
    ensures
        r@ == blank_v(*c),
        free_of(r@, 13u8),
{
    match c {
        Node::Text(g) => if newlines(g.text) >= 2 { HardLine } else { empty() },
        _ => empty(),
    }
}

/// Whether any child is a gap holding a line break.
pub open spec fn broken_v(b: Branch) -> bool {
    !super::flat_v(b)
}

/// The layout of a `switch` around its head and its run of arms: one arm per line, indented, if
/// the source broke it anywhere, and all on one line otherwise.
pub open spec fn switch_shape(node: Branch, head: DocV, run: DocV) -> DocV {
    if broken_v(node) {
        DocV::Concat(seq![
            head,
            DocV::Indent(Box::new(DocV::Concat(seq![DocV::HardLine, blank_v(node.children@[5]), run]))),
            blank_v(node.children@[node.children@.len() - 2]),
            DocV::HardLine,
            DocV::Text(sb("}")),
        ])
    } else {
        DocV::Concat(seq![head, DocV::Text(sb(" ")), run, DocV::Text(sb(" ")), DocV::Text(sb("}"))])
    }
}

/// A `switch`, or `None` for one whose shape the printer does not lay out.
pub fn control_doc<'a>(node: &Branch<'a>, ctx: &Ctx<'a>) -> (r: Option<Doc>)
    requires
        wf_node(Node::Branch(*node), ctx.source()),
    ensures
        r is Some <==> control_ok_v(*node),
        r matches Some(d) ==> (clean(ctx.source()) ==> free_of(d@, 13u8)),
        r matches Some(d) ==> d@ == super::layout::control_doc_v(*node, ctx.source()),
    decreases Node::Branch(*node), 3int,
{
    if !str_eq(node.kind, "switch_exp") {
        return None;
    }
    let children = &node.children;
    let n = children.len();
    if n < 9 {
        return None;
    }
    let keyword = &children[0];
    let gap1 = &children[1];
    let scrutinee = &children[2];
    let gap2 = &children[3];
    let open = &children[4];
    let close = &children[n - 1];
    if !keyword.is_token("switch") || !open.is_token("{") || !close.is_token("}") {
        return None;
    }
    if !gap1.is_text() || !gap2.is_text() || scrutinee.as_branch().is_none() {
        return None;
    }
    let ghost cs = children@;
    let mut run: Vec<Doc> = Vec::new();
    let mut gap: Option<&[u8]> = None;
    let mut k: usize = 5;
    assert(view_docs(run@) =~= Seq::<DocV>::empty());
    assert(cs.subrange(5, 5) =~= Seq::<Node>::empty());
    while k < n - 1
        invariant
            5 <= k <= n - 1,
            n == cs.len(),
            cs == node.children@,
            wf_node(Node::Branch(*node), ctx.source()),
            run_ok_v(cs.subrange(5, k as int)) == (true, run@.len() > 0),
            (view_docs(run@), gap_v(gap)) == layout::run_fold(*node, ctx.source(), k as int),
            clean(ctx.source()) ==> forall|q: int| 0 <= q < run@.len() ==> free_of(#[trigger] run@[q]@, 13u8),
        decreases n - 1 - k,
    {
        proof {
            lemma_literals();
        }
        let child = &node.children[k];
        assert(cs.subrange(5, k + 1).drop_last() =~= cs.subrange(5, k as int));
        assert(cs.subrange(5, k + 1).last() == cs[k as int]);
        assert(node.children@.contains(*child));
        proof {
            lemma_child_of(*node, *child, ctx.source());
        }
        let ghost prev = layout::run_fold(*node, ctx.source(), k as int);
        if let Node::Text(g) = child {
            gap = Some(g.text);
            assert(layout::run_fold(*node, ctx.source(), k + 1) == (prev.0, Some(g.text@)));
            k = k + 1;
            continue;
        }
        if child.is_token(";") {
            if run.len() == 0 {
                proof {
                    lemma_run_fails(cs.subrange(5, k + 1), cs.subrange(k + 1, n - 1));
                    assert(cs.subrange(5, k + 1) + cs.subrange(k + 1, n - 1) =~= cs.subrange(5, n - 1));
                }
                return None;
            }
            let semi = text(";");
            proof {
                lemma_view_docs_push(run@, semi);
            }
            run.push(semi);
            gap = None;
            assert(layout::run_fold(*node, ctx.source(), k + 1) == (prev.0.push(DocV::Text(sb(";"))), None::<Seq<u8>>));
            k = k + 1;
            continue;
        }
        let item = if is_comment(child) {
            node_doc(child, ctx)
        } else {
            let arm = match child.as_branch() {
                Some(a) => a,
                None => {
                    proof {
                        lemma_run_fails(cs.subrange(5, k + 1), cs.subrange(k + 1, n - 1));
                        assert(cs.subrange(5, k + 1) + cs.subrange(k + 1, n - 1) =~= cs.subrange(5, n - 1));
                    }
                    return None;
                },
            };
            match arm_doc(arm, ctx) {
                Some(d) => d,
                None => {
                    proof {
                        lemma_run_fails(cs.subrange(5, k + 1), cs.subrange(k + 1, n - 1));
                        assert(cs.subrange(5, k + 1) + cs.subrange(k + 1, n - 1) =~= cs.subrange(5, n - 1));
                    }
                    return None;
                },
            }
        };
        if run.len() > 0 {
            let sep = separator(gap);
            proof {
                lemma_view_docs_push(run@, sep);
            }
            run.push(sep);
        }
        proof {
            lemma_view_docs_push(run@, item);
            if !is_comment_v(*child) {
                lemma_child_smaller(*node, *child);
            }
        }
        run.push(item);
        gap = None;
        proof {
            let c = cs[k as int];
            let it = if is_comment_v(c) {
                layout::child_doc_v(*node, c, ctx.source())
            } else {
                match c {
                    Node::Branch(arm) => layout::arm_doc_v(arm, ctx.source()),
                    _ => DocV::Text(Seq::empty()),
                }
            };
            assert(item@ == it);
            let sep = if prev.0.len() > 0 { prev.0.push(separator_v(prev.1)) } else { prev.0 };
            assert(layout::run_fold(*node, ctx.source(), k + 1) == (sep.push(it), None::<Seq<u8>>));
        }
        k = k + 1;
    }
    if run.len() == 0 {
        return None;
    }
    proof {
        lemma_child_of(*node, cs[2], ctx.source());
    }
    let broken = !super::is_flat(node);
    proof {
        lemma_literals();
    }
    assert(node.children@.contains(cs[2]));
    let head = crate::doc::concat5(text("switch"), text(" "), node_doc(scrutinee, ctx), text(" "), text("{"));
    let ghost hv = head@;
    let run_doc = concat(run);
    let ghost rv = run_doc@;
    let d = if broken {
        let first_blank = blank(&node.children[5]);
        let last_blank = blank(&node.children[n - 2]);
        let inner = crate::doc::concat3(HardLine, first_blank, run_doc);
        assert(clean(ctx.source()) ==> free_of(inner@, 13u8));
        crate::doc::concat5(head, indent(inner), last_blank, HardLine, text("}"))
    } else {
        crate::doc::concat5(head, text(" "), run_doc, text(" "), text("}"))
    };
    assert(switch_shape(*node, hv, rv) == d@);
    Some(d)
}

/// The break between two items of a `switch`: the blank line or line break the source had, or a space.
pub open spec fn separator_v(gap: Option<Seq<u8>>) -> DocV {
    match gap {
        Some(g) => if newlines_v(g) >= 2 {
            DocV::Concat(seq![DocV::HardLine, DocV::HardLine])
        } else if g.contains(10u8) {
            DocV::HardLine
        } else {
            DocV::Text(sb(" "))
        },
        None => DocV::Text(sb(" ")),
    }
}

fn separator(gap: Option<&[u8]>) -> (r: Doc)
    ensures
        r@ == separator_v(super::parts::gap_v(gap)),
        free_of(r@, 13u8),
{
    proof {
        lemma_literals();
    }
    match gap {
        Some(g) => if newlines(g) >= 2 {
            concat2(HardLine, HardLine)
        } else if crate::bytes::has_byte(g, 10u8) {
            HardLine
        } else {
            text(" ")
        },
        None => text(" "),
    }
}

/// The layout of an arm around its pattern and body.
pub open spec fn arm_shape(arm: Branch, pattern: DocV, body: DocV) -> DocV {
    DocV::Concat(seq![
        DocV::Text(sb("case")),
        DocV::Text(sb(" ")),
        pattern,
        if is_break_v(arm.children@[3]) {
            DocV::Indent(Box::new(DocV::Concat(seq![DocV::HardLine, body])))
        } else {
            DocV::Concat(seq![DocV::Text(sb(" ")), body])
        },
    ])
}

/// An arm: `case`, its pattern, and its body on the same line or, where the source broke before
/// it, indented on the next.
fn arm_doc<'a>(arm: &Branch<'a>, ctx: &Ctx<'a>) -> (r: Option<Doc>)
    requires
        wf_node(Node::Branch(*arm), ctx.source()),
    ensures
        r is Some <==> arm_ok_v(*arm),
        r matches Some(d) ==> exists|pattern: DocV, body: DocV| #[trigger] arm_shape(*arm, pattern, body) == d@,
        r matches Some(d) ==> (clean(ctx.source()) ==> free_of(d@, 13u8)),
        r matches Some(d) ==> d@ == super::layout::arm_doc_v(*arm, ctx.source()),
    decreases Node::Branch(*arm), 3int,
{
    if arm.children.len() != 5 {
        return None;
    }
    let keyword = &arm.children[0];
    let gap1 = &arm.children[1];
    let pattern = &arm.children[2];
    let gap2 = &arm.children[3];
    let body = &arm.children[4];
    if !keyword.is_token("case") || !gap1.is_text() || pattern.as_branch().is_none() || body.as_branch().is_none() {
        return None;
    }
    if !gap2.is_text() {
        return None;
    }
    assert(arm.children@.contains(*body));
    assert(arm.children@.contains(*pattern));
    proof {
        lemma_child_of(*arm, *body, ctx.source());
        lemma_child_of(*arm, *pattern, ctx.source());
    }
    proof {
        lemma_literals();
    }
    let body_doc = node_doc(body, ctx);
    let ghost bv = body_doc@;
    let rest = if gap2.is_break() {
        let inner = concat2(HardLine, body_doc);
        assert(clean(ctx.source()) ==> free_of(inner@, 13u8));
        indent(inner)
    } else {
        concat2(text(" "), body_doc)
    };
    let pattern_doc = node_doc(pattern, ctx);
    let ghost pv = pattern_doc@;
    let d = concat4(text("case"), text(" "), pattern_doc, rest);
    assert(arm_shape(*arm, pv, bv) == d@);
    Some(d)
}

} // verus!
