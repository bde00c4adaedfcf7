//! Binary and `??` chains: they break only where the source did.

use vstd::prelude::*;
use crate::bytes::{bytes_eq, sb, str_eq, trim, trim_v};
use crate::doc::{concat, concat2, indent, text, Doc, DocV};
use crate::tree::{column_of, is_break_v, start_of, text_of, wf_node, Branch, Node};
use super::{node_doc, Ctx};

verus! {

/// Operators whose characters must never be split or spaced apart.
pub open spec fn indivisible_v(op: Seq<u8>) -> bool {
    ||| op == sb(":=") || op == sb("+=") || op == sb("-=") || op == sb("*=") || op == sb("/=")
    ||| op == sb("%=") || op == sb("#=") || op == sb("**=") || op == sb("+%=") || op == sb("-%=")
    ||| op == sb("|=") || op == sb("&=") || op == sb("^=") || op == sb("<<=") || op == sb(">>=")
    ||| op == sb("<<>=") || op == sb("<>>=") || op == sb("|>") || op == sb("**") || op == sb("+%")
    ||| op == sb("-%") || op == sb("*%") || op == sb("->") || op == sb("await*") || op == sb("async*")
    ||| op == sb("await?") || op == sb("<<") || op == sb(">>") || op == sb("<<>") || op == sb("<>>")
}

fn is_indivisible(op: &[u8]) -> (r: bool)
    ensures
        r == indivisible_v(op@),
{
    let ops: [&str; 30] = [
        ":=", "+=", "-=", "*=", "/=", "%=", "#=", "**=", "+%=", "-%=", "|=", "&=", "^=", "<<=", ">>=",
        "<<>=", "<>>=", "|>", "**", "+%", "-%", "*%", "->", "await*", "async*", "await?", "<<", ">>",
        "<<>", "<>>",
    ];
    let mut i: usize = 0;
    while i < 30
        invariant
            i <= 30,
            ops@ == seq![":=", "+=", "-=", "*=", "/=", "%=", "#=", "**=", "+%=", "-%=", "|=", "&=", "^=", "<<=", ">>=",
                "<<>=", "<>>=", "|>", "**", "+%", "-%", "*%", "->", "await*", "async*", "await?", "<<", ">>",
                "<<>", "<>>"],
            forall|j: int| 0 <= j < i ==> op@ != sb(#[trigger] ops@[j]),
        decreases 30 - i,
    {
        if bytes_eq(op, ops[i].as_bytes()) {
            return true;
        }
        i = i + 1;
    }
    proof {
        assert(op@ != sb(ops@[0]));
        assert(op@ != sb(ops@[1]));
        assert(op@ != sb(ops@[2]));
        assert(op@ != sb(ops@[3]));
        assert(op@ != sb(ops@[4]));
        assert(op@ != sb(ops@[5]));
        assert(op@ != sb(ops@[6]));
        assert(op@ != sb(ops@[7]));
        assert(op@ != sb(ops@[8]));
        assert(op@ != sb(ops@[9]));
        assert(op@ != sb(ops@[10]));
        assert(op@ != sb(ops@[11]));
        assert(op@ != sb(ops@[12]));
        assert(op@ != sb(ops@[13]));
        assert(op@ != sb(ops@[14]));
        assert(op@ != sb(ops@[15]));
        assert(op@ != sb(ops@[16]));
        assert(op@ != sb(ops@[17]));
        assert(op@ != sb(ops@[18]));
        assert(op@ != sb(ops@[19]));
        assert(op@ != sb(ops@[20]));
        assert(op@ != sb(ops@[21]));
        assert(op@ != sb(ops@[22]));
        assert(op@ != sb(ops@[23]));
        assert(op@ != sb(ops@[24]));
        assert(op@ != sb(ops@[25]));
        assert(op@ != sb(ops@[26]));
        assert(op@ != sb(ops@[27]));
        assert(op@ != sb(ops@[28]));
        assert(op@ != sb(ops@[29]));
    }
    false
}

/// Whether a chain may break beside the operator. Spaced `#` is concatenation and glued `#` a
/// variant tag, so a break beside it changes its role.
pub open spec fn chainable_v(op: Seq<u8>) -> bool {
    op == sb("|>") || (op != sb("#") && !indivisible_v(op))
}

fn chainable_bytes(op: &[u8]) -> (r: bool)
    ensures
        r == chainable_v(op@),
{
    bytes_eq(op, "|>".as_bytes()) || (!bytes_eq(op, "#".as_bytes()) && !is_indivisible(op))
}

pub fn chainable(op: &str) -> (r: bool)
    ensures
        r == chainable_v(sb(op)),
{
    chainable_bytes(op.as_bytes())
}

/// In a control head moc reads `a -1` (spaced before, glued after) as a prefix starting the
/// branch; the grammar reads a subtraction.
pub open spec fn prefix_op_v(op: Seq<u8>) -> bool {
    op == sb("-") || op == sb("+") || op == sb("^")
}

/// The operator of a `bin_op` or `rel_op` branch, trimmed.
pub open spec fn op_text_v(n: Node) -> Option<Seq<u8>> {
    match n {
        Node::Branch(b) => if (b.kind@ == "bin_op"@ || b.kind@ == "rel_op"@) && b.children@.len() == 1
            && b.children@[0] is Token {
            Some(trim_v(text_of(b.children@[0])))
        } else {
            None
        },
        _ => None,
    }
}

fn op_text<'a>(n: &Node<'a>) -> (r: Option<&'a [u8]>)
    ensures
        r matches Some(t) ==> op_text_v(*n) == Some(t@),
        r is None ==> op_text_v(*n) is None,
{
    let b = match n.as_branch() {
        Some(b) => b,
        None => return None,
    };
    if !(str_eq(b.kind, "bin_op") || str_eq(b.kind, "rel_op")) || b.children.len() != 1 {
        return None;
    }
    match b.children[0].token_text() {
        Some(t) => Some(trim(t)),
        None => None,
    }
}

/// The positions of the children other than gaps.
pub open spec fn positions(cs: Seq<Node>) -> Seq<int>
    decreases cs.len(),
{
    if cs.len() == 0 {
        Seq::empty()
    } else if cs.last() is Text {
        positions(cs.drop_last())
    } else {
        positions(cs.drop_last()).push(cs.len() - 1)
    }
}

proof fn lemma_positions(cs: Seq<Node>)
    ensures
        forall|k: int| 0 <= k < positions(cs).len() ==> 0 <= #[trigger] positions(cs)[k] < cs.len() && !(cs[positions(cs)[k]] is Text),
        forall|k: int, j: int| 0 <= k < j < positions(cs).len() ==> #[trigger] positions(cs)[k] < #[trigger] positions(cs)[j],
    decreases cs.len(),
{
    if cs.len() > 0 {
        lemma_positions(cs.drop_last());
    }
}

/// The three non-gap children of a level of a chain, with at most a gap between each two.
pub open spec fn three_parts_v(level: Branch) -> Option<(int, int, int)> {
    let ps = positions(level.children@);
    if 3 <= level.children@.len() <= 5 && ps.len() == 3 {
        Some((ps[0], ps[1], ps[2]))
    } else {
        None
    }
}

fn three_parts(level: &Branch<'_>) -> (r: Option<(usize, usize, usize)>)
    ensures
        match (r, three_parts_v(*level)) {
            (Some(p), Some(q)) => p.0 == q.0 && p.1 == q.1 && p.2 == q.2,
            (None, None) => true,
            _ => false,
        },
        r matches Some(p) ==> p.0 < p.1 < p.2 < level.children@.len(),
{
    let n = level.children.len();
    if !(3 <= n && n <= 5) {
        return None;
    }
    let mut ps: Vec<usize> = Vec::new();
    let mut i: usize = 0;
    while i < n
        invariant
            n == level.children@.len(),
            i <= n,
            ps@.map_values(|p: usize| p as int) == positions(level.children@.take(i as int)),
        decreases n - i,
    {
        assert(level.children@.take(i + 1).drop_last() =~= level.children@.take(i as int));
        if !level.children[i].is_text() {
            ps.push(i);
            assert(ps@.map_values(|p: usize| p as int) =~= positions(level.children@.take(i as int)).push(i as int));
        }
        i = i + 1;
    }
    assert(level.children@.take(n as int) =~= level.children@);
    proof {
        lemma_positions(level.children@);
    }
    if ps.len() != 3 {
        return None;
    }
    assert(ps@.map_values(|p: usize| p as int)[0] == ps@[0] as int);
    assert(ps@.map_values(|p: usize| p as int)[1] == ps@[1] as int);
    assert(ps@.map_values(|p: usize| p as int)[2] == ps@[2] as int);
    Some((ps[0], ps[1], ps[2]))
}

/// Where the source broke the line around an operator.
#[derive(Debug, Clone, Copy, PartialEq, Eq, Structural)]
pub enum Break {
    Before,
    After,
}

/// A break before the operator, or else after it, where the source had one.
pub open spec fn source_break_v(level: Branch, op: int) -> Option<Break> {
    if op >= 1 && is_break_v(level.children@[op - 1]) {
        Some(Break::Before)
    } else if op + 1 < level.children@.len() && is_break_v(level.children@[op + 1]) {
        Some(Break::After)
    } else {
        None
    }
}

fn source_break(level: &Branch<'_>, op: usize) -> (r: Option<Break>)
    requires
        op < level.children@.len(),
    ensures
        r == source_break_v(*level, op as int),
{
    if op >= 1 && level.children[op - 1].is_break() {
        return Some(Break::Before);
    }
    if level.children.len() - op > 1 && level.children[op + 1].is_break() {
        Some(Break::After)
    } else {
        None
    }
}

/// Spaced before and glued after.
pub open spec fn prefix_shaped_v(level: Branch, op: int) -> bool {
    op > 0 && level.children@[op - 1] is Text && !(op + 1 < level.children@.len() && level.children@[op + 1] is Text)
}

fn prefix_shaped(level: &Branch<'_>, op: usize) -> (r: bool)
    requires
        op < level.children@.len(),
    ensures
        r == prefix_shaped_v(*level, op as int),
{
    op > 0 && level.children[op - 1].is_text() && !(level.children.len() - op > 1 && level.children[op + 1].is_text())
}

/// The column the source's broken line started at: that of the operator after a break before
/// it, that of the right operand after a break after it.
pub open spec fn line_start_v(source: Seq<u8>, brk: Option<Break>, op: Node, right: Node) -> Option<nat> {
    match brk {
        None => None,
        Some(Break::Before) => Some(column_of(source, start_of(op))),
        Some(Break::After) => Some(column_of(source, start_of(right))),
    }
}

fn line_start(ctx: &Ctx<'_>, brk: Option<Break>, op: &Node<'_>, right: &Node<'_>) -> (r: Option<usize>)
    requires
        start_of(*op) <= ctx.source().len(),
        start_of(*right) <= ctx.source().len(),
    ensures
        match (r, line_start_v(ctx.source(), brk, *op, *right)) {
            (Some(c), Some(d)) => c == d,
            (None, None) => true,
            _ => false,
        },
{
    match brk {
        None => None,
        Some(Break::Before) => Some(ctx.lines.pos(op.start()).1),
        Some(Break::After) => Some(ctx.lines.pos(right.start()).1),
    }
}

/// A planned chain: its operands, the operators between them, where the source broke around each
/// operator, and the column each broken line started at.
pub struct Chain<'n, 'a> {
    pub operands: Vec<&'n Node<'a>>,
    pub ops: Vec<&'a [u8]>,
    pub breaks: Vec<Option<Break>>,
    pub columns: Vec<Option<usize>>,
}

pub type ChainV<'a> = (Seq<Node<'a>>, Seq<Seq<u8>>, Seq<Option<Break>>, Seq<Option<nat>>);

pub open spec fn chain_v<'n, 'a>(c: Chain<'n, 'a>) -> ChainV<'a> {
    (
        c.operands@.map_values(|n: &'n Node<'a>| *n),
        c.ops@.map_values(|o: &'a [u8]| o@),
        c.breaks@,
        c.columns@.map_values(|x: Option<usize>| match x {
            Some(v) => Some(v as nat),
            None => None::<nat>,
        }),
    )
}

pub open spec fn append_chain<'a>(c: ChainV<'a>, operand: Node<'a>, op: Seq<u8>, brk: Option<Break>, col: Option<nat>) -> ChainV<'a> {
    (c.0.push(operand), c.1.push(op), c.2.push(brk), c.3.push(col))
}

/// A `bin_exp` chain, collected down its left spine: it stops at an operand that is not itself a
/// `bin_exp`, and there is none where an operator can't be broken beside, is prefix-shaped, or has
/// a `bin_exp` on its right.
pub open spec fn spine_v<'a>(level: Branch<'a>, source: Seq<u8>) -> Option<ChainV<'a>>
    decreases level,
{
    match three_parts_v(level) {
        None => None,
        Some((l, o, r)) => if 0 <= l < level.children@.len() && 0 <= o < level.children@.len() && 0 <= r < level.children@.len() {
            let left = level.children@[l];
            let right = level.children@[r];
            match op_text_v(level.children@[o]) {
                None => None,
                Some(op) => if !chainable_v(op) || (prefix_op_v(op) && prefix_shaped_v(level, o)) {
                    None
                } else if right matches Node::Branch(rb) && rb.kind@ == "bin_exp"@ {
                    None
                } else {
                    let brk = source_break_v(level, o);
                    let col = line_start_v(source, brk, level.children@[o], right);
                    match left {
                        Node::Branch(lb) => if lb.kind@ == "bin_exp"@ {
                            match spine_v(lb, source) {
                                Some(c) => Some(append_chain(c, right, op, brk, col)),
                                None => None,
                            }
                        } else {
                            Some((seq![left, right], seq![op], seq![brk], seq![col]))
                        },
                        _ => Some((seq![left, right], seq![op], seq![brk], seq![col])),
                    }
                }
            }
        } else {
            None
        },
    }
}

pub open spec fn plan_chain_v<'a>(node: Branch<'a>, source: Seq<u8>) -> Option<ChainV<'a>> {
    if node.kind@ != "bin_exp"@ {
        None
    } else {
        spine_v(node, source)
    }
}

pub open spec fn col_v(x: Option<usize>) -> Option<nat> {
    match x {
        Some(v) => Some(v as nat),
        None => None,
    }
}

/// A chain, then more of it.
pub open spec fn join_chain<'a>(c: ChainV<'a>, s: ChainV<'a>) -> ChainV<'a> {
    (c.0 + s.0, c.1 + s.1, c.2 + s.2, c.3 + s.3)
}

pub open spec fn join_opt<'a>(c: Option<ChainV<'a>>, s: ChainV<'a>) -> Option<ChainV<'a>> {
    match c {
        Some(c) => Some(join_chain(c, s)),
        None => None,
    }
}

/// What holds of every planned chain: one more operand than operators, and each operand a well
/// formed node strictly inside the chain's branch.
pub open spec fn chain_ok<'n, 'a>(c: Chain<'n, 'a>, node: Branch<'a>, source: Seq<u8>) -> bool {
    &&& c.operands@.len() == c.ops@.len() + 1
    &&& c.ops@.len() == c.breaks@.len()
    &&& c.ops@.len() == c.columns@.len()
    &&& c.ops@.len() >= 1
    &&& forall|k: int| 0 <= k < c.operands@.len() ==> wf_node(*#[trigger] c.operands@[k], source)
        && decreases_to!(Node::Branch(node) => *c.operands@[k])
    &&& forall|k: int| 0 <= k < c.ops@.len() ==> (!source.contains(13u8) ==> !(#[trigger] c.ops@[k])@.contains(13u8))
}

proof fn lemma_child_smaller<'a>(level: Branch<'a>, k: int)
    requires
        0 <= k < level.children@.len(),
    ensures
        decreases_to!(Node::Branch(level) => level.children@[k]),
{
    let n = Node::Branch(level);
    assert(decreases_to!(n => n->Branch_0));
    assert(decreases_to!(level => level.children));
    assert(decreases_to!(level.children => level.children@));
    assert(decreases_to!(level.children@ => level.children@[k]));
}

/// Adding a link to a chain before what follows it.
proof fn lemma_join_append<'a>(c: ChainV<'a>, s: ChainV<'a>, x: Node<'a>, op: Seq<u8>, brk: Option<Break>, col: Option<nat>)
    ensures
        join_chain(append_chain(c, x, op, brk, col), s) == join_chain(c, (seq![x] + s.0, seq![op] + s.1, seq![brk] + s.2, seq![col] + s.3)),
{
    assert(join_chain(append_chain(c, x, op, brk, col), s).0 =~= join_chain(c, (seq![x] + s.0, seq![op] + s.1, seq![brk] + s.2, seq![col] + s.3)).0);
    assert(join_chain(append_chain(c, x, op, brk, col), s).1 =~= join_chain(c, (seq![x] + s.0, seq![op] + s.1, seq![brk] + s.2, seq![col] + s.3)).1);
    assert(join_chain(append_chain(c, x, op, brk, col), s).2 =~= join_chain(c, (seq![x] + s.0, seq![op] + s.1, seq![brk] + s.2, seq![col] + s.3)).2);
    assert(join_chain(append_chain(c, x, op, brk, col), s).3 =~= join_chain(c, (seq![x] + s.0, seq![op] + s.1, seq![brk] + s.2, seq![col] + s.3)).3);
}

/// One level of a `bin_exp` spine that continues the chain.
proof fn lemma_spine_step<'a>(level: Branch<'a>, source: Seq<u8>, l: int, o: int, r: int, op: Seq<u8>)
    requires
        three_parts_v(level) == Some((l, o, r)),
        0 <= l < level.children@.len(),
        0 <= o < level.children@.len(),
        0 <= r < level.children@.len(),
        op_text_v(level.children@[o]) == Some(op),
        chainable_v(op),
        !(prefix_op_v(op) && prefix_shaped_v(level, o)),
        !(level.children@[r] matches Node::Branch(rb) && rb.kind@ == "bin_exp"@),
    ensures
        ({
            let brk = source_break_v(level, o);
            let col = line_start_v(source, brk, level.children@[o], level.children@[r]);
            let base = (seq![level.children@[l], level.children@[r]], seq![op], seq![brk], seq![col]);
            spine_v(level, source) == match level.children@[l] {
                Node::Branch(lb) => if lb.kind@ == "bin_exp"@ {
                    match spine_v(lb, source) {
                        Some(c) => Some(append_chain(c, level.children@[r], op, brk, col)),
                        None => None,
                    }
                } else {
                    Some(base)
                },
                _ => Some(base),
            }
        }),
{
}

/// Plans a `bin_exp` chain.
pub fn plan_chain<'n, 'a>(node: &'n Branch<'a>, ctx: &Ctx<'a>) -> (r: Option<Chain<'n, 'a>>)
    requires
        wf_node(Node::Branch(*node), ctx.source()),
    ensures
        match (r, plan_chain_v(*node, ctx.source())) {
            (Some(c), Some(v)) => chain_v(c) == v,
            (None, None) => true,
            _ => false,
        },
        r matches Some(c) ==> chain_ok(c, *node, ctx.source()),
{
    if !str_eq(node.kind, "bin_exp") {
        return None;
    }
    let ghost src = ctx.source();
    let mut operands: Vec<&'n Node<'a>> = Vec::new();
    let mut ops: Vec<&'a [u8]> = Vec::new();
    let mut breaks: Vec<Option<Break>> = Vec::new();
    let mut columns: Vec<Option<usize>> = Vec::new();
    let mut current: &'n Branch<'a> = node;
    #[verifier::loop_isolation(true)]
    loop
        invariant
            src == ctx.source(),
            wf_node(Node::Branch(*current), src),
            current == node || decreases_to!(Node::Branch(*node) => Node::Branch(*current)),
            plan_chain_v(*node, src) == join_opt(spine_v(*current, src), chain_v(Chain { operands, ops, breaks, columns })),
            operands@.len() == ops@.len(),
            ops@.len() == breaks@.len(),
            ops@.len() == columns@.len(),
            forall|k: int| 0 <= k < operands@.len() ==> wf_node(*#[trigger] operands@[k], src)
                && decreases_to!(Node::Branch(*node) => *operands@[k]),
            forall|k: int| 0 <= k < ops@.len() ==> (!src.contains(13u8) ==> !(#[trigger] ops@[k])@.contains(13u8)),
        decreases *current,
    {
        let ghost before = chain_v(Chain { operands, ops, breaks, columns });
        let (l, o, r) = match three_parts(current) {
            Some(p) => p,
            None => return None,
        };
        let left = &current.children[l];
        let op_node = &current.children[o];
        let right = &current.children[r];
        proof {
            crate::tree::lemma_wf_child(current.children@, src, current.start as int, current.end as int, o as int);
            if let Node::Branch(ob) = op_node {
                if ob.children@.len() == 1 && !src.contains(13u8) {
                    crate::tree::lemma_wf_child(ob.children@, src, ob.start as int, ob.end as int, 0);
                    crate::print::parts::lemma_text_clean(ob.children@[0], src);
                    crate::bytes::lemma_trim_within(text_of(ob.children@[0]), 13u8);
                }
            }
        }
        let op = match op_text(op_node) {
            Some(t) => t,
            None => return None,
        };
        if !chainable_bytes(op) || ((bytes_eq(op, "-".as_bytes()) || bytes_eq(op, "+".as_bytes()) || bytes_eq(op, "^".as_bytes())) && prefix_shaped(current, o)) {
            return None;
        }
        if let Some(rb) = right.as_branch() {
            if str_eq(rb.kind, "bin_exp") {
                return None;
            }
        }
        proof {
            crate::tree::lemma_wf_child(current.children@, src, current.start as int, current.end as int, o as int);
            crate::tree::lemma_wf_child(current.children@, src, current.start as int, current.end as int, r as int);
            crate::tree::lemma_wf_child(current.children@, src, current.start as int, current.end as int, l as int);
            lemma_child_smaller(*current, r as int);
            lemma_child_smaller(*current, l as int);
        }
        let brk = source_break(current, o);
        let col = line_start(ctx, brk, op_node, right);
        operands.insert(0, right);
        ops.insert(0, op);
        breaks.insert(0, brk);
        columns.insert(0, col);
        proof {
            let after = chain_v(Chain { operands, ops, breaks, columns });
            assert(after.0 =~= seq![*right] + before.0);
            assert(after.1 =~= seq![op@] + before.1);
            assert(after.2 =~= seq![brk] + before.2);
            assert(after.3 =~= seq![col_v(col)] + before.3);
            lemma_spine_step(*current, src, l as int, o as int, r as int, op@);
            if let Node::Branch(lb) = left {
                if let Some(c) = spine_v(*lb, src) {
                    lemma_join_append(c, before, *right, op@, brk, col_v(col));
                }
            }
        }
        match left.as_branch() {
            Some(b) => {
                if str_eq(b.kind, "bin_exp") {
                    assert(decreases_to!(Node::Branch(*current) => *b));
                    current = b;
                    continue;
                }
            },
            None => {},
        }
        operands.insert(0, left);
        proof {
            let fin = chain_v(Chain { operands, ops, breaks, columns });
            let after = chain_v(Chain { operands: operands, ops, breaks, columns });
            assert(fin.0 =~= seq![*left, *right] + before.0);
            assert(fin.1 =~= seq![op@] + before.1);
            assert(fin.2 =~= seq![brk] + before.2);
            assert(fin.3 =~= seq![col_v(col)] + before.3);
            assert(join_chain((seq![*left, *right], seq![op@], seq![brk], seq![col_v(col)]), before) == fin);
        }
        return Some(Chain { operands, ops, breaks, columns });
    }
}

pub open spec fn prepend_chain<'a>(c: ChainV<'a>, operand: Node<'a>, op: Seq<u8>, brk: Option<Break>, col: Option<nat>) -> ChainV<'a> {
    (seq![operand] + c.0, seq![op] + c.1, seq![brk] + c.2, seq![col] + c.3)
}

/// A `??` chain, collected down its right spine, which is how the grammar nests it.
pub open spec fn coalesce_spine_v<'a>(level: Branch<'a>, source: Seq<u8>) -> Option<ChainV<'a>>
    decreases level,
{
    match three_parts_v(level) {
        None => None,
        Some((l, o, r)) => if 0 <= l < level.children@.len() && 0 <= o < level.children@.len() && 0 <= r < level.children@.len() {
            let left = level.children@[l];
            let op_node = level.children@[o];
            let right = level.children@[r];
            if !(op_node is Token && trim_v(text_of(op_node)) == sb("??")) {
                None
            } else {
                let brk = source_break_v(level, o);
                let col = line_start_v(source, brk, op_node, right);
                match right {
                    Node::Branch(rb) => if rb.kind@ == "coalesce_exp"@ {
                        match coalesce_spine_v(rb, source) {
                            Some(c) => Some(prepend_chain(c, left, sb("??"), brk, col)),
                            None => None,
                        }
                    } else {
                        Some((seq![left, right], seq![sb("??")], seq![brk], seq![col]))
                    },
                    _ => Some((seq![left, right], seq![sb("??")], seq![brk], seq![col])),
                }
            }
        } else {
            None
        },
    }
}

pub open spec fn plan_coalesce_v<'a>(node: Branch<'a>, source: Seq<u8>) -> Option<ChainV<'a>> {
    if node.kind@ != "coalesce_exp"@ {
        None
    } else {
        coalesce_spine_v(node, source)
    }
}

pub open spec fn after_opt<'a>(s: ChainV<'a>, c: Option<ChainV<'a>>) -> Option<ChainV<'a>> {
    match c {
        Some(c) => Some(join_chain(s, c)),
        None => None,
    }
}

proof fn lemma_coalesce_step<'a>(level: Branch<'a>, source: Seq<u8>, l: int, o: int, r: int)
    requires
        three_parts_v(level) == Some((l, o, r)),
        0 <= l < level.children@.len(),
        0 <= o < level.children@.len(),
        0 <= r < level.children@.len(),
        level.children@[o] is Token,
        trim_v(text_of(level.children@[o])) == sb("??"),
    ensures
        ({
            let brk = source_break_v(level, o);
            let col = line_start_v(source, brk, level.children@[o], level.children@[r]);
            let base = (seq![level.children@[l], level.children@[r]], seq![sb("??")], seq![brk], seq![col]);
            coalesce_spine_v(level, source) == match level.children@[r] {
                Node::Branch(rb) => if rb.kind@ == "coalesce_exp"@ {
                    match coalesce_spine_v(rb, source) {
                        Some(c) => Some(prepend_chain(c, level.children@[l], sb("??"), brk, col)),
                        None => None,
                    }
                } else {
                    Some(base)
                },
                _ => Some(base),
            }
        }),
{
}

proof fn lemma_join_prepend<'a>(s: ChainV<'a>, c: ChainV<'a>, x: Node<'a>, op: Seq<u8>, brk: Option<Break>, col: Option<nat>)
    ensures
        join_chain(s, prepend_chain(c, x, op, brk, col)) == join_chain((s.0.push(x), s.1.push(op), s.2.push(brk), s.3.push(col)), c),
{
    let a = join_chain(s, prepend_chain(c, x, op, brk, col));
    let b = join_chain((s.0.push(x), s.1.push(op), s.2.push(brk), s.3.push(col)), c);
    assert(a.0 =~= b.0);
    assert(a.1 =~= b.1);
    assert(a.2 =~= b.2);
    assert(a.3 =~= b.3);
}

/// Plans a `??` chain.
pub fn plan_coalesce<'n, 'a>(node: &'n Branch<'a>, ctx: &Ctx<'a>) -> (r: Option<Chain<'n, 'a>>)
    requires
        wf_node(Node::Branch(*node), ctx.source()),
    ensures
        match (r, plan_coalesce_v(*node, ctx.source())) {
            (Some(c), Some(v)) => chain_v(c) == v,
            (None, None) => true,
            _ => false,
        },
        r matches Some(c) ==> chain_ok(c, *node, ctx.source()),
{
    if !str_eq(node.kind, "coalesce_exp") {
        return None;
    }
    let ghost src = ctx.source();
    let mut operands: Vec<&'n Node<'a>> = Vec::new();
    let mut ops: Vec<&'a [u8]> = Vec::new();
    let mut breaks: Vec<Option<Break>> = Vec::new();
    let mut columns: Vec<Option<usize>> = Vec::new();
    let mut current: &'n Branch<'a> = node;
    #[verifier::loop_isolation(true)]
    loop
        invariant
            src == ctx.source(),
            wf_node(Node::Branch(*current), src),
            current == node || decreases_to!(Node::Branch(*node) => Node::Branch(*current)),
            plan_coalesce_v(*node, src) == after_opt(chain_v(Chain { operands, ops, breaks, columns }), coalesce_spine_v(*current, src)),
            operands@.len() == ops@.len(),
            ops@.len() == breaks@.len(),
            ops@.len() == columns@.len(),
            forall|k: int| 0 <= k < operands@.len() ==> wf_node(*#[trigger] operands@[k], src)
                && decreases_to!(Node::Branch(*node) => *operands@[k]),
            forall|k: int| 0 <= k < ops@.len() ==> (!src.contains(13u8) ==> !(#[trigger] ops@[k])@.contains(13u8)),
        decreases *current,
    {
        let ghost before = chain_v(Chain { operands, ops, breaks, columns });
        let (l, o, r) = match three_parts(current) {
            Some(p) => p,
            None => return None,
        };
        let left = &current.children[l];
        let op_node = &current.children[o];
        let right = &current.children[r];
        proof {
            crate::tree::lemma_wf_child(current.children@, src, current.start as int, current.end as int, o as int);
            if !src.contains(13u8) {
                crate::print::parts::lemma_text_clean(*op_node, src);
                crate::bytes::lemma_trim_within(text_of(*op_node), 13u8);
            }
        }
        let op = match op_node.token_text() {
            Some(t) => trim(t),
            None => return None,
        };
        if !bytes_eq(op, "??".as_bytes()) {
            return None;
        }
        proof {
            crate::tree::lemma_wf_child(current.children@, src, current.start as int, current.end as int, o as int);
            crate::tree::lemma_wf_child(current.children@, src, current.start as int, current.end as int, r as int);
            crate::tree::lemma_wf_child(current.children@, src, current.start as int, current.end as int, l as int);
            lemma_child_smaller(*current, r as int);
            lemma_child_smaller(*current, l as int);
        }
        let brk = source_break(current, o);
        let col = line_start(ctx, brk, op_node, right);
        operands.push(left);
        ops.push(op);
        breaks.push(brk);
        columns.push(col);
        proof {
            let after = chain_v(Chain { operands, ops, breaks, columns });
            assert(after.0 =~= before.0.push(*left));
            assert(after.1 =~= before.1.push(sb("??")));
            assert(after.2 =~= before.2.push(brk));
            assert(after.3 =~= before.3.push(col_v(col)));
            lemma_coalesce_step(*current, src, l as int, o as int, r as int);
            if let Node::Branch(rb) = right {
                if let Some(c) = coalesce_spine_v(*rb, src) {
                    lemma_join_prepend(before, c, *left, sb("??"), brk, col_v(col));
                }
            }
        }
        match right.as_branch() {
            Some(b) => {
                if str_eq(b.kind, "coalesce_exp") {
                    assert(decreases_to!(Node::Branch(*current) => *b));
                    current = b;
                    continue;
                }
            },
            None => {},
        }
        let ghost mid = chain_v(Chain { operands, ops, breaks, columns });
        operands.push(right);
        proof {
            let fin = chain_v(Chain { operands, ops, breaks, columns });
            assert(fin.0 =~= before.0 + seq![*left, *right]);
            assert(fin.1 =~= before.1 + seq![sb("??")]);
            assert(fin.2 =~= before.2 + seq![brk]);
            assert(fin.3 =~= before.3 + seq![col_v(col)]);
        }
        return Some(Chain { operands, ops, breaks, columns });
    }
}

/// The chain a branch is, if it is one: a `??` chain first, then a binary one.
pub open spec fn planned_v<'a>(node: Branch<'a>, source: Seq<u8>) -> Option<ChainV<'a>> {
    match plan_coalesce_v(node, source) {
        Some(c) => Some(c),
        None => plan_chain_v(node, source),
    }
}

/// Whether every broken line of a chain starts at the column of its first operand, so the rest
/// needs no indent.
pub open spec fn aligned_v(c: ChainV, source: Seq<u8>) -> bool {
    let first = if c.0[0] is Text { None } else { Some(column_of(source, start_of(c.0[0]))) };
    forall|k: int| 0 <= k < c.2.len() ==> #[trigger] c.2[k] is None || c.3[k] == first
}

/// The layout of a chain: its first operand, then the rest, indented unless aligned.
pub open spec fn chain_shape(c: ChainV, source: Seq<u8>, first: DocV, rs: Seq<DocV>) -> DocV {
    DocV::Concat(seq![first, if aligned_v(c, source) { DocV::Concat(rs) } else { DocV::Indent(Box::new(DocV::Concat(rs))) }])
}

/// A binary or `??` chain that breaks only where the source did, or `None` to leave it to the
/// source-gap fallback.
pub fn binary_chain_doc<'a>(node: &Branch<'a>, ctx: &Ctx<'a>) -> (r: Option<Doc>)
    requires
        wf_node(Node::Branch(*node), ctx.source()),
    ensures
        r is Some <==> planned_v(*node, ctx.source()) is Some,
        r matches Some(d) ==> d@ == super::layout::chain_doc_v(*node, planned_v(*node, ctx.source()).unwrap(), ctx.source()),
        r matches Some(d) ==> (!ctx.source().contains(13u8) ==> crate::doc::free_of(d@, 13u8)),
    decreases Node::Branch(*node), 3int,
{
    let chain = match plan_coalesce(node, ctx) {
        Some(c) => c,
        None => match plan_chain(node, ctx) {
            Some(c) => c,
            None => return None,
        },
    };
    let ghost cv = chain_v(chain);
    assert(cv == planned_v(*node, ctx.source()).unwrap());
    let ghost src = ctx.source();
    assert(cv.0[0] == *chain.operands@[0]);
    let first: Option<usize> = match chain.operands[0] {
        Node::Text(_) => None,
        n => Some(ctx.lines.pos(n.start()).1),
    };
    let mut aligned = true;
    let mut k: usize = 0;
    while k < chain.breaks.len()
        invariant
            k <= chain.breaks@.len(),
            chain.breaks@.len() == chain.columns@.len(),
            cv == chain_v(chain),
            col_v(first) == (if cv.0[0] is Text { None } else { Some(column_of(src, start_of(cv.0[0]))) }),
            aligned == forall|j: int| 0 <= j < k ==> #[trigger] cv.2[j] is None || cv.3[j] == col_v(first),
        decreases chain.breaks@.len() - k,
    {
        assert(cv.3[k as int] == col_v(chain.columns@[k as int]));
        let ok = match chain.breaks[k] {
            None => true,
            Some(_) => match (chain.columns[k], first) {
                (Some(a), Some(b)) => a == b,
                (None, None) => true,
                _ => false,
            },
        };
        if !ok {
            aligned = false;
        }
        k = k + 1;
    }
    let mut rest: Vec<Doc> = Vec::new();
    let mut i: usize = 0;
    assert(crate::doc::view_docs(rest@) =~= Seq::<DocV>::empty());
    while i < chain.ops.len()
        invariant
            i <= chain.ops@.len(),
            chain_ok(chain, *node, src),
            cv == chain_v(chain),
            src == ctx.source(),
            rest@.len() == 4 * i,
            !src.contains(13u8) ==> forall|k: int| 0 <= k < rest@.len() ==> crate::doc::free_of(#[trigger] rest@[k]@, 13u8),
            crate::doc::view_docs(rest@) == super::layout::chain_fold(*node, cv, src, i as int),
        decreases chain.ops@.len() - i,
    {
        proof {
            crate::print::parts::lemma_literals();
        }
        let operand = node_doc(chain.operands[i + 1], ctx);
        let op = crate::doc::text_bytes(vstd::slice::slice_to_vec(chain.ops[i]));
        assert(cv.1[i as int] == chain.ops@[i as int]@);
        let ghost before = rest@;
        match chain.breaks[i] {
            Some(Break::Before) => {
                rest.push(crate::doc::HardLine);
                rest.push(op);
                rest.push(text(" "));
            },
            Some(Break::After) => {
                rest.push(text(" "));
                rest.push(op);
                rest.push(crate::doc::HardLine);
            },
            None => {
                rest.push(text(" "));
                rest.push(op);
                rest.push(text(" "));
            },
        }
        rest.push(operand);
        proof {
            crate::doc::lemma_view_docs(before);
            crate::doc::lemma_view_docs(rest@);
            assert(cv.0[i + 1] == *chain.operands@[i + 1]);
            assert(operand@ == super::layout::operand_doc_v(*node, cv.0[i + 1], src));
            assert(crate::doc::view_docs(rest@) =~= super::layout::chain_fold(*node, cv, src, i + 1));
        }
        i = i + 1;
    }
    let ghost rv = rest@;
    let rest = concat(rest);
    assert(!src.contains(13u8) ==> crate::doc::free_of(rest@, 13u8));
    let first_doc = node_doc(chain.operands[0], ctx);
    let ghost fv = first_doc@;
    assert(fv == super::layout::operand_doc_v(*node, cv.0[0], src));
    let d = concat2(first_doc, if aligned { rest } else { indent(rest) });
    assert(chain_shape(cv, src, fv, crate::doc::view_docs(rv)) == d@);
    Some(d)
}

} // verus!
