//! The normalised tree: every byte of the source belongs to exactly one leaf, so printing the leaves in order reproduces it.

use vstd::prelude::*;
use crate::bytes::{bytes_eq, bytes_ends_with, ends_with, has_byte, sb, str_eq};
use vstd::string::StringSliceAdditionalSpecFns;

verus! {

/// A node of the normalised tree.
#[derive(Debug)]
pub enum Node<'a> {
    /// Whitespace between two siblings.
    Text(Gap<'a>),
    Token(Token<'a>),
    Branch(Branch<'a>),
}

#[derive(Debug)]
pub struct Gap<'a> {
    pub start: usize,
    pub text: &'a [u8],
}

#[derive(Debug)]
pub struct Token<'a> {
    pub start: usize,
    pub kind: &'static str,
    pub named: bool,
    pub extra: bool,
    pub error: bool,
    pub missing: bool,
    pub text: &'a [u8],
}

#[derive(Debug, Clone, Copy, PartialEq, Eq, Structural)]
pub enum Mode {
    Block,
    Object,
}

#[derive(Debug)]
pub struct Branch<'a> {
    pub start: usize,
    pub end: usize,
    /// The node type as the grammar names it, e.g. `call_exp_block`.
    pub ty: &'static str,
    /// The type without its mode suffix, e.g. `call_exp`.
    pub kind: &'static str,
    pub mode: Option<Mode>,
    pub named: bool,
    pub extra: bool,
    pub field: Option<&'static str>,
    pub children: Vec<Node<'a>>,
    pub error: bool,
    pub missing: bool,
    pub has_error: bool,
    pub text: &'a [u8],
}

/// The text of a node.
pub open spec fn text_of(n: Node) -> Seq<u8> {
    match n {
        Node::Text(g) => g.text@,
        Node::Token(t) => t.text@,
        Node::Branch(b) => b.text@,
    }
}

/// The start offset of a node.
pub open spec fn start_of(n: Node) -> int {
    match n {
        Node::Text(g) => g.start as int,
        Node::Token(t) => t.start as int,
        Node::Branch(b) => b.start as int,
    }
}

/// The end offset of a node.
pub open spec fn end_of(n: Node) -> int {
    start_of(n) + text_of(n).len()
}

/// The texts of the leaves (gaps and tokens), in order.
pub open spec fn leaves(n: Node) -> Seq<u8>
    decreases n,
{
    match n {
        Node::Branch(b) => leaves_all(b.children@),
        _ => text_of(n),
    }
}

pub open spec fn leaves_all(ns: Seq<Node>) -> Seq<u8>
    decreases ns,
{
    if ns.len() == 0 {
        Seq::empty()
    } else {
        leaves(ns[0]) + leaves_all(ns.drop_first())
    }
}

/// The node holds exactly the bytes `source[start..end]`, and a branch's children, in order, cover
/// its bytes without gap or overlap.
pub open spec fn wf_node(n: Node, source: Seq<u8>) -> bool
    decreases n,
{
    &&& 0 <= start_of(n) <= end_of(n) <= source.len()
    &&& text_of(n) == source.subrange(start_of(n), end_of(n))
    &&& match n {
        Node::Branch(b) => {
            &&& b.end as int == end_of(n)
            &&& wf_children(b.children@, source, b.start as int, b.end as int)
        },
        _ => true,
    }
}

/// The nodes cover `source[from..to]` one after another.
pub open spec fn wf_children(ns: Seq<Node>, source: Seq<u8>, from: int, to: int) -> bool
    decreases ns,
{
    if ns.len() == 0 {
        0 <= from && from == to && to <= source.len()
    } else {
        &&& start_of(ns[0]) == from
        &&& wf_node(ns[0], source)
        &&& wf_children(ns.drop_first(), source, end_of(ns[0]), to)
    }
}

pub proof fn lemma_wf_leaves(n: Node, source: Seq<u8>)
    requires
        wf_node(n, source),
    ensures
        leaves(n) == text_of(n),
    decreases n,
{
    if let Node::Branch(b) = n {
        lemma_wf_children_leaves(b.children@, source, b.start as int, b.end as int);
    }
}

pub proof fn lemma_wf_children_leaves(ns: Seq<Node>, source: Seq<u8>, from: int, to: int)
    requires
        wf_children(ns, source, from, to),
    ensures
        0 <= from <= to <= source.len(),
        leaves_all(ns) == source.subrange(from, to),
    decreases ns,
{
    if ns.len() == 0 {
        assert(source.subrange(from, to) =~= Seq::<u8>::empty());
    } else {
        lemma_wf_leaves(ns[0], source);
        lemma_wf_children_leaves(ns.drop_first(), source, end_of(ns[0]), to);
        assert(leaves_all(ns) == leaves(ns[0]) + leaves_all(ns.drop_first()));
        assert(wf_node(ns[0], source));
        assert(text_of(ns[0]) == source.subrange(start_of(ns[0]), end_of(ns[0])));
        assert(start_of(ns[0]) == from);
        assert(leaves(ns[0]) == source.subrange(from, end_of(ns[0])));
        assert(source.subrange(from, to) =~= source.subrange(from, end_of(ns[0])) + source.subrange(end_of(ns[0]), to));
    }
}

/// Whether a node is a gap holding a line break.
pub open spec fn is_break_v(n: Node) -> bool {
    n is Text && text_of(n).contains(10u8)
}

/// The grammar type of a token or branch.
pub open spec fn ty_of(n: Node) -> Option<&'static str> {
    match n {
        Node::Text(_) => None,
        Node::Token(t) => Some(t.kind),
        Node::Branch(b) => Some(b.ty),
    }
}

/// The children other than gaps.
pub open spec fn non_gaps(ns: Seq<Node>) -> Seq<Node>
    decreases ns.len(),
{
    if ns.len() == 0 {
        Seq::empty()
    } else if ns.last() is Text {
        non_gaps(ns.drop_last())
    } else {
        non_gaps(ns.drop_last()).push(ns.last())
    }
}

/// The non-gap children of a branch are among its children.
pub proof fn lemma_non_gaps_in(ns: Seq<Node>)
    ensures
        forall|k: int| 0 <= k < non_gaps(ns).len() ==> ns.contains(#[trigger] non_gaps(ns)[k]),
    decreases ns.len(),
{
    if ns.len() > 0 {
        lemma_non_gaps_in(ns.drop_last());
        assert forall|k: int| 0 <= k < non_gaps(ns).len() implies ns.contains(#[trigger] non_gaps(ns)[k]) by {
            if k < non_gaps(ns.drop_last()).len() {
                let x = non_gaps(ns.drop_last())[k];
                assert(ns.drop_last().contains(x));
                let w = choose|w: int| 0 <= w < ns.drop_last().len() && ns.drop_last()[w] == x;
                assert(ns[w] == x);
            } else {
                assert(ns[ns.len() - 1] == non_gaps(ns)[k]);
            }
        }
    }
}

impl<'a> Node<'a> {
    pub fn text(&self) -> (r: &'a [u8])
        ensures
            r@ == text_of(*self),
    {
        match self {
            Node::Text(g) => g.text,
            Node::Token(t) => t.text,
            Node::Branch(b) => b.text,
        }
    }

    pub fn start(&self) -> (r: usize)
        ensures
            r == start_of(*self),
    {
        match self {
            Node::Text(g) => g.start,
            Node::Token(t) => t.start,
            Node::Branch(b) => b.start,
        }
    }

    pub fn end(&self) -> (r: usize)
        requires
            end_of(*self) <= usize::MAX,
        ensures
            r == end_of(*self),
    {
        self.start() + self.text().len()
    }

    pub fn is_text(&self) -> (r: bool)
        ensures
            r == (*self is Text),
    {
        matches!(self, Node::Text(_))
    }

    pub fn as_branch(&self) -> (r: Option<&Branch<'a>>)
        ensures
            r == (match *self {
                Node::Branch(b) => Some(&b),
                _ => None,
            }),
    {
        match self {
            Node::Branch(b) => Some(b),
            _ => None,
        }
    }

    /// The token's text, or `None` for a branch or a gap.
    pub fn token_text(&self) -> (r: Option<&'a [u8]>)
        ensures
            r is Some <==> *self is Token,
            r matches Some(t) ==> t@ == text_of(*self),
    {
        match self {
            Node::Token(t) => Some(t.text),
            _ => None,
        }
    }

    /// Whether this is the token `text`.
    pub fn is_token(&self, text: &str) -> (r: bool)
        ensures
            r == (*self is Token && text_of(*self) == crate::bytes::sb(text)),
    {
        match self {
            Node::Token(t) => bytes_eq(t.text, text.as_bytes()),
            _ => false,
        }
    }

    /// Whether this is a gap containing a line break.
    pub fn is_break(&self) -> (r: bool)
        ensures
            r == is_break_v(*self),
    {
        match self {
            Node::Text(g) => has_byte(g.text, 10u8),
            _ => false,
        }
    }

    /// The grammar type of a token or branch.
    pub fn ty(&self) -> (r: Option<&'static str>)
        ensures
            r == ty_of(*self),
    {
        match self {
            Node::Text(_) => None,
            Node::Token(t) => Some(t.kind),
            Node::Branch(b) => Some(b.ty),
        }
    }
}


/// A node of tree-sitter's tree, as plain values.
#[derive(Debug)]
pub struct RawNode {
    pub kind: &'static str,
    /// The symbol before aliasing.
    pub grammar_id: u16,
    pub start: usize,
    pub end: usize,
    pub named: bool,
    pub extra: bool,
    pub error: bool,
    pub missing: bool,
    pub has_error: bool,
    pub children: Vec<RawChild>,
}

/// A child of a [`RawNode`], with its field name.
#[derive(Debug)]
pub struct RawChild {
    pub field: Option<&'static str>,
    pub node: RawNode,
}

/// The type without its mode suffix, and the mode the suffix names.
pub open spec fn stripped(ty: Seq<u8>) -> (Seq<u8>, Option<Mode>) {
    if ends_with(ty, sb("_block")) {
        (ty.take(ty.len() - sb("_block").len()), Some(Mode::Block))
    } else if ends_with(ty, sb("_object")) {
        (ty.take(ty.len() - sb("_object").len()), Some(Mode::Object))
    } else {
        (ty, None)
    }
}

fn strip_suffix(ty: &'static str, suffix: &str) -> (r: Option<&'static str>)
    ensures
        r is Some <==> ends_with(sb(ty), sb(suffix)),
        r matches Some(k) ==> sb(k) == sb(ty).take(sb(ty).len() - sb(suffix).len()),
{
    if !bytes_ends_with(ty.as_bytes(), suffix.as_bytes()) {
        return None;
    }
    let k = ty.as_bytes().len() - suffix.as_bytes().len();
    proof {
        vstd::utf8::encode_utf8_valid_utf8(ty@);
        vstd::utf8::encode_utf8_valid_utf8(suffix@);
        if sb(suffix).len() > 0 {
            crate::bytes::lemma_suffix_boundary(sb(ty), sb(suffix));
        } else {
            vstd::utf8::is_char_boundary_start_end_of_seq(sb(ty));
        }
    }
    let (kind, _) = ty.split_at(k);
    Some(kind)
}

/// Every `_block`/`_object` type is one of a pair of mode variants of the same construct.
pub fn strip_mode(ty: &'static str) -> (r: (&'static str, Option<Mode>))
    ensures
        sb(r.0) == stripped(sb(ty)).0,
        r.1 == stripped(sb(ty)).1,
        stripped(sb(ty)).1 is None ==> r.0 == ty,
{
    if let Some(kind) = strip_suffix(ty, "_block") {
        return (kind, Some(Mode::Block));
    }
    if let Some(kind) = strip_suffix(ty, "_object") {
        return (kind, Some(Mode::Object));
    }
    (ty, None)
}

/// A raw node that becomes a token: one with no children, or a comment's text, which is lexed one
/// character per hidden token.
pub open spec fn is_leaf_raw(r: RawNode) -> bool {
    r.children@.len() == 0 || r.kind@ == "comment_text"@
}

/// The mode of a branch: block mode for a head rule's symbol, else the one its suffix names.
pub open spec fn mode_for(r: RawNode, heads: Seq<u16>) -> Option<Mode> {
    if heads.contains(r.grammar_id) {
        Some(Mode::Block)
    } else {
        stripped(sb(r.kind)).1
    }
}

/// The gaps among `ns` are non-empty whitespace, and no two are next to each other.
pub open spec fn gaps_ok(ns: Seq<Node>) -> bool {
    forall|i: int| 0 <= i < ns.len() && (#[trigger] ns[i]) is Text ==> {
        &&& text_of(ns[i]).len() > 0
        &&& crate::bytes::trim_end_len(text_of(ns[i])) == 0
        &&& (i + 1 < ns.len() ==> !(ns[i + 1] is Text))
    }
}

/// `b` is the branch the normaliser makes of `r` over `start..end`.
pub open spec fn branch_of(r: RawNode, field: Option<&'static str>, b: Branch, heads: Seq<u16>, start: int, end: int) -> bool
    decreases r, 1int,
{
    &&& b.start == start
    &&& b.end == end
    &&& b.ty == r.kind
    &&& sb(b.kind) == stripped(sb(r.kind)).0
    &&& b.mode == mode_for(r, heads)
    &&& b.named == r.named
    &&& b.extra == r.extra
    &&& b.field == field
    &&& b.error == r.error
    &&& b.missing == r.missing
    &&& b.has_error == r.has_error
    &&& gaps_ok(b.children@)
    &&& nodes_of(r.children@, non_gaps(b.children@), heads)
}

/// `n` is the node the normaliser makes of `r`.
pub open spec fn node_of(r: RawNode, field: Option<&'static str>, n: Node, heads: Seq<u16>) -> bool
    decreases r, 2int,
{
    if is_leaf_raw(r) {
        &&& n matches Node::Token(t)
        &&& t.start == r.start
        &&& t.kind == r.kind
        &&& t.named == r.named
        &&& t.extra == r.extra
        &&& t.error == r.error
        &&& t.missing == r.missing
        &&& end_of(n) == r.end
    } else {
        n matches Node::Branch(b) && branch_of(r, field, b, heads, r.start as int, r.end as int)
    }
}

/// The nodes the normaliser makes of the raw children, one for one.
pub open spec fn nodes_of(rs: Seq<RawChild>, ns: Seq<Node>, heads: Seq<u16>) -> bool
    decreases rs, 0int,
{
    &&& rs.len() == ns.len()
    &&& (rs.len() > 0 ==> node_of(rs[0].node, rs[0].field, ns[0], heads) && nodes_of(rs.drop_first(), ns.drop_first(), heads))
}


pub proof fn lemma_wf_children_push(ns: Seq<Node>, x: Node, source: Seq<u8>, from: int, at: int)
    requires
        wf_children(ns, source, from, at),
        start_of(x) == at,
        wf_node(x, source),
    ensures
        wf_children(ns.push(x), source, from, end_of(x)),
    decreases ns.len(),
{
    if ns.len() == 0 {
        assert(ns.push(x).drop_first() =~= Seq::<Node>::empty());
        assert(ns.push(x)[0] == x);
        assert(wf_children(Seq::<Node>::empty(), source, end_of(x), end_of(x)));
    } else {
        lemma_wf_children_push(ns.drop_first(), x, source, end_of(ns[0]), at);
        assert(ns.push(x).drop_first() =~= ns.drop_first().push(x));
        assert(ns.push(x)[0] == ns[0]);
    }
}

pub proof fn lemma_nodes_of_push(rs: Seq<RawChild>, ns: Seq<Node>, r: RawChild, n: Node, heads: Seq<u16>)
    requires
        nodes_of(rs, ns, heads),
        node_of(r.node, r.field, n, heads),
    ensures
        nodes_of(rs.push(r), ns.push(n), heads),
    decreases rs.len(),
{
    if rs.len() > 0 {
        lemma_nodes_of_push(rs.drop_first(), ns.drop_first(), r, n, heads);
        assert(rs.push(r).drop_first() =~= rs.drop_first().push(r));
        assert(ns.push(n).drop_first() =~= ns.drop_first().push(n));
        assert(rs.push(r)[0] == rs[0]);
        assert(ns.push(n)[0] == ns[0]);
    } else {
        assert(rs.push(r).drop_first() =~= Seq::<RawChild>::empty());
        assert(ns.push(n).drop_first() =~= Seq::<Node>::empty());
        assert(rs.push(r)[0] == r);
        assert(ns.push(n)[0] == n);
        assert(nodes_of(Seq::<RawChild>::empty(), Seq::<Node>::empty(), heads));
    }
}

/// `s` holds only whitespace.
pub open spec fn blank(s: Seq<u8>) -> bool {
    s.len() == 0 || crate::bytes::trim_end_len(s) == 0
}

/// tree-sitter's node `r` lies within the source, and, unless it becomes a token, its children lie
/// in order within it with only whitespace around them.
pub open spec fn fits_node(r: RawNode, source: Seq<u8>) -> bool
    decreases r, 1int,
{
    &&& r.start <= r.end <= source.len()
    &&& (!is_leaf_raw(r) ==> fits_children(r.children@, source, r.start as int, r.end as int))
}

/// The raw nodes lie in order within `at..to`, with only whitespace around them.
pub open spec fn fits_children(rs: Seq<RawChild>, source: Seq<u8>, at: int, to: int) -> bool
    decreases rs, 0int,
{
    if rs.len() == 0 {
        blank(source.subrange(at, to))
    } else {
        let c = rs[0].node;
        &&& at <= c.start <= c.end <= to
        &&& blank(source.subrange(at, c.start as int))
        &&& fits_node(c, source)
        &&& fits_children(rs.drop_first(), source, c.end as int, to)
    }
}

/// tree-sitter's tree fits the source: its root's children lie in order within it, with only
/// whitespace around them, and so on down.
pub open spec fn fits_v(raw: RawNode, source: Seq<u8>) -> bool {
    fits_children(raw.children@, source, 0, source.len() as int)
}

/// A slice of the source, or an error when the range is out of it.
fn source_slice<'a>(source: &'a [u8], start: usize, end: usize) -> (r: Result<&'a [u8], String>)
    ensures
        r is Ok <==> start <= end <= source@.len(),
        r matches Ok(t) ==> t@ == source@.subrange(start as int, end as int),
{
    if start <= end && end <= source.len() {
        Ok(vstd::slice::slice_subrange(source, start, end))
    } else {
        Err(crate::bytes::string_of("normalize: a node lies outside the source"))
    }
}

/// Appends the gap `start..end`, if it isn't empty; an error if it holds anything but whitespace.
fn gap<'a>(out: &mut Vec<Node<'a>>, source: &'a [u8], start: usize, end: usize) -> (r: Result<(), String>)
    requires
        start <= end <= source@.len(),
        old(out)@.len() == 0 || !(old(out)@.last() is Text),
    ensures
        r is Ok <==> blank(source@.subrange(start as int, end as int)),
        r is Ok ==> {
            if end <= start {
                final(out)@ == old(out)@
            } else {
                &&& final(out)@.len() == old(out)@.len() + 1
                &&& final(out)@.drop_last() == old(out)@
                &&& final(out)@.last() is Text
                &&& start_of(final(out)@.last()) == start
                &&& wf_node(final(out)@.last(), source@)
                &&& end_of(final(out)@.last()) == end
                &&& text_of(final(out)@.last()).len() > 0
                &&& crate::bytes::trim_end_len(text_of(final(out)@.last())) == 0
            }
        },
{
    if end <= start {
        return Ok(());
    }
    let text = vstd::slice::slice_subrange(source, start, end);
    assert(text@ =~= source@.subrange(start as int, end as int));
    if crate::bytes::trimmed_end(text) != 0 {
        let mut m: Vec<u8> = Vec::new();
        crate::bytes::append_str(&mut m, "normalize: non-whitespace between nodes at ");
        let mut a = crate::bytes::decimal_of(start);
        m.append(&mut a);
        crate::bytes::append_str(&mut m, "..");
        let mut b = crate::bytes::decimal_of(end);
        m.append(&mut b);
        return Err(crate::bytes::string_from_bytes(m.as_slice()));
    }
    out.push(Node::Text(Gap { start, text }));
    proof {
        assert(out@.drop_last() =~= old(out)@);
    }
    Ok(())
}

/// The mode of a branch from its raw node.
fn mode_of(raw: &RawNode, heads: &[u16], suffix_mode: Option<Mode>) -> (r: Option<Mode>)
    requires
        suffix_mode == stripped(sb(raw.kind)).1,
    ensures
        r == mode_for(*raw, heads@),
{
    let mut i: usize = 0;
    while i < heads.len()
        invariant
            i <= heads@.len(),
            forall|j: int| 0 <= j < i ==> heads@[j] != raw.grammar_id,
        decreases heads.len() - i,
    {
        if heads[i] == raw.grammar_id {
            assert(heads@[i as int] == raw.grammar_id);
            return Some(Mode::Block);
        }
        i = i + 1;
    }
    suffix_mode
}

/// The children of `raw` over `from..to`, with the gaps between them.
fn children_of<'a>(raw: &RawNode, from: usize, to: usize, source: &'a [u8], heads: &[u16]) -> (r: Result<Vec<Node<'a>>, String>)
    requires
        from <= to <= source@.len(),
    ensures
        r is Ok <==> fits_children(raw.children@, source@, from as int, to as int),
        r matches Ok(ns) ==> {
            &&& wf_children(ns@, source@, from as int, to as int)
            &&& nodes_of(raw.children@, non_gaps(ns@), heads@)
            &&& gaps_ok(ns@)
            &&& apart_all(ns@)
        },
    decreases *raw, 0int,
{
    let mut out: Vec<Node<'a>> = Vec::new();
    let mut at = from;
    let mut i: usize = 0;
    assert(raw.children@.skip(0) =~= raw.children@);
    while i < raw.children.len()
        invariant
            i <= raw.children@.len(),
            from <= at <= to <= source@.len(),
            wf_children(out@, source@, from as int, at as int),
            nodes_of(raw.children@.take(i as int), non_gaps(out@), heads@),
            gaps_ok(out@),
            apart_all(out@),
            out@.len() == 0 || !(out@.last() is Text),
            fits_children(raw.children@, source@, from as int, to as int)
                == fits_children(raw.children@.skip(i as int), source@, at as int, to as int),
        decreases raw.children@.len() - i,
    {
        let child = &raw.children[i];
        proof {
            assert(raw.children@.skip(i as int)[0] == raw.children@[i as int]);
            assert(raw.children@.skip(i as int).drop_first() =~= raw.children@.skip(i + 1));
        }
        let cs = child.node.start;
        let ce = child.node.end;
        if cs < at || ce < cs || ce > to {
            return Err(crate::bytes::string_of("normalize: children out of order or outside their parent"));
        }
        let ghost before = out@;
        gap(&mut out, source, at, cs)?;
        proof {
            if at < cs {
                lemma_apart_all_push(before, out@.last());
                lemma_wf_children_push(before, out@.last(), source@, from as int, at as int);
                assert(out@ == before.push(out@.last()));
                assert(non_gaps(out@) == non_gaps(before));
                assert forall|j: int| 0 <= j < out@.len() && (#[trigger] out@[j]) is Text implies {
                    &&& text_of(out@[j]).len() > 0
                    &&& crate::bytes::trim_end_len(text_of(out@[j])) == 0
                    &&& (j + 1 < out@.len() ==> !(out@[j + 1] is Text))
                } by {
                    if j < before.len() {
                        assert(out@[j] == before[j]);
                        if j + 1 < before.len() {
                            assert(out@[j + 1] == before[j + 1]);
                        }
                    }
                }
            }
        }
        assert(decreases_to!(*raw => raw.children));
        assert(decreases_to!(raw.children => raw.children@));
        assert(decreases_to!(raw.children@ => raw.children@[i as int]));
        assert(decreases_to!(raw.children@[i as int] => raw.children@[i as int].node));
        let node = child_of(&child.node, child.field, source, heads)?;
        let ghost mid = out@;
        proof {
            lemma_node_of_bounds(child.node, child.field, node, heads@, source@);
        }
        out.push(node);
        proof {
            lemma_apart_all_push(mid, node);
            lemma_wf_children_push(mid, node, source@, from as int, cs as int);
            assert(out@ == mid.push(node));
            assert(out@.drop_last() =~= mid);
            assert(non_gaps(out@) == non_gaps(mid).push(node));
            assert(raw.children@.take(i + 1) =~= raw.children@.take(i as int).push(raw.children@[i as int]));
            lemma_nodes_of_push(raw.children@.take(i as int), non_gaps(mid), raw.children@[i as int], node, heads@);
            assert forall|j: int| 0 <= j < out@.len() && (#[trigger] out@[j]) is Text implies {
                &&& text_of(out@[j]).len() > 0
                &&& crate::bytes::trim_end_len(text_of(out@[j])) == 0
                &&& (j + 1 < out@.len() ==> !(out@[j + 1] is Text))
            } by {
                assert(j < mid.len());
                assert(out@[j] == mid[j]);
                if j + 1 < mid.len() {
                    assert(out@[j + 1] == mid[j + 1]);
                }
            }
        }
        at = ce;
        i = i + 1;
    }
    let ghost before = out@;
    assert(raw.children@.skip(i as int) =~= Seq::<RawChild>::empty());
    gap(&mut out, source, at, to)?;
    proof {
        assert(raw.children@.take(raw.children@.len() as int) =~= raw.children@);
        if at < to {
            lemma_apart_all_push(before, out@.last());
            lemma_wf_children_push(before, out@.last(), source@, from as int, at as int);
            assert(out@ == before.push(out@.last()));
            assert(non_gaps(out@) == non_gaps(before));
            assert forall|j: int| 0 <= j < out@.len() && (#[trigger] out@[j]) is Text implies {
                &&& text_of(out@[j]).len() > 0
                &&& crate::bytes::trim_end_len(text_of(out@[j])) == 0
                &&& (j + 1 < out@.len() ==> !(out@[j + 1] is Text))
            } by {
                if j < before.len() {
                    assert(out@[j] == before[j]);
                    if j + 1 < before.len() {
                        assert(out@[j + 1] == before[j + 1]);
                    }
                }
            }
        }
    }
    Ok(out)
}

proof fn lemma_node_of_bounds(r: RawNode, field: Option<&'static str>, n: Node, heads: Seq<u16>, source: Seq<u8>)
    requires
        node_of(r, field, n, heads),
        wf_node(n, source),
    ensures
        start_of(n) == r.start,
        end_of(n) == r.end,
{
}

/// The node the normaliser makes of `raw`.
fn child_of<'a>(raw: &RawNode, field: Option<&'static str>, source: &'a [u8], heads: &[u16]) -> (r: Result<Node<'a>, String>)
    ensures
        r is Ok <==> fits_node(*raw, source@),
        r matches Ok(n) ==> wf_node(n, source@) && node_of(*raw, field, n, heads@) && apart_tree(n),
    decreases *raw, 1int,
{
    let text = source_slice(source, raw.start, raw.end)?;
    if raw.children.len() == 0 || str_eq(raw.kind, "comment_text") {
        return Ok(Node::Token(Token {
            start: raw.start,
            kind: raw.kind,
            named: raw.named,
            extra: raw.extra,
            error: raw.error,
            missing: raw.missing,
            text,
        }));
    }
    let children = children_of(raw, raw.start, raw.end, source, heads)?;
    let b = finish(raw, field, children, raw.start, raw.end, source, heads);
    proof {
        lemma_wf_children_leaves(b.children@, source@, raw.start as int, raw.end as int);
    }
    Ok(Node::Branch(b))
}

fn finish<'a>(raw: &RawNode, field: Option<&'static str>, children: Vec<Node<'a>>, start: usize, end: usize, source: &'a [u8], heads: &[u16]) -> (b: Branch<'a>)
    requires
        start <= end <= source@.len(),
        wf_children(children@, source@, start as int, end as int),
        nodes_of(raw.children@, non_gaps(children@), heads@),
        gaps_ok(children@),
        apart_all(children@),
    ensures
        branch_of(*raw, field, b, heads@, start as int, end as int),
        wf_node(Node::Branch(b), source@),
        apart_tree(Node::Branch(b)),
{
    let ty = raw.kind;
    let (kind, suffix_mode) = strip_mode(ty);
    let mode = mode_of(raw, heads, suffix_mode);
    let text = vstd::slice::slice_subrange(source, start, end);
    Branch {
        start,
        end,
        ty,
        kind,
        mode,
        named: raw.named,
        extra: raw.extra,
        field,
        children,
        error: raw.error,
        missing: raw.missing,
        has_error: raw.has_error,
        text,
    }
}

/// The normalised tree of `raw`: the root spans the whole source, and every byte of it lies in
/// exactly one leaf. An error when tree-sitter's tree doesn't fit the source.
pub fn normalize<'a>(raw: &RawNode, source: &'a [u8], heads: &[u16]) -> (r: Result<Branch<'a>, String>)
    ensures
        r is Ok <==> fits_v(*raw, source@),
        r matches Ok(b) ==> {
            &&& wf_node(Node::Branch(b), source@)
            &&& branch_of(*raw, None, b, heads@, 0, source@.len() as int)
            &&& leaves(Node::Branch(b)) == source@
            &&& apart_tree(Node::Branch(b))
        },
{
    let children = children_of(raw, 0, source.len(), source, heads)?;
    let b = finish(raw, None, children, 0, source.len(), source, heads);
    proof {
        lemma_wf_leaves(Node::Branch(b), source@);
        assert(source@.subrange(0, source@.len() as int) =~= source@);
    }
    Ok(b)
}


/// The offsets where the lines of `s` start: 0, and one past each line break.
pub open spec fn line_starts(s: Seq<u8>) -> Seq<usize>
    decreases s.len(),
{
    if s.len() == 0 {
        seq![0usize]
    } else if s.last() == 10u8 {
        line_starts(s.drop_last()).push(s.len() as usize)
    } else {
        line_starts(s.drop_last())
    }
}

/// The number of leading elements of `xs` that are at most `x`.
pub open spec fn partition_point(xs: Seq<usize>, x: int) -> nat
    decreases xs.len(),
{
    if xs.len() > 0 && xs[0] <= x {
        1 + partition_point(xs.drop_first(), x)
    } else {
        0
    }
}

/// The number of characters whose encoding starts in `b`: the bytes that aren't continuation bytes.
pub open spec fn char_count(b: Seq<u8>) -> nat
    decreases b.len(),
{
    if b.len() == 0 {
        0
    } else {
        char_count(b.drop_last()) + if vstd::utf8::is_continuation_byte(b.last()) { 0nat } else { 1nat }
    }
}

pub proof fn lemma_line_starts(s: Seq<u8>)
    requires
        s.len() <= usize::MAX,
    ensures
        line_starts(s).len() >= 1,
        line_starts(s).len() <= s.len() + 1,
        line_starts(s)[0] == 0,
        forall|i: int| 0 <= i < line_starts(s).len() ==> #[trigger] line_starts(s)[i] <= s.len(),
        forall|i: int, j: int| 0 <= i < j < line_starts(s).len() ==> #[trigger] line_starts(s)[i] < #[trigger] line_starts(s)[j],
        forall|i: int| 0 < i < line_starts(s).len() ==> s[#[trigger] line_starts(s)[i] - 1] == 10u8,
    decreases s.len(),
{
    if s.len() > 0 {
        lemma_line_starts(s.drop_last());
        let p = line_starts(s.drop_last());
        assert forall|i: int| 0 < i < p.len() implies s[#[trigger] p[i] - 1] == 10u8 by {
            assert(s.drop_last()[p[i] - 1] == 10u8);
        }
    }
}

/// Maps byte offsets to lines and character columns.
pub struct Lines<'a> {
    source: &'a [u8],
    starts: Vec<usize>,
}

impl<'a> Lines<'a> {
    #[verifier::type_invariant]
    spec fn inv(self) -> bool {
        &&& self.starts@ == line_starts(self.source@)
        &&& self.source@.len() <= usize::MAX
    }

    pub closed spec fn source(self) -> Seq<u8> {
        self.source@
    }

    pub fn new(source: &'a [u8]) -> (r: Self)
        ensures
            r.source() == source@,
    {
        let mut starts: Vec<usize> = Vec::new();
        starts.push(0);
        let mut i: usize = 0;
        while i < source.len()
            invariant
                i <= source@.len(),
                starts@ == line_starts(source@.take(i as int)),
            decreases source.len() - i,
        {
            assert(source@.take(i + 1).drop_last() =~= source@.take(i as int));
            if source[i] == 10u8 {
                starts.push(i + 1);
            }
            i = i + 1;
        }
        assert(source@.take(source@.len() as int) =~= source@);
        Lines { source, starts }
    }

    /// Zero-based row.
    pub fn row(&self, offset: usize) -> (r: usize)
        ensures
            r == partition_point(line_starts(self.source()), offset as int) - 1,
            r < line_starts(self.source()).len(),
    {
        proof {
            use_type_invariant(self);
            lemma_line_starts(self.source@);
        }
        let mut i: usize = 0;
        assert(self.starts@.skip(0) =~= self.starts@);
        while i < self.starts.len() && self.starts[i] <= offset
            invariant
                i <= self.starts@.len(),
                self.starts@ == line_starts(self.source@),
                partition_point(self.starts@, offset as int) == i + partition_point(self.starts@.skip(i as int), offset as int),
            decreases self.starts@.len() - i,
        {
            assert(self.starts@.skip(i as int).drop_first() =~= self.starts@.skip(i + 1));
            i = i + 1;
        }
        if i < self.starts.len() {
            assert(self.starts@.skip(i as int)[0] == self.starts@[i as int]);
        }
        assert(i >= 1);
        i - 1
    }

    /// Zero-based row and character column.
    pub fn pos(&self, offset: usize) -> (r: (usize, usize))
        requires
            offset <= self.source().len(),
        ensures
            r.0 == partition_point(line_starts(self.source()), offset as int) - 1,
            r.1 == char_count(self.source().subrange(line_starts(self.source())[r.0 as int] as int, offset as int)),
    {
        let row = self.row(offset);
        proof {
            use_type_invariant(self);
            lemma_line_starts(self.source@);
            lemma_partition_point(self.starts@, offset as int);
        }
        let start = self.starts[row];
        let mut column: usize = 0;
        let mut i = start;
        while i < offset
            invariant
                start <= i <= offset <= self.source@.len(),
                column == char_count(self.source@.subrange(start as int, i as int)),
                column <= i - start,
            decreases offset - i,
        {
            assert(self.source@.subrange(start as int, i + 1).drop_last() =~= self.source@.subrange(start as int, i as int));
            if !is_continuation(self.source[i]) {
                column = column + 1;
            }
            i = i + 1;
        }
        (row, column)
    }

    /// The text of the row, without its line break.
    pub fn line(&self, row: usize) -> (r: &'a [u8])
        requires
            row < line_starts(self.source()).len(),
        ensures
            r@ == self.source().subrange(
                line_starts(self.source())[row as int] as int,
                if row + 1 < line_starts(self.source()).len() {
                    line_starts(self.source())[row + 1] - 1
                } else {
                    self.source().len() as int
                },
            ),
    {
        proof {
            use_type_invariant(self);
            lemma_line_starts(self.source@);
        }
        let start = self.starts[row];
        let end = if row < self.starts.len() - 1 {
            self.starts[row + 1] - 1
        } else {
            self.source.len()
        };
        vstd::slice::slice_subrange(self.source, start, end)
    }
}

pub proof fn lemma_char_count(b: Seq<u8>)
    ensures
        char_count(b) <= b.len(),
    decreases b.len(),
{
    if b.len() > 0 {
        lemma_char_count(b.drop_last());
    }
}

pub proof fn lemma_partition_point(xs: Seq<usize>, x: int)
    ensures
        partition_point(xs, x) <= xs.len(),
        partition_point(xs, x) > 0 ==> xs[partition_point(xs, x) - 1] <= x,
    decreases xs.len(),
{
    if xs.len() > 0 && xs[0] <= x {
        lemma_partition_point(xs.drop_first(), x);
        if partition_point(xs.drop_first(), x) > 0 {
            assert(xs[partition_point(xs, x) - 1] == xs.drop_first()[partition_point(xs.drop_first(), x) - 1]);
        }
    }
}

/// Whether a byte continues a character's encoding.
pub fn is_continuation(b: u8) -> (r: bool)
    ensures
        r == vstd::utf8::is_continuation_byte(b),
{
    0x80u8 <= b && b <= 0xBFu8
}


/// The index of the first child branch with this field name.
pub open spec fn field_index(ns: Seq<Node>, name: Seq<char>) -> Option<int>
    decreases ns.len(),
{
    if ns.len() == 0 {
        None
    } else if ns[0] matches Node::Branch(b) && b.field matches Some(f) && f@ == name {
        Some(0)
    } else {
        match field_index(ns.drop_first(), name) {
            Some(i) => Some(i + 1),
            None => None,
        }
    }
}

pub proof fn lemma_field_index(ns: Seq<Node>, name: Seq<char>)
    ensures
        field_index(ns, name) matches Some(i) ==> 0 <= i < ns.len() && ns[i] is Branch,
    decreases ns.len(),
{
    if ns.len() > 0 {
        lemma_field_index(ns.drop_first(), name);
    }
}

/// The branch of a branch node.
pub open spec fn branch_v(n: Node) -> Branch {
    match n {
        Node::Branch(b) => b,
        _ => arbitrary(),
    }
}

/// Every branch in this subtree, preorder, including this one.
pub open spec fn branches_v(b: Branch) -> Seq<Branch>
    decreases b, 1int,
{
    seq![b] + branches_all(b.children@)
}

pub open spec fn branches_all(ns: Seq<Node>) -> Seq<Branch>
    decreases ns, 0int,
{
    if ns.len() == 0 {
        Seq::empty()
    } else {
        let rest = branches_all(ns.drop_first());
        match ns[0] {
            Node::Branch(b) => branches_v(b) + rest,
            _ => rest,
        }
    }
}

impl<'a> Branch<'a> {
    /// The first child branch with this field name.
    pub fn field(&self, name: &str) -> (r: Option<&Branch<'a>>)
        ensures
            r matches Some(b) ==> field_index(self.children@, name@) matches Some(i) && *b == branch_v(self.children@[i]),
            r is None ==> field_index(self.children@, name@) is None,
    {
        let mut i: usize = 0;
        assert(self.children@.skip(0) =~= self.children@);
        while i < self.children.len()
            invariant
                i <= self.children@.len(),
                field_index(self.children@, name@) == match field_index(self.children@.skip(i as int), name@) {
                    Some(j) => Some(j + i),
                    None => None::<int>,
                },
            decreases self.children@.len() - i,
        {
            let ghost rest = self.children@.skip(i as int);
            assert(rest.drop_first() =~= self.children@.skip(i + 1));
            assert(rest[0] == self.children@[i as int]);
            if let Node::Branch(b) = &self.children[i] {
                if let Some(f) = b.field {
                    if str_eq(f, name) {
                        return Some(b);
                    }
                }
            }
            i = i + 1;
        }
        None
    }

    /// The children other than gaps.
    pub fn nodes(&self) -> (r: Vec<&Node<'a>>)
        ensures
            r@.len() == non_gaps(self.children@).len(),
            forall|i: int| 0 <= i < r@.len() ==> *r@[i] == #[trigger] non_gaps(self.children@)[i],
    {
        let mut out: Vec<&Node<'a>> = Vec::new();
        let mut i: usize = 0;
        while i < self.children.len()
            invariant
                i <= self.children@.len(),
                out@.len() == non_gaps(self.children@.take(i as int)).len(),
                forall|j: int| 0 <= j < out@.len() ==> *out@[j] == #[trigger] non_gaps(self.children@.take(i as int))[j],
            decreases self.children@.len() - i,
        {
            assert(self.children@.take(i + 1).drop_last() =~= self.children@.take(i as int));
            let c = &self.children[i];
            if !c.is_text() {
                out.push(c);
            }
            i = i + 1;
        }
        assert(self.children@.take(self.children@.len() as int) =~= self.children@);
        out
    }

    /// Every branch in this subtree, preorder, including this one.
    pub fn branches(&self) -> (r: Vec<&Branch<'a>>)
        ensures
            r@.len() == branches_v(*self).len(),
            forall|i: int| 0 <= i < r@.len() ==> *r@[i] == #[trigger] branches_v(*self)[i],
        decreases *self,
    {
        let mut out: Vec<&Branch<'a>> = Vec::new();
        out.push(self);
        let mut i = self.children.len();
        let mut tail: Vec<&Branch<'a>> = Vec::new();
        assert(self.children@.skip(self.children@.len() as int) =~= Seq::<Node>::empty());
        while i > 0
            invariant
                i <= self.children@.len(),
                tail@.len() == branches_all(self.children@.skip(i as int)).len(),
                forall|j: int| 0 <= j < tail@.len() ==> *tail@[j] == #[trigger] branches_all(self.children@.skip(i as int))[j],
            decreases i,
        {
            i = i - 1;
            let ghost rest = self.children@.skip(i as int);
            assert(rest.drop_first() =~= self.children@.skip(i + 1));
            assert(rest[0] == self.children@[i as int]);
            if let Node::Branch(b) = &self.children[i] {
                assert(decreases_to!(*self => self.children));
                assert(decreases_to!(self.children => self.children@));
                assert(decreases_to!(self.children@ => self.children@[i as int]));
                let mut sub = b.branches();
                let ghost old_tail = tail@;
                sub.append(&mut tail);
                tail = sub;
                assert forall|j: int| 0 <= j < tail@.len() implies *tail@[j] == #[trigger] branches_all(rest)[j] by {
                    if j >= branches_v(*b).len() {
                        assert(tail@[j] == old_tail[j - branches_v(*b).len()]);
                    }
                }
            }
        }
        assert(self.children@.skip(0) =~= self.children@);
        let ghost head = out@;
        let ghost t = tail@;
        out.append(&mut tail);
        assert forall|j: int| 0 <= j < out@.len() implies *out@[j] == #[trigger] branches_v(*self)[j] by {
            if j > 0 {
                assert(out@[j] == t[j - 1]);
            }
        }
        out
    }
}


/// `b` is `a` with whitespace moved out of its tokens and branches: the same nodes, in the same
/// order and nesting, with the same types, fields and flags, each starting where it did; only the
/// gaps between them and the ends of the texts differ: a token that isn't extra loses its trailing
/// whitespace, and an extra one keeps its text.
pub open spec fn same_shape(a: Node, b: Node) -> bool
    decreases a, 0int,
{
    match (a, b) {
        (Node::Text(_), Node::Text(_)) => true,
        (Node::Token(x), Node::Token(y)) => {
            &&& x.start == y.start
            &&& x.kind == y.kind
            &&& x.named == y.named
            &&& x.extra == y.extra
            &&& x.error == y.error
            &&& x.missing == y.missing
            &&& y.text@ == if x.extra { x.text@ } else { x.text@.take(crate::bytes::trim_end_len(x.text@) as int) }
        },
        (Node::Branch(x), Node::Branch(y)) => {
            &&& x.start == y.start
            &&& x.ty == y.ty
            &&& x.kind == y.kind
            &&& x.mode == y.mode
            &&& x.named == y.named
            &&& x.extra == y.extra
            &&& x.field == y.field
            &&& x.error == y.error
            &&& x.missing == y.missing
            &&& x.has_error == y.has_error
            &&& shapes_all(x.children@, y.children@)
        },
        _ => false,
    }
}

/// The non-gap nodes of `xs` and of `ys`, in order, have the same shapes.
pub open spec fn shapes_all(xs: Seq<Node>, ys: Seq<Node>) -> bool
    decreases xs, ys.len(),
{
    if xs.len() > 0 && xs[0] is Text {
        shapes_all(xs.drop_first(), ys)
    } else if ys.len() > 0 && ys[0] is Text {
        shapes_all(xs, ys.drop_first())
    } else if xs.len() == 0 || ys.len() == 0 {
        xs.len() == 0 && ys.len() == 0
    } else {
        same_shape(xs[0], ys[0]) && shapes_all(xs.drop_first(), ys.drop_first())
    }
}

/// A gap at the end of the first side changes nothing.
proof fn lemma_shapes_gap_left(xs: Seq<Node>, ys: Seq<Node>, g: Node)
    requires
        shapes_all(xs, ys),
        g is Text,
    ensures
        shapes_all(xs.push(g), ys),
    decreases xs.len() + ys.len(),
{
    if xs.len() == 0 {
        assert(xs.push(g)[0] == g);
        assert(xs.push(g).drop_first() =~= xs);
    } else {
        assert(xs.push(g)[0] == xs[0]);
        assert(xs.push(g).drop_first() =~= xs.drop_first().push(g));
        if xs[0] is Text {
            lemma_shapes_gap_left(xs.drop_first(), ys, g);
        } else if ys.len() > 0 && ys[0] is Text {
            lemma_shapes_gap_left(xs, ys.drop_first(), g);
        } else if ys.len() > 0 {
            lemma_shapes_gap_left(xs.drop_first(), ys.drop_first(), g);
        }
    }
}

/// A gap at the end of the second side changes nothing.
proof fn lemma_shapes_gap_right(xs: Seq<Node>, ys: Seq<Node>, g: Node)
    requires
        shapes_all(xs, ys),
        g is Text,
    ensures
        shapes_all(xs, ys.push(g)),
    decreases xs.len() + ys.len(),
{
    assert(ys.push(g)[ys.len() as int] == g);
    if xs.len() > 0 && xs[0] is Text {
        lemma_shapes_gap_right(xs.drop_first(), ys, g);
    } else if ys.len() == 0 {
        assert(ys.push(g)[0] == g);
        assert(ys.push(g).drop_first() =~= ys);
    } else {
        assert(ys.push(g)[0] == ys[0]);
        assert(ys.push(g).drop_first() =~= ys.drop_first().push(g));
        if ys[0] is Text {
            lemma_shapes_gap_right(xs, ys.drop_first(), g);
        } else if xs.len() > 0 {
            lemma_shapes_gap_right(xs.drop_first(), ys.drop_first(), g);
        }
    }
}

/// Two nodes of the same shape pushed on both sides keep the shapes matching.
proof fn lemma_shapes_push(xs: Seq<Node>, ys: Seq<Node>, x: Node, y: Node)
    requires
        shapes_all(xs, ys),
        !(x is Text),
        !(y is Text),
        same_shape(x, y),
    ensures
        shapes_all(xs.push(x), ys.push(y)),
    decreases xs.len() + ys.len(),
{
    if xs.len() > 0 && xs[0] is Text {
        lemma_shapes_push(xs.drop_first(), ys, x, y);
        assert(xs.push(x).drop_first() =~= xs.drop_first().push(x));
        assert(xs.push(x)[0] == xs[0]);
    } else if ys.len() > 0 && ys[0] is Text {
        lemma_shapes_push(xs, ys.drop_first(), x, y);
        assert(ys.push(y).drop_first() =~= ys.drop_first().push(y));
        assert(ys.push(y)[0] == ys[0]);
    } else if xs.len() == 0 || ys.len() == 0 {
        assert(xs.len() == 0 && ys.len() == 0);
        assert(xs.push(x)[0] == x);
        assert(ys.push(y)[0] == y);
        assert(xs.push(x).drop_first() =~= Seq::<Node>::empty());
        assert(ys.push(y).drop_first() =~= Seq::<Node>::empty());
        assert(shapes_all(Seq::<Node>::empty(), Seq::<Node>::empty()));
    } else {
        lemma_shapes_push(xs.drop_first(), ys.drop_first(), x, y);
        assert(xs.push(x).drop_first() =~= xs.drop_first().push(x));
        assert(ys.push(y).drop_first() =~= ys.drop_first().push(y));
        assert(xs.push(x)[0] == xs[0]);
        assert(ys.push(y)[0] == ys[0]);
    }
}

/// A gap at the end of the second side can be dropped.
proof fn lemma_shapes_drop_gap(xs: Seq<Node>, ys: Seq<Node>)
    requires
        shapes_all(xs, ys),
        ys.len() > 0,
        ys.last() is Text,
    ensures
        shapes_all(xs, ys.drop_last()),
    decreases xs.len() + ys.len(),
{
    if xs.len() > 0 && xs[0] is Text {
        lemma_shapes_drop_gap(xs.drop_first(), ys);
    } else if ys.len() > 1 && ys[0] is Text {
        lemma_shapes_drop_gap(xs, ys.drop_first());
        assert(ys.drop_first().drop_last() =~= ys.drop_last().drop_first());
        assert(ys.drop_last()[0] == ys[0]);
    } else if ys.len() == 1 {
        assert(ys.drop_last() =~= Seq::<Node>::empty());
        assert(ys[0] is Text);
        assert(shapes_all(xs, ys.drop_first()));
        assert(ys.drop_first() =~= Seq::<Node>::empty());
    } else if xs.len() == 0 {
        assert(false);
    } else {
        lemma_shapes_drop_gap(xs.drop_first(), ys.drop_first());
        assert(ys.drop_first().drop_last() =~= ys.drop_last().drop_first());
        assert(ys.drop_last()[0] == ys[0]);
    }
}

/// Appends a gap, merged into `pending` first when there is one.
fn push_pending<'a>(out: &mut Vec<Node<'a>>, pending: Option<Gap<'a>>, source: &'a [u8], Ghost(from): Ghost<int>, Ghost(at): Ghost<int>)
    requires
        wf_children(old(out)@, source@, from, at),
        hoisted_all(old(out)@),
        pending matches Some(g) ==> g.start == at && g.text@ == source@.subrange(g.start as int, g.start + g.text@.len()) && g.start + g.text@.len() <= source@.len(),
        pending matches Some(g) ==> blank(g.text@),
    ensures
        wf_children(final(out)@, source@, from, match pending {
            Some(g) => g.start + g.text@.len(),
            None => at,
        }),
        hoisted_all(final(out)@),
        final(out)@ == match pending {
            Some(g) => old(out)@.push(Node::Text(g)),
            None => old(out)@,
        },
{
    proof {
        lemma_wf_children_bounds(old(out)@, source@, from, at);
    }
    match pending {
        Some(g) => {
            let ghost before = out@;
            let n = Node::Text(g);
            out.push(n);
            proof {
                lemma_hoisted_push(before, n);
                lemma_wf_children_push(before, n, source@, from, at);
            }
        },
        None => {},
    }
}

/// Each child of a well-formed branch is well formed.
pub proof fn lemma_wf_child(ns: Seq<Node>, source: Seq<u8>, from: int, to: int, k: int)
    requires
        wf_children(ns, source, from, to),
        0 <= k < ns.len(),
    ensures
        wf_node(ns[k], source),
    decreases ns.len(),
{
    if k > 0 {
        lemma_wf_child(ns.drop_first(), source, end_of(ns[0]), to, k - 1);
    }
}

/// The character column of a byte offset: the characters between the start of its line and it.
pub open spec fn column_of(source: Seq<u8>, offset: int) -> nat {
    let row = partition_point(line_starts(source), offset) - 1;
    char_count(source.subrange(line_starts(source)[row] as int, offset))
}

/// The number of characters whose encoding starts in `b`.
pub fn char_count_of(b: &[u8]) -> (r: usize)
    ensures
        r == char_count(b@),
{
    let mut n: usize = 0;
    let mut i: usize = 0;
    while i < b.len()
        invariant
            i <= b@.len(),
            n == char_count(b@.take(i as int)),
            n <= i,
        decreases b@.len() - i,
    {
        assert(b@.take(i + 1).drop_last() =~= b@.take(i as int));
        if !is_continuation(b[i]) {
            n = n + 1;
        }
        i = i + 1;
    }
    assert(b@.take(b@.len() as int) =~= b@);
    n
}

/// A child of a branch is smaller than it.
pub proof fn lemma_child_smaller(b: Branch, x: Node)
    requires
        b.children@.contains(x),
    ensures
        decreases_to!(Node::Branch(b) => x),
{
    let k = choose|k: int| 0 <= k < b.children@.len() && b.children@[k] == x;
    let n = Node::Branch(b);
    assert(decreases_to!(n => n->Branch_0));
    assert(decreases_to!(b => b.children));
    assert(decreases_to!(b.children => b.children@));
    assert(decreases_to!(b.children@ => b.children@[k]));
}

/// A well-formed branch's children are well formed and smaller than it.
pub proof fn lemma_child_of(b: Branch, x: Node, source: Seq<u8>)
    requires
        wf_node(Node::Branch(b), source),
        b.children@.contains(x),
    ensures
        wf_node(x, source),
        decreases_to!(Node::Branch(b) => x),
{
    let k = choose|k: int| 0 <= k < b.children@.len() && b.children@[k] == x;
    lemma_wf_child(b.children@, source, b.start as int, b.end as int, k);
    let n = Node::Branch(b);
    assert(decreases_to!(n => n->Branch_0));
    assert(decreases_to!(b => b.children));
    assert(decreases_to!(b.children => b.children@));
    assert(decreases_to!(b.children@ => b.children@[k]));
}

pub proof fn lemma_wf_children_bounds(ns: Seq<Node>, source: Seq<u8>, from: int, to: int)
    requires
        wf_children(ns, source, from, to),
    ensures
        0 <= from <= to <= source.len(),
    decreases ns.len(),
{
    if ns.len() > 0 {
        lemma_wf_children_bounds(ns.drop_first(), source, end_of(ns[0]), to);
    }
}

/// Every gap is whitespace, no token but an extra one ends with whitespace, and no branch below
/// the node ends with a gap: trailing whitespace sits in the gap after the token or branch it
/// followed.
pub open spec fn hoisted(n: Node) -> bool
    decreases n, 1int,
{
    match n {
        Node::Text(g) => blank(g.text@),
        Node::Token(t) => t.extra || crate::bytes::trim_end_len(t.text@) == t.text@.len(),
        Node::Branch(b) => hoisted_all(b.children@),
    }
}

pub open spec fn hoisted_all(ns: Seq<Node>) -> bool
    decreases ns, 0int,
{
    ns.len() == 0 || (hoisted(ns[0]) && !ends_in_gap(ns[0]) && hoisted_all(ns.drop_first()))
}

/// A branch whose last child is a gap.
pub open spec fn ends_in_gap(n: Node) -> bool {
    n matches Node::Branch(b) && b.children@.len() > 0 && b.children@.last() is Text
}

/// No two gaps among `ns` are next to each other.
pub open spec fn apart(ns: Seq<Node>) -> bool {
    forall|i: int| 0 <= i && i + 1 < ns.len() && (#[trigger] ns[i]) is Text ==> !(ns[i + 1] is Text)
}

/// Every gap of the tree is whitespace, and no two gaps are next to each other.
pub open spec fn apart_tree(n: Node) -> bool
    decreases n, 1int,
{
    match n {
        Node::Branch(b) => apart(b.children@) && apart_all(b.children@),
        Node::Text(g) => blank(g.text@),
        _ => true,
    }
}

proof fn lemma_hoisted_last(ns: Seq<Node>)
    requires
        hoisted_all(ns),
        ns.len() > 0,
    ensures
        hoisted(ns.last()),
    decreases ns.len(),
{
    if ns.len() > 1 {
        lemma_hoisted_last(ns.drop_first());
        assert(ns.drop_first().last() == ns.last());
    }
}

pub open spec fn apart_all(ns: Seq<Node>) -> bool
    decreases ns, 0int,
{
    ns.len() == 0 || (apart_tree(ns[0]) && apart_all(ns.drop_first()))
}

proof fn lemma_apart_all_index(ns: Seq<Node>, k: int)
    requires
        apart_all(ns),
        0 <= k < ns.len(),
    ensures
        apart_tree(ns[k]),
    decreases ns.len(),
{
    if k > 0 {
        lemma_apart_all_index(ns.drop_first(), k - 1);
    }
}

proof fn lemma_apart_all_push(ns: Seq<Node>, x: Node)
    requires
        apart_all(ns),
        apart_tree(x),
    ensures
        apart_all(ns.push(x)),
    decreases ns.len(),
{
    if ns.len() > 0 {
        lemma_apart_all_push(ns.drop_first(), x);
        assert(ns.push(x).drop_first() =~= ns.drop_first().push(x));
        assert(ns.push(x)[0] == ns[0]);
        assert(apart_tree(ns[0]));
    } else {
        assert(ns.push(x).drop_first() =~= Seq::<Node>::empty());
        assert(ns.push(x)[0] == x);
        assert(apart_all(ns.push(x).drop_first()));
    }
}

proof fn lemma_apart_push(ns: Seq<Node>, x: Node)
    requires
        apart(ns),
        ns.len() > 0 && ns.last() is Text ==> !(x is Text),
    ensures
        apart(ns.push(x)),
{
    assert forall|i: int| 0 <= i && i + 1 < ns.push(x).len() && (#[trigger] ns.push(x)[i]) is Text implies !(ns.push(x)[i + 1] is Text) by {
        assert(ns.push(x)[i] == ns[i]);
        if i + 1 < ns.len() {
            assert(ns.push(x)[i + 1] == ns[i + 1]);
        }
    }
}

proof fn lemma_hoisted_push(ns: Seq<Node>, x: Node)
    requires
        hoisted_all(ns),
        hoisted(x),
        !ends_in_gap(x),
    ensures
        hoisted_all(ns.push(x)),
    decreases ns.len(),
{
    if ns.len() > 0 {
        lemma_hoisted_push(ns.drop_first(), x);
        assert(ns.push(x).drop_first() =~= ns.drop_first().push(x));
        assert(ns.push(x)[0] == ns[0]);
        assert(hoisted(ns[0]));
    } else {
        assert(ns.push(x).drop_first() =~= Seq::<Node>::empty());
        assert(ns.push(x)[0] == x);
        assert(hoisted_all(ns.push(x).drop_first()));
    }
}

proof fn lemma_hoisted_drop_last(ns: Seq<Node>)
    requires
        hoisted_all(ns),
        ns.len() > 0,
    ensures
        hoisted_all(ns.drop_last()),
    decreases ns.len(),
{
    if ns.len() > 1 {
        lemma_hoisted_drop_last(ns.drop_first());
        assert(ns.drop_last().drop_first() =~= ns.drop_first().drop_last());
    } else {
        assert(ns.drop_last() =~= Seq::<Node>::empty());
    }
}

/// `<` and `??` absorb the whitespace after them into the token, where the grammar uses it to
/// decide what they mean. Moves it out of the tokens among `children`, and out of every branch
/// ending with it, into the gap that follows.
fn hoist_children<'a>(children: Vec<Node<'a>>, source: &'a [u8], Ghost(from): Ghost<int>, Ghost(to): Ghost<int>) -> (r: Vec<Node<'a>>)
    requires
        wf_children(children@, source@, from, to),
        source@.len() <= usize::MAX,
        apart(children@),
        apart_all(children@),
    ensures
        wf_children(r@, source@, from, to),
        hoisted_all(r@),
        apart(r@),
        shapes_all(children@, r@),
    decreases children@,
{
    let ghost cs = children@;
    let ghost cv = children;
    let mut out: Vec<Node<'a>> = Vec::new();
    let mut pending: Option<Gap<'a>> = None;
    let ghost mut at: int = from;
    proof {
        lemma_wf_children_bounds(cs, source@, from, to);
        assert(cs.skip(0) =~= cs);
    }
    for c in it: children
        invariant
            it.seq() == cs,
            cv@ == cs,
            source@.len() <= usize::MAX,
            wf_children(cs.skip(it.index() as int), source@, (at + match pending {
                Some(g) => g.text@.len() as int,
                None => 0int,
            }), to),
            wf_children(out@, source@, from, at),
            hoisted_all(out@),
            apart(cs),
            apart_all(cs),
            apart(out@),
            out@.len() > 0 && out@.last() is Text ==> pending is None && it.index() > 0 && cs[it.index() - 1] is Text,
            shapes_all(cs.take(it.index() as int), out@),
            pending matches Some(g) ==> g.start == at && g.text@ == source@.subrange(at, at + g.text@.len()) && at + g.text@.len() <= source@.len(),
            pending matches Some(g) ==> blank(g.text@),
    {
        let ghost k = it.index() as int;
        proof {
            assert(cs.skip(k)[0] == cs[k]);
            assert(cs.skip(k).drop_first() =~= cs.skip(k + 1));
            assert(decreases_to!(cv => cv@));
            assert(decreases_to!(cv@ => cv@[k]));
            assert(c == cs[k]);
            assert(wf_node(cs[k], source@));
            assert(start_of(cs[k]) == at + match pending {
                Some(g) => g.text@.len() as int,
                None => 0int,
            });
            assert(wf_children(cs.skip(k + 1), source@, end_of(cs[k]), to));
            assert(cs.take(k + 1) =~= cs.take(k).push(cs[k]));
        }
        match c {
            Node::Text(g) => {
                match pending {
                    Some(m) => {
                        let end = g.start + g.text.len();
                        let text = vstd::slice::slice_subrange(source, m.start, end);
                        let ghost before = out@;
                        let n = Node::Text(Gap { start: m.start, text });
                        out.push(n);
                        proof {
                            lemma_apart_all_index(cs, k);
                            assert(text@ =~= m.text@ + g.text@);
                            crate::bytes::lemma_trim_end_blank_concat(m.text@, g.text@);
                            lemma_apart_push(before, n);
                            lemma_shapes_gap_right(cs.take(k), before, n);
                            lemma_shapes_gap_left(cs.take(k), out@, cs[k]);
                            lemma_hoisted_push(before, n);
                            lemma_wf_children_push(before, n, source@, from, at);
                            at = end as int;
                        }
                    },
                    None => {
                        let ghost before = out@;
                        let n = Node::Text(g);
                        out.push(n);
                        proof {
                            lemma_apart_all_index(cs, k);
                            if before.len() > 0 && before.last() is Text {
                                assert(cs[k - 1] is Text);
                                assert(!(cs[k] is Text));
                            }
                            lemma_apart_push(before, n);
                            lemma_shapes_gap_right(cs.take(k), before, n);
                            lemma_shapes_gap_left(cs.take(k), out@, cs[k]);
                            lemma_hoisted_push(before, n);
                            lemma_wf_children_push(before, n, source@, from, at);
                            at = end_of(n);
                        }
                    },
                }
                pending = None;
            },
            Node::Branch(b) => {
                let ghost pend = pending;
                let ghost prior = out@;
                push_pending(&mut out, pending, source, Ghost(from), Ghost(at));
                proof {
                    if let Some(g) = pend {
                        at = g.start + g.text@.len();
                        lemma_shapes_gap_right(cs.take(k), prior, Node::Text(g));
                        lemma_apart_push(prior, Node::Text(g));
                    }
                    lemma_apart_all_index(cs, k);
                }
                let (hb, moved) = hoist_branch(b, source);
                let ghost before = out@;
                let n = Node::Branch(hb);
                out.push(n);
                proof {
                    lemma_apart_push(before, n);
                    lemma_shapes_push(cs.take(k), before, cs[k], n);
                    lemma_hoisted_push(before, n);
                    lemma_wf_children_push(before, n, source@, from, at);
                    at = end_of(n);
                }
                pending = moved;
            },
            Node::Token(t) => {
                let ghost pend = pending;
                let ghost prior = out@;
                push_pending(&mut out, pending, source, Ghost(from), Ghost(at));
                proof {
                    if let Some(g) = pend {
                        at = g.start + g.text@.len();
                        lemma_shapes_gap_right(cs.take(k), prior, Node::Text(g));
                        lemma_apart_push(prior, Node::Text(g));
                    }
                }
                let keep = crate::bytes::trimmed_end(t.text);
                proof { crate::bytes::lemma_trim_end_len(t.text@); }
                if t.extra || keep == t.text.len() {
                    let ghost before = out@;
                    let n = Node::Token(t);
                    out.push(n);
                    proof {
                        lemma_apart_push(before, n);
                        assert(t.text@.take(t.text@.len() as int) =~= t.text@);
                        lemma_shapes_push(cs.take(k), before, cs[k], n);
                        lemma_hoisted_push(before, n);
                        lemma_wf_children_push(before, n, source@, from, at);
                        at = end_of(n);
                    }
                    pending = None;
                } else {
                    let trimmed = vstd::slice::slice_subrange(t.text, 0, keep);
                    let rest = vstd::slice::slice_subrange(t.text, keep, t.text.len());
                    assert(trimmed@ =~= source@.subrange(t.start as int, t.start + keep));
                    assert(rest@ =~= source@.subrange(t.start + keep, t.start + t.text@.len()));
                    let gap = Gap { start: t.start + keep, text: rest };
                    let ghost before = out@;
                    let n = Node::Token(Token { text: trimmed, ..t });
                    out.push(n);
                    proof {
                        lemma_apart_push(before, n);
                        crate::bytes::lemma_trim_end_rest_blank(t.text@);
                        assert(rest@ =~= t.text@.skip(keep as int));
                        crate::bytes::lemma_trim_end_fixed(t.text@);
                        assert(trimmed@ =~= t.text@.take(keep as int));
                        lemma_shapes_push(cs.take(k), before, cs[k], n);
                        lemma_hoisted_push(before, n);
                        lemma_wf_children_push(before, n, source@, from, at);
                        at = end_of(n);
                    }
                    pending = Some(gap);
                }
            },
        }
    }
    proof {
        assert(cs.skip(cs.len() as int) =~= Seq::<Node>::empty());
        assert(cs.take(cs.len() as int) =~= cs);
    }
    let ghost prior = out@;
    let ghost pend = pending;
    push_pending(&mut out, pending, source, Ghost(from), Ghost(at));
    proof {
        if let Some(g) = pend {
            lemma_shapes_gap_right(cs, prior, Node::Text(g));
            lemma_apart_push(prior, Node::Text(g));
        }
    }
    out
}

/// The branch with its children hoisted, and the gap that ended it, moved out of it.
fn hoist_branch<'a>(b: Branch<'a>, source: &'a [u8]) -> (r: (Branch<'a>, Option<Gap<'a>>))
    requires
        wf_node(Node::Branch(b), source@),
        source@.len() <= usize::MAX,
        apart_tree(Node::Branch(b)),
    ensures
        wf_node(Node::Branch(r.0), source@),
        hoisted(Node::Branch(r.0)),
        !ends_in_gap(Node::Branch(r.0)),
        r.0.start == b.start,
        match r.1 {
            Some(g) => g.start == r.0.end && g.start + g.text@.len() == b.end && g.text@ == source@.subrange(g.start as int, b.end as int)
                && blank(g.text@),
            None => r.0.end == b.end,
        },
        same_shape(Node::Branch(b), Node::Branch(r.0)),
    decreases b,
{
    let ghost b0 = b;
    let Branch { start, end, ty, kind, mode, named, extra, field, children, error, missing, has_error, text } = b;
    proof {
        assert(decreases_to!(b0 => b0.children));
    }
    let mut kids = hoist_children(children, source, Ghost(start as int), Ghost(end as int));
    let ghost ks = kids@;
    if kids.len() > 0 && kids[kids.len() - 1].is_text() {
        let last = kids.pop().unwrap();
        proof {
            assert(kids@ == ks.drop_last());
            lemma_hoisted_drop_last(ks);
            lemma_wf_children_split_last(ks, source@, start as int, end as int);
            lemma_wf_children_bounds(ks.drop_last(), source@, start as int, start_of(ks.last()));
            lemma_shapes_drop_gap(b0.children@, ks);
        }
        proof {
            if ks.len() >= 2 {
                assert(ks[ks.len() - 2] == kids@.last());
            }
            lemma_hoisted_last(ks);
        }
        if let Node::Text(g) = last {
            let new_end = g.start;
            let new_text = vstd::slice::slice_subrange(source, start, new_end);
            return (Branch { start, end: new_end, ty, kind, mode, named, extra, field, children: kids, error, missing, has_error, text: new_text }, Some(g));
        }
    }
    (Branch { start, end, ty, kind, mode, named, extra, field, children: kids, error, missing, has_error, text }, None)
}

pub proof fn lemma_wf_children_split_last(ns: Seq<Node>, source: Seq<u8>, from: int, to: int)
    requires
        wf_children(ns, source, from, to),
        ns.len() > 0,
    ensures
        wf_children(ns.drop_last(), source, from, start_of(ns.last())),
        end_of(ns.last()) == to,
        wf_node(ns.last(), source),
    decreases ns.len(),
{
    if ns.len() > 1 {
        lemma_wf_children_split_last(ns.drop_first(), source, end_of(ns[0]), to);
        assert(ns.drop_first().last() == ns.last());
        assert(ns.drop_first().drop_last() =~= ns.drop_last().drop_first());
        assert(ns.drop_last()[0] == ns[0]);
    } else {
        lemma_wf_children_bounds(ns.drop_first(), source, end_of(ns[0]), to);
        assert(wf_children(ns.drop_first(), source, end_of(ns[0]), to));
        assert(ns.drop_first().len() == 0);
        assert(end_of(ns[0]) == to);
        assert(ns.last() == ns[0]);
        assert(ns.drop_first().len() == 0);
        assert(ns.drop_last().len() == 0);
    }
}

/// Hoists the trailing whitespace of tokens and branches below the root into the gaps after them.
fn hoist_trailing_whitespace<'a>(root: Branch<'a>, source: &'a [u8]) -> (r: Branch<'a>)
    requires
        wf_node(Node::Branch(root), source@),
        source@.len() <= usize::MAX,
        apart_tree(Node::Branch(root)),
    ensures
        wf_node(Node::Branch(r), source@),
        hoisted(Node::Branch(r)),
        r.start == root.start,
        r.end == root.end,
        same_shape(Node::Branch(root), Node::Branch(r)),
{
    let Branch { start, end, ty, kind, mode, named, extra, field, children, error, missing, has_error, text } = root;
    let kids = hoist_children(children, source, Ghost(start as int), Ghost(end as int));
    Branch { start, end, ty, kind, mode, named, extra, field, children: kids, error, missing, has_error, text }
}


/// A syntax error, located.
#[derive(Debug, Clone, PartialEq, Eq)]
pub struct SyntaxError {
    pub message: String,
    /// One-based.
    pub line: usize,
    /// One-based, in characters.
    pub column: usize,
    pub frame: String,
}

/// How a syntax error reads: `line:column: message`, then the frame on the next line.
pub open spec fn syntax_message(e: SyntaxError) -> Seq<u8> {
    crate::bytes::decimal(e.line as nat) + sb(":") + crate::bytes::decimal(e.column as nat) + sb(": ")
        + vstd::utf8::encode_utf8(e.message@) + sb("\n") + vstd::utf8::encode_utf8(e.frame@)
}

/// A syntax error reads as valid UTF-8.
pub proof fn lemma_syntax_message_valid(e: SyntaxError)
    ensures
        vstd::utf8::valid_utf8(syntax_message(e)),
{
    let l = crate::bytes::decimal(e.line as nat);
    let c = crate::bytes::decimal(e.column as nat);
    crate::bytes::lemma_decimal_valid(e.line as nat);
    crate::bytes::lemma_decimal_valid(e.column as nat);
    crate::bytes::lemma_str_valid(":");
    crate::bytes::lemma_str_valid(": ");
    crate::bytes::lemma_str_valid("\n");
    vstd::utf8::encode_utf8_valid_utf8(e.message@);
    vstd::utf8::encode_utf8_valid_utf8(e.frame@);
    let a1 = l + sb(":");
    vstd::utf8::valid_utf8_concat(l, sb(":"));
    let a2 = a1 + c;
    vstd::utf8::valid_utf8_concat(a1, c);
    let a3 = a2 + sb(": ");
    vstd::utf8::valid_utf8_concat(a2, sb(": "));
    let a4 = a3 + vstd::utf8::encode_utf8(e.message@);
    vstd::utf8::valid_utf8_concat(a3, vstd::utf8::encode_utf8(e.message@));
    let a5 = a4 + sb("\n");
    vstd::utf8::valid_utf8_concat(a4, sb("\n"));
    vstd::utf8::valid_utf8_concat(a5, vstd::utf8::encode_utf8(e.frame@));
}

impl SyntaxError {
    /// The error as it reads, in UTF-8.
    pub fn message_bytes(&self) -> (r: Vec<u8>)
        ensures
            r@ == syntax_message(*self),
    {
        let mut out = crate::bytes::decimal_of(self.line);
        crate::bytes::append_str(&mut out, ":");
        let mut c = crate::bytes::decimal_of(self.column);
        out.append(&mut c);
        crate::bytes::append_str(&mut out, ": ");
        crate::bytes::append_str(&mut out, self.message.as_str());
        crate::bytes::append_str(&mut out, "\n");
        crate::bytes::append_str(&mut out, self.frame.as_str());
        assert(out@ =~= syntax_message(*self));
        out
    }

    /// The error as it reads: `line:column: message`, then the frame on the next line.
    pub fn to_message(&self) -> (r: String)
        ensures
            r@ == vstd::utf8::decode_utf8(syntax_message(*self)),
    {
        proof {
            lemma_syntax_message_valid(*self);
        }
        let b = self.message_bytes();
        crate::bytes::string_from_bytes(b.as_slice())
    }
}

/// The node a syntax error is blamed on: whether it is a missing one, and its type.
pub struct Problem<'n, 'a> {
    pub missing: bool,
    pub ty: &'static str,
    pub node: &'n Node<'a>,
}

/// tree-sitter nests the bad token's `ERROR` inside one spanning the failed construct, so the
/// innermost is reported: `(missing, type, node)`.
pub open spec fn problem_v<'a>(n: Node<'a>, enclosing: Option<Node<'a>>) -> Option<(bool, &'static str, Node<'a>)>
    decreases n, 1int,
{
    match n {
        Node::Text(_) => None,
        Node::Token(t) => if t.error || t.missing {
            Some((t.missing, t.kind, n))
        } else {
            None
        },
        Node::Branch(b) => if b.error || b.missing {
            match first_problem(b.children@, Some(n)) {
                Some(p) => Some(p),
                None => Some((b.missing, b.ty, n)),
            }
        } else {
            let flagged = if b.has_error {
                Some(n)
            } else {
                enclosing
            };
            if b.start == b.end && flagged is Some {
                let f = flagged->0;
                Some((false, match ty_of(f) { Some(t) => t, None => "" }, f))
            } else {
                first_problem(b.children@, flagged)
            }
        },
    }
}

/// The first problem among the nodes.
pub open spec fn first_problem<'a>(ns: Seq<Node<'a>>, enclosing: Option<Node<'a>>) -> Option<(bool, &'static str, Node<'a>)>
    decreases ns, 0int,
{
    if ns.len() == 0 {
        None
    } else {
        match problem_v(ns[0], enclosing) {
            Some(p) => Some(p),
            None => first_problem(ns.drop_first(), enclosing),
        }
    }
}

/// An error or a missing node, as tree-sitter marks it.
pub open spec fn flagged(n: Node) -> bool {
    match n {
        Node::Text(_) => false,
        Node::Token(t) => t.error || t.missing,
        Node::Branch(b) => b.error || b.missing,
    }
}

/// Every branch of the tree holds at least one byte.
pub open spec fn spans_all(n: Node) -> bool
    decreases n, 1int,
{
    match n {
        Node::Branch(b) => b.start < b.end && spans_each(b.children@),
        _ => true,
    }
}

pub open spec fn spans_each(ns: Seq<Node>) -> bool
    decreases ns, 0int,
{
    ns.len() == 0 || (spans_all(ns[0]) && spans_each(ns.drop_first()))
}

/// The node a problem is reported at is innermost: where it is an error or missing branch, none
/// of its children is an error or missing node itself.
pub open spec fn innermost(r: Option<(bool, &'static str, Node)>) -> bool {
    r matches Some((_, _, p)) ==> match p {
        Node::Branch(pb) => flagged(p) ==> forall|j: int| 0 <= j < pb.children@.len() ==> !flagged(#[trigger] pb.children@[j]),
        _ => true,
    }
}

proof fn lemma_first_problem_none(ns: Seq<Node>, enclosing: Option<Node>, j: int)
    requires
        first_problem(ns, enclosing) is None,
        0 <= j < ns.len(),
    ensures
        !flagged(ns[j]),
    decreases ns.len(),
{
    assert(problem_v(ns[0], enclosing) is None);
    if j > 0 {
        assert(first_problem(ns.drop_first(), enclosing) is None);
        lemma_first_problem_none(ns.drop_first(), enclosing, j - 1);
        assert(ns.drop_first()[j - 1] == ns[j]);
    } else {
        match ns[0] {
            Node::Branch(b) => {
                if b.error || b.missing {
                    assert(problem_v(ns[0], enclosing) is Some);
                }
            },
            _ => {},
        }
    }
}

proof fn lemma_problem_innermost(n: Node, enclosing: Option<Node>)
    requires
        spans_all(n),
    ensures
        innermost(problem_v(n, enclosing)),
    decreases n, 1int,
{
    if let Node::Branch(b) = n {
        assert(decreases_to!(n => b.children@));
        let flagged_at = if b.has_error { Some(n) } else { enclosing };
        if b.error || b.missing {
            lemma_first_innermost(b.children@, Some(n));
            if first_problem(b.children@, Some(n)) is None {
                assert forall|j: int| 0 <= j < b.children@.len() implies !flagged(#[trigger] b.children@[j]) by {
                    lemma_first_problem_none(b.children@, Some(n), j);
                }
            }
        } else {
            lemma_first_innermost(b.children@, flagged_at);
        }
    }
}

proof fn lemma_first_innermost(ns: Seq<Node>, enclosing: Option<Node>)
    requires
        spans_each(ns),
    ensures
        innermost(first_problem(ns, enclosing)),
    decreases ns, 0int,
{
    if ns.len() > 0 {
        lemma_problem_innermost(ns[0], enclosing);
        lemma_first_innermost(ns.drop_first(), enclosing);
    }
}

/// tree-sitter nests the `ERROR` holding the bad token inside one spanning the construct that
/// failed; a syntax error is located at the innermost node to blame. Where every branch holds a
/// byte, the node reported, if it is an error or missing branch, has no error or missing child.
pub proof fn law_a_syntax_error_is_located_innermost(n: Node, enclosing: Option<Node>)
    requires
        spans_all(n),
    ensures
        problem_v(n, enclosing) matches Some((_, _, p)) ==> match p {
            Node::Branch(pb) => flagged(p) ==> forall|j: int| 0 <= j < pb.children@.len() ==> !flagged(#[trigger] pb.children@[j]),
            _ => true,
        },
{
    lemma_problem_innermost(n, enclosing);
}

fn first_problem_exec<'n, 'a>(b: &'n Branch<'a>, enclosing: Option<&'n Node<'a>>, Ghost(whole): Ghost<Node<'a>>) -> (r: Option<Problem<'n, 'a>>)
    requires
        whole matches Node::Branch(w) && w == *b,
    ensures
        match (r, first_problem(b.children@, match enclosing { Some(e) => Some(*e), None => None })) {
            (Some(p), Some(q)) => p.missing == q.0 && p.ty == q.1 && *p.node == q.2,
            (None, None) => true,
            _ => false,
        },
    decreases whole, 0int,
{
    let ghost enc = match enclosing { Some(e) => Some(*e), None => None };
    let mut i: usize = 0;
    assert(b.children@.skip(0) =~= b.children@);
    while i < b.children.len()
        invariant
            i <= b.children@.len(),
            whole matches Node::Branch(w) && w == *b,
            first_problem(b.children@, enc) == first_problem(b.children@.skip(i as int), enc),
            enc == match enclosing { Some(e) => Some(*e), None => None::<Node> },
        decreases b.children@.len() - i,
    {
        let ghost rest = b.children@.skip(i as int);
        assert(rest.drop_first() =~= b.children@.skip(i + 1));
        assert(rest[0] == b.children@[i as int]);
        assert(decreases_to!(whole => whole->Branch_0));
        assert(decreases_to!(whole->Branch_0 => b.children));
        assert(decreases_to!(b.children => b.children@));
        assert(decreases_to!(b.children@ => b.children@[i as int]));
        if let Some(p) = find_problem(&b.children[i], enclosing) {
            return Some(p);
        }
        i = i + 1;
    }
    None
}

/// The innermost node to blame for a syntax error, if any.
pub fn find_problem<'n, 'a>(n: &'n Node<'a>, enclosing: Option<&'n Node<'a>>) -> (r: Option<Problem<'n, 'a>>)
    ensures
        match (r, problem_v(*n, match enclosing { Some(e) => Some(*e), None => None })) {
            (Some(p), Some(q)) => p.missing == q.0 && p.ty == q.1 && *p.node == q.2,
            (None, None) => true,
            _ => false,
        },
    decreases *n, 1int,
{
    let (error, missing, ty) = match n {
        Node::Text(_) => return None,
        Node::Token(t) => (t.error, t.missing, t.kind),
        Node::Branch(b) => (b.error, b.missing, b.ty),
    };
    if error || missing {
        if let Node::Branch(b) = n {
            if let Some(inner) = first_problem_exec(b, Some(n), Ghost(*n)) {
                return Some(inner);
            }
        }
        return Some(Problem { missing, ty, node: n });
    }
    let b = match n {
        Node::Branch(b) => b,
        _ => return None,
    };
    let flagged = if b.has_error { Some(n) } else { enclosing };
    // A zero-width recovery site with no flagged node below, e.g. `include I;` gets an empty `float_literal`.
    if b.start == b.end {
        if let Some(f) = flagged {
            let fty = match f.ty() {
                Some(t) => t,
                None => "",
            };
            return Some(Problem { missing: false, ty: fty, node: f });
        }
    }
    first_problem_exec(b, flagged, Ghost(*n))
}


/// Blanks as wide as the first `column` characters of `line`: a tab stays a tab, so a caret after
/// them lines up however wide a terminal draws tabs.
pub open spec fn pad_of(line: Seq<u8>, column: nat) -> Seq<u8>
    decreases line.len(),
{
    if line.len() == 0 || column == 0 {
        Seq::empty()
    } else if vstd::utf8::is_continuation_byte(line[0]) {
        pad_of(line.drop_first(), column)
    } else {
        seq![if line[0] == 9u8 { 9u8 } else { 32u8 }] + pad_of(line.drop_first(), (column - 1) as nat)
    }
}

fn pad(line: &[u8], column: usize) -> (r: Vec<u8>)
    ensures
        r@ == pad_of(line@, column as nat),
{
    let mut out: Vec<u8> = Vec::new();
    let mut i: usize = 0;
    let mut left = column;
    assert(line@.skip(0) =~= line@);
    while i < line.len() && left > 0
        invariant
            i <= line@.len(),
            pad_of(line@, column as nat) == out@ + pad_of(line@.skip(i as int), left as nat),
        decreases line@.len() - i,
    {
        let ghost rest = line@.skip(i as int);
        assert(rest.drop_first() =~= line@.skip(i + 1));
        assert(rest[0] == line@[i as int]);
        if !is_continuation(line[i]) {
            out.push(if line[i] == 9u8 { 9u8 } else { 32u8 });
            left = left - 1;
        }
        i = i + 1;
    }
    proof {
        if i == line@.len() {
            assert(line@.skip(i as int).len() == 0);
        }
    }
    assert(out@ + Seq::<u8>::empty() =~= out@);
    out
}

/// `n` spaces.
pub open spec fn blanks(n: nat) -> Seq<u8> {
    Seq::new(n, |i: int| 32u8)
}

fn push_blanks(out: &mut Vec<u8>, n: usize)
    ensures
        final(out)@ == old(out)@ + blanks(n as nat),
{
    let mut i: usize = 0;
    while i < n
        invariant
            i <= n,
            out@ == old(out)@ + blanks(i as nat),
        decreases n - i,
    {
        out.push(32u8);
        i = i + 1;
        assert(out@ =~= old(out)@ + blanks(i as nat));
    }
}

/// The message of a syntax error blamed on a node of type `ty`.
pub open spec fn problem_message(missing: bool, ty: &'static str) -> Seq<u8> {
    if missing {
        if ty@ == "}"@ {
            sb("missing closing brace")
        } else {
            sb("missing `") + sb(ty) + sb("`")
        }
    } else {
        sb("unexpected input")
    }
}

/// The frame under a syntax error: the line, numbered, with a caret under the column.
pub open spec fn frame_of(row: nat, line: Seq<u8>, column: nat) -> Seq<u8> {
    let number = crate::bytes::decimal(row + 1);
    blanks(number.len()) + sb(" |\n") + number + sb(" | ") + line + sb("\n") + blanks(number.len()) + sb(" | ") + pad_of(line, column) + sb("^")
}

/// Bytes below 128 are valid UTF-8.
pub proof fn lemma_ascii_valid(s: Seq<u8>)
    requires
        forall|k: int| 0 <= k < s.len() ==> s[k] < 128,
    ensures
        vstd::utf8::valid_utf8(s),
    decreases s.len(),
{
    if s.len() > 0 {
        lemma_ascii_valid(s.drop_last());
        crate::doc::lemma_push_ascii_valid(s.drop_last(), s.last());
        assert(s.drop_last().push(s.last()) =~= s);
    }
}

/// A line of valid UTF-8, between the start or a line feed and the next line feed or the end, is
/// valid UTF-8.
proof fn lemma_line_valid(s: Seq<u8>, a: int, e: int)
    requires
        vstd::utf8::valid_utf8(s),
        0 <= a <= e <= s.len(),
        a == 0 || s[a - 1] == 10u8,
        e == s.len() || s[e] == 10u8,
    ensures
        vstd::utf8::valid_utf8(s.subrange(a, e)),
{
    let t = s.subrange(a, s.len() as int);
    if a == 0 {
        assert(t =~= s);
    } else {
        vstd::utf8::is_char_boundary_iff_not_is_continuation_byte(s, a - 1);
        vstd::utf8::valid_utf8_split(s, a - 1);
        let u = s.subrange(a - 1, s.len() as int);
        assert(u[0] == 10u8);
        assert(vstd::utf8::pop_first_scalar(u) =~= t);
    }
    vstd::utf8::is_char_boundary_start_end_of_seq(t);
    if e < s.len() {
        vstd::utf8::is_char_boundary_iff_not_is_continuation_byte(t, e - a);
        assert(t[e - a] == s[e]);
    }
    vstd::utf8::valid_utf8_split(t, e - a);
    assert(t.subrange(0, e - a) =~= s.subrange(a, e));
}

proof fn lemma_pad_valid(line: Seq<u8>, column: nat)
    ensures
        vstd::utf8::valid_utf8(pad_of(line, column)),
    decreases line.len(),
{
    if line.len() == 0 || column == 0 {
        assert(vstd::utf8::valid_utf8(Seq::<u8>::empty()));
    } else if vstd::utf8::is_continuation_byte(line[0]) {
        lemma_pad_valid(line.drop_first(), column);
    } else {
        lemma_pad_valid(line.drop_first(), (column - 1) as nat);
        let x: u8 = if line[0] == 9u8 { 9u8 } else { 32u8 };
        crate::bytes::lemma_ascii_byte_valid(x);
        vstd::utf8::valid_utf8_concat(seq![x], pad_of(line.drop_first(), (column - 1) as nat));
    }
}

/// The frame of a valid UTF-8 line is valid UTF-8.
proof fn lemma_frame_valid(row: nat, line: Seq<u8>, column: nat)
    requires
        vstd::utf8::valid_utf8(line),
    ensures
        vstd::utf8::valid_utf8(frame_of(row, line, column)),
{
    let number = crate::bytes::decimal(row + 1);
    let b = blanks(number.len());
    lemma_ascii_valid(b);
    crate::bytes::lemma_decimal_valid(row + 1);
    crate::bytes::lemma_str_valid(" |\n");
    crate::bytes::lemma_str_valid(" | ");
    crate::bytes::lemma_str_valid("\n");
    crate::bytes::lemma_str_valid("^");
    lemma_pad_valid(line, column);
    let x1 = b + sb(" |\n");
    vstd::utf8::valid_utf8_concat(b, sb(" |\n"));
    let x2 = x1 + number;
    vstd::utf8::valid_utf8_concat(x1, number);
    let x3 = x2 + sb(" | ");
    vstd::utf8::valid_utf8_concat(x2, sb(" | "));
    let x4 = x3 + line;
    vstd::utf8::valid_utf8_concat(x3, line);
    let x5 = x4 + sb("\n");
    vstd::utf8::valid_utf8_concat(x4, sb("\n"));
    let x6 = x5 + b;
    vstd::utf8::valid_utf8_concat(x5, b);
    let x7 = x6 + sb(" | ");
    vstd::utf8::valid_utf8_concat(x6, sb(" | "));
    let x8 = x7 + pad_of(line, column);
    vstd::utf8::valid_utf8_concat(x7, pad_of(line, column));
    vstd::utf8::valid_utf8_concat(x8, sb("^"));
}

proof fn lemma_problem_message_valid(missing: bool, ty: &'static str)
    ensures
        vstd::utf8::valid_utf8(problem_message(missing, ty)),
{
    crate::bytes::lemma_str_valid("missing closing brace");
    crate::bytes::lemma_str_valid("missing `");
    crate::bytes::lemma_str_valid(ty);
    crate::bytes::lemma_str_valid("`");
    crate::bytes::lemma_str_valid("unexpected input");
    vstd::utf8::valid_utf8_concat(sb("missing `"), sb(ty));
    vstd::utf8::valid_utf8_concat(sb("missing `") + sb(ty), sb("`"));
}

/// The syntax error for a problem at `offset`: its message, one-based line and column, and frame.
pub fn syntax_error(lines: &Lines<'_>, missing: bool, ty: &'static str, offset: usize) -> (r: SyntaxError)
    requires
        offset <= lines.source().len(),
        lines.source().len() < usize::MAX,
    ensures
        ({
            let row = partition_point(line_starts(lines.source()), offset as int) - 1;
            let starts = line_starts(lines.source());
            let line = lines.source().subrange(
                starts[row] as int,
                if row + 1 < starts.len() { starts[row + 1] - 1 } else { lines.source().len() as int },
            );
            let column = char_count(lines.source().subrange(starts[row] as int, offset as int));
            &&& r.line == row + 1
            &&& r.column == column + 1
            &&& r.message@ == vstd::utf8::decode_utf8(problem_message(missing, ty))
            &&& vstd::utf8::valid_utf8(lines.source()) ==> r.frame@ == vstd::utf8::decode_utf8(frame_of(row as nat, line, column))
        }),
{
    let (row, column) = lines.pos(offset);
    proof {
        lemma_partition_point(line_starts(lines.source()), offset as int);
        lemma_line_starts(lines.source());
        let starts = line_starts(lines.source());
        lemma_char_count(lines.source().subrange(starts[row as int] as int, offset as int));
    }
    let mut message: Vec<u8> = Vec::new();
    if missing {
        if str_eq(ty, "}") {
            crate::bytes::append_str(&mut message, "missing closing brace");
        } else {
            crate::bytes::append_str(&mut message, "missing `");
            crate::bytes::append_str(&mut message, ty);
            crate::bytes::append_str(&mut message, "`");
        }
    } else {
        crate::bytes::append_str(&mut message, "unexpected input");
    }
    let line = lines.line(row);
    let mut number = crate::bytes::decimal_of(row + 1);
    let gutter = number.len();
    let mut frame: Vec<u8> = Vec::new();
    push_blanks(&mut frame, gutter);
    crate::bytes::append_str(&mut frame, " |\n");
    frame.append(&mut number);
    crate::bytes::append_str(&mut frame, " | ");
    let mut l = vstd::slice::slice_to_vec(line);
    frame.append(&mut l);
    crate::bytes::append_str(&mut frame, "\n");
    push_blanks(&mut frame, gutter);
    crate::bytes::append_str(&mut frame, " | ");
    let mut p = pad(line, column);
    frame.append(&mut p);
    crate::bytes::append_str(&mut frame, "^");
    proof {
        assert(frame@ =~= frame_of(row as nat, line@, column as nat));
        assert(message@ =~= problem_message(missing, ty));
        lemma_problem_message_valid(missing, ty);
        if vstd::utf8::valid_utf8(lines.source()) {
            let src = lines.source();
            let starts = line_starts(src);
            lemma_line_starts(src);
            let a = starts[row as int] as int;
            let e = if row + 1 < starts.len() { starts[row + 1] - 1 } else { src.len() as int };
            if row + 1 < starts.len() {
                assert(starts[row as int] < starts[row + 1]);
                assert(src[starts[row + 1] - 1] == 10u8);
            }
            if row > 0 {
                assert(src[starts[row as int] - 1] == 10u8);
            }
            lemma_line_valid(src, a, e);
            lemma_frame_valid(row as nat, line@, column as nat);
        }
    }
    SyntaxError {
        message: crate::bytes::string_from_bytes(message.as_slice()),
        line: row + 1,
        column: column + 1,
        frame: crate::bytes::string_from_bytes(frame.as_slice()),
    }
}


/// Every node's text is valid UTF-8.
pub open spec fn utf8_tree(n: Node) -> bool
    decreases n,
{
    &&& vstd::utf8::valid_utf8(text_of(n))
    &&& match n {
        Node::Branch(b) => utf8_nodes(b.children@),
        _ => true,
    }
}

pub open spec fn utf8_nodes(ns: Seq<Node>) -> bool
    decreases ns,
{
    ns.len() == 0 || (utf8_tree(ns[0]) && utf8_nodes(ns.drop_first()))
}

/// Nodes have valid texts throughout when each of them has.
pub proof fn lemma_utf8_nodes(ns: Seq<Node>)
    ensures
        utf8_nodes(ns) <==> forall|k: int| 0 <= k < ns.len() ==> utf8_tree(#[trigger] ns[k]),
    decreases ns.len(),
{
    if ns.len() > 0 {
        lemma_utf8_nodes(ns.drop_first());
        assert forall|k: int| 0 < k < ns.len() implies ns[k] == ns.drop_first()[k - 1] by {}
        if forall|k: int| 0 <= k < ns.len() ==> utf8_tree(#[trigger] ns[k]) {
            assert forall|k: int| 0 <= k < ns.drop_first().len() implies utf8_tree(#[trigger] ns.drop_first()[k]) by {
                assert(ns.drop_first()[k] == ns[k + 1]);
            }
        }
    }
}

/// A child of a tree with valid texts has valid texts.
pub proof fn lemma_utf8_child(b: Branch, x: Node)
    requires
        utf8_tree(Node::Branch(b)),
        b.children@.contains(x),
    ensures
        utf8_tree(x),
{
    lemma_utf8_nodes(b.children@);
}

/// The bytes of valid UTF-8 between two character boundaries are valid UTF-8.
pub proof fn lemma_between_boundaries_valid(s: Seq<u8>, i: int, j: int)
    requires
        vstd::utf8::valid_utf8(s),
        0 <= i <= j <= s.len(),
        vstd::utf8::is_char_boundary(s, i),
        vstd::utf8::is_char_boundary(s, j),
    ensures
        vstd::utf8::valid_utf8(s.subrange(i, j)),
{
    vstd::utf8::valid_utf8_split(s, i);
    let t = s.subrange(i, s.len() as int);
    vstd::utf8::is_char_boundary_start_end_of_seq(t);
    if j < s.len() {
        vstd::utf8::is_char_boundary_iff_not_is_continuation_byte(s, j);
        vstd::utf8::is_char_boundary_iff_not_is_continuation_byte(t, j - i);
        assert(t[j - i] == s[j]);
    }
    assert(vstd::utf8::is_char_boundary(t, j - i));
    vstd::utf8::valid_utf8_split(t, j - i);
    assert(t.subrange(0, j - i) =~= s.subrange(i, j));
}

/// Every node of the tree starts and ends between characters of the source.
pub open spec fn on_chars(n: Node, source: Seq<u8>) -> bool
    decreases n, 1int,
{
    &&& vstd::utf8::is_char_boundary(source, start_of(n))
    &&& vstd::utf8::is_char_boundary(source, end_of(n))
    &&& match n {
        Node::Branch(b) => on_chars_all(b.children@, source),
        _ => true,
    }
}

pub open spec fn on_chars_all(ns: Seq<Node>, source: Seq<u8>) -> bool
    decreases ns, 0int,
{
    ns.len() == 0 || (on_chars(ns[0], source) && on_chars_all(ns.drop_first(), source))
}

proof fn lemma_on_chars_all(ns: Seq<Node>, source: Seq<u8>)
    ensures
        on_chars_all(ns, source) <==> forall|k: int| 0 <= k < ns.len() ==> on_chars(#[trigger] ns[k], source),
    decreases ns.len(),
{
    if ns.len() > 0 {
        lemma_on_chars_all(ns.drop_first(), source);
        assert forall|k: int| 0 < k < ns.len() implies ns[k] == ns.drop_first()[k - 1] by {}
        if forall|k: int| 0 <= k < ns.len() ==> on_chars(#[trigger] ns[k], source) {
            assert forall|k: int| 0 <= k < ns.drop_first().len() implies on_chars(#[trigger] ns.drop_first()[k], source) by {
                assert(ns.drop_first()[k] == ns[k + 1]);
            }
        }
    }
}

fn on_boundary(source: &[u8], i: usize) -> (r: bool)
    requires
        vstd::utf8::valid_utf8(source@),
        i <= source@.len(),
    ensures
        r == vstd::utf8::is_char_boundary(source@, i as int),
{
    proof {
        vstd::utf8::is_char_boundary_start_end_of_seq(source@);
        if i < source@.len() {
            vstd::utf8::is_char_boundary_iff_not_is_continuation_byte(source@, i as int);
        }
    }
    i == source.len() || !is_continuation(source[i])
}

/// Whether every node of the tree starts and ends between characters of the source; where it
/// does, every node's text is valid UTF-8.
fn on_characters(n: &Node<'_>, source: &[u8]) -> (r: bool)
    requires
        wf_node(*n, source@),
        vstd::utf8::valid_utf8(source@),
    ensures
        r ==> utf8_tree(*n),
        r == on_chars(*n, source@),
    decreases *n,
{
    let _len = source.len();
    if !on_boundary(source, n.start()) || !on_boundary(source, n.end()) {
        return false;
    }
    proof {
        lemma_between_boundaries_valid(source@, start_of(*n), end_of(*n));
    }
    if let Node::Branch(b) = n {
        let mut i: usize = 0;
        while i < b.children.len()
            invariant
                i <= b.children@.len(),
                *n == Node::Branch(*b),
                wf_node(Node::Branch(*b), source@),
                vstd::utf8::valid_utf8(source@),
                forall|k: int| 0 <= k < i ==> utf8_tree(#[trigger] b.children@[k]),
                forall|k: int| 0 <= k < i ==> on_chars(#[trigger] b.children@[k], source@),
                vstd::utf8::is_char_boundary(source@, start_of(*n)),
                vstd::utf8::is_char_boundary(source@, end_of(*n)),
            decreases b.children@.len() - i,
        {
            let child = &b.children[i];
            assert(b.children@.contains(*child));
            proof {
                lemma_child_of(*b, *child, source@);
            }
            if !on_characters(child, source) {
                proof {
                    lemma_on_chars_all(b.children@, source@);
                }
                return false;
            }
            i = i + 1;
        }
        proof {
            lemma_utf8_nodes(b.children@);
            lemma_on_chars_all(b.children@, source@);
        }
    }
    true
}

/// `n` is the tree made of tree-sitter's tree `raw`: the normalised tree with trailing whitespace
/// moved into the gaps. The root spans the source, and its leaves, in order, are exactly its bytes.
pub open spec fn tree_from(raw: RawNode, source: Seq<u8>, heads: Seq<u16>, n: Node) -> bool {
    &&& exists|b: Branch| #[trigger] branch_of(raw, None, b, heads, 0, source.len() as int)
        && same_shape(Node::Branch(b), n)
    &&& n is Branch
    &&& start_of(n) == 0
    &&& wf_node(n, source)
    &&& leaves(n) == source
    &&& hoisted(n)
}

/// The error `syntax_error` makes of the problem `ty` at `offset`.
pub open spec fn error_at(e: SyntaxError, source: Seq<u8>, missing: bool, ty: &'static str, offset: int) -> bool {
    let starts = line_starts(source);
    let row = partition_point(starts, offset) - 1;
    let line = source.subrange(
        starts[row] as int,
        if row + 1 < starts.len() { starts[row + 1] - 1 } else { source.len() as int },
    );
    let column = char_count(source.subrange(starts[row] as int, offset));
    &&& e.line == row + 1
    &&& e.column == column + 1
    &&& e.message@ == vstd::utf8::decode_utf8(problem_message(missing, ty))
    &&& vstd::utf8::valid_utf8(source) ==> e.frame@ == vstd::utf8::decode_utf8(frame_of(row as nat, line, column))
}

/// The error reported where the parser saw an error but no node is to blame.
pub open spec fn unlocated(e: SyntaxError) -> bool {
    &&& e.line == 1
    &&& e.column == 1
    &&& e.message@ == "the parser reported an error but no offending node was found; this is a bug in mo-fmt"@
    &&& e.frame@ == Seq::<char>::empty()
}

/// `e` is the error located at the innermost node of `n` to blame.
pub open spec fn located(e: SyntaxError, n: Node, source: Seq<u8>) -> bool {
    match problem_v(n, None) {
        Some((missing, ty, p)) => if start_of(p) <= source.len() && source.len() < usize::MAX {
            error_at(e, source, missing, ty, start_of(p))
        } else {
            unlocated(e)
        },
        None => unlocated(e),
    }
}

/// The tree of `source` from what tree-sitter read (see [`tree_from`]). `Error::Internal` exactly
/// where tree-sitter's tree doesn't fit the source or splits a character of it; otherwise
/// `Error::Syntax` exactly where tree-sitter reported an error, located at the innermost node to
/// blame.
pub fn tree_of<'a>(raw: &RawNode, source: &'a str, heads: &[u16]) -> (r: Result<Node<'a>, crate::Error>)
    ensures
        r matches Ok(n) ==> !raw.has_error && tree_from(*raw, sb(source), heads@, n) && utf8_tree(n)
            && on_chars(n, sb(source)),
        r matches Err(crate::Error::Syntax(e)) ==> raw.has_error && fits_v(*raw, sb(source))
            && exists|n: Node| #[trigger] tree_from(*raw, sb(source), heads@, n) && on_chars(n, sb(source))
                && located(e, n, sb(source)),
        r is Err && !(r matches Err(crate::Error::Syntax(_))) ==> !fits_v(*raw, sb(source))
            || exists|n: Node| #[trigger] tree_from(*raw, sb(source), heads@, n) && !on_chars(n, sb(source)),
        !fits_v(*raw, sb(source)) ==> !(r is Ok) && !(r matches Err(crate::Error::Syntax(_))),
        raw.has_error ==> r is Err,
{
    let bytes = source.as_bytes();
    let root = match normalize(raw, bytes, heads) {
        Ok(b) => b,
        Err(e) => return Err(crate::Error::Internal(e)),
    };
    let ghost normalized = root;
    let root = hoist_trailing_whitespace(root, bytes);
    assert(branch_of(*raw, None, normalized, heads@, 0, sb(source).len() as int));
    let root = Node::Branch(root);
    proof {
        lemma_wf_leaves(root, bytes@);
        assert(bytes@.subrange(0, bytes@.len() as int) =~= bytes@);
        crate::bytes::lemma_str_valid(source);
    }
    assert(tree_from(*raw, sb(source), heads@, root));
    if !on_characters(&root, bytes) {
        return Err(crate::Error::Internal(crate::bytes::string_of("the syntax tree splits a character")));
    }
    if raw.has_error {
        let lines = Lines::new(bytes);
        let e = match find_problem(&root, None) {
            Some(problem) => {
                let at = problem.node.start();
                if at <= bytes.len() && bytes.len() < usize::MAX {
                    syntax_error(&lines, problem.missing, problem.ty, at)
                } else {
                    unlocated_error()
                }
            },
            None => unlocated_error(),
        };
        return Err(crate::Error::Syntax(e));
    }
    Ok(root)
}

/// `raw` holds tree-sitter's tree of `source` in `language`, as read into plain values.
pub open spec fn read_v(language: tree_sitter::Language, source: Seq<u8>, raw: RawNode) -> bool {
    crate::ts::raw_at(raw, language, source, Seq::empty(), usize::MAX as nat)
}

/// tree-sitter's tree of `source` in `language` can be read into plain values.
pub open spec fn readable_v(language: tree_sitter::Language, source: Seq<u8>) -> bool {
    crate::ts::readable(language, source, Seq::empty(), usize::MAX as nat)
}

/// `n` is the tree of `source` in the grammar `g`: the one made of tree-sitter's tree of it, which
/// reports no error.
pub open spec fn parsed(source: Seq<u8>, g: crate::Grammar, n: Node) -> bool {
    exists|raw: RawNode| #[trigger] read_v(g.language(), source, raw) && !raw.has_error
        && tree_from(raw, source, g.heads(), n) && utf8_tree(n) && on_chars(n, source)
}

/// `e` is the syntax error of `source` in the grammar `g`: tree-sitter's tree of it reports an
/// error, and `e` is located at the innermost node to blame.
pub open spec fn syntax_v(source: Seq<u8>, g: crate::Grammar, e: SyntaxError) -> bool {
    exists|raw: RawNode| #[trigger] read_v(g.language(), source, raw) && raw.has_error && fits_v(raw, source)
        && exists|n: Node| #[trigger] tree_from(raw, source, g.heads(), n) && on_chars(n, source)
            && located(e, n, source)
}

/// tree-sitter's tree of `source` in the grammar `g` doesn't fit it, or splits one of its
/// characters.
pub open spec fn unfit_v(source: Seq<u8>, g: crate::Grammar) -> bool {
    exists|raw: RawNode| #[trigger] read_v(g.language(), source, raw) && (!fits_v(raw, source)
        || exists|n: Node| #[trigger] tree_from(raw, source, g.heads(), n) && !on_chars(n, source))
}

/// `source` can't be parsed in `grammar` for a reason of tree-sitter's: it doesn't take the
/// grammar, or its tree can't be read, doesn't fit the source or splits a character of it.
pub open spec fn unparsed_v(source: Seq<u8>, grammar: crate::Grammar) -> bool {
    !grammar.accepted() || !readable_v(grammar.language(), source) || unfit_v(source, grammar)
}

/// The tree of `source`: the one made of tree-sitter's tree of it (see [`tree_from`]).
/// `Error::Syntax` exactly where tree-sitter reports an error, located at the innermost node to
/// blame; `Error::Internal` where tree-sitter doesn't take the grammar, or its tree can't be read,
/// doesn't fit the source or splits a character of it.
pub fn parse<'a>(source: &'a str, grammar: &crate::Grammar) -> (r: Result<Node<'a>, crate::Error>)
    ensures
        r matches Ok(n) ==> parsed(sb(source), *grammar, n),
        r matches Err(crate::Error::Syntax(e)) ==> syntax_v(sb(source), *grammar, e),
        r is Err && !(r matches Err(crate::Error::Syntax(_))) ==> unparsed_v(sb(source), *grammar),
        grammar.accepted() && readable_v(grammar.language(), sb(source))
            && crate::ts::motoko_has_error(grammar.language(), sb(source), Seq::empty())
            ==> r is Err,
        !grammar.accepted() ==> r is Err && !(r matches Err(crate::Error::Syntax(_))),
{
    let bytes = source.as_bytes();
    let parser = crate::ts::parser_new();
    let mut parser = match crate::ts::parser_set_language(parser, grammar) {
        Some(p) => p,
        None => return Err(crate::Error::Internal(crate::bytes::string_of("the grammar's ABI does not match tree-sitter"))),
    };
    let tree = match crate::ts::parser_parse(&mut parser, bytes) {
        Some(t) => t,
        None => return Err(crate::Error::Internal(crate::bytes::string_of("parsing was cancelled"))),
    };
    let ts_root = crate::ts::root_node(&tree, Vec::new());
    let raw = match crate::ts::read_node(&ts_root, usize::MAX) {
        Ok(r) => r,
        Err(e) => return Err(crate::Error::Internal(e)),
    };
    assert(read_v(grammar.language(), sb(source), raw));
    tree_of(&raw, source, grammar.head_symbols())
}

fn unlocated_error() -> (r: SyntaxError)
    ensures
        unlocated(r),
{
    SyntaxError {
        message: crate::bytes::string_of("the parser reported an error but no offending node was found; this is a bug in mo-fmt"),
        line: 1,
        column: 1,
        frame: String::new(),
    }
}

} // verus!
