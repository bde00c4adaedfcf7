//! The `preserve` printer: normalises spacing and indentation, and keeps the author's line breaks.

pub mod control;
pub mod exp;
pub mod layout;
pub mod parts;
pub mod utf8;

use vstd::prelude::*;
use crate::bytes::{ends_with, sb, starts_with, trim_start_len, trim_v};
use crate::doc::{align, concat, concat2, concat3, empty, free_of, group, lemma_view_docs, lemma_view_docs_push, text, verbatim_bytes, verbatim_v, view_docs, Doc, DocV, BreakParent, HardLine};
use crate::tree::{char_count, is_break_v, lemma_child_of, text_of, wf_node, Branch, Lines, Node};
use parts::{
    between_separator, between_separator_v, blank_in, blank_in_v, breaks_v, gap_v, has_blank_line, is_comment, is_comment_v, is_line_comment, is_line_comment_v, items_view, list_indent, list_indent_v, list_items,
    list_of, list_of_v, newlines, newlines_v, separator_line, separator_line_v, trailing_separator, trailing_separator_v, verbatim,
    clean, lemma_literals, lemma_text_clean, Family, Item, ItemV, List,
};

verus! {

/// What the printer reads besides the tree: the source's lines.
pub struct Ctx<'a> {
    pub lines: Lines<'a>,
}

impl<'a> Ctx<'a> {
    pub open spec fn source(&self) -> Seq<u8> {
        self.lines.source()
    }
}

/// The doc for a whole tree: the source file's items one per line, or the node on its own.
pub fn print<'a>(root: &Node<'a>, source: &'a str) -> (r: Doc)
    requires
        wf_node(*root, sb(source)),
        sb(source).len() < usize::MAX,
    ensures
        r@ == layout::print_v(*root, sb(source)),
        r@ matches DocV::Group { broken, .. } && !broken,
        clean(sb(source)) ==> free_of(r@, 13u8),
{
    let ctx = Ctx { lines: Lines::new(source.as_bytes()) };
    let doc = match root {
        Node::Branch(b) => if list_of(b).is_some() {
            source_file_doc(b, &ctx)
        } else {
            node_doc(root, &ctx)
        },
        _ => node_doc(root, &ctx),
    };
    group(doc, false)
}

/// The number of whitespace characters a line starts with.
pub open spec fn indent_of_v(line: Seq<u8>) -> nat {
    char_count(line.take(trim_start_len(line) as int))
}

fn indent_of(line: &[u8]) -> (r: usize)
    ensures
        r == indent_of_v(line@),
{
    let n = crate::bytes::trimmed_start(line);
    proof {
        crate::bytes::lemma_trim_start_len(line@);
    }
    crate::tree::char_count_of(vstd::slice::slice_subrange(line, 0, n))
}

/// `s` without its leading `*`s.
pub open spec fn strip_stars_start(s: Seq<u8>) -> Seq<u8>
    decreases s.len(),
{
    if s.len() > 0 && s[0] == 42u8 {
        strip_stars_start(s.drop_first())
    } else {
        s
    }
}

/// `s` without its trailing `*`s.
pub open spec fn strip_stars_end(s: Seq<u8>) -> Seq<u8>
    decreases s.len(),
{
    if s.len() > 0 && s.last() == 42u8 {
        strip_stars_end(s.drop_last())
    } else {
        s
    }
}

/// What a comment says: its text without `//`, or without the `/*` and `*/` of a block comment
/// and the stars beside them, trimmed.
pub open spec fn comment_words(t: Seq<u8>) -> Seq<u8> {
    let slash = sb("/");
    let s1 = if starts_with(t, sb("//")) { t.skip(sb("//").len() as int) } else { t };
    let s2 = if starts_with(s1, slash) && starts_with(s1.skip(slash.len() as int), sb("*")) {
        strip_stars_start(s1.skip(slash.len() as int))
    } else {
        s1
    };
    let s3 = if ends_with(s2, slash) && ends_with(s2.take(s2.len() - slash.len()), sb("*")) {
        strip_stars_end(s2.take(s2.len() - slash.len()))
    } else {
        s2
    };
    trim_v(s3)
}

/// Whether a node is a `mo-fmt-ignore` (or `prettier-ignore`) comment.
pub open spec fn is_ignore_directive_v(n: Node) -> bool {
    is_comment_v(n) && (comment_words(text_of(n)) == sb("mo-fmt-ignore") || comment_words(text_of(n)) == sb("prettier-ignore"))
}

fn is_ignore_directive(n: &Node<'_>) -> (r: bool)
    ensures
        r == is_ignore_directive_v(*n),
{
    if !is_comment(n) {
        return false;
    }
    let t = n.text();
    let mut s = t;
    let dslash = "//".as_bytes();
    let slash = "/".as_bytes();
    let star = "*".as_bytes();
    if crate::bytes::bytes_starts_with(s, dslash) {
        s = vstd::slice::slice_subrange(s, dslash.len(), s.len());
    }
    assert(s@ =~= if starts_with(t@, sb("//")) { t@.skip(sb("//").len() as int) } else { t@ });
    let ghost s1 = s@;
    if crate::bytes::bytes_starts_with(s, slash) {
        let rest = vstd::slice::slice_subrange(s, slash.len(), s.len());
        if crate::bytes::bytes_starts_with(rest, star) {
            let mut i: usize = 0;
            assert(rest@.skip(0) =~= rest@);
            while i < rest.len() && rest[i] == 42u8
                invariant
                    i <= rest@.len(),
                    strip_stars_start(rest@) == strip_stars_start(rest@.skip(i as int)),
                decreases rest@.len() - i,
            {
                assert(rest@.skip(i as int).drop_first() =~= rest@.skip(i + 1));
                i = i + 1;
            }
            s = vstd::slice::slice_subrange(rest, i, rest.len());
            assert(rest@ =~= s1.skip(sb("/").len() as int));
            assert(s@ =~= rest@.skip(i as int));
        }
    }
    let ghost s2 = s@;
    if crate::bytes::bytes_ends_with(s, slash) {
        let rest = vstd::slice::slice_subrange(s, 0, s.len() - slash.len());
        assert(rest@ =~= s2.take(s2.len() - sb("/").len()));
        if crate::bytes::bytes_ends_with(rest, star) {
            let mut j: usize = rest.len();
            assert(rest@.take(j as int) =~= rest@);
            while j > 0 && rest[j - 1] == 42u8
                invariant
                    j <= rest@.len(),
                    strip_stars_end(rest@) == strip_stars_end(rest@.take(j as int)),
                decreases j,
            {
                assert(rest@.take(j as int).drop_last() =~= rest@.take(j - 1));
                j = j - 1;
            }
            s = vstd::slice::slice_subrange(rest, 0, j);
        }
    }
    let w = crate::bytes::trim(s);
    crate::bytes::bytes_eq(w, "mo-fmt-ignore".as_bytes()) || crate::bytes::bytes_eq(w, "prettier-ignore".as_bytes())
}

/// The doc of a node that isn't a branch: a gap as written, a comment as written with a forced
/// break after it, a token as written.
pub open spec fn leaf_doc_v(n: Node) -> DocV {
    if n is Token && is_comment_v(n) {
        DocV::Concat(seq![verbatim_v(text_of(n)), DocV::BreakParent])
    } else {
        verbatim_v(text_of(n))
    }
}

/// The doc of a node: a gap as written, a comment as written with a forced break after it, a
/// token as written; a branch as a list, a chain, a `switch`, or else with the source's gaps.
pub fn node_doc<'a>(n: &Node<'a>, ctx: &Ctx<'a>) -> (r: Doc)
    requires
        wf_node(*n, ctx.source()),
    ensures
        r@ == layout::node_doc_v(*n, ctx.source()),
        !(n is Branch) ==> r@ == leaf_doc_v(*n),
        clean(ctx.source()) ==> free_of(r@, 13u8),
    decreases *n, 4int,
{
    proof {
        if clean(ctx.source()) {
            lemma_text_clean(*n, ctx.source());
            crate::doc::lemma_verbatim_free(text_of(*n), 13u8);
        }
    }
    match n {
        Node::Text(g) => verbatim_bytes(g.text),
        Node::Token(_) => if is_comment(n) {
            concat2(verbatim(n), BreakParent)
        } else {
            verbatim(n)
        },
        Node::Branch(b) => {
            if is_comment(n) {
                return concat2(verbatim(n), BreakParent);
            }
            if let Some(list) = list_of(b) {
                return list_doc(b, list, ctx);
            }
            if let Some(doc) = exp::binary_chain_doc(b, ctx) {
                return doc;
            }
            if let Some(doc) = control::control_doc(b, ctx) {
                return doc;
            }
            branch_doc(b, ctx)
        },
    }
}

/// The number of characters after the last line break of `s`.
pub open spec fn tail_chars(s: Seq<u8>) -> nat
    decreases s.len(),
{
    if s.len() == 0 {
        0
    } else if s.last() == 10u8 {
        0
    } else {
        tail_chars(s.drop_last()) + if vstd::utf8::is_continuation_byte(s.last()) { 0nat } else { 1nat }
    }
}

fn tail_chars_of(s: &[u8]) -> (r: usize)
    ensures
        r == tail_chars(s@),
{
    let mut n: usize = 0;
    let mut i: usize = 0;
    while i < s.len()
        invariant
            i <= s@.len(),
            n == tail_chars(s@.take(i as int)),
            n <= i,
        decreases s@.len() - i,
    {
        assert(s@.take(i + 1).drop_last() =~= s@.take(i as int));
        if s[i] == 10u8 {
            n = 0;
        } else if !crate::tree::is_continuation(s[i]) {
            n = n + 1;
        }
        i = i + 1;
    }
    assert(s@.take(s@.len() as int) =~= s@);
    n
}

/// A node with no layout of its own: children with the source's gaps.
/// After a copied line break, the rest sits at its source column relative to the node's first line,
/// so a list nested inside indents from where the author put it.
fn branch_doc<'a>(b: &Branch<'a>, ctx: &Ctx<'a>) -> (r: Doc)
    requires
        wf_node(Node::Branch(*b), ctx.source()),
    ensures
        r@ == layout::branch_doc_v(*b, ctx.source()),
        clean(ctx.source()) ==> free_of(r@, 13u8),
    decreases Node::Branch(*b), 3int,
{
    let ghost src = ctx.source();
    let row = ctx.lines.row(b.start);
    let base = indent_of(ctx.lines.line(row));
    let mut out: Vec<Doc> = Vec::new();
    let mut seg_open = false;
    let mut seg_n: usize = 0;
    let mut seg_docs: Vec<Doc> = Vec::new();
    let mut i: usize = 0;
    assert(view_docs(out@) =~= Seq::<DocV>::empty());
    while i < b.children.len()
        invariant
            i <= b.children@.len(),
            src == ctx.source(),
            wf_node(Node::Branch(*b), src),
            base as nat == indent_of_v(layout::line_v(src, b.start as int)),
            ({
                let (o, seg) = layout::branch_fold(*b, i as int, base as nat, src);
                &&& view_docs(out@) == o
                &&& seg_open == (seg is Some)
                &&& seg_open ==> seg.unwrap().0 == seg_n as nat && seg.unwrap().1 == view_docs(seg_docs@)
            }),
            clean(src) ==> forall|k: int| 0 <= k < out@.len() ==> free_of(#[trigger] out@[k]@, 13u8),
            clean(src) ==> forall|k: int| 0 <= k < seg_docs@.len() ==> free_of(#[trigger] seg_docs@[k]@, 13u8),
        decreases b.children@.len() - i,
    {
        let child = &b.children[i];
        assert(b.children@.contains(*child));
        proof {
            lemma_child_of(*b, *child, src);
        }
        let ghost prev = layout::branch_fold(*b, i as int, base as nat, src);
        if let Node::Text(g) = child {
            if crate::bytes::has_byte(g.text, 10u8) {
                if seg_open {
                    let mut docs: Vec<Doc> = Vec::new();
                    std::mem::swap(&mut docs, &mut seg_docs);
                    let joined = concat(docs);
                    assert(clean(src) ==> free_of(joined@, 13u8));
                    let a = align(seg_n, joined);
                    proof {
                        lemma_view_docs_push(out@, a);
                    }
                    out.push(a);
                }
                let column = tail_chars_of(g.text);
                seg_open = true;
                seg_n = if column > base { column - base } else { 0 };
                seg_docs = Vec::new();
                seg_docs.push(HardLine);
                if newlines(g.text) >= 2 {
                    seg_docs.push(HardLine);
                }
                proof {
                    lemma_view_docs(seg_docs@);
                    assert(view_docs(seg_docs@) =~= (if newlines_v(g.text@) >= 2 {
                        seq![DocV::HardLine, DocV::HardLine]
                    } else {
                        seq![DocV::HardLine]
                    }));
                    assert(view_docs(out@) == layout::close_segment(prev.0, prev.1));
                }
                i = i + 1;
                continue;
            }
        }
        let doc = node_doc(child, ctx);
        if seg_open {
            proof {
                lemma_view_docs_push(seg_docs@, doc);
            }
            seg_docs.push(doc);
        } else {
            proof {
                lemma_view_docs_push(out@, doc);
            }
            out.push(doc);
        }
        assert(doc@ == layout::child_doc_v(*b, b.children@[i as int], src));
        i = i + 1;
    }
    if seg_open {
        let joined = concat(seg_docs);
        assert(clean(src) ==> free_of(joined@, 13u8));
        let a = align(seg_n, joined);
        proof {
            lemma_view_docs_push(out@, a);
        }
        out.push(a);
    }
    concat(out)
}

/// Whether a list was written on one line.
pub open spec fn flat_v(b: Branch) -> bool {
    !exists|i: int| 0 <= i < b.children@.len() && is_break_v(#[trigger] b.children@[i])
}

pub(crate) fn is_flat(b: &Branch<'_>) -> (r: bool)
    ensures
        r == flat_v(*b),
{
    let mut i: usize = 0;
    while i < b.children.len()
        invariant
            i <= b.children@.len(),
            forall|j: int| 0 <= j < i ==> !is_break_v(#[trigger] b.children@[j]),
        decreases b.children@.len() - i,
    {
        if b.children[i].is_break() {
            return false;
        }
        i = i + 1;
    }
    true
}

/// The node just before the last closing bracket, if there is one before it.
fn before_close<'n, 'a>(b: &'n Branch<'a>, close: &'static str) -> (r: Option<&'n Node<'a>>)
    ensures
        r is Some <==> (layout::last_token(b.children@, close) matches Some(i) && i >= 1),
        r matches Some(x) ==> *x == b.children@[layout::last_token(b.children@, close).unwrap() - 1],
{
    let ghost ks = b.children@;
    let mut i = b.children.len();
    assert(ks.take(i as int) =~= ks);
    while i > 0
        invariant
            i <= ks.len(),
            ks == b.children@,
            layout::last_token(ks, close) == layout::last_token(ks.take(i as int), close),
        decreases i,
    {
        assert(ks.take(i as int).drop_last() =~= ks.take(i - 1));
        assert(ks.take(i as int).last() == ks[i - 1]);
        if b.children[i - 1].is_token(close) {
            if i - 1 >= 1 {
                return Some(&b.children[i - 2]);
            }
            return None;
        }
        i = i - 1;
    }
    None
}

/// The layout of a non-empty list around its joined items and what follows them: a group, broken
/// if the source broke the list anywhere, of the brackets around the body, which starts with a blank
/// line where the source had one after the opening bracket of a broken list.
pub open spec fn list_shape(b: Branch, list: List, items: DocV, after: DocV) -> DocV {
    let flat = flat_v(b);
    let iv = items_view_of(b);
    let before = if !flat && blank_in_v(iv[0].1) { DocV::HardLine } else { DocV::Text(Seq::empty()) };
    DocV::Group {
        broken: !flat,
        contents: Box::new(DocV::Concat(seq![
            DocV::Text(sb(list.open)),
            list_indent_v(DocV::Concat(seq![before, items, after]), list, is_line_comment_v(iv.last().0), flat),
            DocV::Text(sb(list.close)),
        ])),
    }
}

/// A list: its items one per line if the author broke it anywhere, otherwise on one line.
fn list_doc<'a>(b: &Branch<'a>, list: List, ctx: &Ctx<'a>) -> (r: Doc)
    requires
        wf_node(Node::Branch(*b), ctx.source()),
        list_of_v(*b) == Some(list),
    ensures
        r@ == layout::list_doc_v(*b, list, ctx.source()),
        clean(ctx.source()) ==> free_of(r@, 13u8),
    decreases Node::Branch(*b), 3int,
{
    proof {
        lemma_literals();
    }
    let items = list_items(b, true);
    if items.len() == 0 {
        return if has_blank_line(b) {
            crate::doc::concat4(text(list.open), HardLine, HardLine, text(list.close))
        } else {
            concat2(text(list.open), text(list.close))
        };
    }
    // The author's layout decides: a list with a line break breaks one item per line, any other stays on one line.
    let flat = is_flat(b);
    let last_is_line_comment = is_line_comment(items[items.len() - 1].node);
    let blank_after_open = !flat && blank_in(items[0].gap);
    let blank_before_close = !flat && match before_close(b, list.close) {
        Some(Node::Text(g)) => blank_in(Some(g.text)),
        _ => false,
    };
    assert(items_view(items@)[0] == parts::item_v(items@[0]));
    assert(items_view(items@).last() == parts::item_v(items@[items@.len() - 1]));
    let joined = list_items_doc(b, &items, list, ctx, flat);
    let ghost jv = joined@;
    let before = if blank_after_open { HardLine } else { empty() };
    let after = if blank_before_close { HardLine } else { empty() };
    let ghost av = after@;
    let body = concat3(before, joined, after);
    let ghost bv = body@;
    let indented = list_indent(body, list, last_is_line_comment, flat);
    assert(clean(ctx.source()) ==> free_of(bv, 13u8));
    let contents = concat3(text(list.open), indented, text(list.close));
    assert(clean(ctx.source()) ==> free_of(contents@, 13u8));
    let d = group(contents, !flat);
    assert(av == layout::after_v(*b, list));
    assert(list_shape(*b, list, jv, av) == d@);
    d
}

/// The items of a list branch, joined.
pub open spec fn items_view_of<'a>(b: Branch<'a>) -> Seq<ItemV<'a>> {
    parts::items_v(b.children@, true).0
}

/// What follows the `i`th item's doc `printed`: the trailing separator after the last; otherwise the
/// separator and break to the next, or, after an unseparated item, a space in a flat list or
/// beside an inline block comment, and else the break of [`separator_line`].
pub open spec fn after_item_v(items: Seq<ItemV>, i: int, printed: DocV, family: Family, flat: bool) -> DocV {
    let item = items[i];
    if i == items.len() - 1 {
        trailing_separator_v(family, item.2, is_line_comment_v(item.0))
    } else {
        let next = items[i + 1];
        if item.2 {
            between_separator_v(family, printed, next.1, is_line_comment_v(item.0), is_comment_v(next.0), flat)
        } else if flat || (is_comment_v(item.0) && !is_line_comment_v(item.0) && !breaks_v(next.1)) {
            DocV::Text(sb(" "))
        } else {
            separator_line_v(printed, next.1, is_comment_v(next.0))
        }
    }
}

/// Items that belong to a well-formed branch.
pub open spec fn items_of<'n, 'a>(items: Seq<Item<'n, 'a>>, b: Branch<'a>, source: Seq<u8>) -> bool {
    &&& wf_node(Node::Branch(b), source)
    &&& forall|k: int| 0 <= k < items.len() ==> b.children@.contains(*(#[trigger] items[k]).node)
    &&& forall|k: int, j: int| 0 <= k < items.len() && 0 <= j < items[k].rest@.len() ==> b.children@.contains(*(#[trigger] items[k].rest@[j]).1)
    &&& forall|k: int, j: int| 0 <= k < items.len() && 0 <= j < items[k].rest@.len() ==> parts::gap_of(b, (#[trigger] items[k].rest@[j]).0)
}

fn list_items_doc<'n, 'a>(b: &Branch<'a>, items: &Vec<Item<'n, 'a>>, list: List, ctx: &Ctx<'a>, flat: bool) -> (r: Doc)
    requires
        items_of(items@, *b, ctx.source()),
    ensures
        r@ == layout::list_items_doc_v(*b, items_view(items@), list.family, flat, ctx.source()),
        clean(ctx.source()) ==> free_of(r@, 13u8),
    decreases Node::Branch(*b), 2int,
{
    let mut out: Vec<Doc> = Vec::new();
    let ghost iv = items_view(items@);
    let mut i: usize = 0;
    assert(view_docs(out@) =~= Seq::<DocV>::empty());
    while i < items.len()
        invariant
            i <= items@.len(),
            items_of(items@, *b, ctx.source()),
            iv == items_view(items@),
            view_docs(out@) == layout::items_fold(*b, iv, list.family, flat, ctx.source(), i as int),
            clean(ctx.source()) ==> forall|k: int| 0 <= k < out@.len() ==> free_of(#[trigger] out@[k]@, 13u8),
        decreases items@.len() - i,
    {
        proof {
            lemma_literals();
        }
        let printed = item_doc(b, items, i, ctx);
        let item = &items[i];
        assert(iv[i as int] == parts::item_v(items@[i as int]));
        let sep = if i + 1 == items.len() {
            trailing_separator(list.family, item.separated, is_line_comment(item.node))
        } else {
            let next = &items[i + 1];
            assert(iv[i + 1] == parts::item_v(items@[i + 1]));
            if item.separated {
                between_separator(list.family, &printed, next.gap, is_line_comment(item.node), is_comment(next.node), flat)
            } else {
                // A block comment stays on the line of the item it annotates, as in `/* x = */ one`.
                let inline_comment = is_comment(item.node) && !is_line_comment(item.node) && !match next.gap {
                    Some(g) => crate::bytes::has_byte(g, 10u8),
                    None => false,
                };
                if flat || inline_comment {
                    text(" ")
                } else {
                    separator_line(&printed, next.gap, is_comment(next.node))
                }
            }
        };
        let ghost pv = printed@;
        assert(sep@ == after_item_v(iv, i as int, pv, list.family, flat));
        proof {
            let before = view_docs(out@);
            lemma_view_docs_push(out@, printed);
            lemma_view_docs_push(out@.push(printed), sep);
            let step = seq![pv, sep@];
            assert(layout::items_fold(*b, iv, list.family, flat, ctx.source(), i + 1) == before + step);
            assert(before + step =~= before.push(pv).push(sep@));
        }
        out.push(printed);
        out.push(sep);
        i = i + 1;
    }
    concat(out)
}

/// The doc of the `i`th item and the nodes that continue it. After an ignore directive, the item is
/// left as written, with its gaps.
fn item_doc<'n, 'a>(b: &Branch<'a>, items: &Vec<Item<'n, 'a>>, i: usize, ctx: &Ctx<'a>) -> (r: Doc)
    requires
        items_of(items@, *b, ctx.source()),
        i < items@.len(),
    ensures
        r@ == layout::item_doc_v(*b, items_view(items@), i as int, ctx.source()),
        clean(ctx.source()) ==> free_of(r@, 13u8),
    decreases Node::Branch(*b), 1int,
{
    let ghost src = ctx.source();
    let item = &items[i];
    let ghost iv = items_view(items@);
    assert(iv[i as int] == parts::item_v(items@[i as int]));
    let ignored = i > 0 && is_ignore_directive(items[i - 1].node);
    proof {
        if i > 0 {
            assert(iv[i - 1] == parts::item_v(items@[i - 1]));
        }
        lemma_child_of(*b, *item.node, src);
    }
    proof {
        lemma_literals();
        if clean(src) {
            lemma_text_clean(*item.node, src);
        }
    }
    let mut out: Vec<Doc> = Vec::new();
    let first = if ignored { verbatim(item.node) } else { node_doc(item.node, ctx) };
    let ghost fv = first@;
    assert(fv == if ignored { verbatim_v(text_of(iv[i as int].0)) } else { layout::child_doc_v(*b, iv[i as int].0, src) });
    out.push(first);
    let mut j: usize = 0;
    proof {
        lemma_view_docs(out@);
        assert(view_docs(out@) =~= seq![fv] + layout::rest_fold(*b, iv[i as int].3, ignored, src, 0));
    }
    while j < item.rest.len()
        invariant
            src == ctx.source(),
            items_of(items@, *b, src),
            i < items@.len(),
            *item == items@[i as int],
            j <= item.rest@.len(),
            iv == items_view(items@),
            iv[i as int] == parts::item_v(*item),
            ignored == (i > 0 && is_ignore_directive_v(iv[i - 1].0)),
            view_docs(out@) == seq![fv] + layout::rest_fold(*b, iv[i as int].3, ignored, src, j as int),
            clean(src) ==> forall|k: int| 0 <= k < out@.len() ==> free_of(#[trigger] out@[k]@, 13u8),
        decreases item.rest@.len() - j,
    {
        proof {
            lemma_literals();
        }
        let (gap, node) = item.rest[j];
        assert(parts::rest_v(item.rest@)[j as int] == (gap_v(gap), *node));
        proof {
            assert(b.children@.contains(*items@[i as int].rest@[j as int].1));
            lemma_child_of(*b, *node, src);
            assert(parts::gap_of(*b, items@[i as int].rest@[j as int].0));
            if clean(src) {
                lemma_text_clean(*node, src);
                if let Some(g) = gap {
                    let w = choose|w: int| 0 <= w < b.children@.len() && #[trigger] b.children@[w] is Text && text_of(b.children@[w]) == g@;
                    assert(b.children@.contains(b.children@[w]));
                    lemma_child_of(*b, b.children@[w], src);
                    lemma_text_clean(b.children@[w], src);
                }
            }
        }
        let ghost prev = view_docs(out@);
        let (g, d) = if ignored {
            let g = match gap {
                Some(g) => crate::doc::text_bytes(vstd::slice::slice_to_vec(g)),
                None => empty(),
            };
            (g, verbatim(node))
        } else {
            let g = match gap {
                None => empty(),
                Some(g) => if crate::bytes::has_byte(g, 10u8) { HardLine } else { text(" ") },
            };
            (g, node_doc(node, ctx))
        };
        proof {
            let rest = iv[i as int].3;
            assert(rest == parts::rest_v(item.rest@));
            assert(rest[j as int] == (gap_v(gap), *node));
            let gd = if ignored {
                DocV::Text(match gap_v(gap) { Some(x) => x, None => Seq::empty() })
            } else {
                match gap_v(gap) {
                    None => DocV::Text(Seq::empty()),
                    Some(x) => if x.contains(10u8) { DocV::HardLine } else { DocV::Text(sb(" ")) },
                }
            };
            let dd = if ignored { verbatim_v(text_of(*node)) } else { layout::child_doc_v(*b, *node, src) };
            assert(g@ == gd);
            assert(d@ == dd);
            let prior = layout::rest_fold(*b, rest, ignored, src, j as int);
            assert(layout::rest_fold(*b, rest, ignored, src, j + 1) == prior + seq![gd, dd]);
            lemma_view_docs_push(out@, g);
            lemma_view_docs_push(out@.push(g), d);
            assert(seq![fv] + (prior + seq![gd, dd]) =~= prev.push(gd).push(dd));
        }
        out.push(g);
        out.push(d);
        j = j + 1;
    }
    concat(out)
}

/// The source file: its items one per line, a comment staying on the line of the item before it,
/// and blank lines kept; every item keeps its separator, and the file ends with a line break.
fn source_file_doc<'a>(b: &Branch<'a>, ctx: &Ctx<'a>) -> (r: Doc)
    requires
        wf_node(Node::Branch(*b), ctx.source()),
    ensures
        r@ == layout::source_file_doc_v(*b, ctx.source()),
        clean(ctx.source()) ==> free_of(r@, 13u8),
    decreases Node::Branch(*b), 3int,
{
    proof {
        lemma_literals();
    }
    let items = list_items(b, false);
    if items.len() == 0 {
        return empty();
    }
    let ghost src = ctx.source();
    let ghost iv = items_view(items@);
    let mut out: Vec<Doc> = Vec::new();
    let mut i: usize = 0;
    assert(view_docs(out@) =~= Seq::<DocV>::empty());
    while i < items.len()
        invariant
            i <= items@.len(),
            src == ctx.source(),
            items_of(items@, *b, src),
            iv == items_view(items@),
            view_docs(out@) == layout::file_fold(*b, iv, src, i as int),
            clean(src) ==> forall|k: int| 0 <= k < out@.len() ==> free_of(#[trigger] out@[k]@, 13u8),
        decreases items@.len() - i,
    {
        proof {
            lemma_literals();
        }
        let printed = item_doc(b, &items, i, ctx);
        let item = &items[i];
        assert(iv[i as int] == parts::item_v(items@[i as int]));
        let sep = trailing_separator(Family::SemiSep, item.separated, is_line_comment(item.node));
        let brk = if i + 1 < items.len() {
            let next = &items[i + 1];
            assert(iv[i + 1] == parts::item_v(items@[i + 1]));
            let breaks = match next.gap {
                Some(g) => crate::bytes::has_byte(g, 10u8),
                None => false,
            };
            let comment_on_this_line = is_comment(next.node) && !breaks;
            if comment_on_this_line {
                text(" ")
            } else if blank_in(next.gap) {
                concat2(HardLine, HardLine)
            } else {
                HardLine
            }
        } else {
            HardLine
        };
        proof {
            let before = view_docs(out@);
            lemma_view_docs_push(out@, printed);
            lemma_view_docs_push(out@.push(printed), sep);
            lemma_view_docs_push(out@.push(printed).push(sep), brk);
            let step = seq![printed@, sep@, brk@];
            assert(layout::file_fold(*b, iv, src, i + 1) == before + step);
            assert(before + step =~= before.push(printed@).push(sep@).push(brk@));
        }
        out.push(printed);
        out.push(sep);
        out.push(brk);
        i = i + 1;
    }
    concat(out)
}

} // verus!
