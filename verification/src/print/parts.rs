//! The pieces the printer assembles lists from: which branches are lists, their items, and the
//! separators and breaks between them.

use vstd::prelude::*;
use crate::bytes::{bytes_eq, sb, str_eq};
use crate::doc::{concat2, empty, free_of, indent, text, verbatim_bytes, Doc, DocV, HardLine, Line, SoftLine};
use crate::tree::{text_of, ty_of, Branch, Node};

verus! {

/// How a list separates its items.
#[derive(Debug, Clone, Copy, PartialEq, Eq, Structural)]
pub enum Family {
    SemiSep,
    SemiSep1,
    CommaSep,
}

/// A list: its separator family, its brackets, and whether its brackets take inner spaces.
#[derive(Debug, Clone, Copy)]
pub struct List {
    pub family: Family,
    pub open: &'static str,
    pub close: &'static str,
    pub spaced: bool,
    /// moc lexes a spaced `>` as `GTOP`, so a `>` on its own line is a syntax error the guard cannot see.
    pub close_glued: bool,
}

pub open spec fn list_v(family: Family, open: &'static str, close: &'static str, spaced: bool) -> List {
    List { family, open, close, spaced, close_glued: false }
}

fn list(family: Family, open: &'static str, close: &'static str, spaced: bool) -> (r: List)
    ensures
        r == list_v(family, open, close, spaced),
{
    List { family, open, close, spaced, close_glued: false }
}

/// Whether one of the nodes is the token `t`.
pub open spec fn has_token(ns: Seq<Node>, t: Seq<u8>) -> bool {
    exists|i: int| 0 <= i < ns.len() && #[trigger] ns[i] is Token && text_of(ns[i]) == t
}

/// The list a branch is, by its kind: `{ … }` bodies, records and variants, tuples, arrays, type
/// parameters and instantiations, and the source file itself.
pub open spec fn list_of_v(b: Branch) -> Option<List> {
    let k = b.kind@;
    if k == "block_exp"@ || k == "obj_body"@ || k == "obj_typ"@ || k == "obj_pat"@ {
        Some(list_v(Family::SemiSep, "{", "}", true))
    } else if k == "object_exp"@ {
        if has_token(b.children@, sb("with")) {
            Some(list_v(Family::SemiSep1, "{", "}", true))
        } else {
            Some(list_v(Family::SemiSep, "{", "}", true))
        }
    } else if k == "source_file"@ {
        Some(list_v(Family::SemiSep, "", "", false))
    } else if k == "variant_typ"@ {
        Some(list_v(Family::SemiSep1, "{", "}", true))
    } else if k == "par_exp"@ || k == "tup_typ"@ || k == "tup_pat"@ {
        Some(list_v(Family::CommaSep, "(", ")", false))
    } else if k == "array_exp"@ {
        Some(list_v(Family::CommaSep, "[", "]", false))
    } else if k == "typ_params"@ || k == "inst"@ {
        Some(List { close_glued: true, ..list_v(Family::CommaSep, "<", ">", false) })
    } else {
        None
    }
}

fn has_with(b: &Branch<'_>) -> (r: bool)
    ensures
        r == has_token(b.children@, sb("with")),
{
    let mut i: usize = 0;
    while i < b.children.len()
        invariant
            i <= b.children@.len(),
            forall|j: int| 0 <= j < i ==> !(#[trigger] b.children@[j] is Token && text_of(b.children@[j]) == sb("with")),
        decreases b.children@.len() - i,
    {
        if b.children[i].is_token("with") {
            return true;
        }
        i = i + 1;
    }
    false
}

pub fn list_of(b: &Branch<'_>) -> (r: Option<List>)
    ensures
        r == list_of_v(*b),
{
    let k = b.kind;
    if str_eq(k, "block_exp") || str_eq(k, "obj_body") || str_eq(k, "obj_typ") || str_eq(k, "obj_pat") {
        Some(list(Family::SemiSep, "{", "}", true))
    } else if str_eq(k, "object_exp") {
        if has_with(b) {
            Some(list(Family::SemiSep1, "{", "}", true))
        } else {
            Some(list(Family::SemiSep, "{", "}", true))
        }
    } else if str_eq(k, "source_file") {
        Some(list(Family::SemiSep, "", "", false))
    } else if str_eq(k, "variant_typ") {
        Some(list(Family::SemiSep1, "{", "}", true))
    } else if str_eq(k, "par_exp") || str_eq(k, "tup_typ") || str_eq(k, "tup_pat") {
        Some(list(Family::CommaSep, "(", ")", false))
    } else if str_eq(k, "array_exp") {
        Some(list(Family::CommaSep, "[", "]", false))
    } else if str_eq(k, "typ_params") || str_eq(k, "inst") {
        Some(List { close_glued: true, ..list(Family::CommaSep, "<", ">", false) })
    } else {
        None
    }
}

/// The punctuation of a list: separators and brackets.
pub open spec fn is_punctuation(t: Seq<u8>) -> bool {
    t == sb(";") || t == sb(",") || t == sb("{") || t == sb("}") || t == sb("(") || t == sb(")")
        || t == sb("[") || t == sb("]") || t == sb("<") || t == sb(">")
}

/// Whether a child of a list is an item: a branch, or a token other than the punctuation.
pub open spec fn is_item_v(c: Node) -> bool {
    match c {
        Node::Text(_) => false,
        Node::Branch(_) => true,
        Node::Token(t) => !is_punctuation(t.text@),
    }
}

fn is_item(c: &Node<'_>) -> (r: bool)
    ensures
        r == is_item_v(*c),
{
    match c {
        Node::Text(_) => false,
        Node::Branch(_) => true,
        Node::Token(t) => {
            let x = t.text;
            !(bytes_eq(x, ";".as_bytes()) || bytes_eq(x, ",".as_bytes()) || bytes_eq(x, "{".as_bytes())
                || bytes_eq(x, "}".as_bytes()) || bytes_eq(x, "(".as_bytes()) || bytes_eq(x, ")".as_bytes())
                || bytes_eq(x, "[".as_bytes()) || bytes_eq(x, "]".as_bytes()) || bytes_eq(x, "<".as_bytes())
                || bytes_eq(x, ">".as_bytes()))
        },
    }
}

/// An item of a list.
pub struct Item<'n, 'a> {
    pub node: &'n Node<'a>,
    /// The gap before it.
    pub gap: Option<&'a [u8]>,
    /// Whether a separator follows it.
    pub separated: bool,
    /// Unseparated nodes that continue the item, like `and b with c = 1` after `a`, or the element after `var`.
    pub rest: Vec<(Option<&'a [u8]>, &'n Node<'a>)>,
}

/// The mathematical value of an item: its node, the gap before it, whether a separator follows,
/// and the nodes that continue it, each with the gap before it.
pub type ItemV<'a> = (Node<'a>, Option<Seq<u8>>, bool, Seq<(Option<Seq<u8>>, Node<'a>)>);

pub open spec fn gap_v(g: Option<&[u8]>) -> Option<Seq<u8>> {
    match g {
        Some(s) => Some(s@),
        None => None,
    }
}

pub open spec fn rest_v<'n, 'a>(rest: Seq<(Option<&'a [u8]>, &'n Node<'a>)>) -> Seq<(Option<Seq<u8>>, Node<'a>)> {
    rest.map_values(|p: (Option<&'a [u8]>, &'n Node<'a>)| (gap_v(p.0), *p.1))
}

pub open spec fn item_v<'n, 'a>(it: Item<'n, 'a>) -> ItemV<'a> {
    (*it.node, gap_v(it.gap), it.separated, rest_v(it.rest@))
}

pub open spec fn items_view<'n, 'a>(items: Seq<Item<'n, 'a>>) -> Seq<ItemV<'a>> {
    items.map_values(|it: Item<'n, 'a>| item_v(it))
}

/// Whether an item takes `c` as a continuation: nothing separates them and neither is a comment.
pub open spec fn continues(last: ItemV, c: Node) -> bool {
    &&& !last.2
    &&& !is_comment_v(last.0)
    &&& !is_comment_v(c)
    &&& forall|k: int| 0 <= k < last.3.len() ==> !is_comment_v(#[trigger] last.3[k].1)
}

/// The items of a list's children, and the gap waiting for the next one. A separator marks the
/// item before it; with `join`, an unseparated item continues the one before.
pub open spec fn items_v<'a>(cs: Seq<Node<'a>>, join: bool) -> (Seq<ItemV<'a>>, Option<Seq<u8>>)
    decreases cs.len(),
{
    if cs.len() == 0 {
        (Seq::empty(), None)
    } else {
        let (out, gap) = items_v(cs.drop_last(), join);
        let c = cs.last();
        if c is Text {
            (out, Some(text_of(c)))
        } else if is_item_v(c) {
            if join && out.len() > 0 && continues(out.last(), c) {
                let l = out.last();
                (out.update(out.len() - 1, (l.0, l.1, l.2, l.3.push((gap, c)))), None)
            } else {
                (out.push((c, gap, false, Seq::empty())), None)
            }
        } else if c is Token && (text_of(c) == sb(";") || text_of(c) == sb(",")) && out.len() > 0 {
            let l = out.last();
            (out.update(out.len() - 1, (l.0, l.1, true, l.3)), None)
        } else {
            (out, None)
        }
    }
}

fn rest_has_comment<'n, 'a>(rest: &Vec<(Option<&'a [u8]>, &'n Node<'a>)>) -> (r: bool)
    ensures
        r == exists|k: int| 0 <= k < rest@.len() && is_comment_v(#[trigger] rest_v(rest@)[k].1),
{
    let mut k: usize = 0;
    while k < rest.len()
        invariant
            k <= rest@.len(),
            forall|j: int| 0 <= j < k ==> !is_comment_v(#[trigger] rest_v(rest@)[j].1),
        decreases rest@.len() - k,
    {
        if is_comment(rest[k].1) {
            assert(is_comment_v(rest_v(rest@)[k as int].1));
            return true;
        }
        k = k + 1;
    }
    false
}

/// A gap of the branch's, if any.
pub open spec fn gap_of(b: Branch, g: Option<&[u8]>) -> bool {
    g matches Some(x) ==> exists|i: int| 0 <= i < b.children@.len() && #[trigger] b.children@[i] is Text && text_of(b.children@[i]) == x@
}

/// The items of a list branch, in order.
pub fn list_items<'n, 'a>(b: &'n Branch<'a>, join: bool) -> (r: Vec<Item<'n, 'a>>)
    ensures
        items_view(r@) == items_v(b.children@, join).0,
        forall|k: int, j: int| 0 <= k < r@.len() && 0 <= j < r@[k].rest@.len() ==> gap_of(*b, (#[trigger] r@[k].rest@[j]).0),
        forall|k: int| 0 <= k < r@.len() ==> b.children@.contains(*(#[trigger] r@[k]).node),
        forall|k: int, j: int| 0 <= k < r@.len() && 0 <= j < r@[k].rest@.len() ==> b.children@.contains(*(#[trigger] r@[k].rest@[j]).1),
{
    let mut out: Vec<Item<'n, 'a>> = Vec::new();
    let mut gap: Option<&'a [u8]> = None;
    let mut i: usize = 0;
    while i < b.children.len()
        invariant
            i <= b.children@.len(),
            items_view(out@) == items_v(b.children@.take(i as int), join).0,
            gap_v(gap) == items_v(b.children@.take(i as int), join).1,
            forall|k: int| 0 <= k < out@.len() ==> b.children@.contains(*(#[trigger] out@[k]).node),
            forall|k: int, j: int| 0 <= k < out@.len() && 0 <= j < out@[k].rest@.len() ==> b.children@.contains(*(#[trigger] out@[k].rest@[j]).1),
            forall|k: int, j: int| 0 <= k < out@.len() && 0 <= j < out@[k].rest@.len() ==> gap_of(*b, (#[trigger] out@[k].rest@[j]).0),
            gap_of(*b, gap),
        decreases b.children@.len() - i,
    {
        let ghost cs = b.children@.take(i + 1);
        assert(cs.drop_last() =~= b.children@.take(i as int));
        assert(cs.last() == b.children@[i as int]);
        let child = &b.children[i];
        assert(b.children@.contains(*child));
        let ghost prev = items_view(out@);
        let ghost pg = gap_v(gap);
        if let Node::Text(g) = child {
            gap = Some(g.text);
            assert(b.children@[i as int] is Text && text_of(b.children@[i as int]) == g.text@);
        } else {
            if is_item(child) {
                let mut continues_last = false;
                if join && out.len() > 0 {
                    let last = &out[out.len() - 1];
                    continues_last = !last.separated && !is_comment(last.node) && !is_comment(child) && !rest_has_comment(&last.rest);
                    assert(item_v(*last) == prev.last());
                }
                if continues_last {
                    let mut last = out.pop().unwrap();
                    let ghost before = last.rest@;
                    last.rest.push((gap, child));
                    proof {
                        assert(rest_v(last.rest@) =~= rest_v(before).push((gap_v(gap), *child)));
                    }
                    out.push(last);
                    proof {
                        let l = prev.last();
                        assert(items_view(out@) =~= prev.update(prev.len() - 1, (l.0, l.1, l.2, l.3.push((pg, *child)))));
                    }
                } else {
                    out.push(Item { node: child, gap, separated: false, rest: Vec::new() });
                    proof {
                        assert(rest_v(Seq::<(Option<&'a [u8]>, &'n Node<'a>)>::empty()) =~= Seq::empty());
                        assert(items_view(out@) =~= prev.push((*child, pg, false, Seq::empty())));
                    }
                }
            } else if (child.is_token(";") || child.is_token(",")) && out.len() > 0 {
                let mut last = out.pop().unwrap();
                assert(item_v(last) == prev.last());
                last.separated = true;
                out.push(last);
                proof {
                    let l = prev.last();
                    assert(items_view(out@) =~= prev.update(prev.len() - 1, (l.0, l.1, true, l.3)));
                }
            }
            gap = None;
        }
        i = i + 1;
    }
    assert(b.children@.take(b.children@.len() as int) =~= b.children@);
    out
}

/// The number of line breaks in `s`.
pub open spec fn newlines_v(s: Seq<u8>) -> nat
    decreases s.len(),
{
    if s.len() == 0 {
        0
    } else {
        newlines_v(s.drop_last()) + if s.last() == 10u8 { 1nat } else { 0nat }
    }
}

pub fn newlines(s: &[u8]) -> (r: usize)
    ensures
        r == newlines_v(s@),
{
    let mut n: usize = 0;
    let mut i: usize = 0;
    while i < s.len()
        invariant
            i <= s@.len(),
            n == newlines_v(s@.take(i as int)),
            n <= i,
        decreases s@.len() - i,
    {
        assert(s@.take(i + 1).drop_last() =~= s@.take(i as int));
        if s[i] == 10u8 {
            n = n + 1;
        }
        i = i + 1;
    }
    assert(s@.take(s@.len() as int) =~= s@);
    n
}

/// Whether a gap holds a blank line.
pub open spec fn blank_in_v(gap: Option<Seq<u8>>) -> bool {
    gap matches Some(g) && newlines_v(g) >= 2
}

pub fn blank_in(gap: Option<&[u8]>) -> (r: bool)
    ensures
        r == blank_in_v(gap_v(gap)),
{
    match gap {
        Some(g) => newlines(g) >= 2,
        None => false,
    }
}

/// Whether a branch has a gap holding a blank line.
pub open spec fn has_blank_line_v(b: Branch) -> bool {
    exists|i: int| 0 <= i < b.children@.len() && #[trigger] b.children@[i] is Text && newlines_v(text_of(b.children@[i])) >= 2
}

pub fn has_blank_line(b: &Branch<'_>) -> (r: bool)
    ensures
        r == has_blank_line_v(*b),
{
    let mut i: usize = 0;
    while i < b.children.len()
        invariant
            i <= b.children@.len(),
            forall|j: int| 0 <= j < i ==> !(#[trigger] b.children@[j] is Text && newlines_v(text_of(b.children@[j])) >= 2),
        decreases b.children@.len() - i,
    {
        if let Node::Text(g) = &b.children[i] {
            if newlines(g.text) >= 2 {
                return true;
            }
        }
        i = i + 1;
    }
    false
}

/// Whether a gap holds a line break.
pub open spec fn breaks_v(gap: Option<Seq<u8>>) -> bool {
    gap matches Some(g) && g.contains(10u8)
}

fn breaks(gap: Option<&[u8]>) -> (r: bool)
    ensures
        r == breaks_v(gap_v(gap)),
{
    match gap {
        Some(g) => crate::bytes::has_byte(g, 10u8),
        None => false,
    }
}

/// The break after an unseparated item: a space before a comment on the same line, so that its
/// forced break doesn't detach it from the item; the blank line the source had; a line break after
/// an item that breaks; otherwise a line that breaks with the list.
pub open spec fn separator_line_v(left: DocV, gap: Option<Seq<u8>>, next_is_comment: bool) -> DocV {
    if next_is_comment && !breaks_v(gap) {
        DocV::Text(sb(" "))
    } else if blank_in_v(gap) {
        DocV::Concat(seq![DocV::HardLine, DocV::HardLine])
    } else if crate::doc::will_break_v(left) {
        DocV::HardLine
    } else {
        DocV::Line
    }
}

proof fn lemma_newlines_one(s: Seq<u8>, i: int)
    requires
        0 <= i < s.len(),
        s[i] == 10u8,
    ensures
        newlines_v(s) >= 1,
    decreases s.len(),
{
    if i < s.len() - 1 {
        assert(s.drop_last()[i] == 10u8);
        lemma_newlines_one(s.drop_last(), i);
    }
}

proof fn lemma_newlines_two(s: Seq<u8>, i: int, j: int)
    requires
        0 <= i < j < s.len(),
        s[i] == 10u8,
        s[j] == 10u8,
    ensures
        newlines_v(s) >= 2,
    decreases s.len(),
{
    assert(s.drop_last()[i] == 10u8);
    if j < s.len() - 1 {
        assert(s.drop_last()[j] == 10u8);
        lemma_newlines_two(s.drop_last(), i, j);
    } else {
        lemma_newlines_one(s.drop_last(), i);
    }
}

proof fn lemma_trim_after_newline(x: Seq<u8>, n: nat)
    ensures
        crate::doc::trim_blanks_end(x.push(10u8) + crate::doc::spaces(n)) == x.push(10u8),
    decreases n,
{
    let y = x.push(10u8) + crate::doc::spaces(n);
    if n == 0 {
        assert(y =~= x.push(10u8));
    } else {
        assert(y.last() == 32u8);
        assert(y.drop_last() =~= x.push(10u8) + crate::doc::spaces((n - 1) as nat));
        lemma_trim_after_newline(x, (n - 1) as nat);
    }
}

/// Between two items of a list, a gap of the source that holds two or more line breaks is kept as
/// one empty line: whatever the items and however the list is laid out, the break after the first
/// item ends its line, leaves the next line empty, and starts the one after at the indentation.
pub proof fn law_a_blank_line_between_items_is_kept(left: DocV, gap: Seq<u8>, next_is_comment: bool, i: int, j: int, ind: nat, broken: bool, w: nat, out: Seq<u8>)
    requires
        0 <= i < j < gap.len(),
        gap[i] == 10u8,
        gap[j] == 10u8,
    ensures
        crate::doc::render(separator_line_v(left, Some(gap), next_is_comment), ind, broken, w, out)
            == crate::doc::trim_blanks_end(out) + seq![10u8, 10u8] + crate::doc::spaces(ind),
{
    lemma_newlines_two(gap, i, j);
    assert(gap.contains(10u8));
    let parts = seq![DocV::HardLine, DocV::HardLine];
    let once = crate::doc::newline(out, ind);
    assert(parts.drop_first() =~= seq![DocV::HardLine]);
    assert(parts.drop_first().drop_first() =~= Seq::<DocV>::empty());
    assert(parts[0] == DocV::HardLine);
    assert(crate::doc::render(parts[0], ind, broken, w, out) == once);
    assert(crate::doc::render_all(parts, ind, broken, w, out)
        == crate::doc::render_all(parts.drop_first(), ind, broken, w, once));
    let p1 = parts.drop_first();
    assert(p1[0] == DocV::HardLine);
    assert(crate::doc::render(p1[0], ind, broken, w, once) == crate::doc::newline(once, ind));
    assert(crate::doc::render_all(p1, ind, broken, w, once)
        == crate::doc::render_all(p1.drop_first(), ind, broken, w, crate::doc::newline(once, ind)));
    assert(separator_line_v(left, Some(gap), next_is_comment) == DocV::Concat(parts));
    lemma_trim_after_newline(crate::doc::trim_blanks_end(out), ind);
    assert(crate::doc::newline(once, ind) =~= crate::doc::trim_blanks_end(out) + seq![10u8, 10u8] + crate::doc::spaces(ind));
}

pub fn separator_line(left: &Doc, gap: Option<&[u8]>, next_is_comment: bool) -> (r: Doc)
    ensures
        r@ == separator_line_v(left@, gap_v(gap), next_is_comment),
        free_of(r@, 13u8),
{
    proof {
        lemma_literals();
    }
    // A `Line` here would break under the comment's `BreakParent` and detach it from its item.
    if next_is_comment && !breaks(gap) {
        return text(" ");
    }
    if blank_in(gap) {
        return concat2(HardLine, HardLine);
    }
    if left.will_break() {
        return HardLine;
    }
    Line
}

pub open spec fn separator_char_v(family: Family) -> DocV {
    DocV::Text(if family == Family::CommaSep { sb(",") } else { sb(";") })
}

fn separator_char(family: Family) -> (r: Doc)
    ensures
        r@ == separator_char_v(family),
        free_of(r@, 13u8),
{
    proof {
        lemma_literals();
    }
    text(if family == Family::CommaSep { "," } else { ";" })
}

/// The separator after the last item: the source's, if it had one, on a line of its own after a
/// line comment.
pub open spec fn trailing_separator_v(family: Family, separated: bool, last_is_line_comment: bool) -> DocV {
    if !separated {
        DocV::Text(Seq::empty())
    } else if last_is_line_comment {
        DocV::Concat(seq![DocV::HardLine, separator_char_v(family)])
    } else {
        separator_char_v(family)
    }
}

pub fn trailing_separator(family: Family, separated: bool, last_is_line_comment: bool) -> (r: Doc)
    ensures
        r@ == trailing_separator_v(family, separated, last_is_line_comment),
        free_of(r@, 13u8),
{
    proof {
        lemma_literals();
    }
    if !separated {
        return empty();
    }
    if last_is_line_comment {
        concat2(HardLine, separator_char(family))
    } else {
        separator_char(family)
    }
}

/// The separator between two items: followed by a space in a flat list, or by the break of
/// [`separator_line`]; after a line comment it goes on a line of its own.
pub open spec fn between_separator_v(
    family: Family,
    left: DocV,
    gap: Option<Seq<u8>>,
    left_is_line_comment: bool,
    right_is_comment: bool,
    flat: bool,
) -> DocV {
    let sep = separator_char_v(family);
    if flat {
        DocV::Concat(seq![sep, DocV::Text(sb(" "))])
    } else if left_is_line_comment {
        DocV::Concat(seq![DocV::HardLine, sep, separator_line_v(left, gap, right_is_comment)])
    } else {
        DocV::Concat(seq![sep, separator_line_v(left, gap, right_is_comment)])
    }
}

pub fn between_separator(
    family: Family,
    left: &Doc,
    gap: Option<&[u8]>,
    left_is_line_comment: bool,
    right_is_comment: bool,
    flat: bool,
) -> (r: Doc)
    ensures
        r@ == between_separator_v(family, left@, gap_v(gap), left_is_line_comment, right_is_comment, flat),
        free_of(r@, 13u8),
{
    proof {
        lemma_literals();
    }
    let sep = separator_char(family);
    if flat {
        return concat2(sep, text(" "));
    }
    let line = separator_line(left, gap, right_is_comment);
    if left_is_line_comment {
        crate::doc::concat3(HardLine, sep, line)
    } else {
        concat2(sep, line)
    }
}

/// Whether a node is a comment.
pub open spec fn is_comment_v(n: Node) -> bool {
    ty_of(n) matches Some(t) && (t@ == "line_comment"@ || t@ == "block_comment"@ || t@ == "doc_comment"@)
}

pub fn is_comment(n: &Node<'_>) -> (r: bool)
    ensures
        r == is_comment_v(*n),
{
    match n.ty() {
        Some(t) => str_eq(t, "line_comment") || str_eq(t, "block_comment") || str_eq(t, "doc_comment"),
        None => false,
    }
}

/// Whether a node is a line comment.
pub open spec fn is_line_comment_v(n: Node) -> bool {
    ty_of(n) matches Some(t) && t@ == "line_comment"@
}

pub fn is_line_comment(n: &Node<'_>) -> (r: bool)
    ensures
        r == is_line_comment_v(*n),
{
    match n.ty() {
        Some(t) => str_eq(t, "line_comment"),
        None => false,
    }
}

/// The break inside a list's brackets: a space or nothing in a flat list, a line or a soft line in
/// a broken one, by whether the brackets take inner spaces.
pub open spec fn inner_break_v(list: List, flat: bool) -> DocV {
    if flat {
        if list.spaced { DocV::Text(sb(" ")) } else { DocV::Text(Seq::empty()) }
    } else {
        if list.spaced { DocV::Line } else { DocV::SoftLine }
    }
}

fn inner_break(list: List, flat: bool) -> (r: Doc)
    ensures
        r@ == inner_break_v(list, flat),
        free_of(r@, 13u8),
{
    proof {
        lemma_literals();
    }
    if flat {
        if list.spaced { text(" ") } else { empty() }
    } else {
        if list.spaced { Line } else { SoftLine }
    }
}

/// The body of a list between its brackets. A flat list adds no indent, so a broken item it hugs
/// (`f([ … ])`) keeps the author's indentation; a broken one indents its items, and a glued closing
/// bracket stays right after the last item, unless a line comment ends it.
pub open spec fn list_indent_v(joined: DocV, list: List, last_is_line_comment: bool, flat: bool) -> DocV {
    let b = inner_break_v(list, flat);
    if flat {
        DocV::Concat(seq![b, joined, if list.close_glued { DocV::Text(Seq::empty()) } else { b }])
    } else {
        let body = DocV::Indent(Box::new(DocV::Concat(seq![b, joined])));
        if list.close_glued {
            if last_is_line_comment {
                DocV::Concat(seq![body, DocV::HardLine])
            } else {
                body
            }
        } else {
            DocV::Concat(seq![body, b])
        }
    }
}

pub fn list_indent(joined: Doc, list: List, last_is_line_comment: bool, flat: bool) -> (r: Doc)
    ensures
        r@ == list_indent_v(joined@, list, last_is_line_comment, flat),
        free_of(joined@, 13u8) ==> free_of(r@, 13u8),
{
    proof {
        lemma_literals();
    }
    let b = inner_break(list, flat);
    if flat {
        let close = if list.close_glued { empty() } else { inner_break(list, flat) };
        return crate::doc::concat3(b, joined, close);
    }
    let ghost jv = joined@;
    let inner = concat2(b, joined);
    assert(free_of(jv, 13u8) ==> free_of(inner@, 13u8));
    let body = indent(inner);
    assert(free_of(jv, 13u8) ==> free_of(body@, 13u8));
    if list.close_glued {
        if last_is_line_comment {
            concat2(body, HardLine)
        } else {
            body
        }
    } else {
        concat2(body, inner_break(list, flat))
    }
}

/// A node as written.
pub fn verbatim(n: &Node<'_>) -> (r: Doc)
    ensures
        r@ == crate::doc::verbatim_v(text_of(*n)),
        !text_of(*n).contains(13u8) ==> free_of(r@, 13u8),
{
    proof {
        if !text_of(*n).contains(13u8) {
            crate::doc::lemma_verbatim_free(text_of(*n), 13u8);
        }
    }
    verbatim_bytes(n.text())
}

/// The source the printer reads holds no carriage return.
pub open spec fn clean(source: Seq<u8>) -> bool {
    !source.contains(13u8)
}

/// The texts the printer adds hold no carriage return.
pub proof fn lemma_literals()
    ensures
        !sb(" ").contains(13u8),
        !sb("").contains(13u8),
        !sb(";").contains(13u8),
        !sb(",").contains(13u8),
        !sb("{").contains(13u8),
        !sb("}").contains(13u8),
        !sb("(").contains(13u8),
        !sb(")").contains(13u8),
        !sb("[").contains(13u8),
        !sb("]").contains(13u8),
        !sb("<").contains(13u8),
        !sb(">").contains(13u8),
        !sb("switch").contains(13u8),
        !sb("case").contains(13u8),
{
    reveal_strlit(" ");
    crate::doc::lemma_ascii_clean(" ");
    reveal_strlit("");
    crate::doc::lemma_ascii_clean("");
    reveal_strlit(";");
    crate::doc::lemma_ascii_clean(";");
    reveal_strlit(",");
    crate::doc::lemma_ascii_clean(",");
    reveal_strlit("{");
    crate::doc::lemma_ascii_clean("{");
    reveal_strlit("}");
    crate::doc::lemma_ascii_clean("}");
    reveal_strlit("(");
    crate::doc::lemma_ascii_clean("(");
    reveal_strlit(")");
    crate::doc::lemma_ascii_clean(")");
    reveal_strlit("[");
    crate::doc::lemma_ascii_clean("[");
    reveal_strlit("]");
    crate::doc::lemma_ascii_clean("]");
    reveal_strlit("<");
    crate::doc::lemma_ascii_clean("<");
    reveal_strlit(">");
    crate::doc::lemma_ascii_clean(">");
    reveal_strlit("switch");
    crate::doc::lemma_ascii_clean("switch");
    reveal_strlit("case");
    crate::doc::lemma_ascii_clean("case");
}

/// A node of a clean source has a clean text.
pub proof fn lemma_text_clean(n: Node, source: Seq<u8>)
    requires
        crate::tree::wf_node(n, source),
        clean(source),
    ensures
        !text_of(n).contains(13u8),
{
    assert forall|k: int| 0 <= k < text_of(n).len() implies text_of(n)[k] != 13u8 by {
        assert(text_of(n)[k] == source[crate::tree::start_of(n) + k]);
    }
}

} // verus!
