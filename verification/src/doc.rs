//! A small layout IR in the style of Prettier's, without its width fitting: the formatter follows the
//! author's line breaks, so a group breaks only when told to or when it contains a forced break.

use vstd::prelude::*;
use crate::bytes::{bytes_of, sb, string_from_bytes};

verus! {

/// A layout document.
#[derive(Debug)]
pub enum Doc {
    Text(Vec<u8>),
    Concat(Vec<Doc>),
    Indent(Box<Doc>),
    Align(usize, Box<Doc>),
    Group { broken: bool, contents: Box<Doc> },
    /// A space, or a line break in a broken group.
    Line,
    /// Nothing, or a line break in a broken group.
    SoftLine,
    /// A line break that also breaks every enclosing group.
    HardLine,
    /// A line break that keeps the text around it exactly and restarts at column 0.
    LiteralLine,
    /// Breaks every enclosing group.
    BreakParent,
}

/// The mathematical value of a [`Doc`].
pub enum DocV {
    Text(Seq<u8>),
    Concat(Seq<DocV>),
    Indent(Box<DocV>),
    Align(nat, Box<DocV>),
    Group { broken: bool, contents: Box<DocV> },
    Line,
    SoftLine,
    HardLine,
    LiteralLine,
    BreakParent,
}

pub open spec fn view_doc(d: Doc) -> DocV
    decreases d,
{
    match d {
        Doc::Text(s) => DocV::Text(s@),
        Doc::Concat(parts) => DocV::Concat(view_docs(parts@)),
        Doc::Indent(inner) => DocV::Indent(Box::new(view_doc(*inner))),
        Doc::Align(n, inner) => DocV::Align(n as nat, Box::new(view_doc(*inner))),
        Doc::Group { broken, contents } => DocV::Group {
            broken,
            contents: Box::new(view_doc(*contents)),
        },
        Doc::Line => DocV::Line,
        Doc::SoftLine => DocV::SoftLine,
        Doc::HardLine => DocV::HardLine,
        Doc::LiteralLine => DocV::LiteralLine,
        Doc::BreakParent => DocV::BreakParent,
    }
}

pub open spec fn view_docs(ds: Seq<Doc>) -> Seq<DocV>
    decreases ds,
{
    if ds.len() == 0 {
        Seq::empty()
    } else {
        seq![view_doc(ds[0])] + view_docs(ds.drop_first())
    }
}

impl View for Doc {
    type V = DocV;

    open spec fn view(&self) -> DocV {
        view_doc(*self)
    }
}

pub proof fn lemma_view_docs_len(ds: Seq<Doc>)
    ensures
        view_docs(ds).len() == ds.len(),
    decreases ds.len(),
{
    if ds.len() > 0 {
        lemma_view_docs_len(ds.drop_first());
    }
}

pub proof fn lemma_view_docs_index(ds: Seq<Doc>, i: int)
    requires
        0 <= i < ds.len(),
    ensures
        view_docs(ds).len() == ds.len(),
        view_docs(ds)[i] == view_doc(ds[i]),
    decreases ds.len(),
{
    lemma_view_docs_len(ds);
    if i > 0 {
        lemma_view_docs_index(ds.drop_first(), i - 1);
    }
}

/// The views of a sequence of docs, element by element.
pub proof fn lemma_view_docs(ds: Seq<Doc>)
    ensures
        view_docs(ds).len() == ds.len(),
        forall|i: int| 0 <= i < ds.len() ==> #[trigger] view_docs(ds)[i] == view_doc(ds[i]),
{
    lemma_view_docs_len(ds);
    assert forall|i: int| 0 <= i < ds.len() implies #[trigger] view_docs(ds)[i] == view_doc(ds[i]) by {
        lemma_view_docs_index(ds, i);
    }
}

/// Whether the doc contains a forced break or a group told to break.
pub open spec fn will_break_v(d: DocV) -> bool
    decreases d,
{
    match d {
        DocV::HardLine | DocV::LiteralLine | DocV::BreakParent => true,
        DocV::Group { broken, contents } => broken || will_break_v(*contents),
        DocV::Concat(parts) => any_breaks(parts),
        DocV::Indent(inner) => will_break_v(*inner),
        DocV::Align(_, inner) => will_break_v(*inner),
        _ => false,
    }
}

pub open spec fn any_breaks(ds: Seq<DocV>) -> bool
    decreases ds,
{
    if ds.len() == 0 {
        false
    } else {
        will_break_v(ds[0]) || any_breaks(ds.drop_first())
    }
}

/// Every group that contains a forced break marked as broken.
pub open spec fn propagated(d: DocV) -> DocV
    decreases d,
{
    match d {
        DocV::Group { broken, contents } => DocV::Group {
            broken: broken || will_break_v(*contents),
            contents: Box::new(propagated(*contents)),
        },
        DocV::Concat(parts) => DocV::Concat(propagated_all(parts)),
        DocV::Indent(inner) => DocV::Indent(Box::new(propagated(*inner))),
        DocV::Align(n, inner) => DocV::Align(n, Box::new(propagated(*inner))),
        _ => d,
    }
}

pub open spec fn propagated_all(ds: Seq<DocV>) -> Seq<DocV>
    decreases ds,
{
    if ds.len() == 0 {
        Seq::empty()
    } else {
        seq![propagated(ds[0])] + propagated_all(ds.drop_first())
    }
}

/// `s` without its trailing spaces and tabs.
pub open spec fn trim_blanks_end(s: Seq<u8>) -> Seq<u8>
    decreases s.len(),
{
    if s.len() > 0 && (s.last() == 32u8 || s.last() == 9u8) {
        trim_blanks_end(s.drop_last())
    } else {
        s
    }
}

pub open spec fn spaces(n: nat) -> Seq<u8> {
    Seq::new(n, |i: int| 32u8)
}

/// A line break at indentation `ind`: the trailing blanks of the line are dropped.
pub open spec fn newline(out: Seq<u8>, ind: nat) -> Seq<u8> {
    trim_blanks_end(out).push(10u8) + spaces(ind)
}

/// The text `d` appends to `out`, at indentation `ind`, inside a group that is broken or not.
pub open spec fn render(d: DocV, ind: nat, broken: bool, w: nat, out: Seq<u8>) -> Seq<u8>
    decreases d,
{
    match d {
        DocV::Text(s) => out + s,
        DocV::Concat(parts) => render_all(parts, ind, broken, w, out),
        DocV::Indent(inner) => render(*inner, ind + w, broken, w, out),
        DocV::Align(n, inner) => render(*inner, ind + n, broken, w, out),
        DocV::Group { broken: b, contents } => render(*contents, ind, b, w, out),
        DocV::Line => if broken {
            newline(out, ind)
        } else {
            out.push(32u8)
        },
        DocV::SoftLine => if broken {
            newline(out, ind)
        } else {
            out
        },
        DocV::HardLine => newline(out, ind),
        DocV::LiteralLine => out.push(10u8),
        DocV::BreakParent => out,
    }
}

pub open spec fn render_all(ds: Seq<DocV>, ind: nat, broken: bool, w: nat, out: Seq<u8>) -> Seq<u8>
    decreases ds,
{
    if ds.len() == 0 {
        out
    } else {
        render_all(ds.drop_first(), ind, broken, w, render(ds[0], ind, broken, w, out))
    }
}

/// Every indentation the doc reaches from `ind` fits in a `usize`.
pub open spec fn indent_fits(d: DocV, ind: nat, w: nat) -> bool
    decreases d,
{
    match d {
        DocV::Concat(parts) => indents_fit(parts, ind, w),
        DocV::Indent(inner) => ind + w <= usize::MAX && indent_fits(*inner, ind + w, w),
        DocV::Align(n, inner) => ind + n <= usize::MAX && indent_fits(*inner, ind + n, w),
        DocV::Group { contents, .. } => indent_fits(*contents, ind, w),
        _ => true,
    }
}

pub open spec fn indents_fit(ds: Seq<DocV>, ind: nat, w: nat) -> bool
    decreases ds,
{
    ds.len() == 0 || (indent_fits(ds[0], ind, w) && indents_fit(ds.drop_first(), ind, w))
}

/// What [`print`] produces: the doc with its breaks propagated, rendered from column 0 in a broken group.
pub open spec fn printed(d: DocV, w: nat) -> Seq<u8> {
    render(propagated(d), 0, true, w, Seq::empty())
}


/// No text of the doc holds the byte `b`.
pub open spec fn free_of(d: DocV, b: u8) -> bool
    decreases d,
{
    match d {
        DocV::Text(s) => !s.contains(b),
        DocV::Concat(parts) => free_of_all(parts, b),
        DocV::Indent(inner) => free_of(*inner, b),
        DocV::Align(_, inner) => free_of(*inner, b),
        DocV::Group { contents, .. } => free_of(*contents, b),
        _ => true,
    }
}

pub open spec fn free_of_all(ds: Seq<DocV>, b: u8) -> bool
    decreases ds,
{
    ds.len() == 0 || (free_of(ds[0], b) && free_of_all(ds.drop_first(), b))
}

/// A sequence of docs is free of `b` when each of them is.
pub proof fn lemma_free_of_all(ds: Seq<DocV>, b: u8)
    ensures
        free_of_all(ds, b) <==> forall|k: int| 0 <= k < ds.len() ==> free_of(#[trigger] ds[k], b),
    decreases ds.len(),
{
    if ds.len() > 0 {
        lemma_free_of_all(ds.drop_first(), b);
        assert forall|k: int| 0 < k < ds.len() implies ds[k] == ds.drop_first()[k - 1] by {}
        if forall|k: int| 0 <= k < ds.len() ==> free_of(#[trigger] ds[k], b) {
            assert forall|k: int| 0 <= k < ds.drop_first().len() implies free_of(#[trigger] ds.drop_first()[k], b) by {
                assert(ds.drop_first()[k] == ds[k + 1]);
            }
        }
    }
}

/// A doc made of docs each free of `b` is free of it.
pub proof fn lemma_free_of_docs(ds: Seq<Doc>, b: u8)
    requires
        forall|k: int| 0 <= k < ds.len() ==> free_of(#[trigger] ds[k]@, b),
    ensures
        free_of(DocV::Concat(view_docs(ds)), b),
{
    lemma_view_docs(ds);
    lemma_free_of_all(view_docs(ds), b);
    assert forall|k: int| 0 <= k < view_docs(ds).len() implies free_of(#[trigger] view_docs(ds)[k], b) by {
        assert(view_docs(ds)[k] == ds[k]@);
    }
}

proof fn lemma_propagated_free(d: DocV, b: u8)
    requires
        free_of(d, b),
    ensures
        free_of(propagated(d), b),
    decreases d,
{
    match d {
        DocV::Concat(parts) => {
            lemma_propagated_all(parts);
            lemma_free_of_all(parts, b);
            lemma_free_of_all(propagated_all(parts), b);
            assert forall|k: int| 0 <= k < propagated_all(parts).len() implies free_of(#[trigger] propagated_all(parts)[k], b) by {
                lemma_propagated_free(parts[k], b);
            }
        },
        DocV::Indent(inner) => lemma_propagated_free(*inner, b),
        DocV::Align(_, inner) => lemma_propagated_free(*inner, b),
        DocV::Group { contents, .. } => lemma_propagated_free(*contents, b),
        _ => {},
    }
}

proof fn lemma_trim_blanks_end_prefix(s: Seq<u8>)
    ensures
        trim_blanks_end(s).len() <= s.len(),
        trim_blanks_end(s) == s.take(trim_blanks_end(s).len() as int),
    decreases s.len(),
{
    if s.len() > 0 && (s.last() == 32u8 || s.last() == 9u8) {
        lemma_trim_blanks_end_prefix(s.drop_last());
        assert(s.drop_last().take(trim_blanks_end(s).len() as int) =~= s.take(trim_blanks_end(s).len() as int));
    } else {
        assert(s.take(s.len() as int) =~= s);
    }
}

proof fn lemma_render_free(d: DocV, ind: nat, broken: bool, w: nat, out: Seq<u8>, b: u8)
    requires
        free_of(d, b),
        !out.contains(b),
        b != 10u8,
        b != 32u8,
    ensures
        !render(d, ind, broken, w, out).contains(b),
    decreases d,
{
    lemma_trim_blanks_end_prefix(out);
    let t = trim_blanks_end(out);
    assert(!t.contains(b)) by {
        assert forall|k: int| 0 <= k < t.len() implies t[k] != b by {
            assert(t[k] == out[k]);
        }
    }
    assert(!newline(out, ind).contains(b)) by {
        let nl = newline(out, ind);
        assert forall|k: int| 0 <= k < nl.len() implies nl[k] != b by {
            if k < t.len() {
                assert(nl[k] == t[k]);
            } else if k == t.len() {
                assert(nl[k] == 10u8);
            } else {
                assert(nl[k] == spaces(ind)[k - t.len() - 1]);
            }
        }
    }
    match d {
        DocV::Text(s) => {
            assert forall|k: int| 0 <= k < (out + s).len() implies (out + s)[k] != b by {
                if k >= out.len() {
                    assert((out + s)[k] == s[k - out.len()]);
                }
            }
        },
        DocV::Concat(parts) => lemma_render_all_free(parts, ind, broken, w, out, b),
        DocV::Indent(inner) => lemma_render_free(*inner, ind + w, broken, w, out, b),
        DocV::Align(n, inner) => lemma_render_free(*inner, ind + n, broken, w, out, b),
        DocV::Group { broken: g, contents } => lemma_render_free(*contents, ind, g, w, out, b),
        DocV::Line => {
            assert forall|k: int| 0 <= k < out.push(32u8).len() implies out.push(32u8)[k] != b by {}
        },
        DocV::LiteralLine => {
            assert forall|k: int| 0 <= k < out.push(10u8).len() implies out.push(10u8)[k] != b by {}
        },
        _ => {},
    }
}

proof fn lemma_render_all_free(ds: Seq<DocV>, ind: nat, broken: bool, w: nat, out: Seq<u8>, b: u8)
    requires
        free_of_all(ds, b),
        !out.contains(b),
        b != 10u8,
        b != 32u8,
    ensures
        !render_all(ds, ind, broken, w, out).contains(b),
    decreases ds,
{
    if ds.len() > 0 {
        lemma_render_free(ds[0], ind, broken, w, out, b);
        lemma_render_all_free(ds.drop_first(), ind, broken, w, render(ds[0], ind, broken, w, out), b);
    }
}

/// Printing adds no carriage return: the printed text of a doc whose texts hold none holds none.
pub proof fn law_printing_adds_no_carriage_return(d: DocV, w: nat)
    requires
        free_of(d, 13u8),
    ensures
        !printed(d, w).contains(13u8),
{
    lemma_propagated_free(d, 13u8);
    lemma_render_free(propagated(d), 0, true, w, Seq::empty(), 13u8);
}

proof fn lemma_split_lines_free(s: Seq<u8>, b: u8)
    requires
        !s.contains(b),
        b != 10u8,
    ensures
        forall|k: int| 0 <= k < split_lines(s).len() ==> !(#[trigger] split_lines(s)[k]).contains(b),
    decreases s.len(),
{
    lemma_split_lines_nonempty(s);
    if s.len() > 0 {
        assert(!s.drop_last().contains(b)) by {
            assert forall|k: int| 0 <= k < s.drop_last().len() implies s.drop_last()[k] != b by {
                assert(s.drop_last()[k] == s[k]);
            }
        }
        lemma_split_lines_free(s.drop_last(), b);
        lemma_split_lines_nonempty(s.drop_last());
        let ls = split_lines(s.drop_last());
        if s.last() != 10u8 {
            let l = ls.last().push(s.last());
            assert(!ls.last().contains(b));
            assert(s.last() != b) by {
                assert(s[s.len() - 1] == s.last());
            }
            assert forall|k: int| 0 <= k < l.len() implies l[k] != b by {
                if k < ls.last().len() {
                    assert(l[k] == ls.last()[k]);
                }
            }
            assert forall|k: int| 0 <= k < split_lines(s).len() implies !(#[trigger] split_lines(s)[k]).contains(b) by {
                if k < ls.len() - 1 {
                    assert(split_lines(s)[k] == ls[k]);
                }
            }
        } else {
            assert forall|k: int| 0 <= k < split_lines(s).len() implies !(#[trigger] split_lines(s)[k]).contains(b) by {
                if k < ls.len() {
                    assert(split_lines(s)[k] == ls[k]);
                }
            }
        }
    }
}

proof fn lemma_literal_lines_free(ls: Seq<Seq<u8>>, b: u8)
    requires
        forall|k: int| 0 <= k < ls.len() ==> !(#[trigger] ls[k]).contains(b),
    ensures
        free_of_all(literal_lines(ls), b),
    decreases ls.len(),
{
    if ls.len() > 1 {
        lemma_literal_lines_free(ls.drop_last(), b);
        let a = literal_lines(ls.drop_last());
        let c = a + seq![DocV::LiteralLine, DocV::Text(ls.last())];
        lemma_free_of_all(a, b);
        lemma_free_of_all(c, b);
        assert forall|k: int| 0 <= k < c.len() implies free_of(#[trigger] c[k], b) by {
            if k < a.len() {
                assert(c[k] == a[k]);
            } else if k == a.len() + 1 {
                assert(c[k] == DocV::Text(ls[ls.len() - 1]));
            }
        }
    } else if ls.len() == 1 {
        lemma_free_of_all(literal_lines(ls), b);
    }
}

/// Text as written is free of a byte that isn't a line break when the text is.
pub proof fn lemma_verbatim_free(s: Seq<u8>, b: u8)
    requires
        !s.contains(b),
        b != 10u8,
    ensures
        free_of(verbatim_v(s), b),
{
    lemma_split_lines_free(s, b);
    lemma_literal_lines_free(split_lines(s), b);
}

/// The UTF-8 bytes of an ASCII string without a carriage return hold none.
pub proof fn lemma_ascii_clean(s: &str)
    requires
        vstd::string::is_ascii(s),
        forall|i: int| 0 <= i < s@.len() ==> #[trigger] s@[i] != '\r',
    ensures
        !sb(s).contains(13u8),
{
    vstd::string::is_ascii_spec_bytes(s);
    assert forall|k: int| 0 <= k < sb(s).len() implies sb(s)[k] != 13u8 by {
        assert(sb(s)[k] == s@[k] as u8);
        assert(s@[k] != '\r');
        assert('\0' <= s@[k] <= '\u{7f}');
    }
}

/// A group breaks only when told to or when it holds a forced break: after propagation, a
/// group is broken exactly when it was marked broken or its contents will break.
pub proof fn law_a_group_breaks_only_when_told_or_forced(contents: DocV, broken: bool)
    ensures
        propagated(DocV::Group { broken, contents: Box::new(contents) }) == (DocV::Group {
            broken: broken || will_break_v(contents),
            contents: Box::new(propagated(contents)),
        }),
{
}

/// A hard line break drops the trailing spaces and tabs of the line it ends and starts the next at
/// the indentation; a literal one keeps the line as it is and starts the next at column 0.
pub proof fn law_hard_breaks_trim_and_literal_breaks_keep(out: Seq<u8>, ind: nat, broken: bool, w: nat)
    ensures
        render(DocV::HardLine, ind, broken, w, out) == trim_blanks_end(out).push(10u8) + spaces(ind),
        render(DocV::LiteralLine, ind, broken, w, out) == out.push(10u8),
{
}

/// Text.
pub fn text(s: &str) -> (d: Doc)
    ensures
        d@ == DocV::Text(sb(s)),
{
    Doc::Text(bytes_of(s))
}

/// Text from bytes.
pub fn text_bytes(s: Vec<u8>) -> (d: Doc)
    ensures
        d@ == DocV::Text(s@),
{
    Doc::Text(s)
}

/// The empty text.
pub fn empty() -> (d: Doc)
    ensures
        d@ == DocV::Text(Seq::empty()),
{
    Doc::Text(Vec::new())
}

/// The parts one after another.
pub fn concat(parts: Vec<Doc>) -> (d: Doc)
    ensures
        d@ == DocV::Concat(view_docs(parts@)),
        forall|x: u8| (forall|k: int| 0 <= k < parts@.len() ==> free_of(#[trigger] parts@[k]@, x)) ==> #[trigger] free_of(d@, x),
{
    let ghost ps = parts@;
    let d = Doc::Concat(parts);
    assert(d@ == DocV::Concat(view_docs(ps)));
    assert forall|x: u8| (forall|k: int| 0 <= k < ps.len() ==> free_of(#[trigger] ps[k]@, x)) implies #[trigger] free_of(d@, x) by {
        lemma_free_of_docs(ps, x);
    }
    d
}

/// The doc one indentation level deeper.
pub fn indent(doc: Doc) -> (d: Doc)
    ensures
        d@ == DocV::Indent(Box::new(doc@)),
{
    Doc::Indent(Box::new(doc))
}

/// The doc `n` columns deeper.
pub fn align(n: usize, doc: Doc) -> (d: Doc)
    ensures
        d@ == DocV::Align(n as nat, Box::new(doc@)),
{
    Doc::Align(n, Box::new(doc))
}

/// A group, broken or not.
pub fn group(doc: Doc, broken: bool) -> (d: Doc)
    ensures
        d@ == (DocV::Group { broken, contents: Box::new(doc@) }),
{
    Doc::Group { broken, contents: Box::new(doc) }
}

impl Doc {
    /// Whether the doc contains a forced break or a group told to break.
    pub fn will_break(&self) -> (r: bool)
        ensures
            r == will_break_v(self@),
        decreases self,
    {
        match self {
            Doc::HardLine | Doc::LiteralLine | Doc::BreakParent => true,
            Doc::Group { broken, contents } => *broken || contents.will_break(),
            Doc::Concat(parts) => {
                proof {
                    lemma_view_docs(parts@);
                    assert(view_docs(parts@).skip(0) =~= view_docs(parts@));
                }
                let mut i: usize = 0;
                while i < parts.len()
                    invariant
                        i <= parts.len(),
                        self@ == DocV::Concat(view_docs(parts@)),
                        *self == Doc::Concat(*parts),
                        view_docs(parts@).len() == parts@.len(),
                        forall|j: int| 0 <= j < parts@.len() ==> #[trigger] view_docs(parts@)[j] == view_doc(parts@[j]),
                        any_breaks(view_docs(parts@)) == any_breaks(view_docs(parts@).skip(i as int)),
                    decreases parts.len() - i,
                {
                    let ghost vs = view_docs(parts@);
                    assert(vs.skip(i as int).drop_first() =~= vs.skip(i + 1));
                    assert(vs.skip(i as int)[0] == vs[i as int]);
                    assert(decreases_to!(*self => *parts));
                    assert(decreases_to!(*parts => parts@));
                    assert(decreases_to!(parts@ => parts@[i as int]));
                    if parts[i].will_break() {
                        return true;
                    }
                    i = i + 1;
                }
                false
            },
            Doc::Indent(d) => d.will_break(),
            Doc::Align(_, d) => d.will_break(),
            _ => false,
        }
    }
}


pub proof fn lemma_propagated_all(ds: Seq<DocV>)
    ensures
        propagated_all(ds).len() == ds.len(),
        forall|i: int| 0 <= i < ds.len() ==> #[trigger] propagated_all(ds)[i] == propagated(ds[i]),
    decreases ds.len(),
{
    if ds.len() > 0 {
        lemma_propagated_all(ds.drop_first());
        assert forall|i: int| 0 <= i < ds.len() implies #[trigger] propagated_all(ds)[i] == propagated(ds[i]) by {
            if i > 0 {
                assert(ds.drop_first()[i - 1] == ds[i]);
            }
        }
    }
}

pub proof fn lemma_any_breaks(ds: Seq<DocV>)
    ensures
        any_breaks(ds) == exists|i: int| 0 <= i < ds.len() && will_break_v(#[trigger] ds[i]),
    decreases ds.len(),
{
    if ds.len() > 0 {
        lemma_any_breaks(ds.drop_first());
        if will_break_v(ds[0]) {
            assert(0 <= 0 < ds.len() && will_break_v(ds[0]));
        }
        if any_breaks(ds.drop_first()) {
            let i = choose|i: int| 0 <= i < ds.drop_first().len() && will_break_v(#[trigger] ds.drop_first()[i]);
            assert(ds[i + 1] == ds.drop_first()[i]);
        }
        if exists|i: int| 0 <= i < ds.len() && will_break_v(#[trigger] ds[i]) {
            let i = choose|i: int| 0 <= i < ds.len() && will_break_v(#[trigger] ds[i]);
            if i > 0 {
                assert(ds.drop_first()[i - 1] == ds[i]);
            }
        }
    }
}

/// Two sequences of docs with views equal element by element have equal views.
pub proof fn lemma_view_docs_ext(ds: Seq<Doc>, vs: Seq<DocV>)
    requires
        ds.len() == vs.len(),
        forall|i: int| 0 <= i < ds.len() ==> view_doc(#[trigger] ds[i]) == vs[i],
    ensures
        view_docs(ds) == vs,
{
    lemma_view_docs(ds);
    assert(view_docs(ds) =~= vs);
}

/// Marks every group that contains a forced break as broken, and reports whether this doc does.
#[verifier::loop_isolation(false)]
fn propagate(d: Doc) -> (r: (Doc, bool))
    ensures
        r.0@ == propagated(d@),
        r.1 == will_break_v(d@),
    decreases d,
{
    let ghost d0 = d;
    match d {
        Doc::Group { broken, contents } => {
            let (inner, brk) = propagate(*contents);
            let b = broken || brk;
            (Doc::Group { broken: b, contents: Box::new(inner) }, b)
        },
        Doc::Concat(parts) => {
            let ghost ps = parts@;
            let ghost pv = parts;
            proof {
                lemma_view_docs(ps);
                lemma_propagated_all(view_docs(ps));
            }
            let mut out: Vec<Doc> = Vec::new();
            let mut any = false;
            for p in it: parts
                invariant
                    it.seq() == ps,
                    d0 == Doc::Concat(pv),
                    ps == pv@,
                    out@.len() == it.index(),
                    view_docs(ps).len() == ps.len(),
                    forall|j: int| 0 <= j < ps.len() ==> #[trigger] view_docs(ps)[j] == view_doc(ps[j]),
                    forall|j: int| 0 <= j < view_docs(ps).len() ==> #[trigger] propagated_all(view_docs(ps))[j] == propagated(view_docs(ps)[j]),
                    propagated_all(view_docs(ps)).len() == ps.len(),
                    forall|j: int| 0 <= j < it.index() ==> #[trigger] view_doc(out@[j]) == propagated(view_doc(ps[j])),
                    any == exists|j: int| 0 <= j < it.index() && will_break_v(#[trigger] view_docs(ps)[j]),
            {
                proof {
                    assert(decreases_to!(d0 => d0->Concat_0));
                    assert(d0->Concat_0 == pv);
                    assert(decreases_to!(pv => pv@));
                    assert(decreases_to!(pv@ => pv@[it.index() as int]));
                    assert(p == pv@[it.index() as int]);
                    assert(decreases_to!(d0 => p));
                }
                let ghost k = it.index();
                let (q, b) = propagate(p);
                out.push(q);
                if b {
                    assert(will_break_v(view_docs(ps)[k as int]));
                }
                any = b || any;
            }
            proof {
                lemma_any_breaks(view_docs(ps));
                lemma_view_docs_ext(out@, propagated_all(view_docs(ps)));
            }
            (Doc::Concat(out), any)
        },
        Doc::Indent(inner) => {
            let (i, b) = propagate(*inner);
            (Doc::Indent(Box::new(i)), b)
        },
        Doc::Align(n, inner) => {
            let (i, b) = propagate(*inner);
            (Doc::Align(n, Box::new(i)), b)
        },
        Doc::HardLine => (Doc::HardLine, true),
        Doc::LiteralLine => (Doc::LiteralLine, true),
        Doc::BreakParent => (Doc::BreakParent, true),
        Doc::Text(s) => (Doc::Text(s), false),
        Doc::Line => (Doc::Line, false),
        Doc::SoftLine => (Doc::SoftLine, false),
    }
}


pub proof fn lemma_indents_fit(ds: Seq<DocV>, ind: nat, w: nat)
    ensures
        indents_fit(ds, ind, w) == forall|i: int| 0 <= i < ds.len() ==> indent_fits(#[trigger] ds[i], ind, w),
    decreases ds.len(),
{
    if ds.len() > 0 {
        lemma_indents_fit(ds.drop_first(), ind, w);
        if forall|i: int| 0 <= i < ds.len() ==> indent_fits(#[trigger] ds[i], ind, w) {
            assert forall|i: int| 0 <= i < ds.drop_first().len() implies indent_fits(#[trigger] ds.drop_first()[i], ind, w) by {
                assert(ds.drop_first()[i] == ds[i + 1]);
            }
        }
        if indents_fit(ds, ind, w) {
            assert forall|i: int| 0 <= i < ds.len() implies indent_fits(#[trigger] ds[i], ind, w) by {
                if i > 0 {
                    assert(ds.drop_first()[i - 1] == ds[i]);
                }
            }
        }
    }
}

fn push_all(out: &mut Vec<u8>, s: &Vec<u8>)
    ensures
        final(out)@ == old(out)@ + s@,
{
    let mut i: usize = 0;
    while i < s.len()
        invariant
            i <= s.len(),
            out@ == old(out)@ + s@.take(i as int),
        decreases s.len() - i,
    {
        out.push(s[i]);
        i = i + 1;
        assert(out@ =~= old(out)@ + s@.take(i as int));
    }
    assert(s@.take(s.len() as int) =~= s@);
}

fn push_newline(out: &mut Vec<u8>, ind: usize)
    ensures
        final(out)@ == newline(old(out)@, ind as nat),
{
    while out.len() > 0 && (out[out.len() - 1] == 32u8 || out[out.len() - 1] == 9u8)
        invariant
            trim_blanks_end(out@) == trim_blanks_end(old(out)@),
        decreases out.len(),
    {
        assert(out@.drop_last() == out@.subrange(0, out@.len() - 1));
        out.pop();
    }
    out.push(10u8);
    let ghost base = out@;
    let mut i: usize = 0;
    while i < ind
        invariant
            i <= ind,
            out@ == base + spaces(i as nat),
        decreases ind - i,
    {
        out.push(32u8);
        i = i + 1;
        assert(out@ =~= base + spaces(i as nat));
    }
}

fn render_into(d: &Doc, ind: usize, broken: bool, w: usize, out: &mut Vec<u8>)
    requires
        indent_fits(d@, ind as nat, w as nat),
    ensures
        final(out)@ == render(d@, ind as nat, broken, w as nat, old(out)@),
    decreases d,
{
    match d {
        Doc::Text(s) => push_all(out, s),
        Doc::Concat(parts) => {
            let ghost vs = view_docs(parts@);
            proof {
                lemma_view_docs(parts@);
                lemma_indents_fit(vs, ind as nat, w as nat);
                assert(vs.skip(0) =~= vs);
            }
            let mut i: usize = 0;
            while i < parts.len()
                invariant
                    i <= parts.len(),
                    *d == Doc::Concat(*parts),
                    vs == view_docs(parts@),
                    vs.len() == parts@.len(),
                    forall|j: int| 0 <= j < parts@.len() ==> #[trigger] vs[j] == view_doc(parts@[j]),
                    forall|j: int| 0 <= j < vs.len() ==> indent_fits(#[trigger] vs[j], ind as nat, w as nat),
                    render(d@, ind as nat, broken, w as nat, old(out)@) == render_all(vs.skip(i as int), ind as nat, broken, w as nat, out@),
                decreases parts.len() - i,
            {
                assert(vs.skip(i as int).drop_first() =~= vs.skip(i + 1));
                assert(vs.skip(i as int)[0] == vs[i as int]);
                assert(decreases_to!(*d => *parts));
                assert(decreases_to!(*parts => parts@));
                assert(decreases_to!(parts@ => parts@[i as int]));
                render_into(&parts[i], ind, broken, w, out);
                i = i + 1;
            }
        },
        Doc::Indent(inner) => render_into(inner, ind + w, broken, w, out),
        Doc::Align(n, inner) => render_into(inner, ind + *n, broken, w, out),
        Doc::Group { broken: b, contents } => render_into(contents, ind, *b, w, out),
        Doc::Line => {
            if broken {
                push_newline(out, ind);
            } else {
                out.push(32u8);
            }
        },
        Doc::SoftLine => {
            if broken {
                push_newline(out, ind);
            }
        },
        Doc::HardLine => push_newline(out, ind),
        Doc::LiteralLine => out.push(10u8),
        Doc::BreakParent => {},
    }
}

/// Whether every indentation the doc reaches from `ind` fits in a `usize`.
pub fn indentation_fits(d: &Doc, ind: usize, w: usize) -> (r: bool)
    ensures
        r == indent_fits(d@, ind as nat, w as nat),
    decreases d,
{
    match d {
        Doc::Concat(parts) => {
            let ghost vs = view_docs(parts@);
            proof {
                lemma_view_docs(parts@);
                lemma_indents_fit(vs, ind as nat, w as nat);
            }
            let mut i: usize = 0;
            while i < parts.len()
                invariant
                    i <= parts.len(),
                    *d == Doc::Concat(*parts),
                    vs == view_docs(parts@),
                    vs.len() == parts@.len(),
                    forall|j: int| 0 <= j < parts@.len() ==> #[trigger] vs[j] == view_doc(parts@[j]),
                    forall|j: int| 0 <= j < i ==> indent_fits(#[trigger] vs[j], ind as nat, w as nat),
                    d@ == DocV::Concat(vs),
                    indents_fit(vs, ind as nat, w as nat) == forall|j: int| 0 <= j < vs.len() ==> indent_fits(#[trigger] vs[j], ind as nat, w as nat),
                decreases parts.len() - i,
            {
                assert(decreases_to!(*d => *parts));
                assert(decreases_to!(*parts => parts@));
                assert(decreases_to!(parts@ => parts@[i as int]));
                if !indentation_fits(&parts[i], ind, w) {
                    assert(!indent_fits(vs[i as int], ind as nat, w as nat));
                    return false;
                }
                i = i + 1;
            }
            true
        },
        Doc::Indent(inner) => {
            if ind > usize::MAX - w {
                false
            } else {
                indentation_fits(inner, ind + w, w)
            }
        },
        Doc::Align(n, inner) => {
            if ind > usize::MAX - *n {
                false
            } else {
                indentation_fits(inner, ind + *n, w)
            }
        },
        Doc::Group { contents, .. } => indentation_fits(contents, ind, w),
        _ => true,
    }
}

pub proof fn lemma_propagated_fits(d: DocV, ind: nat, w: nat)
    ensures
        indent_fits(propagated(d), ind, w) == indent_fits(d, ind, w),
    decreases d,
{
    match d {
        DocV::Concat(parts) => {
            lemma_propagated_all(parts);
            lemma_indents_fit(parts, ind, w);
            lemma_indents_fit(propagated_all(parts), ind, w);
            assert forall|i: int| 0 <= i < parts.len() implies indent_fits(#[trigger] propagated_all(parts)[i], ind, w) == indent_fits(parts[i], ind, w) by {
                lemma_propagated_fits(parts[i], ind, w);
            }
            if indents_fit(parts, ind, w) {
                assert forall|i: int| 0 <= i < propagated_all(parts).len() implies indent_fits(#[trigger] propagated_all(parts)[i], ind, w) by {
                    lemma_propagated_fits(parts[i], ind, w);
                }
            }
            if indents_fit(propagated_all(parts), ind, w) {
                assert forall|i: int| 0 <= i < parts.len() implies indent_fits(#[trigger] parts[i], ind, w) by {
                    lemma_propagated_fits(parts[i], ind, w);
                    assert(indent_fits(propagated_all(parts)[i], ind, w));
                }
            }
        },
        DocV::Indent(inner) => lemma_propagated_fits(*inner, ind + w, w),
        DocV::Align(n, inner) => lemma_propagated_fits(*inner, ind + n, w),
        DocV::Group { contents, .. } => lemma_propagated_fits(*contents, ind, w),
        _ => {},
    }
}

/// Renders the doc: its forced breaks break every enclosing group, then it prints from column 0.
pub fn print(doc: Doc, indent_width: usize) -> (r: String)
    requires
        indent_fits(doc@, 0, indent_width as nat),
    ensures
        vstd::utf8::valid_utf8(printed(doc@, indent_width as nat)) ==> r@ == vstd::utf8::decode_utf8(printed(doc@, indent_width as nat)),
        utf8_texts(doc@) ==> vstd::utf8::valid_utf8(printed(doc@, indent_width as nat)),
        free_of(doc@, 13u8) ==> !printed(doc@, indent_width as nat).contains(13u8),
{
    proof {
        if free_of(doc@, 13u8) {
            law_printing_adds_no_carriage_return(doc@, indent_width as nat);
        }
        if utf8_texts(doc@) {
            law_printing_keeps_utf8_valid(doc@, indent_width as nat);
        }
    }
    let ghost d0 = doc@;
    let (doc, _) = propagate(doc);
    proof {
        lemma_propagated_fits(d0, 0, indent_width as nat);
    }
    let mut out: Vec<u8> = Vec::new();
    render_into(&doc, 0, true, indent_width, &mut out);
    string_from_bytes(out.as_slice())
}


pub proof fn lemma_view_docs_push(ds: Seq<Doc>, x: Doc)
    ensures
        view_docs(ds.push(x)) == view_docs(ds).push(view_doc(x)),
{
    lemma_view_docs(ds);
    lemma_view_docs(ds.push(x));
    assert(view_docs(ds.push(x)) =~= view_docs(ds).push(view_doc(x)));
}

/// The lines of `s`, split at each `'\n'`.
pub open spec fn split_lines(s: Seq<u8>) -> Seq<Seq<u8>>
    decreases s.len(),
{
    if s.len() == 0 {
        seq![Seq::empty()]
    } else if s.last() == 10u8 {
        split_lines(s.drop_last()).push(Seq::empty())
    } else {
        let ls = split_lines(s.drop_last());
        ls.update(ls.len() - 1, ls.last().push(s.last()))
    }
}

/// The lines as text, with a literal line break between each two.
pub open spec fn literal_lines(ls: Seq<Seq<u8>>) -> Seq<DocV>
    decreases ls.len(),
{
    if ls.len() == 0 {
        Seq::empty()
    } else if ls.len() == 1 {
        seq![DocV::Text(ls[0])]
    } else {
        literal_lines(ls.drop_last()) + seq![DocV::LiteralLine, DocV::Text(ls.last())]
    }
}

/// Text that may span lines: each line break becomes a literal one.
pub open spec fn verbatim_v(s: Seq<u8>) -> DocV {
    if !s.contains(10u8) {
        DocV::Text(s)
    } else {
        DocV::Concat(literal_lines(split_lines(s)))
    }
}

pub proof fn lemma_split_lines_nonempty(s: Seq<u8>)
    ensures
        split_lines(s).len() >= 1,
    decreases s.len(),
{
    if s.len() > 0 {
        lemma_split_lines_nonempty(s.drop_last());
    }
}

/// The lines joined again, with a line break between each two.
pub open spec fn joined(ls: Seq<Seq<u8>>) -> Seq<u8>
    decreases ls.len(),
{
    if ls.len() == 0 {
        Seq::empty()
    } else if ls.len() == 1 {
        ls[0]
    } else {
        joined(ls.drop_last()).push(10u8) + ls.last()
    }
}

proof fn lemma_joined_split(s: Seq<u8>)
    ensures
        joined(split_lines(s)) == s,
    decreases s.len(),
{
    if s.len() > 0 {
        let p = s.drop_last();
        lemma_joined_split(p);
        lemma_split_lines_nonempty(p);
        let ls = split_lines(p);
        if s.last() == 10u8 {
            let l2 = ls.push(Seq::<u8>::empty());
            assert(l2.drop_last() =~= ls);
            assert(joined(l2) =~= p.push(10u8));
        } else {
            let l2 = ls.update(ls.len() - 1, ls.last().push(s.last()));
            if ls.len() == 1 {
                assert(l2[0] =~= p.push(s.last()));
            } else {
                assert(l2.drop_last() =~= ls.drop_last());
                assert(joined(l2) =~= joined(ls).push(s.last()));
            }
        }
        assert(p.push(s.last()) =~= s);
    }
}

proof fn lemma_render_all_append(a: Seq<DocV>, b: Seq<DocV>, ind: nat, broken: bool, w: nat, out: Seq<u8>)
    ensures
        render_all(a + b, ind, broken, w, out) == render_all(b, ind, broken, w, render_all(a, ind, broken, w, out)),
    decreases a.len(),
{
    if a.len() > 0 {
        assert((a + b).drop_first() =~= a.drop_first() + b);
        assert((a + b)[0] == a[0]);
        lemma_render_all_append(a.drop_first(), b, ind, broken, w, render(a[0], ind, broken, w, out));
    } else {
        assert(a + b =~= b);
    }
}

proof fn lemma_propagated_all_append(a: Seq<DocV>, b: Seq<DocV>)
    ensures
        propagated_all(a + b) == propagated_all(a) + propagated_all(b),
    decreases a.len(),
{
    if a.len() > 0 {
        assert((a + b).drop_first() =~= a.drop_first() + b);
        assert((a + b)[0] == a[0]);
        lemma_propagated_all_append(a.drop_first(), b);
        assert(seq![propagated(a[0])] + (propagated_all(a.drop_first()) + propagated_all(b))
            =~= (seq![propagated(a[0])] + propagated_all(a.drop_first())) + propagated_all(b));
    } else {
        assert(a + b =~= b);
        assert(propagated_all(a) + propagated_all(b) =~= propagated_all(b));
    }
}

proof fn lemma_literal_lines_render(ls: Seq<Seq<u8>>, ind: nat, broken: bool, w: nat, out: Seq<u8>)
    requires
        ls.len() >= 1,
    ensures
        propagated_all(literal_lines(ls)) == literal_lines(ls),
        render_all(literal_lines(ls), ind, broken, w, out) == out + joined(ls),
    decreases ls.len(),
{
    if ls.len() == 1 {
        let x = seq![DocV::Text(ls[0])];
        assert(x.drop_first() =~= Seq::<DocV>::empty());
        assert(propagated_all(x.drop_first()) == Seq::<DocV>::empty());
        assert(x[0] == DocV::Text(ls[0]));
        assert(propagated(x[0]) == x[0]);
        assert(propagated_all(x) =~= x);
        assert(render_all(x.drop_first(), ind, broken, w, out + ls[0]) == out + ls[0]);
        assert(render(x[0], ind, broken, w, out) == out + ls[0]);
        assert(literal_lines(ls) == x);
        assert(joined(ls) == ls[0]);
    } else {
        let front = literal_lines(ls.drop_last());
        let tail = seq![DocV::LiteralLine, DocV::Text(ls.last())];
        lemma_literal_lines_render(ls.drop_last(), ind, broken, w, out);
        lemma_propagated_all_append(front, tail);
        let t1 = tail.drop_first();
        assert(t1 =~= seq![DocV::Text(ls.last())]);
        assert(t1.drop_first() =~= Seq::<DocV>::empty());
        assert(propagated_all(t1.drop_first()) == Seq::<DocV>::empty());
        assert(t1[0] == DocV::Text(ls.last()));
        assert(propagated(t1[0]) == t1[0]);
        assert(propagated_all(t1) =~= t1);
        assert(tail[0] == DocV::LiteralLine);
        assert(propagated(tail[0]) == tail[0]);
        assert(propagated_all(tail) =~= tail);
        let o = out + joined(ls.drop_last());
        assert(render_all(t1.drop_first(), ind, broken, w, o.push(10u8) + ls.last()) == o.push(10u8) + ls.last());
        assert(render(t1[0], ind, broken, w, o.push(10u8)) == o.push(10u8) + ls.last());
        assert(render_all(t1, ind, broken, w, o.push(10u8)) == o.push(10u8) + ls.last());
        assert(render(tail[0], ind, broken, w, o) == o.push(10u8));
        assert(render_all(tail, ind, broken, w, o) == render_all(t1, ind, broken, w, o.push(10u8)));
        assert(render_all(tail, ind, broken, w, o) == o.push(10u8) + ls.last());
        lemma_render_all_append(front, tail, ind, broken, w, out);
        assert((out + joined(ls.drop_last())).push(10u8) + ls.last() =~= out + joined(ls));
    }
}

proof fn lemma_split_lines_many(s: Seq<u8>)
    requires
        s.contains(10u8),
    ensures
        split_lines(s).len() >= 2,
    decreases s.len(),
{
    let p = s.drop_last();
    lemma_split_lines_nonempty(p);
    if s.last() != 10u8 {
        let k = choose|k: int| 0 <= k < s.len() && s[k] == 10u8;
        assert(p[k] == 10u8);
        lemma_split_lines_many(p);
    }
}

proof fn lemma_any_breaks_append(a: Seq<DocV>, b: Seq<DocV>)
    ensures
        any_breaks(a + b) == (any_breaks(a) || any_breaks(b)),
    decreases a.len(),
{
    if a.len() > 0 {
        assert((a + b).drop_first() =~= a.drop_first() + b);
        assert((a + b)[0] == a[0]);
        lemma_any_breaks_append(a.drop_first(), b);
    } else {
        assert(a + b =~= b);
    }
}

/// The doc of text that may span lines is printed as the text at any indentation.
proof fn lemma_verbatim_render(s: Seq<u8>, ind: nat, w: nat)
    ensures
        render(propagated(verbatim_v(s)), ind, true, w, Seq::empty()) == s,
{
    if !s.contains(10u8) {
        assert(Seq::<u8>::empty() + s =~= s);
    } else {
        lemma_split_lines_nonempty(s);
        lemma_literal_lines_render(split_lines(s), ind, true, w, Seq::empty());
        lemma_joined_split(s);
        assert(Seq::<u8>::empty() + s =~= s);
    }
}

/// Printing text that spans lines gives it back as it was, however deep it is indented or
/// aligned: each line break in it is a literal one, which adds no indentation and trims nothing.
/// Its doc breaks exactly when the text holds a line break.
pub proof fn law_printing_verbatim_gives_the_text_back(s: Seq<u8>, w: nat, n: nat)
    ensures
        printed(verbatim_v(s), w) == s,
        printed(DocV::Indent(Box::new(verbatim_v(s))), w) == s,
        printed(DocV::Align(n, Box::new(verbatim_v(s))), w) == s,
        will_break_v(verbatim_v(s)) == s.contains(10u8),
{
    lemma_verbatim_render(s, 0, w);
    lemma_verbatim_render(s, w, w);
    lemma_verbatim_render(s, n, w);
    if s.contains(10u8) {
        lemma_split_lines_many(s);
        let ls = split_lines(s);
        let tail = seq![DocV::LiteralLine, DocV::Text(ls.last())];
        lemma_any_breaks_append(literal_lines(ls.drop_last()), tail);
        assert(literal_lines(ls) == literal_lines(ls.drop_last()) + tail);
        assert(tail[0] == DocV::LiteralLine);
        assert(will_break_v(tail[0]));
        assert(any_breaks(tail));
        assert(verbatim_v(s) == DocV::Concat(literal_lines(ls)));
    }
}

/// Text that may span lines: each line break becomes a literal one.
pub fn verbatim_bytes(s: &[u8]) -> (d: Doc)
    ensures
        d@ == verbatim_v(s@),
{
    let cs = vstd::slice::slice_to_vec(s);
    if !crate::bytes::has_byte(cs.as_slice(), 10u8) {
        return Doc::Text(cs);
    }
    let mut parts: Vec<Doc> = Vec::new();
    let mut line: Vec<u8> = Vec::new();
    let mut i: usize = 0;
    while i < cs.len()
        invariant
            i <= cs.len(),
            cs@ == s@,
            split_lines(cs@.take(i as int)).len() >= 1,
            line@ == split_lines(cs@.take(i as int)).last(),
            view_docs(parts@) == if split_lines(cs@.take(i as int)).len() == 1 {
                Seq::<DocV>::empty()
            } else {
                literal_lines(split_lines(cs@.take(i as int)).drop_last()) + seq![DocV::LiteralLine]
            },
        decreases cs.len() - i,
    {
        let ghost ls = split_lines(cs@.take(i as int));
        assert(cs@.take(i + 1).drop_last() =~= cs@.take(i as int));
        assert(cs@.take(i + 1).last() == cs@[i as int]);
        if cs[i] == 10u8 {
            let ghost before = view_docs(parts@);
            let done = Doc::Text(line);
            let ghost p0 = parts@;
            parts.push(done);
            proof { lemma_view_docs_push(p0, done); }
            let ghost p1 = parts@;
            parts.push(Doc::LiteralLine);
            proof { lemma_view_docs_push(p1, Doc::LiteralLine); }
            line = Vec::new();
            proof {
                let nls = split_lines(cs@.take(i + 1));
                assert(nls == ls.push(Seq::empty()));
                assert(nls.drop_last() =~= ls);
                assert(view_docs(parts@) == before.push(DocV::Text(ls.last())).push(DocV::LiteralLine));
                if ls.len() == 1 {
                    assert(literal_lines(ls) == seq![DocV::Text(ls[0])]);
                    assert(view_docs(parts@) =~= literal_lines(ls) + seq![DocV::LiteralLine]);
                } else {
                    assert(literal_lines(ls) == literal_lines(ls.drop_last()) + seq![DocV::LiteralLine, DocV::Text(ls.last())]);
                    assert(view_docs(parts@) =~= literal_lines(ls) + seq![DocV::LiteralLine]);
                }
            }
        } else {
            line.push(cs[i]);
            proof {
                let nls = split_lines(cs@.take(i + 1));
                assert(nls == ls.update(ls.len() - 1, ls.last().push(cs@[i as int])));
                assert(nls.drop_last() =~= ls.drop_last());
            }
        }
        i = i + 1;
    }
    let ghost p0 = parts@;
    let last = Doc::Text(line);
    parts.push(last);
    proof {
        lemma_view_docs_push(p0, last);
        assert(cs@.take(cs.len() as int) =~= cs@);
        let ls = split_lines(cs@);
        if ls.len() == 1 {
            assert(view_docs(parts@) =~= literal_lines(ls));
        } else {
            assert(view_docs(parts@) =~= literal_lines(ls));
        }
    }
    Doc::Concat(parts)
}

/// Text that may span lines: each line break becomes a literal one.
pub fn verbatim(s: &str) -> (d: Doc)
    ensures
        d@ == verbatim_v(sb(s)),
{
    verbatim_bytes(s.as_bytes())
}

/// Two docs one after the other.
pub fn concat2(a: Doc, b: Doc) -> (d: Doc)
    ensures
        d@ == DocV::Concat(seq![a@, b@]),
        forall|x: u8| free_of(a@, x) && free_of(b@, x) ==> #[trigger] free_of(d@, x),
{
    let v = vec![a, b];
    proof {
        lemma_view_docs(v@);
        assert forall|x: u8| free_of(a@, x) && free_of(b@, x) implies free_of(DocV::Concat(seq![a@, b@]), x) by {
            lemma_free_of_all(seq![a@, b@], x);
        }
        assert(view_docs(v@) =~= seq![a@, b@]);
    }
    Doc::Concat(v)
}

/// Three docs one after the other.
pub fn concat3(a: Doc, b: Doc, c: Doc) -> (d: Doc)
    ensures
        d@ == DocV::Concat(seq![a@, b@, c@]),
        forall|x: u8| free_of(a@, x) && free_of(b@, x) && free_of(c@, x) ==> #[trigger] free_of(d@, x),
{
    let v = vec![a, b, c];
    proof {
        lemma_view_docs(v@);
        assert forall|x: u8| free_of(a@, x) && free_of(b@, x) && free_of(c@, x) implies free_of(DocV::Concat(seq![a@, b@, c@]), x) by {
            lemma_free_of_all(seq![a@, b@, c@], x);
        }
        assert(view_docs(v@) =~= seq![a@, b@, c@]);
    }
    Doc::Concat(v)
}

/// Five docs one after the other.
pub fn concat5(a: Doc, b: Doc, c: Doc, e: Doc, f: Doc) -> (d: Doc)
    ensures
        d@ == DocV::Concat(seq![a@, b@, c@, e@, f@]),
        forall|x: u8| free_of(a@, x) && free_of(b@, x) && free_of(c@, x) && free_of(e@, x) && free_of(f@, x) ==> #[trigger] free_of(d@, x),
{
    let v = vec![a, b, c, e, f];
    proof {
        lemma_view_docs(v@);
        assert forall|x: u8| free_of(a@, x) && free_of(b@, x) && free_of(c@, x) && free_of(e@, x) && free_of(f@, x) implies free_of(DocV::Concat(seq![a@, b@, c@, e@, f@]), x) by {
            lemma_free_of_all(seq![a@, b@, c@, e@, f@], x);
        }
        assert(view_docs(v@) =~= seq![a@, b@, c@, e@, f@]);
    }
    Doc::Concat(v)
}

/// Four docs one after the other.
pub fn concat4(a: Doc, b: Doc, c: Doc, e: Doc) -> (d: Doc)
    ensures
        d@ == DocV::Concat(seq![a@, b@, c@, e@]),
        forall|x: u8| free_of(a@, x) && free_of(b@, x) && free_of(c@, x) && free_of(e@, x) ==> #[trigger] free_of(d@, x),
{
    let v = vec![a, b, c, e];
    proof {
        lemma_view_docs(v@);
        assert forall|x: u8| free_of(a@, x) && free_of(b@, x) && free_of(c@, x) && free_of(e@, x) implies free_of(DocV::Concat(seq![a@, b@, c@, e@]), x) by {
            lemma_free_of_all(seq![a@, b@, c@, e@], x);
        }
        assert(view_docs(v@) =~= seq![a@, b@, c@, e@]);
    }
    Doc::Concat(v)
}

/// Every text of the doc is valid UTF-8.
pub open spec fn utf8_texts(d: DocV) -> bool
    decreases d,
{
    match d {
        DocV::Text(s) => vstd::utf8::valid_utf8(s),
        DocV::Concat(parts) => utf8_texts_all(parts),
        DocV::Indent(inner) => utf8_texts(*inner),
        DocV::Align(_, inner) => utf8_texts(*inner),
        DocV::Group { contents, .. } => utf8_texts(*contents),
        _ => true,
    }
}

pub open spec fn utf8_texts_all(ds: Seq<DocV>) -> bool
    decreases ds,
{
    ds.len() == 0 || (utf8_texts(ds[0]) && utf8_texts_all(ds.drop_first()))
}

/// A sequence of docs has valid texts when each of them has.
pub proof fn lemma_utf8_texts_all(ds: Seq<DocV>)
    ensures
        utf8_texts_all(ds) <==> forall|k: int| 0 <= k < ds.len() ==> utf8_texts(#[trigger] ds[k]),
    decreases ds.len(),
{
    if ds.len() > 0 {
        lemma_utf8_texts_all(ds.drop_first());
        assert forall|k: int| 0 < k < ds.len() implies ds[k] == ds.drop_first()[k - 1] by {}
        if forall|k: int| 0 <= k < ds.len() ==> utf8_texts(#[trigger] ds[k]) {
            assert forall|k: int| 0 <= k < ds.drop_first().len() implies utf8_texts(#[trigger] ds.drop_first()[k]) by {
                assert(ds.drop_first()[k] == ds[k + 1]);
            }
        }
    }
}

proof fn lemma_propagated_utf8(d: DocV)
    requires
        utf8_texts(d),
    ensures
        utf8_texts(propagated(d)),
    decreases d,
{
    match d {
        DocV::Concat(parts) => {
            lemma_propagated_all(parts);
            lemma_utf8_texts_all(parts);
            lemma_utf8_texts_all(propagated_all(parts));
            assert forall|k: int| 0 <= k < propagated_all(parts).len() implies utf8_texts(#[trigger] propagated_all(parts)[k]) by {
                lemma_propagated_utf8(parts[k]);
            }
        },
        DocV::Indent(inner) => lemma_propagated_utf8(*inner),
        DocV::Align(_, inner) => lemma_propagated_utf8(*inner),
        DocV::Group { contents, .. } => lemma_propagated_utf8(*contents),
        _ => {},
    }
}

/// Valid UTF-8 with an ASCII byte pushed is valid UTF-8.
pub proof fn lemma_push_ascii_valid(s: Seq<u8>, b: u8)
    requires
        vstd::utf8::valid_utf8(s),
        b < 128,
    ensures
        vstd::utf8::valid_utf8(s.push(b)),
{
    crate::bytes::lemma_ascii_byte_valid(b);
    vstd::utf8::valid_utf8_concat(s, seq![b]);
    assert(s + seq![b] =~= s.push(b));
}

/// Valid UTF-8 ending in an ASCII byte is valid UTF-8 without it.
pub proof fn lemma_drop_ascii_valid(s: Seq<u8>)
    requires
        vstd::utf8::valid_utf8(s),
        s.len() > 0,
        s.last() < 128,
    ensures
        vstd::utf8::valid_utf8(s.drop_last()),
{
    let i = s.len() - 1;
    vstd::utf8::is_char_boundary_iff_not_is_continuation_byte(s, i);
    vstd::utf8::valid_utf8_split(s, i);
    assert(s.subrange(0, i) =~= s.drop_last());
}

proof fn lemma_trim_blanks_valid(s: Seq<u8>)
    requires
        vstd::utf8::valid_utf8(s),
    ensures
        vstd::utf8::valid_utf8(trim_blanks_end(s)),
    decreases s.len(),
{
    if s.len() > 0 && (s.last() == 32u8 || s.last() == 9u8) {
        lemma_drop_ascii_valid(s);
        lemma_trim_blanks_valid(s.drop_last());
    }
}

proof fn lemma_spaces_valid(n: nat)
    ensures
        vstd::utf8::valid_utf8(spaces(n)),
    decreases n,
{
    if n > 0 {
        lemma_spaces_valid((n - 1) as nat);
        lemma_push_ascii_valid(spaces((n - 1) as nat), 32u8);
        assert(spaces((n - 1) as nat).push(32u8) =~= spaces(n));
    } else {
        assert(spaces(0) =~= Seq::<u8>::empty());
    }
}

proof fn lemma_newline_valid(out: Seq<u8>, ind: nat)
    requires
        vstd::utf8::valid_utf8(out),
    ensures
        vstd::utf8::valid_utf8(newline(out, ind)),
{
    lemma_trim_blanks_valid(out);
    lemma_push_ascii_valid(trim_blanks_end(out), 10u8);
    lemma_spaces_valid(ind);
    vstd::utf8::valid_utf8_concat(trim_blanks_end(out).push(10u8), spaces(ind));
}

proof fn lemma_render_valid(d: DocV, ind: nat, broken: bool, w: nat, out: Seq<u8>)
    requires
        utf8_texts(d),
        vstd::utf8::valid_utf8(out),
    ensures
        vstd::utf8::valid_utf8(render(d, ind, broken, w, out)),
    decreases d,
{
    lemma_newline_valid(out, ind);
    match d {
        DocV::Text(s) => vstd::utf8::valid_utf8_concat(out, s),
        DocV::Concat(parts) => lemma_render_all_valid(parts, ind, broken, w, out),
        DocV::Indent(inner) => lemma_render_valid(*inner, ind + w, broken, w, out),
        DocV::Align(n, inner) => lemma_render_valid(*inner, ind + n, broken, w, out),
        DocV::Group { broken: g, contents } => lemma_render_valid(*contents, ind, g, w, out),
        DocV::Line => lemma_push_ascii_valid(out, 32u8),
        DocV::LiteralLine => lemma_push_ascii_valid(out, 10u8),
        _ => {},
    }
}

proof fn lemma_render_all_valid(ds: Seq<DocV>, ind: nat, broken: bool, w: nat, out: Seq<u8>)
    requires
        utf8_texts_all(ds),
        vstd::utf8::valid_utf8(out),
    ensures
        vstd::utf8::valid_utf8(render_all(ds, ind, broken, w, out)),
    decreases ds,
{
    if ds.len() > 0 {
        lemma_render_valid(ds[0], ind, broken, w, out);
        lemma_render_all_valid(ds.drop_first(), ind, broken, w, render(ds[0], ind, broken, w, out));
    }
}

/// Printing keeps UTF-8 valid: the printed text of a doc whose texts are valid UTF-8 is valid UTF-8.
pub proof fn law_printing_keeps_utf8_valid(d: DocV, w: nat)
    requires
        utf8_texts(d),
    ensures
        vstd::utf8::valid_utf8(printed(d, w)),
{
    lemma_propagated_utf8(d);
    assert(vstd::utf8::valid_utf8(Seq::<u8>::empty()));
    lemma_render_valid(propagated(d), 0, true, w, Seq::empty());
}

/// The index of the last line feed of `s`, or -1.
pub open spec fn last_newline(s: Seq<u8>) -> int
    decreases s.len(),
{
    if s.len() == 0 {
        -1
    } else if s.last() == 10u8 {
        s.len() - 1
    } else {
        last_newline(s.drop_last())
    }
}

proof fn lemma_last_newline(s: Seq<u8>)
    ensures
        -1 <= last_newline(s) < s.len(),
        last_newline(s) >= 0 ==> s[last_newline(s)] == 10u8,
        forall|j: int| last_newline(s) < j < s.len() ==> s[j] != 10u8,
    decreases s.len(),
{
    if s.len() > 0 && s.last() != 10u8 {
        lemma_last_newline(s.drop_last());
        assert forall|j: int| last_newline(s) < j < s.len() implies s[j] != 10u8 by {
            if j < s.len() - 1 {
                assert(s[j] == s.drop_last()[j]);
            }
        }
    }
}

proof fn lemma_split_without_newline(q: Seq<u8>)
    requires
        !q.contains(10u8),
    ensures
        split_lines(q) == seq![q],
    decreases q.len(),
{
    if q.len() > 0 {
        assert(!q.drop_last().contains(10u8)) by {
            assert forall|k: int| 0 <= k < q.drop_last().len() implies q.drop_last()[k] != 10u8 by {
                assert(q.drop_last()[k] == q[k]);
            }
        }
        lemma_split_without_newline(q.drop_last());
        assert(q.last() != 10u8) by {
            assert(q[q.len() - 1] == q.last());
        }
        assert(q.drop_last().push(q.last()) =~= q);
        assert(split_lines(q) =~= seq![q]);
    } else {
        assert(q =~= Seq::<u8>::empty());
    }
}

proof fn lemma_split_after_newline(p: Seq<u8>, q: Seq<u8>)
    requires
        !q.contains(10u8),
    ensures
        split_lines(p.push(10u8) + q) == split_lines(p).push(q),
    decreases q.len(),
{
    let s = p.push(10u8) + q;
    if q.len() == 0 {
        assert(q =~= Seq::<u8>::empty());
        assert(s =~= p.push(10u8));
        assert(s.drop_last() =~= p);
        assert(s.last() == 10u8);
        assert(split_lines(s) == split_lines(s.drop_last()).push(Seq::<u8>::empty()));
    } else {
        assert(!q.drop_last().contains(10u8)) by {
            assert forall|k: int| 0 <= k < q.drop_last().len() implies q.drop_last()[k] != 10u8 by {
                assert(q.drop_last()[k] == q[k]);
            }
        }
        lemma_split_after_newline(p, q.drop_last());
        assert(s.drop_last() =~= p.push(10u8) + q.drop_last());
        assert(s.last() == q.last());
        assert(q.last() != 10u8) by {
            assert(q[q.len() - 1] == q.last());
        }
        assert(q.drop_last().push(q.last()) =~= q);
        assert(split_lines(s) =~= split_lines(p).push(q));
    }
}

proof fn lemma_split_lines_valid(s: Seq<u8>)
    requires
        vstd::utf8::valid_utf8(s),
    ensures
        forall|k: int| 0 <= k < split_lines(s).len() ==> vstd::utf8::valid_utf8(#[trigger] split_lines(s)[k]),
    decreases s.len(),
{
    lemma_last_newline(s);
    let i = last_newline(s);
    if i < 0 {
        assert(!s.contains(10u8));
        lemma_split_without_newline(s);
    } else {
        let p = s.take(i);
        let q = s.skip(i + 1);
        assert(!q.contains(10u8)) by {
            assert forall|k: int| 0 <= k < q.len() implies q[k] != 10u8 by {
                assert(q[k] == s[i + 1 + k]);
            }
        }
        assert(s =~= p.push(10u8) + q);
        lemma_split_after_newline(p, q);
        vstd::utf8::is_char_boundary_iff_not_is_continuation_byte(s, i);
        vstd::utf8::valid_utf8_split(s, i);
        assert(s.subrange(0, i) =~= p);
        let t = s.subrange(i, s.len() as int);
        assert(t[0] == 10u8);
        assert(vstd::utf8::pop_first_scalar(t) =~= q);
        lemma_split_lines_valid(p);
    }
}

proof fn lemma_literal_lines_valid(ls: Seq<Seq<u8>>)
    requires
        forall|k: int| 0 <= k < ls.len() ==> vstd::utf8::valid_utf8(#[trigger] ls[k]),
    ensures
        utf8_texts_all(literal_lines(ls)),
    decreases ls.len(),
{
    if ls.len() > 1 {
        lemma_literal_lines_valid(ls.drop_last());
        let a = literal_lines(ls.drop_last());
        let c = a + seq![DocV::LiteralLine, DocV::Text(ls.last())];
        lemma_utf8_texts_all(a);
        lemma_utf8_texts_all(c);
        assert forall|k: int| 0 <= k < c.len() implies utf8_texts(#[trigger] c[k]) by {
            if k < a.len() {
                assert(c[k] == a[k]);
            } else if k == a.len() + 1 {
                assert(c[k] == DocV::Text(ls[ls.len() - 1]));
            }
        }
    } else if ls.len() == 1 {
        lemma_utf8_texts_all(literal_lines(ls));
    }
}

/// Text as written is valid UTF-8 in each of its lines when it is valid UTF-8.
pub proof fn lemma_verbatim_utf8(s: Seq<u8>)
    requires
        vstd::utf8::valid_utf8(s),
    ensures
        utf8_texts(verbatim_v(s)),
{
    lemma_split_lines_valid(s);
    lemma_literal_lines_valid(split_lines(s));
}

} // verus!

pub use Doc::{BreakParent, HardLine, Line, SoftLine};
