//! The runtime guard: the printed code must parse to the same tree as the input, up to layout.

use vstd::prelude::*;
use vstd::string::StringSliceAdditionalSpecFns;
use crate::bytes::{append_str, bytes_eq, bytes_of, sb, str_eq, trim_end_len, trimmed_end};
use crate::tree::{end_of, lemma_line_starts, lemma_partition_point, leaves, line_starts, non_gaps, parse, partition_point, start_of, wf_children, wf_node, Lines, Node};

verus! {

/// Line and doc comments: a hard line break trims trailing whitespace, so they can lose theirs.
pub open spec fn trims(kind: &'static str) -> bool {
    kind@ == "line_comment"@ || kind@ == "doc_comment"@
}

/// Two tokens of the same type, with the same text, or a comment that lost trailing whitespace.
pub open spec fn same_token_v(a: Node, b: Node) -> bool {
    match (a, b) {
        (Node::Token(x), Node::Token(y)) => {
            &&& x.kind@ == y.kind@
            &&& x.named == y.named
            &&& (x.text@ == y.text@ || (trims(x.kind) && x.text@.take(trim_end_len(x.text@) as int) == y.text@.take(trim_end_len(y.text@) as int)))
        },
        _ => false,
    }
}

/// A hard line break trims the trailing whitespace of the line it ends, so the guard takes a line
/// or doc comment that lost trailing whitespace to be the same: two comment tokens of one kind and
/// naming, whose texts agree once trailing whitespace is dropped, show no difference.
pub proof fn law_a_comment_may_lose_trailing_whitespace(x: crate::tree::Token, y: crate::tree::Token)
    requires
        x.kind@ == y.kind@,
        x.named == y.named,
        x.kind@ == "line_comment"@ || x.kind@ == "doc_comment"@,
        x.text@.take(trim_end_len(x.text@) as int) == y.text@.take(trim_end_len(y.text@) as int),
    ensures
        diff(Node::Token(x), Node::Token(y)) is None,
{
}

/// In particular the guard accepts a comment printed with its trailing whitespace trimmed.
pub proof fn law_a_trimmed_comment_is_the_same(x: crate::tree::Token, y: crate::tree::Token)
    requires
        x.kind@ == y.kind@,
        x.named == y.named,
        x.kind@ == "line_comment"@ || x.kind@ == "doc_comment"@,
        y.text@ == x.text@.take(trim_end_len(x.text@) as int),
    ensures
        diff(Node::Token(x), Node::Token(y)) is None,
{
    crate::bytes::lemma_trim_end_fixed(x.text@);
    crate::bytes::lemma_trim_end_len(x.text@);
    assert(y.text@.take(trim_end_len(y.text@) as int) =~= y.text@);
}

/// How a difference names a node: a gap, a token as its type and text (`~` before an anonymous
/// one), or a branch as its kind.
pub open spec fn describe_v(n: Node) -> Seq<u8> {
    match n {
        Node::Text(_) => sb("<gap>"),
        Node::Token(t) => (if t.named { Seq::empty() } else { sb("~") }) + sb(t.kind) + sb(":") + t.text@,
        Node::Branch(b) => sb(b.kind),
    }
}

/// A branch described by its number of non-gap children.
pub open spec fn with_children(kind: &'static str, n: nat) -> Seq<u8> {
    sb(kind) + sb(" with ") + crate::bytes::decimal(n) + sb(" children")
}

/// The first node of the input tree whose counterpart in the output differs, with what the input
/// had there and what the output has instead; `None` when the trees are the same up to layout: the
/// same branches, kinds and modes, and the same tokens.
pub open spec fn diff<'a>(a: Node<'a>, b: Node<'a>) -> Option<(Node<'a>, Seq<u8>, Seq<u8>)>
    decreases a, 1int,
{
    match (a, b) {
        (Node::Token(_), Node::Token(_)) => if same_token_v(a, b) {
            None
        } else {
            Some((a, describe_v(a), describe_v(b)))
        },
        (Node::Branch(x), Node::Branch(y)) => if x.kind@ != y.kind@ || x.mode != y.mode {
            Some((a, describe_v(a), describe_v(b)))
        } else if non_gaps(x.children@).len() != non_gaps(y.children@).len() {
            Some((a, with_children(x.kind, non_gaps(x.children@).len()), with_children(y.kind, non_gaps(y.children@).len())))
        } else {
            diff_children(x.children@, non_gaps(y.children@))
        },
        _ => Some((a, describe_v(a), describe_v(b))),
    }
}

/// The first difference between the non-gap nodes among `cs` and the nodes `ys`, in order.
pub open spec fn diff_children<'a>(cs: Seq<Node<'a>>, ys: Seq<Node<'a>>) -> Option<(Node<'a>, Seq<u8>, Seq<u8>)>
    decreases cs, 0int,
{
    if cs.len() == 0 {
        None
    } else if cs[0] is Text {
        diff_children(cs.drop_first(), ys)
    } else {
        match diff(cs[0], ys[0]) {
            Some(d) => Some(d),
            None => diff_children(cs.drop_first(), ys.drop_first()),
        }
    }
}

/// Whether the first difference found is `d`.
pub open spec fn found<'x, 'a>(r: Option<(&'x Node<'a>, Vec<u8>, Vec<u8>)>, d: Option<(Node<'a>, Seq<u8>, Seq<u8>)>) -> bool {
    match (r, d) {
        (Some(p), Some(q)) => *p.0 == q.0 && p.1@ == q.1 && p.2@ == q.2,
        (None, None) => true,
        _ => false,
    }
}

/// Counting the non-gap nodes from the front.
proof fn lemma_non_gaps_first<'a>(s: Seq<Node<'a>>)
    requires
        s.len() > 0,
    ensures
        non_gaps(s).len() == non_gaps(s.drop_first()).len() + if s[0] is Text { 0int } else { 1int },
    decreases s.len(),
{
    if s.len() == 1 {
        assert(s.drop_last() =~= Seq::<Node<'a>>::empty());
        assert(s.drop_first() =~= Seq::<Node<'a>>::empty());
        assert(s.last() == s[0]);
    } else {
        lemma_non_gaps_first(s.drop_last());
        assert(s.drop_last().drop_first() =~= s.drop_first().drop_last());
        assert(s.drop_first().last() == s.last());
        assert(s.drop_last()[0] == s[0]);
    }
}

fn describe(n: &Node<'_>) -> (r: Vec<u8>)
    ensures
        r@ == describe_v(*n),
{
    let mut out: Vec<u8> = Vec::new();
    match n {
        Node::Text(_) => append_str(&mut out, "<gap>"),
        Node::Token(t) => {
            if !t.named {
                append_str(&mut out, "~");
            }
            append_str(&mut out, t.kind);
            append_str(&mut out, ":");
            let mut text = vstd::slice::slice_to_vec(t.text);
            out.append(&mut text);
        },
        Node::Branch(b) => append_str(&mut out, b.kind),
    }
    assert(out@ =~= describe_v(*n));
    out
}

// A hard line break trims trailing whitespace, so a line comment can lose its trailing spaces.
fn same_token(a: &Node<'_>, b: &Node<'_>) -> (r: bool)
    ensures
        r == same_token_v(*a, *b),
{
    let (x, y) = match (a, b) {
        (Node::Token(x), Node::Token(y)) => (x, y),
        _ => return false,
    };
    if !str_eq(x.kind, y.kind) || x.named != y.named {
        return false;
    }
    let comment = str_eq(x.kind, "line_comment") || str_eq(x.kind, "doc_comment");
    if bytes_eq(x.text, y.text) {
        return true;
    }
    if !comment {
        return false;
    }
    let kx = trimmed_end(x.text);
    let ky = trimmed_end(y.text);
    proof {
        crate::bytes::lemma_trim_end_len(x.text@);
        crate::bytes::lemma_trim_end_len(y.text@);
    }
    bytes_eq(vstd::slice::slice_subrange(x.text, 0, kx), vstd::slice::slice_subrange(y.text, 0, ky))
}

/// The first difference, described as what the input had and what the output has instead.
fn compare<'x, 'a>(input: &'x Node<'a>, output: &'x Node<'a>) -> (r: Option<(&'x Node<'a>, Vec<u8>, Vec<u8>)>)
    ensures
        found(r, diff(*input, *output)),
    decreases *input, 1int,
{
    match (input, output) {
        (Node::Token(_), Node::Token(_)) => {
            if same_token(input, output) {
                None
            } else {
                Some((input, describe(input), describe(output)))
            }
        },
        (Node::Branch(a), Node::Branch(b)) => {
            if !str_eq(a.kind, b.kind) || a.mode != b.mode {
                return Some((input, describe(input), describe(output)));
            }
            let xs = a.nodes();
            let ys = b.nodes();
            if xs.len() != ys.len() {
                let mut l: Vec<u8> = Vec::new();
                append_str(&mut l, a.kind);
                append_str(&mut l, " with ");
                let mut m = crate::bytes::decimal_of(xs.len());
                l.append(&mut m);
                append_str(&mut l, " children");
                let mut o: Vec<u8> = Vec::new();
                append_str(&mut o, b.kind);
                append_str(&mut o, " with ");
                let mut k = crate::bytes::decimal_of(ys.len());
                o.append(&mut k);
                append_str(&mut o, " children");
                proof {
                    assert(l@ =~= with_children(a.kind, non_gaps(a.children@).len()));
                    assert(o@ =~= with_children(b.kind, non_gaps(b.children@).len()));
                }
                return Some((input, l, o));
            }
            proof {
                let ysv = ys@.map_values(|y: &Node<'a>| *y);
                assert(ysv =~= non_gaps(b.children@));
            }
            compare_children(input, a, &ys, Ghost(*input))
        },
        _ => Some((input, describe(input), describe(output))),
    }
}

fn compare_children<'x, 'a>(input: &'x Node<'a>, a: &'x crate::tree::Branch<'a>, ys: &Vec<&'x Node<'a>>, Ghost(whole): Ghost<Node<'a>>) -> (r: Option<(&'x Node<'a>, Vec<u8>, Vec<u8>)>)
    requires
        whole == *input,
        whole matches Node::Branch(w) && w == *a,
        ys@.len() == non_gaps(a.children@).len(),
    ensures
        found(r, diff_children(a.children@, ys@.map_values(|y: &Node<'a>| *y))),
    decreases whole, 0int,
{
    let ghost ysv = ys@.map_values(|y: &Node<'a>| *y);
    let mut i: usize = 0;
    let mut j: usize = 0;
    assert(a.children@.skip(0) =~= a.children@);
    assert(ysv.skip(0) =~= ysv);
    while i < a.children.len()
        invariant
            i <= a.children@.len(),
            j <= ys@.len(),
            whole matches Node::Branch(w) && w == *a,
            ysv == ys@.map_values(|y: &Node<'a>| *y),
            diff_children(a.children@, ysv) == diff_children(a.children@.skip(i as int), ysv.skip(j as int)),
            non_gaps(a.children@.skip(i as int)).len() + j == ys@.len(),
        decreases a.children@.len() - i,
    {
        let ghost rest = a.children@.skip(i as int);
        assert(rest.drop_first() =~= a.children@.skip(i + 1));
        assert(rest[0] == a.children@[i as int]);
        proof {
            lemma_non_gaps_first(rest);
        }
        if !a.children[i].is_text() {
            assert(ysv.skip(j as int).drop_first() =~= ysv.skip(j + 1));
            assert(ysv.skip(j as int)[0] == *ys@[j as int]);
            assert(decreases_to!(whole => whole->Branch_0));
            assert(decreases_to!(whole->Branch_0 => a.children));
            assert(decreases_to!(a.children => a.children@));
            assert(decreases_to!(a.children@ => a.children@[i as int]));
            assert(j < ys.len());
            if let Some(d) = compare(&a.children[i], ys[j]) {
                return Some(d);
            }
            j = j + 1;
        }
        i = i + 1;
    }
    None
}

/// The non-gap nodes, counted from the front.
proof fn lemma_non_gaps_cons<'a>(s: Seq<Node<'a>>)
    requires
        s.len() > 0,
    ensures
        non_gaps(s) == if s[0] is Text { non_gaps(s.drop_first()) } else { seq![s[0]] + non_gaps(s.drop_first()) },
    decreases s.len(),
{
    if s.len() == 1 {
        assert(s.drop_last() =~= Seq::<Node<'a>>::empty());
        assert(s.drop_first() =~= Seq::<Node<'a>>::empty());
        assert(s.last() == s[0]);
        assert(non_gaps(s) =~= if s[0] is Text { non_gaps(s.drop_first()) } else { seq![s[0]] + non_gaps(s.drop_first()) });
    } else {
        lemma_non_gaps_cons(s.drop_last());
        assert(s.drop_last().drop_first() =~= s.drop_first().drop_last());
        assert(s.drop_first().last() == s.last());
        assert(s.drop_last()[0] == s[0]);
        assert(non_gaps(s) =~= if s[0] is Text { non_gaps(s.drop_first()) } else { seq![s[0]] + non_gaps(s.drop_first()) });
    }
}

/// The guard accepts printed code that parses to the input's own tree: every tree is the same as
/// itself up to layout. (Gaps are never compared on their own: they are layout.)
pub proof fn law_a_tree_is_the_same_as_itself<'a>(t: Node<'a>)
    requires
        !(t is Text),
    ensures
        diff(t, t) is None,
    decreases t, 1int,
{
    if let Node::Branch(b) = t {
        lemma_children_same(b.children@);
    }
}

proof fn lemma_children_same<'a>(cs: Seq<Node<'a>>)
    ensures
        diff_children(cs, non_gaps(cs)) is None,
    decreases cs, 0int,
{
    if cs.len() > 0 {
        lemma_non_gaps_cons(cs);
        lemma_children_same(cs.drop_first());
        if !(cs[0] is Text) {
            law_a_tree_is_the_same_as_itself(cs[0]);
            assert((seq![cs[0]] + non_gaps(cs.drop_first())).drop_first() =~= non_gaps(cs.drop_first()));
        }
    }
}

/// A difference lies inside the input tree.
proof fn lemma_diff_wf<'a>(a: Node<'a>, b: Node<'a>, source: Seq<u8>)
    requires
        wf_node(a, source),
    ensures
        diff(a, b) matches Some(d) ==> wf_node(d.0, source),
    decreases a, 1int,
{
    if let (Node::Branch(x), Node::Branch(y)) = (a, b) {
        lemma_diff_children_wf(x.children@, non_gaps(y.children@), source, x.start as int, x.end as int);
    }
}

proof fn lemma_diff_children_wf<'a>(cs: Seq<Node<'a>>, ys: Seq<Node<'a>>, source: Seq<u8>, from: int, to: int)
    requires
        wf_children(cs, source, from, to),
    ensures
        diff_children(cs, ys) matches Some(d) ==> wf_node(d.0, source),
    decreases cs, 0int,
{
    if cs.len() > 0 {
        lemma_diff_wf(cs[0], ys[0], source);
        lemma_diff_children_wf(cs.drop_first(), ys, source, end_of(cs[0]), to);
        lemma_diff_children_wf(cs.drop_first(), ys.drop_first(), source, end_of(cs[0]), to);
    }
}

/// The one-based line of a byte offset.
pub open spec fn line_of(source: Seq<u8>, offset: int) -> nat {
    partition_point(line_starts(source), offset)
}

/// The message for output that differs from the input at `d`, found on line `line`.
pub open spec fn mismatch_message(line: nat, d: (Node, Seq<u8>, Seq<u8>)) -> Seq<u8> {
    sb("the formatted code means something else, from line ") + crate::bytes::decimal(line) + sb(": `") + d.1 + sb("` became `") + d.2 + sb("`")
}

/// The message for output that does not parse.
pub open spec fn unparsed_message(e: crate::Error) -> Seq<u8> {
    match e {
        crate::Error::Syntax(s) => sb("the formatted code does not parse (") + crate::tree::syntax_message(s) + sb(")"),
        crate::Error::Internal(m) => vstd::utf8::encode_utf8(m@),
    }
}

proof fn lemma_describe_valid(n: Node)
    requires
        crate::tree::utf8_tree(n),
    ensures
        vstd::utf8::valid_utf8(describe_v(n)),
{
    crate::bytes::lemma_str_valid("<gap>");
    crate::bytes::lemma_str_valid("~");
    crate::bytes::lemma_str_valid(":");
    match n {
        Node::Token(t) => {
            crate::bytes::lemma_str_valid(t.kind);
            let head = if t.named { Seq::<u8>::empty() } else { sb("~") };
            assert(vstd::utf8::valid_utf8(Seq::<u8>::empty()));
            vstd::utf8::valid_utf8_concat(head, sb(t.kind));
            vstd::utf8::valid_utf8_concat(head + sb(t.kind), sb(":"));
            vstd::utf8::valid_utf8_concat(head + sb(t.kind) + sb(":"), t.text@);
        },
        Node::Branch(b) => crate::bytes::lemma_str_valid(b.kind),
        _ => {},
    }
}

proof fn lemma_with_children_valid(kind: &'static str, n: nat)
    ensures
        vstd::utf8::valid_utf8(with_children(kind, n)),
{
    crate::bytes::lemma_str_valid(kind);
    crate::bytes::lemma_str_valid(" with ");
    crate::bytes::lemma_str_valid(" children");
    crate::bytes::lemma_decimal_valid(n);
    vstd::utf8::valid_utf8_concat(sb(kind), sb(" with "));
    vstd::utf8::valid_utf8_concat(sb(kind) + sb(" with "), crate::bytes::decimal(n));
    vstd::utf8::valid_utf8_concat(sb(kind) + sb(" with ") + crate::bytes::decimal(n), sb(" children"));
}

/// A difference between trees whose texts are valid UTF-8 is described in valid UTF-8.
proof fn lemma_diff_valid<'a>(a: Node<'a>, b: Node<'a>)
    requires
        crate::tree::utf8_tree(a),
        crate::tree::utf8_tree(b),
    ensures
        diff(a, b) matches Some(d) ==> vstd::utf8::valid_utf8(d.1) && vstd::utf8::valid_utf8(d.2),
    decreases a, 1int,
{
    lemma_describe_valid(a);
    lemma_describe_valid(b);
    if let (Node::Branch(x), Node::Branch(y)) = (a, b) {
        lemma_with_children_valid(x.kind, non_gaps(x.children@).len());
        lemma_with_children_valid(y.kind, non_gaps(y.children@).len());
        if !(x.kind@ != y.kind@ || x.mode != y.mode) && non_gaps(x.children@).len() == non_gaps(y.children@).len() {
            crate::tree::lemma_non_gaps_in(y.children@);
            crate::tree::lemma_utf8_nodes(x.children@);
            crate::tree::lemma_utf8_nodes(y.children@);
            let ys = non_gaps(y.children@);
            assert forall|k: int| 0 <= k < ys.len() implies crate::tree::utf8_tree(#[trigger] ys[k]) by {
                assert(y.children@.contains(ys[k]));
            }
            lemma_diff_children_valid(x.children@, ys);
        }
    }
}

proof fn lemma_diff_children_valid<'a>(cs: Seq<Node<'a>>, ys: Seq<Node<'a>>)
    requires
        crate::tree::utf8_nodes(cs),
        forall|k: int| 0 <= k < ys.len() ==> crate::tree::utf8_tree(#[trigger] ys[k]),
        non_gaps(cs).len() == ys.len(),
    ensures
        diff_children(cs, ys) matches Some(d) ==> vstd::utf8::valid_utf8(d.1) && vstd::utf8::valid_utf8(d.2),
    decreases cs, 0int,
{
    if cs.len() > 0 {
        lemma_non_gaps_first(cs);
        if cs[0] is Text {
            lemma_diff_children_valid(cs.drop_first(), ys);
        } else if ys.len() > 0 {
            lemma_diff_valid(cs[0], ys[0]);
            assert forall|k: int| 0 <= k < ys.drop_first().len() implies crate::tree::utf8_tree(#[trigger] ys.drop_first()[k]) by {
                assert(ys.drop_first()[k] == ys[k + 1]);
            }
            lemma_diff_children_valid(cs.drop_first(), ys.drop_first());
        }
    }
}

/// The message for a difference between trees with valid UTF-8 texts reads as valid UTF-8.
proof fn lemma_mismatch_valid<'a>(line: nat, d: (Node<'a>, Seq<u8>, Seq<u8>))
    requires
        vstd::utf8::valid_utf8(d.1),
        vstd::utf8::valid_utf8(d.2),
    ensures
        vstd::utf8::valid_utf8(mismatch_message(line, d)),
{
    let a = sb("the formatted code means something else, from line ");
    crate::bytes::lemma_str_valid("the formatted code means something else, from line ");
    crate::bytes::lemma_str_valid(": `");
    crate::bytes::lemma_str_valid("` became `");
    crate::bytes::lemma_str_valid("`");
    crate::bytes::lemma_decimal_valid(line);
    let x1 = a + crate::bytes::decimal(line);
    vstd::utf8::valid_utf8_concat(a, crate::bytes::decimal(line));
    let x2 = x1 + sb(": `");
    vstd::utf8::valid_utf8_concat(x1, sb(": `"));
    let x3 = x2 + d.1;
    vstd::utf8::valid_utf8_concat(x2, d.1);
    let x4 = x3 + sb("` became `");
    vstd::utf8::valid_utf8_concat(x3, sb("` became `"));
    let x5 = x4 + d.2;
    vstd::utf8::valid_utf8_concat(x4, d.2);
    vstd::utf8::valid_utf8_concat(x5, sb("`"));
}

/// The message for output that does not parse reads as valid UTF-8.
pub proof fn lemma_unparsed_valid(e: crate::Error)
    ensures
        vstd::utf8::valid_utf8(unparsed_message(e)),
{
    match e {
        crate::Error::Syntax(s) => {
            crate::tree::lemma_syntax_message_valid(s);
            crate::bytes::lemma_str_valid("the formatted code does not parse (");
            crate::bytes::lemma_str_valid(")");
            let head = sb("the formatted code does not parse (");
            vstd::utf8::valid_utf8_concat(head, crate::tree::syntax_message(s));
            vstd::utf8::valid_utf8_concat(head + crate::tree::syntax_message(s), sb(")"));
        },
        crate::Error::Internal(m) => vstd::utf8::encode_utf8_valid_utf8(m@),
    }
}

/// The string a message's bytes decode to.
pub open spec fn says(m: String, bytes: Seq<u8>) -> bool {
    vstd::utf8::valid_utf8(bytes) ==> m@ == vstd::utf8::decode_utf8(bytes)
}

/// Judges the parse of the printed code against the input tree: `Ok` exactly when it parsed and the
/// two trees are the same up to layout; otherwise the first difference, located by its line in
/// `source`, or why the printed code did not parse.
pub fn judge(input: &Node<'_>, source: &str, output: Result<Node<'_>, crate::Error>) -> (r: Result<(), String>)
    requires
        wf_node(*input, sb(source)),
        sb(source).len() < usize::MAX,
    ensures
        match output {
            Err(e) => r matches Err(m) && m@ == vstd::utf8::decode_utf8(unparsed_message(e)),
            Ok(o) => match diff(*input, o) {
                None => r is Ok,
                Some(d) => r matches Err(m) && says(m, mismatch_message(line_of(sb(source), start_of(d.0)), d))
                    && (crate::tree::utf8_tree(*input) && crate::tree::utf8_tree(o) ==> m@ == vstd::utf8::decode_utf8(
                        mismatch_message(line_of(sb(source), start_of(d.0)), d),
                    )),
            },
        },
{
    let output = match output {
        Ok(o) => o,
        Err(e) => {
            proof {
                lemma_unparsed_valid(e);
            }
            let mut m: Vec<u8> = Vec::new();
            match &e {
                crate::Error::Syntax(s) => {
                    append_str(&mut m, "the formatted code does not parse (");
                    let mut t = s.message_bytes();
                    m.append(&mut t);
                    append_str(&mut m, ")");
                },
                crate::Error::Internal(s) => {
                    let mut t = bytes_of(s.as_str());
                    m.append(&mut t);
                },
            }
            assert(m@ =~= unparsed_message(e));
            return Err(crate::bytes::string_from_bytes(m.as_slice()));
        },
    };
    match compare(input, &output) {
        None => Ok(()),
        Some((at, before, after)) => {
            proof {
                lemma_diff_wf(*input, output, sb(source));
                lemma_line_starts(sb(source));
                lemma_partition_point(line_starts(sb(source)), start_of(*at));
            }
            let bytes = source.as_bytes();
            let lines = Lines::new(bytes);
            let line = lines.pos(at.start()).0 + 1;
            let mut m: Vec<u8> = Vec::new();
            append_str(&mut m, "the formatted code means something else, from line ");
            let mut n = crate::bytes::decimal_of(line);
            m.append(&mut n);
            append_str(&mut m, ": `");
            let mut b = before;
            m.append(&mut b);
            append_str(&mut m, "` became `");
            let mut a = after;
            m.append(&mut a);
            append_str(&mut m, "`");
            assert(m@ =~= mismatch_message(line_of(sb(source), start_of(*at)), diff(*input, output).unwrap()));
            proof {
                if crate::tree::utf8_tree(*input) && crate::tree::utf8_tree(output) {
                    lemma_diff_valid(*input, output);
                    lemma_mismatch_valid(line_of(sb(source), start_of(*at)), diff(*input, output).unwrap());
                }
            }
            Err(crate::bytes::string_from_bytes(m.as_slice()))
        },
    }
}

/// The guard fails on `printed`: it can't be parsed, or its tree differs from `input`'s beyond
/// layout.
pub open spec fn verify_fails(input: Node, printed: Seq<u8>, grammar: crate::Grammar) -> bool {
    ||| crate::tree::unparsed_v(printed, grammar)
    ||| exists|e: crate::tree::SyntaxError| #[trigger] crate::tree::syntax_v(printed, grammar, e)
    ||| exists|o: Node| #[trigger] crate::tree::parsed(printed, grammar, o) && diff(input, o) is Some
}

/// The guard: parses the printed code and judges it against the input tree. `Ok` only when the
/// printed code parsed to a tree that is the same as the input's up to layout; an error, whose
/// message `judge` gives, only where the guard fails (see [`verify_fails`]).
pub fn verify(input: &Node<'_>, source: &str, printed: &str, grammar: &crate::Grammar) -> (r: Result<(), String>)
    requires
        wf_node(*input, sb(source)),
        sb(source).len() < usize::MAX,
    ensures
        r is Ok ==> exists|o: Node| #[trigger] crate::tree::parsed(sb(printed), *grammar, o) && diff(*input, o) is None,
        r is Err ==> verify_fails(*input, sb(printed), *grammar),
{
    let output = parse(printed, grammar);
    let ghost parsed = output;
    let r = judge(input, source, output);
    proof {
        match parsed {
            Ok(o) => {
                assert(crate::tree::parsed(sb(printed), *grammar, o));
            },
            Err(crate::Error::Syntax(e)) => {
                assert(crate::tree::syntax_v(sb(printed), *grammar, e));
            },
            Err(crate::Error::Internal(_)) => {},
        }
    }
    r
}

} // verus!
