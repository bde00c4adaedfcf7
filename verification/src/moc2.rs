//! The `moc2` rewrite: legacy syntax to the moc 2.0 forms, as edits to the source text located by the tree.

use vstd::prelude::*;
use crate::bytes::{bytes_eq, sb, str_eq, trim, trim_v};
use crate::tree::{branch_v, branches_all, branches_v, end_of, field_index, non_gaps, start_of, text_of, wf_children, wf_node, Branch, Node};

verus! {

/// A replacement of `source[start..end]` by `text`.
#[derive(Debug)]
pub struct Edit {
    pub start: usize,
    pub end: usize,
    pub text: Vec<u8>,
}

/// The mathematical value of an edit: its range and its text.
pub type EditV = (int, int, Seq<u8>);

pub open spec fn edit_v(e: Edit) -> EditV {
    (e.start as int, e.end as int, e.text@)
}

pub open spec fn edits_v(es: Seq<Edit>) -> Seq<EditV> {
    es.map_values(|e: Edit| edit_v(e))
}

/// Edits ordered by their ranges.
pub open spec fn key_le(a: EditV, b: EditV) -> bool {
    a.0 < b.0 || (a.0 == b.0 && a.1 <= b.1)
}

/// `e` inserted into the sorted `s` after every edit that does not come after it.
pub open spec fn insert_sorted(s: Seq<EditV>, e: EditV) -> Seq<EditV>
    decreases s.len(),
{
    if s.len() == 0 {
        seq![e]
    } else if key_le(s.last(), e) {
        s.push(e)
    } else {
        insert_sorted(s.drop_last(), e).push(s.last())
    }
}

/// The edits sorted by range, stably: edits with equal ranges keep their order.
pub open spec fn sort_v(es: Seq<EditV>) -> Seq<EditV>
    decreases es.len(),
{
    if es.len() == 0 {
        Seq::empty()
    } else {
        insert_sorted(sort_v(es.drop_last()), es.last())
    }
}

/// The edits, in order, whose ranges don't overlap an earlier chosen one.
pub open spec fn choose_v(s: Seq<EditV>) -> Seq<EditV>
    decreases s.len(),
{
    if s.len() == 0 {
        Seq::empty()
    } else {
        let c = choose_v(s.drop_last());
        let e = s.last();
        if c.len() > 0 && e.0 < c.last().1 {
            c
        } else {
            c.push(e)
        }
    }
}

/// `source` with the edits, which follow one another, applied.
pub open spec fn splice_v(source: Seq<u8>, cs: Seq<EditV>) -> Seq<u8>
    decreases cs.len(),
{
    if cs.len() == 0 {
        source
    } else {
        let l = cs.last();
        splice_v(source.take(l.0), cs.drop_last()) + l.2 + source.skip(l.1)
    }
}

/// What applying the edits gives: sorted by range, those that don't overlap an earlier one,
/// spliced into the source.
pub open spec fn applied(source: Seq<u8>, es: Seq<EditV>) -> Seq<u8> {
    splice_v(source, choose_v(sort_v(es)))
}

/// An edit within the source.
pub open spec fn within(e: EditV, len: nat) -> bool {
    0 <= e.0 <= e.1 <= len
}

proof fn lemma_insert_sorted(s: Seq<EditV>, e: EditV, p: int)
    requires
        0 <= p <= s.len(),
        forall|j: int| p <= j < s.len() ==> !key_le(#[trigger] s[j], e),
        p == 0 || key_le(s[p - 1], e),
    ensures
        insert_sorted(s, e) == s.take(p).push(e) + s.skip(p),
    decreases s.len(),
{
    if s.len() == 0 {
        assert(s.take(p).push(e) + s.skip(p) =~= seq![e]);
    } else if p == s.len() {
        assert(s.take(p).push(e) + s.skip(p) =~= s.push(e));
    } else {
        lemma_insert_sorted(s.drop_last(), e, p);
        assert(s.drop_last().take(p) =~= s.take(p));
        assert(s.take(p).push(e) + s.skip(p) =~= (s.take(p).push(e) + s.drop_last().skip(p)).push(s.last()));
    }
}

proof fn lemma_insert_sorted_within(s: Seq<EditV>, e: EditV, len: nat)
    requires
        forall|j: int| 0 <= j < s.len() ==> within(#[trigger] s[j], len),
        within(e, len),
    ensures
        forall|j: int| 0 <= j < insert_sorted(s, e).len() ==> within(#[trigger] insert_sorted(s, e)[j], len),
    decreases s.len(),
{
    if s.len() > 0 && !key_le(s.last(), e) {
        lemma_insert_sorted_within(s.drop_last(), e, len);
        let t = insert_sorted(s.drop_last(), e);
        assert forall|j: int| 0 <= j < t.push(s.last()).len() implies within(#[trigger] t.push(s.last())[j], len) by {
            if j < t.len() {
                assert(t.push(s.last())[j] == t[j]);
            }
        }
    }
}

proof fn lemma_sort_within(es: Seq<EditV>, len: nat)
    requires
        forall|j: int| 0 <= j < es.len() ==> within(#[trigger] es[j], len),
    ensures
        forall|j: int| 0 <= j < sort_v(es).len() ==> within(#[trigger] sort_v(es)[j], len),
    decreases es.len(),
{
    if es.len() > 0 {
        lemma_sort_within(es.drop_last(), len);
        lemma_insert_sorted_within(sort_v(es.drop_last()), es.last(), len);
    }
}

/// Edits within the source.
pub open spec fn all_within(es: Seq<EditV>, len: nat) -> bool {
    forall|j: int| 0 <= j < es.len() ==> within(#[trigger] es[j], len)
}

/// Chosen edits follow one another.
pub open spec fn follow(cs: Seq<EditV>, len: nat) -> bool {
    &&& forall|j: int| 0 <= j < cs.len() ==> within(#[trigger] cs[j], len)
    &&& forall|j: int| 0 < j < cs.len() ==> cs[j - 1].1 <= #[trigger] cs[j].0
}

proof fn lemma_choose_follow(s: Seq<EditV>, len: nat)
    requires
        forall|j: int| 0 <= j < s.len() ==> within(#[trigger] s[j], len),
    ensures
        follow(choose_v(s), len),
    decreases s.len(),
{
    if s.len() > 0 {
        lemma_choose_follow(s.drop_last(), len);
        let c = choose_v(s.drop_last());
        assert(within(s[s.len() - 1], len));
        if !(c.len() > 0 && s.last().0 < c.last().1) {
            let d = c.push(s.last());
            assert forall|j: int| 0 < j < d.len() implies d[j - 1].1 <= #[trigger] d[j].0 by {
                if j < c.len() {
                    assert(d[j - 1] == c[j - 1] && d[j] == c[j]);
                }
            }
        }
    }
}

/// Splicing touches only the prefix the edits lie in.
proof fn lemma_splice_prefix(source: Seq<u8>, cs: Seq<EditV>, k: int)
    requires
        0 <= k <= source.len(),
        follow(cs, k as nat),
    ensures
        splice_v(source.take(k), cs) + source.skip(k) == splice_v(source, cs),
{
    if cs.len() > 0 {
        let l = cs.last();
        assert(within(cs[cs.len() - 1], k as nat));
        assert(source.take(k).take(l.0) =~= source.take(l.0));
        assert(source.take(k).skip(l.1) + source.skip(k) =~= source.skip(l.1));
        assert(splice_v(source.take(k), cs) + source.skip(k) =~= splice_v(source.take(l.0), cs.drop_last()) + l.2 + (source.take(k).skip(l.1) + source.skip(k)));
    }
}

proof fn lemma_follow_ends(cs: Seq<EditV>, len: nat, j: int, t: int)
    requires
        follow(cs, len),
        0 <= j <= t < cs.len(),
    ensures
        cs[j].1 <= cs[t].1,
    decreases t - j,
{
    if j < t {
        lemma_follow_ends(cs, len, j, t - 1);
        assert(cs[t - 1].1 <= cs[t].0);
        assert(within(cs[t], len));
    }
}

/// The edits before the `m`th lie before its start.
proof fn lemma_follow_prefix(cs: Seq<EditV>, len: nat, m: int)
    requires
        follow(cs, len),
        0 <= m < cs.len(),
    ensures
        follow(cs.take(m), cs[m].0 as nat),
{
    assert(within(cs[m], len));
    let prev = cs.take(m);
    assert forall|j: int| 0 <= j < prev.len() implies within(#[trigger] prev[j], cs[m].0 as nat) by {
        lemma_follow_ends(cs, len, j, m - 1);
        assert(cs[m - 1].1 <= cs[m].0);
        assert(within(cs[j], len));
    }
    assert forall|j: int| 0 < j < prev.len() implies prev[j - 1].1 <= #[trigger] prev[j].0 by {
        assert(cs[j - 1].1 <= cs[j].0);
    }
}

/// No edit's text holds the byte `x`.
pub open spec fn texts_free(es: Seq<EditV>, x: u8) -> bool {
    forall|j: int| 0 <= j < es.len() ==> !(#[trigger] es[j]).2.contains(x)
}

/// Two byte strings without `x` joined hold none either.
pub proof fn lemma_free_concat(a: Seq<u8>, b: Seq<u8>, x: u8)
    requires
        !a.contains(x),
        !b.contains(x),
    ensures
        !(a + b).contains(x),
{
    assert forall|k: int| 0 <= k < (a + b).len() implies (a + b)[k] != x by {
        if k < a.len() {
            assert((a + b)[k] == a[k]);
        } else {
            assert((a + b)[k] == b[k - a.len()]);
        }
    }
}

proof fn lemma_push_free(es: Seq<Edit>, e: Edit, x: u8)
    requires
        texts_free(edits_v(es), x),
        !e.text@.contains(x),
    ensures
        texts_free(edits_v(es.push(e)), x),
{
    assert(edits_v(es.push(e)) =~= edits_v(es).push(edit_v(e)));
    assert forall|j: int| 0 <= j < edits_v(es.push(e)).len() implies !(#[trigger] edits_v(es.push(e))[j]).2.contains(x) by {
        if j < es.len() {
            assert(edits_v(es.push(e))[j] == edits_v(es)[j]);
        }
    }
}

proof fn lemma_insert_sorted_free(s: Seq<EditV>, e: EditV, x: u8)
    requires
        texts_free(s, x),
        !e.2.contains(x),
    ensures
        texts_free(insert_sorted(s, e), x),
    decreases s.len(),
{
    if s.len() > 0 && !key_le(s.last(), e) {
        lemma_insert_sorted_free(s.drop_last(), e, x);
        let t = insert_sorted(s.drop_last(), e);
        assert forall|j: int| 0 <= j < t.push(s.last()).len() implies !(#[trigger] t.push(s.last())[j]).2.contains(x) by {
            if j < t.len() {
                assert(t.push(s.last())[j] == t[j]);
            }
        }
    } else if s.len() > 0 {
        assert forall|j: int| 0 <= j < s.push(e).len() implies !(#[trigger] s.push(e)[j]).2.contains(x) by {
            if j < s.len() {
                assert(s.push(e)[j] == s[j]);
            }
        }
    }
}

proof fn lemma_sort_free(es: Seq<EditV>, x: u8)
    requires
        texts_free(es, x),
    ensures
        texts_free(sort_v(es), x),
    decreases es.len(),
{
    if es.len() > 0 {
        assert(texts_free(es.drop_last(), x)) by {
            assert forall|j: int| 0 <= j < es.drop_last().len() implies !(#[trigger] es.drop_last()[j]).2.contains(x) by {
                assert(es.drop_last()[j] == es[j]);
            }
        }
        lemma_sort_free(es.drop_last(), x);
        assert(es.last() == es[es.len() - 1]);
        lemma_insert_sorted_free(sort_v(es.drop_last()), es.last(), x);
    }
}

proof fn lemma_choose_free(s: Seq<EditV>, x: u8)
    requires
        texts_free(s, x),
    ensures
        texts_free(choose_v(s), x),
    decreases s.len(),
{
    if s.len() > 0 {
        assert(texts_free(s.drop_last(), x)) by {
            assert forall|j: int| 0 <= j < s.drop_last().len() implies !(#[trigger] s.drop_last()[j]).2.contains(x) by {
                assert(s.drop_last()[j] == s[j]);
            }
        }
        lemma_choose_free(s.drop_last(), x);
        let c = choose_v(s.drop_last());
        assert(s.last() == s[s.len() - 1]);
        assert forall|j: int| 0 <= j < c.push(s.last()).len() implies !(#[trigger] c.push(s.last())[j]).2.contains(x) by {
            if j < c.len() {
                assert(c.push(s.last())[j] == c[j]);
            }
        }
    }
}

proof fn lemma_splice_free(source: Seq<u8>, cs: Seq<EditV>, x: u8)
    requires
        follow(cs, source.len()),
        texts_free(cs, x),
        !source.contains(x),
    ensures
        !splice_v(source, cs).contains(x),
    decreases cs.len(),
{
    if cs.len() > 0 {
        let l = cs.last();
        assert(l == cs[cs.len() - 1]);
        assert(within(cs[cs.len() - 1], source.len()));
        lemma_follow_prefix(cs, source.len(), cs.len() - 1);
        assert(cs.take(cs.len() - 1) =~= cs.drop_last());
        let head = source.take(l.0);
        assert(!head.contains(x)) by {
            assert forall|k: int| 0 <= k < head.len() implies head[k] != x by {
                assert(head[k] == source[k]);
            }
        }
        assert(texts_free(cs.drop_last(), x)) by {
            assert forall|j: int| 0 <= j < cs.drop_last().len() implies !(#[trigger] cs.drop_last()[j]).2.contains(x) by {
                assert(cs.drop_last()[j] == cs[j]);
            }
        }
        lemma_splice_free(head, cs.drop_last(), x);
        let tail = source.skip(l.1);
        assert(!tail.contains(x)) by {
            assert forall|k: int| 0 <= k < tail.len() implies tail[k] != x by {
                assert(tail[k] == source[l.1 + k]);
            }
        }
        lemma_free_concat(splice_v(head, cs.drop_last()), l.2, x);
        lemma_free_concat(splice_v(head, cs.drop_last()) + l.2, tail, x);
    }
}

/// Applying edits whose texts hold no `x` to a source without `x` gives none either.
pub proof fn lemma_applied_free(source: Seq<u8>, es: Seq<EditV>, x: u8)
    requires
        all_within(es, source.len()),
        texts_free(es, x),
        !source.contains(x),
    ensures
        !applied(source, es).contains(x),
{
    lemma_sort_within(es, source.len());
    lemma_choose_follow(sort_v(es), source.len());
    lemma_sort_free(es, x);
    lemma_choose_free(sort_v(es), x);
    lemma_splice_free(source, choose_v(sort_v(es)), x);
}

/// The edits at the indices.
pub open spec fn pick(es: Seq<EditV>, idx: Seq<usize>) -> Seq<EditV> {
    idx.map_values(|k: usize| es[k as int])
}

fn key_le_exec(a: &Edit, b: &Edit) -> (r: bool)
    ensures
        r == key_le(edit_v(*a), edit_v(*b)),
{
    a.start < b.start || (a.start == b.start && a.end <= b.end)
}

/// Applies the edits whose ranges don't overlap an earlier one, in the order of their ranges; the
/// rest wait for the next round.
pub fn apply(source: &[u8], edits: &Vec<Edit>) -> (r: Vec<u8>)
    requires
        forall|j: int| 0 <= j < edits@.len() ==> within(#[trigger] edits_v(edits@)[j], source@.len()),
    ensures
        r@ == applied(source@, edits_v(edits@)),
{
    let ghost es = edits_v(edits@);
    // Sort the edits' indices, stably, by range.
    let mut sorted: Vec<usize> = Vec::new();
    let mut i: usize = 0;
    while i < edits.len()
        invariant
            i <= edits@.len(),
            es == edits_v(edits@),
            forall|j: int| 0 <= j < sorted@.len() ==> #[trigger] sorted@[j] < edits@.len(),
            pick(es, sorted@) == sort_v(es.take(i as int)),
        decreases edits@.len() - i,
    {
        let mut p = sorted.len();
        while p > 0 && !key_le_exec(&edits[sorted[p - 1]], &edits[i])
            invariant
                p <= sorted@.len(),
                i < edits@.len(),
                es == edits_v(edits@),
                forall|j: int| 0 <= j < sorted@.len() ==> #[trigger] sorted@[j] < edits@.len(),
                forall|j: int| p <= j < sorted@.len() ==> !key_le(#[trigger] pick(es, sorted@)[j], es[i as int]),
            decreases p,
        {
            assert(pick(es, sorted@)[p - 1] == es[sorted@[p - 1] as int]);
            p = p - 1;
        }
        proof {
            if p > 0 {
                assert(pick(es, sorted@)[p - 1] == es[sorted@[p - 1] as int]);
            }
            lemma_insert_sorted(pick(es, sorted@), es[i as int], p as int);
            assert(es.take(i + 1).drop_last() =~= es.take(i as int));
        }
        let ghost before = sorted@;
        sorted.insert(p, i);
        proof {
            assert(pick(es, sorted@) =~= pick(es, before).take(p as int).push(es[i as int]) + pick(es, before).skip(p as int));
        }
        i = i + 1;
    }
    assert(es.take(edits@.len() as int) =~= es);
    // Keep those that don't overlap an earlier kept one.
    let mut chosen: Vec<usize> = Vec::new();
    let mut k: usize = 0;
    while k < sorted.len()
        invariant
            k <= sorted@.len(),
            es == edits_v(edits@),
            forall|j: int| 0 <= j < sorted@.len() ==> #[trigger] sorted@[j] < edits@.len(),
            forall|j: int| 0 <= j < chosen@.len() ==> #[trigger] chosen@[j] < edits@.len(),
            pick(es, sorted@) == sort_v(es),
            pick(es, chosen@) == choose_v(pick(es, sorted@).take(k as int)),
        decreases sorted@.len() - k,
    {
        let e = &edits[sorted[k]];
        assert(pick(es, sorted@).take(k + 1).drop_last() =~= pick(es, sorted@).take(k as int));
        assert(pick(es, sorted@).take(k + 1).last() == es[sorted@[k as int] as int]);
        let keep = if chosen.len() == 0 {
            true
        } else {
            assert(pick(es, chosen@).last() == es[chosen@[chosen@.len() - 1] as int]);
            !(e.start < edits[chosen[chosen.len() - 1]].end)
        };
        if keep {
            let ghost before = chosen@;
            chosen.push(sorted[k]);
            assert(pick(es, chosen@) =~= pick(es, before).push(es[sorted@[k as int] as int]));
        }
        k = k + 1;
    }
    assert(pick(es, sorted@).take(sorted@.len() as int) =~= pick(es, sorted@));
    let ghost cs = pick(es, chosen@);
    proof {
        lemma_sort_within(es, source@.len());
        lemma_choose_follow(sort_v(es), source@.len());
    }
    // Splice them in.
    let mut out: Vec<u8> = Vec::new();
    let mut pos: usize = 0;
    let mut m: usize = 0;
    while m < chosen.len()
        invariant
            m <= chosen@.len(),
            es == edits_v(edits@),
            cs == pick(es, chosen@),
            forall|j: int| 0 <= j < chosen@.len() ==> #[trigger] chosen@[j] < edits@.len(),
            follow(cs, source@.len()),
            pos <= source@.len(),
            m == 0 ==> pos == 0,
            m > 0 ==> pos == cs[m - 1].1,
            out@ + source@.skip(pos as int) == splice_v(source@, cs.take(m as int)),
        decreases chosen@.len() - m,
    {
        let e = &edits[chosen[m]];
        assert(cs[m as int] == edit_v(*e));
        proof {
            let prev = cs.take(m as int);
            lemma_follow_prefix(cs, source@.len(), m as int);
            lemma_splice_prefix(source@, prev, e.start as int);
            assert(cs.take(m + 1).drop_last() =~= prev);
            assert(cs.take(m + 1).last() == edit_v(*e));
        }
        let ghost out0 = out@;
        let mut piece = vstd::slice::slice_to_vec(vstd::slice::slice_subrange(source, pos, e.start));
        out.append(&mut piece);
        let mut t = e.text.clone();
        out.append(&mut t);
        proof {
            let prev = cs.take(m as int);
            let x = splice_v(source@.take(e.start as int), prev);
            assert(x + source@.skip(e.start as int) == out0 + source@.skip(pos as int));
            assert(source@.skip(pos as int) =~= source@.subrange(pos as int, e.start as int) + source@.skip(e.start as int));
            assert(x =~= out0 + source@.subrange(pos as int, e.start as int)) by {
                assert((x + source@.skip(e.start as int)).len() == (out0 + source@.skip(pos as int)).len());
                assert(x.len() == out0.len() + (e.start - pos));
                assert forall|q: int| 0 <= q < x.len() implies x[q] == (out0 + source@.subrange(pos as int, e.start as int))[q] by {
                    assert((x + source@.skip(e.start as int))[q] == (out0 + source@.skip(pos as int))[q]);
                }
            }
            assert(out@ + source@.skip(e.end as int) =~= splice_v(source@, cs.take(m + 1)));
        }
        pos = e.end;
        m = m + 1;
    }
    let mut tail = vstd::slice::slice_to_vec(vstd::slice::slice_subrange(source, pos, source.len()));
    out.append(&mut tail);
    assert(cs.take(chosen@.len() as int) =~= cs);
    assert(out@ =~= splice_v(source@, cs));
    out
}

/// Every branch of a well-formed tree is well formed.
pub proof fn lemma_branches_wf(b: Branch, source: Seq<u8>)
    requires
        wf_node(Node::Branch(b), source),
    ensures
        forall|k: int| 0 <= k < branches_v(b).len() ==> wf_node(Node::Branch(#[trigger] branches_v(b)[k]), source),
    decreases b, 1int,
{
    lemma_branches_all_wf(b.children@, source, b.start as int, b.end as int);
}

proof fn lemma_branches_all_wf(ns: Seq<Node>, source: Seq<u8>, from: int, to: int)
    requires
        wf_children(ns, source, from, to),
    ensures
        forall|k: int| 0 <= k < branches_all(ns).len() ==> wf_node(Node::Branch(#[trigger] branches_all(ns)[k]), source),
    decreases ns, 0int,
{
    if ns.len() > 0 {
        lemma_branches_all_wf(ns.drop_first(), source, end_of(ns[0]), to);
        let rest = branches_all(ns.drop_first());
        if let Node::Branch(b) = ns[0] {
            lemma_branches_wf(b, source);
            let all = branches_v(b) + rest;
            assert forall|k: int| 0 <= k < all.len() implies wf_node(Node::Branch(#[trigger] all[k]), source) by {
                if k >= branches_v(b).len() {
                    assert(all[k] == rest[k - branches_v(b).len()]);
                }
            }
        }
    }
}

/// The first child branch with this field name.
pub open spec fn field_v<'a>(n: Branch<'a>, name: Seq<char>) -> Option<Branch<'a>> {
    match field_index(n.children@, name) {
        Some(i) => Some(branch_v(n.children@[i])),
        None => None,
    }
}

/// Whether a branch is a block.
pub open spec fn is_block_v(b: Option<Branch>) -> bool {
    b matches Some(x) && x.kind@ == "block_exp"@
}

fn is_block(b: Option<&Branch<'_>>) -> (r: bool)
    ensures
        r == is_block_v(match b {
            Some(x) => Some(*x),
            None => None,
        }),
{
    match b {
        Some(x) => str_eq(x.kind, "block_exp"),
        None => false,
    }
}

fn field_of<'n, 'a>(n: &'n Branch<'a>, name: &str) -> (r: Option<&'n Branch<'a>>)
    ensures
        match r {
            Some(b) => field_v(*n, name@) == Some(*b),
            None => field_v(*n, name@) is None,
        },
        r matches Some(b) ==> n.children@.contains(Node::Branch(*b)),
{
    let r = n.field(name);
    proof {
        crate::tree::lemma_field_index(n.children@, name@);
        if let Some(i) = field_index(n.children@, name@) {
            assert(n.children@[i] == Node::Branch(branch_v(n.children@[i])));
        }
    }
    r
}

/// Braces around a body: `{ ` before it and ` }` after it.
pub open spec fn brace_v(b: Branch) -> Seq<EditV> {
    seq![(b.start as int, b.start as int, sb("{ ")), (b.end as int, b.end as int, sb(" }"))]
}

fn brace(b: &Branch<'_>, out: &mut Vec<Edit>, Ghost(source): Ghost<Seq<u8>>)
    requires
        wf_node(Node::Branch(*b), source),
        all_within(edits_v(old(out)@), source.len()),
        texts_free(edits_v(old(out)@), 13u8),
    ensures
        edits_v(final(out)@) == edits_v(old(out)@) + brace_v(*b),
        all_within(edits_v(final(out)@), source.len()),
        texts_free(edits_v(final(out)@), 13u8),
{
    proof {
        reveal_strlit("{ ");
        reveal_strlit(" }");
        crate::doc::lemma_ascii_clean("{ ");
        crate::doc::lemma_ascii_clean(" }");
    }
    let open = Edit { start: b.start, end: b.start, text: crate::bytes::bytes_of("{ ") };
    proof {
        lemma_push_free(out@, open, 13u8);
    }
    out.push(open);
    let close = Edit { start: b.end, end: b.end, text: crate::bytes::bytes_of(" }") };
    proof {
        lemma_push_free(out@, close, 13u8);
    }
    out.push(close);
    assert(edits_v(out@) =~= edits_v(old(out)@) + brace_v(*b));
}

/// Braces around a body that isn't a block.
pub open spec fn braces_v(body: Option<Branch>) -> Seq<EditV> {
    match body {
        Some(b) => if b.kind@ != "block_exp"@ { brace_v(b) } else { Seq::empty() },
        None => Seq::empty(),
    }
}

/// The bodies `brace_bodies` braces: both branches of an `if`, but not an `else if`; the body of a
/// `while`, `for` or `loop`, and of a `case` or `catch` arm.
pub open spec fn brace_edits_v(n: Branch) -> Seq<EditV> {
    let k = n.kind@;
    if k == "if_exp"@ {
        braces_v(field_v(n, "then"@)) + braces_v(match field_v(n, "else"@) {
            Some(e) => if e.kind@ != "if_exp"@ { Some(e) } else { None },
            None => None,
        })
    } else if k == "while_exp"@ || k == "for_exp"@ || k == "loop_exp"@ || k == "case"@ || k == "catch"@ {
        braces_v(field_v(n, "body"@))
    } else {
        Seq::empty()
    }
}

/// The braces for each branch, in order.
pub open spec fn brace_all(bs: Seq<Branch>) -> Seq<EditV>
    decreases bs.len(),
{
    if bs.len() == 0 {
        Seq::empty()
    } else {
        brace_all(bs.drop_last()) + brace_edits_v(bs.last())
    }
}

/// Every control body gets braces: `if`/`else` branches, `while`/`for`/`loop` bodies, `case` and `catch` arms.
fn brace_bodies(root: &Branch<'_>, Ghost(source): Ghost<Seq<u8>>) -> (r: Vec<Edit>)
    requires
        wf_node(Node::Branch(*root), source),
    ensures
        edits_v(r@) == brace_all(branches_v(*root)),
        all_within(edits_v(r@), source.len()),
        texts_free(edits_v(r@), 13u8),
{
    proof {
        lemma_branches_wf(*root, source);
    }
    let mut edits: Vec<Edit> = Vec::new();
    let bs = root.branches();
    let mut i: usize = 0;
    while i < bs.len()
        invariant
            i <= bs@.len(),
            bs@.len() == branches_v(*root).len(),
            forall|j: int| 0 <= j < bs@.len() ==> *bs@[j] == #[trigger] branches_v(*root)[j],
            edits_v(edits@) == brace_all(branches_v(*root).take(i as int)),
            all_within(edits_v(edits@), source.len()),
            texts_free(edits_v(edits@), 13u8),
            forall|k: int| 0 <= k < branches_v(*root).len() ==> wf_node(Node::Branch(#[trigger] branches_v(*root)[k]), source),
        decreases bs@.len() - i,
    {
        let n = bs[i];
        assert(wf_node(Node::Branch(branches_v(*root)[i as int]), source));
        let ghost before = edits_v(edits@);
        let k = n.kind;
        if str_eq(k, "if_exp") {
            let then = field_of(n, "then");
            if let Some(b) = then {
                if !str_eq(b.kind, "block_exp") {
                    proof {
                        crate::tree::lemma_child_of(*n, Node::Branch(*b), source);
                    }
                    brace(b, &mut edits, Ghost(source));
                }
            }
            let ghost mid = edits_v(edits@);
            let otherwise = field_of(n, "else");
            if let Some(e) = otherwise {
                if !str_eq(e.kind, "if_exp") && !str_eq(e.kind, "block_exp") {
                    proof {
                        crate::tree::lemma_child_of(*n, Node::Branch(*e), source);
                    }
                    brace(e, &mut edits, Ghost(source));
                }
            }
            assert(edits_v(edits@) =~= before + brace_edits_v(*n));
        } else if str_eq(k, "while_exp") || str_eq(k, "for_exp") || str_eq(k, "loop_exp") || str_eq(k, "case") || str_eq(k, "catch") {
            if let Some(b) = field_of(n, "body") {
                if !str_eq(b.kind, "block_exp") {
                    proof {
                        crate::tree::lemma_child_of(*n, Node::Branch(*b), source);
                    }
                    brace(b, &mut edits, Ghost(source));
                }
            }
            assert(edits_v(edits@) =~= before + brace_edits_v(*n));
        } else {
            assert(edits_v(edits@) =~= before + brace_edits_v(*n));
        }
        proof {
            assert(branches_v(*root).take(i + 1).drop_last() =~= branches_v(*root).take(i as int));
            assert(branches_v(*root).take(i + 1).last() == *n);
        }
        i = i + 1;
    }
    assert(branches_v(*root).take(bs@.len() as int) =~= branches_v(*root));
    edits
}

/// Whether a node is the token `t`.
pub open spec fn is_token_v(n: Node, t: &str) -> bool {
    n is Token && text_of(n) == sb(t)
}

/// The `;` after a braced `case` arm, dropped.
pub open spec fn semi_edit_v(prev: Node, semi: Node) -> Seq<EditV> {
    if is_token_v(semi, ";") && (prev matches Node::Branch(arm) && arm.kind@ == "case"@ && is_block_v(field_v(arm, "body"@))) {
        seq![(start_of(semi), end_of(semi), Seq::<u8>::empty())]
    } else {
        Seq::empty()
    }
}

/// The edits for each pair of neighbours among `ks`.
pub open spec fn semis_v(ks: Seq<Node>) -> Seq<EditV>
    decreases ks.len(),
{
    if ks.len() < 2 {
        Seq::empty()
    } else {
        semis_v(ks.drop_last()) + semi_edit_v(ks[ks.len() - 2], ks.last())
    }
}

/// The `;`s a `switch` drops.
pub open spec fn drop_semis_v(n: Branch) -> Seq<EditV> {
    if n.kind@ == "switch_exp"@ {
        semis_v(non_gaps(n.children@))
    } else {
        Seq::empty()
    }
}

pub open spec fn drop_semis_all(bs: Seq<Branch>) -> Seq<EditV>
    decreases bs.len(),
{
    if bs.len() == 0 {
        Seq::empty()
    } else {
        drop_semis_all(bs.drop_last()) + drop_semis_v(bs.last())
    }
}

/// A braced arm needs no `;`: `case` already ends the previous one.
fn drop_case_semis(root: &Branch<'_>, Ghost(source): Ghost<Seq<u8>>) -> (r: Vec<Edit>)
    requires
        wf_node(Node::Branch(*root), source),
        source.len() <= usize::MAX,
    ensures
        edits_v(r@) == drop_semis_all(branches_v(*root)),
        all_within(edits_v(r@), source.len()),
        texts_free(edits_v(r@), 13u8),
{
    proof {
        lemma_branches_wf(*root, source);
    }
    let mut edits: Vec<Edit> = Vec::new();
    let bs = root.branches();
    let mut i: usize = 0;
    while i < bs.len()
        invariant
            i <= bs@.len(),
            bs@.len() == branches_v(*root).len(),
            forall|j: int| 0 <= j < bs@.len() ==> *bs@[j] == #[trigger] branches_v(*root)[j],
            edits_v(edits@) == drop_semis_all(branches_v(*root).take(i as int)),
            all_within(edits_v(edits@), source.len()),
            texts_free(edits_v(edits@), 13u8),
            source.len() <= usize::MAX,
            forall|k: int| 0 <= k < branches_v(*root).len() ==> wf_node(Node::Branch(#[trigger] branches_v(*root)[k]), source),
        decreases bs@.len() - i,
    {
        let n = bs[i];
        assert(wf_node(Node::Branch(branches_v(*root)[i as int]), source));
        let ghost before = edits_v(edits@);
        if str_eq(n.kind, "switch_exp") {
            let kids = n.nodes();
            let ghost ks = non_gaps(n.children@);
            proof {
                crate::tree::lemma_non_gaps_in(n.children@);
            }
            if kids.len() > 0 {
                let mut j: usize = 1;
                assert(semis_v(ks.take(1)) =~= Seq::<EditV>::empty());
                while j < kids.len()
                    invariant
                        1 <= j <= kids@.len(),
                        kids@.len() == ks.len(),
                        forall|q: int| 0 <= q < kids@.len() ==> *kids@[q] == #[trigger] ks[q],
                        forall|q: int| 0 <= q < ks.len() ==> n.children@.contains(#[trigger] ks[q]),
                        wf_node(Node::Branch(*n), source),
                        source.len() <= usize::MAX,
                        edits_v(edits@) == before + semis_v(ks.take(j as int)),
                        all_within(edits_v(edits@), source.len()),
                        texts_free(edits_v(edits@), 13u8),
                    decreases kids@.len() - j,
                {
                    let prev = kids[j - 1];
                    let semi = kids[j];
                    let ghost e0 = edits_v(edits@);
                    proof {
                        crate::tree::lemma_child_of(*n, ks[j as int], source);
                        assert(ks.take(j + 1).drop_last() =~= ks.take(j as int));
                        assert(ks.take(j + 1)[j - 1] == ks[j - 1]);
                    }
                    if semi.is_token(";") {
                        if let Node::Branch(arm) = prev {
                            if str_eq(arm.kind, "case") && is_block(field_of(arm, "body")) {
                                let drop = Edit { start: semi.start(), end: semi.end(), text: Vec::new() };
                                proof {
                                    lemma_push_free(edits@, drop, 13u8);
                                }
                                edits.push(drop);
                                assert(edits_v(edits@) =~= e0 + semi_edit_v(ks[j - 1], ks[j as int]));
                            }
                        }
                    }
                    assert(edits_v(edits@) =~= e0 + semi_edit_v(ks[j - 1], ks[j as int]));
                    j = j + 1;
                }
                assert(ks.take(ks.len() as int) =~= ks);
            } else {
                assert(semis_v(ks) =~= Seq::<EditV>::empty());
                assert(edits_v(edits@) =~= before);
            }
            assert(edits_v(edits@) =~= before + drop_semis_v(*n));
        } else {
            assert(edits_v(edits@) =~= before + drop_semis_v(*n));
        }
        proof {
            assert(branches_v(*root).take(i + 1).drop_last() =~= branches_v(*root).take(i as int));
            assert(branches_v(*root).take(i + 1).last() == *n);
        }
        i = i + 1;
    }
    assert(branches_v(*root).take(bs@.len() as int) =~= branches_v(*root));
    edits
}

/// The head's branches outside nested parentheses, where moc reads an ordinary expression: the
/// branch, then, in order, those of its children that aren't parenthesised.
pub open spec fn top_level_v<'a>(b: Branch<'a>) -> Seq<Branch<'a>>
    decreases b, 1int,
{
    seq![b] + top_all(b.children@)
}

pub open spec fn top_all<'a>(ns: Seq<Node<'a>>) -> Seq<Branch<'a>>
    decreases ns, 0int,
{
    if ns.len() == 0 {
        Seq::empty()
    } else {
        let rest = top_all(ns.drop_first());
        match ns[0] {
            Node::Branch(c) => if c.kind@ != "par_exp"@ { top_level_v(c) + rest } else { rest },
            _ => rest,
        }
    }
}

proof fn lemma_top_level_wf(b: Branch, source: Seq<u8>)
    requires
        wf_node(Node::Branch(b), source),
    ensures
        forall|k: int| 0 <= k < top_level_v(b).len() ==> wf_node(Node::Branch(#[trigger] top_level_v(b)[k]), source),
    decreases b, 1int,
{
    lemma_top_all_wf(b.children@, source, b.start as int, b.end as int);
}

proof fn lemma_top_all_wf(ns: Seq<Node>, source: Seq<u8>, from: int, to: int)
    requires
        wf_children(ns, source, from, to),
    ensures
        forall|k: int| 0 <= k < top_all(ns).len() ==> wf_node(Node::Branch(#[trigger] top_all(ns)[k]), source),
    decreases ns, 0int,
{
    if ns.len() > 0 {
        lemma_top_all_wf(ns.drop_first(), source, end_of(ns[0]), to);
        let rest = top_all(ns.drop_first());
        if let Node::Branch(c) = ns[0] {
            if c.kind@ != "par_exp"@ {
                lemma_top_level_wf(c, source);
                let all = top_level_v(c) + rest;
                assert forall|k: int| 0 <= k < all.len() implies wf_node(Node::Branch(#[trigger] all[k]), source) by {
                    if k >= top_level_v(c).len() {
                        assert(all[k] == rest[k - top_level_v(c).len()]);
                    }
                }
            }
        }
    }
}

fn top_level<'n, 'a>(b: &'n Branch<'a>, out: &mut Vec<&'n Branch<'a>>)
    ensures
        final(out)@.map_values(|x: &'n Branch<'a>| *x) == old(out)@.map_values(|x: &'n Branch<'a>| *x) + top_level_v(*b),
    decreases *b,
{
    let ghost o0 = old(out)@.map_values(|x: &'n Branch<'a>| *x);
    out.push(b);
    let mut i: usize = 0;
    assert(b.children@.skip(0) =~= b.children@);
    assert(out@.map_values(|x: &'n Branch<'a>| *x) =~= o0 + seq![*b]);
    while i < b.children.len()
        invariant
            i <= b.children@.len(),
            out@.map_values(|x: &'n Branch<'a>| *x) + top_all(b.children@.skip(i as int)) == o0 + top_level_v(*b),
        decreases b.children@.len() - i,
    {
        let ghost rest = b.children@.skip(i as int);
        assert(rest.drop_first() =~= b.children@.skip(i + 1));
        assert(rest[0] == b.children@[i as int]);
        let ghost before = out@.map_values(|x: &'n Branch<'a>| *x);
        if let Node::Branch(c) = &b.children[i] {
            if !str_eq(c.kind, "par_exp") {
                assert(decreases_to!(*b => b.children));
                assert(decreases_to!(b.children => b.children@));
                assert(decreases_to!(b.children@ => b.children@[i as int]));
                top_level(c, out);
                assert(before + top_all(rest) =~= (before + top_level_v(*c)) + top_all(b.children@.skip(i + 1)));
            }
        }
        i = i + 1;
    }
    assert(b.children@.skip(b.children@.len() as int) =~= Seq::<Node>::empty());
    assert(out@.map_values(|x: &'n Branch<'a>| *x) + Seq::<Branch>::empty() =~= out@.map_values(|x: &'n Branch<'a>| *x));
}

fn top_level_of<'n, 'a>(b: &'n Branch<'a>) -> (r: Vec<&'n Branch<'a>>)
    ensures
        r@.map_values(|x: &'n Branch<'a>| *x) == top_level_v(*b),
{
    let mut out: Vec<&'n Branch<'a>> = Vec::new();
    top_level(b, &mut out);
    assert(Seq::<&'n Branch<'a>>::empty().map_values(|x: &'n Branch<'a>| *x) + top_level_v(*b) =~= top_level_v(*b));
    out
}

/// The gap before a call's argument or an index's `[`, if there is one: `f x`, `f<T> (x)`, `a [i]`.
pub open spec fn spaced_arg_v<'a>(b: Branch<'a>) -> Option<Node<'a>> {
    let ks = b.children@;
    let g = if b.kind@ == "call_exp"@ && ks.len() >= 2 {
        Some(ks[ks.len() - 2])
    } else if b.kind@ == "array_idx_exp"@ && ks.len() >= 2 {
        Some(ks[1])
    } else {
        None
    };
    match g {
        Some(n) => if n is Text { Some(n) } else { None },
        None => None,
    }
}

fn spaced_arg<'n, 'a>(b: &'n Branch<'a>) -> (r: Option<&'n Node<'a>>)
    ensures
        match r {
            Some(n) => spaced_arg_v(*b) == Some(*n) && b.children@.contains(*n),
            None => spaced_arg_v(*b) is None,
        },
{
    let n = b.children.len();
    let g = if str_eq(b.kind, "call_exp") && n >= 2 {
        Some(&b.children[n - 2])
    } else if str_eq(b.kind, "array_idx_exp") && n >= 2 {
        Some(&b.children[1])
    } else {
        None
    };
    match g {
        Some(x) => if x.is_text() { Some(x) } else { None },
        None => None,
    }
}

/// Expression kinds moc accepts bare in a head. Statement-like forms and records keep their parens.
pub open spec fn head_kind_v(k: Seq<char>) -> bool {
    ||| k == "var_exp"@ || k == "lit_exp"@ || k == "call_exp"@ || k == "dot_exp"@ || k == "proj_exp"@
    ||| k == "array_idx_exp"@ || k == "bin_exp"@ || k == "not_exp"@ || k == "unop_exp"@ || k == "bang_exp"@
    ||| k == "coalesce_exp"@
}

fn head_kind(k: &str) -> (r: bool)
    ensures
        r == head_kind_v(k@),
{
    str_eq(k, "var_exp") || str_eq(k, "lit_exp") || str_eq(k, "call_exp") || str_eq(k, "dot_exp") || str_eq(k, "proj_exp")
        || str_eq(k, "array_idx_exp") || str_eq(k, "bin_exp") || str_eq(k, "not_exp") || str_eq(k, "unop_exp")
        || str_eq(k, "bang_exp") || str_eq(k, "coalesce_exp")
}

/// Whether a node is a `bin_op` reading `-`, `+`, `^` or `#`.
pub open spec fn prefix_op_node_v(c: Node) -> bool {
    c matches Node::Branch(b) && b.kind@ == "bin_op"@ && {
        let t = trim_v(b.text@);
        t == sb("-") || t == sb("+") || t == sb("^") || t == sb("#")
    }
}

/// The position of the first child that is such an operator.
pub open spec fn first_prefix_op(ns: Seq<Node>) -> Option<int>
    decreases ns.len(),
{
    if ns.len() == 0 {
        None
    } else if prefix_op_node_v(ns[0]) {
        Some(0)
    } else {
        match first_prefix_op(ns.drop_first()) {
            Some(i) => Some(i + 1),
            None => None,
        }
    }
}

proof fn lemma_first_prefix_op(ns: Seq<Node>)
    ensures
        first_prefix_op(ns) matches Some(i) ==> 0 <= i < ns.len() && prefix_op_node_v(ns[i]) && forall|j: int| 0 <= j < i ==> !prefix_op_node_v(#[trigger] ns[j]),
        first_prefix_op(ns) is None ==> forall|j: int| 0 <= j < ns.len() ==> !prefix_op_node_v(#[trigger] ns[j]),
    decreases ns.len(),
{
    if ns.len() > 0 {
        lemma_first_prefix_op(ns.drop_first());
        assert forall|j: int| 1 <= j < ns.len() implies ns[j] == ns.drop_first()[j - 1] by {}
    }
}

fn is_prefix_op_node(c: &Node<'_>) -> (r: bool)
    ensures
        r == prefix_op_node_v(*c),
{
    match c {
        Node::Branch(b) => {
            if !str_eq(b.kind, "bin_op") {
                return false;
            }
            let t = trim(b.text);
            bytes_eq(t, "-".as_bytes()) || bytes_eq(t, "+".as_bytes()) || bytes_eq(t, "^".as_bytes()) || bytes_eq(t, "#".as_bytes())
        },
        _ => false,
    }
}

/// Whether a level of a head stays one expression: no `{`, which would read as a record; without
/// `glue`, no spaced argument or index; and no prefix-shaped `-`/`+`/`^`/`#` (spaced before, glued
/// after), which the grammar reads as binary but moc as starting the branch.
pub open spec fn level_safe_v(n: Branch, glue: bool) -> bool {
    let ks = n.children@;
    &&& !crate::print::parts::has_token(ks, sb("{"))
    &&& (glue || spaced_arg_v(n) is None)
    &&& !(first_prefix_op(ks) matches Some(i) && i > 0 && ks[i - 1] is Text && !(i + 1 < ks.len() && ks[i + 1] is Text))
}

fn level_safe(n: &Branch<'_>, glue: bool) -> (r: bool)
    ensures
        r == level_safe_v(*n, glue),
{
    let ks = &n.children;
    let mut k: usize = 0;
    while k < ks.len()
        invariant
            k <= n.children@.len(),
            *ks == n.children,
            forall|j: int| 0 <= j < k ==> !(#[trigger] n.children@[j] is Token && text_of(n.children@[j]) == sb("{")),
        decreases n.children@.len() - k,
    {
        if ks[k].is_token("{") {
            return false;
        }
        k = k + 1;
    }
    if !glue && spaced_arg(n).is_some() {
        return false;
    }
    let mut i: usize = 0;
    proof {
        lemma_first_prefix_op(n.children@);
    }
    while i < ks.len() && !is_prefix_op_node(&ks[i])
        invariant
            i <= n.children@.len(),
            *ks == n.children,
            forall|j: int| 0 <= j < i ==> !prefix_op_node_v(#[trigger] n.children@[j]),
        decreases n.children@.len() - i,
    {
        i = i + 1;
    }
    if i == ks.len() {
        return true;
    }
    !(i > 0 && ks[i - 1].is_text() && !(ks.len() - i > 1 && ks[i + 1].is_text()))
}

/// Whether a head can drop its parens; with `glue`, once `glue_head_calls` has glued its spaced arguments.
pub open spec fn head_safe_v(inner: Branch, glue: bool) -> bool {
    &&& head_kind_v(inner.kind@)
    &&& !inner.text@.contains(10u8)
    &&& forall|k: int| 0 <= k < top_level_v(inner).len() ==> level_safe_v(#[trigger] top_level_v(inner)[k], glue)
}

fn head_safe(inner: &Branch<'_>, glue: bool) -> (r: bool)
    ensures
        r == head_safe_v(*inner, glue),
{
    if !head_kind(inner.kind) || crate::bytes::has_byte(inner.text, 10u8) {
        return false;
    }
    let tl = top_level_of(inner);
    let mut k: usize = 0;
    while k < tl.len()
        invariant
            k <= tl@.len(),
            tl@.map_values(|x: &Branch| *x) == top_level_v(*inner),
            forall|j: int| 0 <= j < k ==> level_safe_v(#[trigger] top_level_v(*inner)[j], glue),
        decreases tl@.len() - k,
    {
        assert(top_level_v(*inner)[k as int] == *tl@[k as int]);
        if !level_safe(tl[k], glue) {
            return false;
        }
        k = k + 1;
    }
    true
}

/// The single expression inside a `( … )`, or `None` for a tuple, unit or anything with a comment.
pub open spec fn parenthesised_v<'a>(par: Option<Branch<'a>>) -> Option<Branch<'a>> {
    match par {
        Some(p) => if p.kind@ == "par_exp"@ && non_gaps(p.children@).len() == 3 && non_gaps(p.children@)[1] is Branch {
            Some(branch_v(non_gaps(p.children@)[1]))
        } else {
            None
        },
        None => None,
    }
}

fn parenthesised<'n, 'a>(par: Option<&'n Branch<'a>>) -> (r: Option<&'n Branch<'a>>)
    ensures
        match r {
            Some(b) => parenthesised_v(match par { Some(p) => Some(*p), None => None }) == Some(*b)
                && (par matches Some(p) && p.children@.contains(Node::Branch(*b))),
            None => parenthesised_v(match par { Some(p) => Some(*p), None => None }) is None,
        },
{
    let p = match par {
        Some(p) => p,
        None => return None,
    };
    if !str_eq(p.kind, "par_exp") {
        return None;
    }
    let nodes = p.nodes();
    if nodes.len() != 3 {
        return None;
    }
    assert(*nodes@[1] == non_gaps(p.children@)[1]);
    proof {
        crate::tree::lemma_non_gaps_in(p.children@);
        assert(p.children@.contains(non_gaps(p.children@)[1]));
    }
    match nodes[1] {
        Node::Branch(inner) => Some(inner),
        _ => None,
    }
}

/// The head of a control construct: a `for`'s iterator, or the single expression parenthesised
/// as a `switch`'s scrutinee or an `if`'s or `while`'s condition.
pub open spec fn head_of_v<'a>(n: Branch<'a>) -> Option<Branch<'a>> {
    let k = n.kind@;
    if k == "for_exp"@ {
        field_v(n, "iterator"@)
    } else if k == "switch_exp"@ {
        parenthesised_v(field_v(n, "scrutinee"@))
    } else if k == "if_exp"@ || k == "while_exp"@ {
        parenthesised_v(field_v(n, "condition"@))
    } else {
        None
    }
}

fn head_of<'n, 'a>(n: &'n Branch<'a>, Ghost(source): Ghost<Seq<u8>>) -> (r: Option<&'n Branch<'a>>)
    requires
        wf_node(Node::Branch(*n), source),
    ensures
        match r {
            Some(b) => head_of_v(*n) == Some(*b) && wf_node(Node::Branch(*b), source),
            None => head_of_v(*n) is None,
        },
{
    if str_eq(n.kind, "for_exp") {
        let r = field_of(n, "iterator");
        if let Some(b) = r {
            proof {
                crate::tree::lemma_child_of(*n, Node::Branch(*b), source);
            }
        }
        r
    } else if str_eq(n.kind, "switch_exp") {
        let f = field_of(n, "scrutinee");
        let r = parenthesised(f);
        if let Some(b) = r {
            proof {
                let p = f.unwrap();
                crate::tree::lemma_child_of(*n, Node::Branch(*p), source);
                crate::tree::lemma_child_of(*p, Node::Branch(*b), source);
            }
        }
        r
    } else if str_eq(n.kind, "if_exp") || str_eq(n.kind, "while_exp") {
        let f = field_of(n, "condition");
        let r = parenthesised(f);
        if let Some(b) = r {
            proof {
                let p = f.unwrap();
                crate::tree::lemma_child_of(*n, Node::Branch(*p), source);
                crate::tree::lemma_child_of(*p, Node::Branch(*b), source);
            }
        }
        r
    } else {
        None
    }
}

/// The edit that glues a call's spaced argument: dropping the gap before a bracketed one,
/// parenthesising any other.
pub open spec fn glue_edit_v(call: Branch) -> Seq<EditV> {
    match spaced_arg_v(call) {
        None => Seq::empty(),
        Some(gap) => {
            let arg = call.children@.last();
            let bracketed = call.kind@ == "array_idx_exp"@ || (arg matches Node::Branch(b) && b.kind@ == "par_exp"@);
            if bracketed {
                seq![(start_of(gap), end_of(gap), Seq::<u8>::empty())]
            } else {
                seq![(start_of(gap), end_of(arg), sb("(") + text_of(arg) + sb(")"))]
            }
        },
    }
}

pub open spec fn glue_all(cs: Seq<Branch>) -> Seq<EditV>
    decreases cs.len(),
{
    if cs.len() == 0 {
        Seq::empty()
    } else {
        glue_all(cs.drop_last()) + glue_edit_v(cs.last())
    }
}

/// `if (f x) {` → `if (f(x)) {`, only where that is all that keeps the head's parens.
pub open spec fn glue_v(n: Branch) -> Seq<EditV> {
    match head_of_v(n) {
        None => Seq::empty(),
        Some(inner) => if head_safe_v(inner, false) || !head_safe_v(inner, true) {
            Seq::empty()
        } else {
            glue_all(top_level_v(inner))
        },
    }
}

pub open spec fn glue_heads_all(bs: Seq<Branch>) -> Seq<EditV>
    decreases bs.len(),
{
    if bs.len() == 0 {
        Seq::empty()
    } else {
        glue_heads_all(bs.drop_last()) + glue_v(bs.last())
    }
}

/// The ordering of a well-formed branch's children.
proof fn lemma_children_order(ns: Seq<Node>, source: Seq<u8>, from: int, to: int, i: int, j: int)
    requires
        wf_children(ns, source, from, to),
        0 <= i <= j < ns.len(),
    ensures
        from <= start_of(ns[i]) <= start_of(ns[j]) <= end_of(ns[j]) <= to,
    decreases ns.len(),
{
    crate::tree::lemma_wf_child(ns, source, from, to, j);
    if i > 0 {
        lemma_children_order(ns.drop_first(), source, end_of(ns[0]), to, i - 1, j - 1);
        crate::tree::lemma_wf_child(ns, source, from, to, 0);
    } else if j > 0 {
        lemma_children_order(ns.drop_first(), source, end_of(ns[0]), to, 0, j - 1);
        crate::tree::lemma_wf_child(ns, source, from, to, 0);
    } else {
        crate::tree::lemma_wf_children_bounds(ns.drop_first(), source, end_of(ns[0]), to);
    }
}

fn glue_head_calls(root: &Branch<'_>, Ghost(source): Ghost<Seq<u8>>) -> (r: Vec<Edit>)
    requires
        wf_node(Node::Branch(*root), source),
        source.len() <= usize::MAX,
    ensures
        edits_v(r@) == glue_heads_all(branches_v(*root)),
        all_within(edits_v(r@), source.len()),
        !source.contains(13u8) ==> texts_free(edits_v(r@), 13u8),
{
    proof {
        lemma_branches_wf(*root, source);
    }
    let mut edits: Vec<Edit> = Vec::new();
    let bs = root.branches();
    let mut i: usize = 0;
    while i < bs.len()
        invariant
            i <= bs@.len(),
            bs@.len() == branches_v(*root).len(),
            forall|j: int| 0 <= j < bs@.len() ==> *bs@[j] == #[trigger] branches_v(*root)[j],
            edits_v(edits@) == glue_heads_all(branches_v(*root).take(i as int)),
            all_within(edits_v(edits@), source.len()),
            !source.contains(13u8) ==> texts_free(edits_v(edits@), 13u8),
            source.len() <= usize::MAX,
            forall|k: int| 0 <= k < branches_v(*root).len() ==> wf_node(Node::Branch(#[trigger] branches_v(*root)[k]), source),
        decreases bs@.len() - i,
    {
        let n = bs[i];
        assert(wf_node(Node::Branch(branches_v(*root)[i as int]), source));
        let ghost before = edits_v(edits@);
        proof {
            assert(branches_v(*root).take(i + 1).drop_last() =~= branches_v(*root).take(i as int));
            assert(branches_v(*root).take(i + 1).last() == *n);
        }
        i = i + 1;
        let inner = match head_of(n, Ghost(source)) {
            Some(b) => b,
            None => {
                assert(edits_v(edits@) =~= before + glue_v(*n));
                continue;
            },
        };
        if head_safe(inner, false) || !head_safe(inner, true) {
            assert(edits_v(edits@) =~= before + glue_v(*n));
            continue;
        }
        let calls = top_level_of(inner);
        proof {
            lemma_top_level_wf(*inner, source);
        }
        let ghost cs = top_level_v(*inner);
        let mut k: usize = 0;
        while k < calls.len()
            invariant
                k <= calls@.len(),
                calls@.map_values(|x: &Branch| *x) == cs,
                forall|q: int| 0 <= q < cs.len() ==> wf_node(Node::Branch(#[trigger] cs[q]), source),
                source.len() <= usize::MAX,
                edits_v(edits@) == before + glue_all(cs.take(k as int)),
                all_within(edits_v(edits@), source.len()),
                !source.contains(13u8) ==> texts_free(edits_v(edits@), 13u8),
            decreases calls@.len() - k,
        {
            let call = calls[k];
            assert(cs[k as int] == *call);
            let ghost e0 = edits_v(edits@);
            proof {
                assert(cs.take(k + 1).drop_last() =~= cs.take(k as int));
                assert(cs.take(k + 1).last() == *call);
            }
            k = k + 1;
            let gap = match spaced_arg(call) {
                Some(g) => g,
                None => {
                    assert(edits_v(edits@) =~= e0 + glue_edit_v(*call));
                    continue;
                },
            };
            let len = call.children.len();
            let arg = &call.children[len - 1];
            proof {
                assert(call.children@.last() == *arg);
                crate::tree::lemma_child_of(*call, *gap, source);
                crate::tree::lemma_child_of(*call, *arg, source);
                let gi = choose|gi: int| 0 <= gi < call.children@.len() && call.children@[gi] == *gap;
                lemma_children_order(call.children@, source, call.start as int, call.end as int, gi, len - 1);
            }
            let bracketed = str_eq(call.kind, "array_idx_exp") || match arg.as_branch() {
                Some(b) => str_eq(b.kind, "par_exp"),
                None => false,
            };
            if bracketed {
                let drop = Edit { start: gap.start(), end: gap.end(), text: Vec::new() };
                proof {
                    if !source.contains(13u8) {
                        lemma_push_free(edits@, drop, 13u8);
                    }
                }
                edits.push(drop);
            } else {
                let mut t: Vec<u8> = Vec::new();
                crate::bytes::append_str(&mut t, "(");
                let mut a = vstd::slice::slice_to_vec(arg.text());
                t.append(&mut a);
                crate::bytes::append_str(&mut t, ")");
                let glue = Edit { start: gap.start(), end: arg.end(), text: t };
                proof {
                    if !source.contains(13u8) {
                        crate::print::parts::lemma_literals();
                        crate::print::parts::lemma_text_clean(*arg, source);
                        lemma_free_concat(sb("("), text_of(*arg), 13u8);
                        lemma_free_concat(sb("(") + text_of(*arg), sb(")"), 13u8);
                        lemma_push_free(edits@, glue, 13u8);
                    }
                }
                edits.push(glue);
            }
            assert(edits_v(edits@) =~= e0 + glue_edit_v(*call));
        }
        assert(cs.take(calls@.len() as int) =~= cs);
        assert(edits_v(edits@) =~= before + glue_v(*n));
    }
    assert(branches_v(*root).take(bs@.len() as int) =~= branches_v(*root));
    edits
}

/// The spaces to put around the text replacing `children[first..=last]`, where it has no gap beside it.
pub open spec fn padding_v(parent: Branch, first: int, last: int) -> (&'static str, &'static str) {
    let ks = parent.children@;
    let before = if first > 0 && ks[first - 1] is Text { "" } else { " " };
    let after = if last + 1 < ks.len() && ks[last + 1] is Text { "" } else { " " };
    (before, after)
}

fn padding(parent: &Branch<'_>, first: usize, last: usize) -> (r: (&'static str, &'static str))
    requires
        first <= last < parent.children@.len(),
    ensures
        r == padding_v(*parent, first as int, last as int),
{
    let kids = &parent.children;
    let before = if first > 0 && kids[first - 1].is_text() { "" } else { " " };
    let after = if kids.len() - last > 1 && kids[last + 1].is_text() { "" } else { " " };
    (before, after)
}

/// The position of the first child branch with this field name.
fn index_of(parent: &Branch<'_>, name: &str) -> (r: usize)
    requires
        field_index(parent.children@, name@) is Some,
    ensures
        field_index(parent.children@, name@) == Some(r as int),
{
    let mut i: usize = 0;
    assert(parent.children@.skip(0) =~= parent.children@);
    while i < parent.children.len()
        invariant
            i <= parent.children@.len(),
            field_index(parent.children@, name@) == match field_index(parent.children@.skip(i as int), name@) {
                Some(j) => Some(j + i),
                None => None::<int>,
            },
        decreases parent.children@.len() - i,
    {
        let ghost rest = parent.children@.skip(i as int);
        assert(rest.drop_first() =~= parent.children@.skip(i + 1));
        assert(rest[0] == parent.children@[i as int]);
        if let Node::Branch(b) = &parent.children[i] {
            if let Some(f) = b.field {
                if str_eq(f, name) {
                    return i;
                }
            }
        }
        i = i + 1;
    }
    assert(parent.children@.skip(i as int) =~= Seq::<Node>::empty());
    0
}

/// The position of the first child that is the token `t`.
pub open spec fn first_token(ns: Seq<Node>, t: &str) -> Option<int>
    decreases ns.len(),
{
    if ns.len() == 0 {
        None
    } else if is_token_v(ns[0], t) {
        Some(0)
    } else {
        match first_token(ns.drop_first(), t) {
            Some(i) => Some(i + 1),
            None => None,
        }
    }
}

fn position_of(ns: &Vec<Node<'_>>, t: &str) -> (r: Option<usize>)
    ensures
        match r {
            Some(i) => first_token(ns@, t) == Some(i as int) && i < ns@.len(),
            None => first_token(ns@, t) is None,
        },
{
    let mut i: usize = 0;
    assert(ns@.skip(0) =~= ns@);
    while i < ns.len()
        invariant
            i <= ns@.len(),
            first_token(ns@, t) == match first_token(ns@.skip(i as int), t) {
                Some(j) => Some(j + i),
                None => None::<int>,
            },
        decreases ns@.len() - i,
    {
        let ghost rest = ns@.skip(i as int);
        assert(rest.drop_first() =~= ns@.skip(i + 1));
        assert(rest[0] == ns@[i as int]);
        if ns[i].is_token(t) {
            return Some(i);
        }
        i = i + 1;
    }
    assert(ns@.skip(i as int) =~= Seq::<Node>::empty());
    None
}

/// The texts of the nodes, one after another.
pub open spec fn texts_v(ns: Seq<Node>) -> Seq<u8>
    decreases ns.len(),
{
    if ns.len() == 0 {
        Seq::empty()
    } else {
        texts_v(ns.drop_last()) + text_of(ns.last())
    }
}

/// `if (c) {` → `if c {`, likewise `while` and `switch`, and `for (p in e) {` → `for p in e {`.
/// Only once every body is braced.
pub open spec fn unparen_v(n: Branch) -> Seq<EditV> {
    let k = n.kind@;
    let ks = n.children@;
    if k == "if_exp"@ || k == "while_exp"@ || k == "switch_exp"@ {
        let name = if k == "switch_exp"@ { "scrutinee"@ } else { "condition"@ };
        match field_v(n, name) {
            None => Seq::empty(),
            Some(par) => match parenthesised_v(Some(par)) {
                None => Seq::empty(),
                Some(inner) => if !head_safe_v(inner, false) {
                    Seq::empty()
                } else if k == "if_exp"@ && (!is_block_v(field_v(n, "then"@))
                    || (field_v(n, "else"@) matches Some(e) && !is_block_v(Some(e)) && e.kind@ != "if_exp"@)) {
                    Seq::empty()
                } else if k == "while_exp"@ && !is_block_v(field_v(n, "body"@)) {
                    Seq::empty()
                } else {
                    let i = field_index(ks, name).unwrap();
                    let (before, after) = padding_v(n, i, i);
                    seq![(par.start as int, par.end as int, sb(before) + inner.text@ + sb(after))]
                },
            },
        }
    } else if k == "for_exp"@ {
        match (first_token(ks, "("), first_token(ks, ")")) {
            (Some(open), Some(close)) => match field_v(n, "iterator"@) {
                None => Seq::empty(),
                Some(it) => if !head_safe_v(it, false) || !is_block_v(field_v(n, "body"@)) || close < open + 1 {
                    Seq::empty()
                } else {
                    let inside = texts_v(ks.subrange(open + 1, close));
                    let (before, after) = padding_v(n, open, close);
                    seq![(start_of(ks[open]), end_of(ks[close]), sb(before) + trim_v(inside) + sb(after))]
                },
            },
            _ => Seq::empty(),
        }
    } else {
        Seq::empty()
    }
}

pub open spec fn unparen_all(bs: Seq<Branch>) -> Seq<EditV>
    decreases bs.len(),
{
    if bs.len() == 0 {
        Seq::empty()
    } else {
        unparen_all(bs.drop_last()) + unparen_v(bs.last())
    }
}

fn unparen_one(n: &Branch<'_>, edits: &mut Vec<Edit>, Ghost(source): Ghost<Seq<u8>>)
    requires
        wf_node(Node::Branch(*n), source),
        source.len() <= usize::MAX,
        all_within(edits_v(old(edits)@), source.len()),
        !source.contains(13u8) ==> texts_free(edits_v(old(edits)@), 13u8),
    ensures
        edits_v(final(edits)@) == edits_v(old(edits)@) + unparen_v(*n),
        all_within(edits_v(final(edits)@), source.len()),
        !source.contains(13u8) ==> texts_free(edits_v(final(edits)@), 13u8),
{
    let ghost before = edits_v(edits@);
    let k = n.kind;
    if str_eq(k, "if_exp") || str_eq(k, "while_exp") || str_eq(k, "switch_exp") {
        let name = if str_eq(k, "switch_exp") { "scrutinee" } else { "condition" };
        proof {
            reveal_strlit("scrutinee");
            reveal_strlit("condition");
        }
        let par = match field_of(n, name) {
            Some(p) => p,
            None => {
                assert(edits_v(edits@) =~= before + unparen_v(*n));
                return;
            },
        };
        let inner = match parenthesised(Some(par)) {
            Some(i) => i,
            None => {
                assert(edits_v(edits@) =~= before + unparen_v(*n));
                return;
            },
        };
        if !head_safe(inner, false) {
            assert(edits_v(edits@) =~= before + unparen_v(*n));
            return;
        }
        if str_eq(k, "if_exp") {
            let otherwise = field_of(n, "else");
            let bad_else = match otherwise {
                Some(e) => !is_block(Some(e)) && !str_eq(e.kind, "if_exp"),
                None => false,
            };
            if !is_block(field_of(n, "then")) || bad_else {
                assert(edits_v(edits@) =~= before + unparen_v(*n));
                return;
            }
        }
        if str_eq(k, "while_exp") && !is_block(field_of(n, "body")) {
            assert(edits_v(edits@) =~= before + unparen_v(*n));
            return;
        }
        proof {
            crate::tree::lemma_field_index(n.children@, name@);
            crate::tree::lemma_child_of(*n, Node::Branch(*par), source);
        }
        let i = index_of(n, name);
        let (b, a) = padding(n, i, i);
        let mut t: Vec<u8> = Vec::new();
        crate::bytes::append_str(&mut t, b);
        let mut body = vstd::slice::slice_to_vec(inner.text);
        t.append(&mut body);
        crate::bytes::append_str(&mut t, a);
        let e = Edit { start: par.start, end: par.end, text: t };
        proof {
            if !source.contains(13u8) {
                crate::print::parts::lemma_literals();
                crate::tree::lemma_child_of(*par, Node::Branch(*inner), source);
                crate::print::parts::lemma_text_clean(Node::Branch(*inner), source);
                lemma_free_concat(sb(b), inner.text@, 13u8);
                lemma_free_concat(sb(b) + inner.text@, sb(a), 13u8);
                lemma_push_free(edits@, e, 13u8);
            }
        }
        edits.push(e);
        assert(edits_v(edits@) =~= before + unparen_v(*n));
    } else if str_eq(k, "for_exp") {
        let open = position_of(&n.children, "(");
        let close = position_of(&n.children, ")");
        let (open, close) = match (open, close) {
            (Some(o), Some(c)) => (o, c),
            _ => {
                assert(edits_v(edits@) =~= before + unparen_v(*n));
                return;
            },
        };
        let iterator = match field_of(n, "iterator") {
            Some(it) => it,
            None => {
                assert(edits_v(edits@) =~= before + unparen_v(*n));
                return;
            },
        };
        if !head_safe(iterator, false) || !is_block(field_of(n, "body")) || close <= open {
            assert(edits_v(edits@) =~= before + unparen_v(*n));
            return;
        }
        let ghost ks = n.children@;
        let mut inside: Vec<u8> = Vec::new();
        let mut j = open + 1;
        assert(ks.subrange(open + 1, open + 1) =~= Seq::<Node>::empty());
        while j < close
            invariant
                open + 1 <= j <= close < ks.len(),
                ks == n.children@,
                inside@ == texts_v(ks.subrange(open + 1, j as int)),
                wf_node(Node::Branch(*n), source),
                !source.contains(13u8) ==> !inside@.contains(13u8),
            decreases close - j,
        {
            proof {
                if !source.contains(13u8) {
                    assert(n.children@.contains(ks[j as int]));
                    crate::tree::lemma_child_of(*n, ks[j as int], source);
                    crate::print::parts::lemma_text_clean(ks[j as int], source);
                    lemma_free_concat(inside@, text_of(ks[j as int]), 13u8);
                }
            }
            let mut piece = vstd::slice::slice_to_vec(n.children[j].text());
            inside.append(&mut piece);
            assert(ks.subrange(open + 1, j + 1).drop_last() =~= ks.subrange(open + 1, j as int));
            j = j + 1;
        }
        let (b, a) = padding(n, open, close);
        let mut t: Vec<u8> = Vec::new();
        crate::bytes::append_str(&mut t, b);
        let trimmed = crate::bytes::trim(inside.as_slice());
        let mut mid = vstd::slice::slice_to_vec(trimmed);
        t.append(&mut mid);
        crate::bytes::append_str(&mut t, a);
        proof {
            lemma_children_order(ks, source, n.start as int, n.end as int, open as int, close as int);
        }
        let e = Edit { start: n.children[open].start(), end: n.children[close].end(), text: t };
        proof {
            if !source.contains(13u8) {
                crate::print::parts::lemma_literals();
                crate::bytes::lemma_trim_within(inside@, 13u8);
                lemma_free_concat(sb(b), trim_v(inside@), 13u8);
                lemma_free_concat(sb(b) + trim_v(inside@), sb(a), 13u8);
                lemma_push_free(edits@, e, 13u8);
            }
        }
        edits.push(e);
        assert(edits_v(edits@) =~= before + unparen_v(*n));
    } else {
        assert(edits_v(edits@) =~= before + unparen_v(*n));
    }
}

fn unparen_heads(root: &Branch<'_>, Ghost(source): Ghost<Seq<u8>>) -> (r: Vec<Edit>)
    requires
        wf_node(Node::Branch(*root), source),
        source.len() <= usize::MAX,
    ensures
        edits_v(r@) == unparen_all(branches_v(*root)),
        all_within(edits_v(r@), source.len()),
        !source.contains(13u8) ==> texts_free(edits_v(r@), 13u8),
{
    proof {
        lemma_branches_wf(*root, source);
    }
    let mut edits: Vec<Edit> = Vec::new();
    let bs = root.branches();
    let mut i: usize = 0;
    while i < bs.len()
        invariant
            i <= bs@.len(),
            bs@.len() == branches_v(*root).len(),
            forall|j: int| 0 <= j < bs@.len() ==> *bs@[j] == #[trigger] branches_v(*root)[j],
            edits_v(edits@) == unparen_all(branches_v(*root).take(i as int)),
            all_within(edits_v(edits@), source.len()),
            !source.contains(13u8) ==> texts_free(edits_v(edits@), 13u8),
            source.len() <= usize::MAX,
            forall|k: int| 0 <= k < branches_v(*root).len() ==> wf_node(Node::Branch(#[trigger] branches_v(*root)[k]), source),
        decreases bs@.len() - i,
    {
        let n = bs[i];
        assert(wf_node(Node::Branch(branches_v(*root)[i as int]), source));
        unparen_one(n, &mut edits, Ghost(source));
        proof {
            assert(branches_v(*root).take(i + 1).drop_last() =~= branches_v(*root).take(i as int));
            assert(branches_v(*root).take(i + 1).last() == *n);
        }
        i = i + 1;
    }
    assert(branches_v(*root).take(bs@.len() as int) =~= branches_v(*root));
    edits
}

/// Pattern kinds moc accepts bare after `case`.
pub open spec fn bare_v(k: Seq<char>) -> bool {
    ||| k == "lit_pat"@ || k == "var_pat"@ || k == "wild_pat"@ || k == "quest_pat"@
    ||| k == "unop_pat"@ || k == "obj_pat"@ || k == "tup_pat"@
}

fn is_bare(k: &str) -> (r: bool)
    ensures
        r == bare_v(k@),
{
    str_eq(k, "lit_pat") || str_eq(k, "var_pat") || str_eq(k, "wild_pat") || str_eq(k, "quest_pat")
        || str_eq(k, "unop_pat") || str_eq(k, "obj_pat") || str_eq(k, "tup_pat")
}

/// What a parenthesised pattern becomes: a bare pattern as it is, a tag with its payload glued
/// on, a tuple payload as written and any other in parentheses; `None` for anything else.
pub open spec fn unwrapped_v(pattern: Branch) -> Option<Seq<u8>> {
    if bare_v(pattern.kind@) {
        Some(pattern.text@)
    } else if pattern.kind@ == "tag_pat"@ {
        let parts = non_gaps(pattern.children@);
        if parts.len() == 0 {
            None
        } else if parts.len() == 1 {
            Some(text_of(parts[0]))
        } else if parts[1] is Branch && branch_v(parts[1]).kind@ == "tup_pat"@ {
            Some(text_of(parts[0]) + text_of(parts[1]))
        } else {
            Some(text_of(parts[0]) + sb("(") + text_of(parts[1]) + sb(")"))
        }
    } else {
        None
    }
}

/// `case (p) {` → `case p {`, and `case (#t x) {` → `case #t(x) {`.
pub open spec fn unwrap_v(n: Branch) -> Seq<EditV> {
    if n.kind@ != "case"@ || !is_block_v(field_v(n, "body"@)) {
        Seq::empty()
    } else {
        match field_v(n, "pattern"@) {
            Some(par) => if par.kind@ != "tup_pat"@ {
                Seq::empty()
            } else {
                let inner = non_gaps(par.children@);
                if !(inner.len() == 3 && inner[1] is Branch) {
                    Seq::empty()
                } else {
                    match unwrapped_v(branch_v(inner[1])) {
                        None => Seq::empty(),
                        Some(t) => if t.contains(10u8) {
                            Seq::empty()
                        } else {
                            let i = field_index(n.children@, "pattern"@).unwrap();
                            let (before, after) = padding_v(n, i, i);
                            seq![(par.start as int, par.end as int, sb(before) + t + sb(after))]
                        },
                    }
                }
            },
            None => Seq::empty(),
        }
    }
}

pub open spec fn unwrap_all(bs: Seq<Branch>) -> Seq<EditV>
    decreases bs.len(),
{
    if bs.len() == 0 {
        Seq::empty()
    } else {
        unwrap_all(bs.drop_last()) + unwrap_v(bs.last())
    }
}

fn unwrapped(pattern: &Branch<'_>, Ghost(source): Ghost<Seq<u8>>) -> (r: Option<Vec<u8>>)
    requires
        wf_node(Node::Branch(*pattern), source),
    ensures
        match r {
            Some(t) => unwrapped_v(*pattern) == Some(t@),
            None => unwrapped_v(*pattern) is None,
        },
        r matches Some(t) ==> (!source.contains(13u8) ==> !t@.contains(13u8)),
{
    proof {
        crate::tree::lemma_non_gaps_in(pattern.children@);
        if !source.contains(13u8) {
            crate::print::parts::lemma_literals();
            crate::print::parts::lemma_text_clean(Node::Branch(*pattern), source);
            let parts = non_gaps(pattern.children@);
            if parts.len() >= 1 {
                crate::tree::lemma_child_of(*pattern, parts[0], source);
                crate::print::parts::lemma_text_clean(parts[0], source);
            }
            if parts.len() >= 2 {
                crate::tree::lemma_child_of(*pattern, parts[1], source);
                crate::print::parts::lemma_text_clean(parts[1], source);
                lemma_free_concat(text_of(parts[0]), text_of(parts[1]), 13u8);
                lemma_free_concat(text_of(parts[0]), sb("("), 13u8);
                lemma_free_concat(text_of(parts[0]) + sb("("), text_of(parts[1]), 13u8);
                lemma_free_concat(text_of(parts[0]) + sb("(") + text_of(parts[1]), sb(")"), 13u8);
            }
        }
    }
    if is_bare(pattern.kind) {
        return Some(vstd::slice::slice_to_vec(pattern.text));
    }
    if !str_eq(pattern.kind, "tag_pat") {
        return None;
    }
    let parts = pattern.nodes();
    if parts.len() == 0 {
        return None;
    }
    let mut t = vstd::slice::slice_to_vec(parts[0].text());
    if parts.len() == 1 {
        return Some(t);
    }
    match parts[1] {
        Node::Branch(p) => if str_eq(p.kind, "tup_pat") {
            let mut x = vstd::slice::slice_to_vec(p.text);
            t.append(&mut x);
            return Some(t);
        },
        _ => {},
    }
    crate::bytes::append_str(&mut t, "(");
    let mut x = vstd::slice::slice_to_vec(parts[1].text());
    t.append(&mut x);
    crate::bytes::append_str(&mut t, ")");
    Some(t)
}

fn unwrap_one(n: &Branch<'_>, edits: &mut Vec<Edit>, Ghost(source): Ghost<Seq<u8>>)
    requires
        wf_node(Node::Branch(*n), source),
        all_within(edits_v(old(edits)@), source.len()),
        !source.contains(13u8) ==> texts_free(edits_v(old(edits)@), 13u8),
    ensures
        edits_v(final(edits)@) == edits_v(old(edits)@) + unwrap_v(*n),
        all_within(edits_v(final(edits)@), source.len()),
        !source.contains(13u8) ==> texts_free(edits_v(final(edits)@), 13u8),
{
    let ghost before = edits_v(edits@);
    if !str_eq(n.kind, "case") || !is_block(field_of(n, "body")) {
        assert(edits_v(edits@) =~= before + unwrap_v(*n));
        return;
    }
    let par = match field_of(n, "pattern") {
        Some(p) => p,
        None => {
            assert(edits_v(edits@) =~= before + unwrap_v(*n));
            return;
        },
    };
    if !str_eq(par.kind, "tup_pat") {
        assert(edits_v(edits@) =~= before + unwrap_v(*n));
        return;
    }
    let inner = par.nodes();
    if inner.len() != 3 {
        assert(edits_v(edits@) =~= before + unwrap_v(*n));
        return;
    }
    assert(*inner@[1] == non_gaps(par.children@)[1]);
    let pattern = match inner[1] {
        Node::Branch(p) => p,
        _ => {
            assert(edits_v(edits@) =~= before + unwrap_v(*n));
            return;
        },
    };
    proof {
        crate::tree::lemma_non_gaps_in(par.children@);
        crate::tree::lemma_field_index(n.children@, "pattern"@);
        crate::tree::lemma_child_of(*n, Node::Branch(*par), source);
        crate::tree::lemma_child_of(*par, non_gaps(par.children@)[1], source);
    }
    let text = match unwrapped(pattern, Ghost(source)) {
        Some(t) => t,
        None => {
            assert(edits_v(edits@) =~= before + unwrap_v(*n));
            return;
        },
    };
    if crate::bytes::has_byte(text.as_slice(), 10u8) {
        assert(edits_v(edits@) =~= before + unwrap_v(*n));
        return;
    }
    // `case(null)` has no gap after `case` to keep the two apart.
    proof {
        crate::tree::lemma_field_index(n.children@, "pattern"@);
        crate::tree::lemma_child_of(*n, Node::Branch(*par), source);
    }
    let i = index_of(n, "pattern");
    let (b, a) = padding(n, i, i);
    let mut t: Vec<u8> = Vec::new();
    crate::bytes::append_str(&mut t, b);
    let ghost tv = text@;
    let mut body = text;
    t.append(&mut body);
    crate::bytes::append_str(&mut t, a);
    let e = Edit { start: par.start, end: par.end, text: t };
    proof {
        if !source.contains(13u8) {
            crate::print::parts::lemma_literals();
            lemma_free_concat(sb(b), tv, 13u8);
            lemma_free_concat(sb(b) + tv, sb(a), 13u8);
            lemma_push_free(edits@, e, 13u8);
        }
    }
    edits.push(e);
    assert(edits_v(edits@) =~= before + unwrap_v(*n));
}

fn unwrap_case_patterns(root: &Branch<'_>, Ghost(source): Ghost<Seq<u8>>) -> (r: Vec<Edit>)
    requires
        wf_node(Node::Branch(*root), source),
    ensures
        edits_v(r@) == unwrap_all(branches_v(*root)),
        all_within(edits_v(r@), source.len()),
        !source.contains(13u8) ==> texts_free(edits_v(r@), 13u8),
{
    proof {
        lemma_branches_wf(*root, source);
    }
    let mut edits: Vec<Edit> = Vec::new();
    let bs = root.branches();
    let mut i: usize = 0;
    while i < bs.len()
        invariant
            i <= bs@.len(),
            bs@.len() == branches_v(*root).len(),
            forall|j: int| 0 <= j < bs@.len() ==> *bs@[j] == #[trigger] branches_v(*root)[j],
            edits_v(edits@) == unwrap_all(branches_v(*root).take(i as int)),
            all_within(edits_v(edits@), source.len()),
            !source.contains(13u8) ==> texts_free(edits_v(edits@), 13u8),
            forall|k: int| 0 <= k < branches_v(*root).len() ==> wf_node(Node::Branch(#[trigger] branches_v(*root)[k]), source),
        decreases bs@.len() - i,
    {
        let n = bs[i];
        assert(wf_node(Node::Branch(branches_v(*root)[i as int]), source));
        unwrap_one(n, &mut edits, Ghost(source));
        proof {
            assert(branches_v(*root).take(i + 1).drop_last() =~= branches_v(*root).take(i as int));
            assert(branches_v(*root).take(i + 1).last() == *n);
        }
        i = i + 1;
    }
    assert(branches_v(*root).take(bs@.len() as int) =~= branches_v(*root));
    edits
}

/// The rules, in the order they run: each to a fixed point before the next, since later rules
/// need braced bodies.
#[derive(Debug, Clone, Copy, PartialEq, Eq, Structural)]
pub enum Rule {
    BraceBodies,
    GlueHeadCalls,
    UnparenHeads,
    DropCaseSemis,
    UnwrapCasePatterns,
}

/// The edits a rule asks for on a tree.
pub open spec fn rule_edits_v(rule: Rule, root: Branch) -> Seq<EditV> {
    match rule {
        Rule::BraceBodies => brace_all(branches_v(root)),
        Rule::GlueHeadCalls => glue_heads_all(branches_v(root)),
        Rule::UnparenHeads => unparen_all(branches_v(root)),
        Rule::DropCaseSemis => drop_semis_all(branches_v(root)),
        Rule::UnwrapCasePatterns => unwrap_all(branches_v(root)),
    }
}

proof fn lemma_brace_all_has(bs: Seq<Branch>, n: Branch, x: EditV)
    requires
        bs.contains(n),
        brace_edits_v(n).contains(x),
    ensures
        brace_all(bs).contains(x),
    decreases bs.len(),
{
    let k = choose|k: int| 0 <= k < bs.len() && bs[k] == n;
    let front = brace_all(bs.drop_last());
    let back = brace_edits_v(bs.last());
    if k == bs.len() - 1 {
        let j = choose|j: int| 0 <= j < back.len() && back[j] == x;
        assert((front + back)[front.len() + j] == x);
    } else {
        assert(bs.drop_last()[k] == n);
        lemma_brace_all_has(bs.drop_last(), n, x);
        let j = choose|j: int| 0 <= j < front.len() && front[j] == x;
        assert((front + back)[j] == x);
    }
}

/// The braces rule braces both branches of every `if`: where the `then` branch, or the `else`
/// branch that isn't another `if`, isn't a block, the rule's edits insert `{ ` where that branch
/// starts and ` }` where it ends.
pub proof fn law_if_branches_are_braced(root: Branch, n: Branch, b: Branch)
    requires
        branches_v(root).contains(n),
        n.kind@ == "if_exp"@,
        field_v(n, "then"@) == Some(b) || (field_v(n, "else"@) == Some(b) && b.kind@ != "if_exp"@),
        b.kind@ != "block_exp"@,
    ensures
        rule_edits_v(Rule::BraceBodies, root).contains((b.start as int, b.start as int, sb("{ "))),
        rule_edits_v(Rule::BraceBodies, root).contains((b.end as int, b.end as int, sb(" }"))),
{
    let open = (b.start as int, b.start as int, sb("{ "));
    let close = (b.end as int, b.end as int, sb(" }"));
    let t = braces_v(field_v(n, "then"@));
    let e = braces_v(match field_v(n, "else"@) {
        Some(x) => if x.kind@ != "if_exp"@ { Some(x) } else { None },
        None => None,
    });
    assert(brace_edits_v(n) == t + e);
    if field_v(n, "then"@) == Some(b) {
        assert(t == brace_v(b));
        assert((t + e)[0] == open);
        assert((t + e)[1] == close);
    } else {
        assert(e == brace_v(b));
        assert((t + e)[t.len() as int] == open);
        assert((t + e)[t.len() as int + 1] == close);
    }
    lemma_brace_all_has(branches_v(root), n, open);
    lemma_brace_all_has(branches_v(root), n, close);
}

/// The braces rule braces the body of every loop and of every `case` and `catch` arm: where the
/// body isn't a block, the rule's edits insert `{ ` where it starts and ` }` where it ends.
pub proof fn law_loop_and_arm_bodies_are_braced(root: Branch, n: Branch, b: Branch)
    requires
        branches_v(root).contains(n),
        n.kind@ == "while_exp"@ || n.kind@ == "for_exp"@ || n.kind@ == "loop_exp"@ || n.kind@ == "case"@
            || n.kind@ == "catch"@,
        field_v(n, "body"@) == Some(b),
        b.kind@ != "block_exp"@,
    ensures
        rule_edits_v(Rule::BraceBodies, root).contains((b.start as int, b.start as int, sb("{ "))),
        rule_edits_v(Rule::BraceBodies, root).contains((b.end as int, b.end as int, sb(" }"))),
{
    let open = (b.start as int, b.start as int, sb("{ "));
    let close = (b.end as int, b.end as int, sb(" }"));
    reveal_strlit("if_exp");
    reveal_strlit("while_exp");
    reveal_strlit("for_exp");
    reveal_strlit("loop_exp");
    reveal_strlit("case");
    reveal_strlit("catch");
    assert("if_exp"@[0] == 'i');
    assert("while_exp"@[0] == 'w');
    assert("for_exp"@[0] == 'f');
    assert("loop_exp"@[0] == 'l');
    assert("case"@[0] == 'c');
    assert("catch"@[0] == 'c');
    assert(n.kind@ != "if_exp"@);
    assert(brace_edits_v(n) == brace_v(b));
    assert(brace_edits_v(n)[0] == open);
    assert(brace_edits_v(n)[1] == close);
    lemma_brace_all_has(branches_v(root), n, open);
    lemma_brace_all_has(branches_v(root), n, close);
}

/// The rule that runs `i`th.
pub open spec fn rule_at_v(i: int) -> Rule {
    if i == 0 {
        Rule::BraceBodies
    } else if i == 1 {
        Rule::GlueHeadCalls
    } else if i == 2 {
        Rule::UnparenHeads
    } else if i == 3 {
        Rule::DropCaseSemis
    } else {
        Rule::UnwrapCasePatterns
    }
}

fn rule_at(i: usize) -> (r: Rule)
    ensures
        r == rule_at_v(i as int),
{
    if i == 0 {
        Rule::BraceBodies
    } else if i == 1 {
        Rule::GlueHeadCalls
    } else if i == 2 {
        Rule::UnparenHeads
    } else if i == 3 {
        Rule::DropCaseSemis
    } else {
        Rule::UnwrapCasePatterns
    }
}

/// The edits a rule asks for.
fn run_rule(rule: Rule, root: &Branch<'_>, Ghost(source): Ghost<Seq<u8>>) -> (r: Vec<Edit>)
    requires
        wf_node(Node::Branch(*root), source),
        source.len() <= usize::MAX,
    ensures
        edits_v(r@) == rule_edits_v(rule, *root),
        all_within(edits_v(r@), source.len()),
        !source.contains(13u8) ==> texts_free(edits_v(r@), 13u8),
{
    match rule {
        Rule::BraceBodies => brace_bodies(root, Ghost(source)),
        Rule::GlueHeadCalls => glue_head_calls(root, Ghost(source)),
        Rule::UnparenHeads => unparen_heads(root, Ghost(source)),
        Rule::DropCaseSemis => drop_case_semis(root, Ghost(source)),
        Rule::UnwrapCasePatterns => unwrap_case_patterns(root, Ghost(source)),
    }
}

/// Every rule removes what it matches, so a real file settles in a few rounds.
pub const MAX_ROUNDS: usize = 100;

/// The message for a rewrite that broke the code.
pub open spec fn broken_message(e: crate::tree::SyntaxError) -> Seq<u8> {
    sb("the moc2 rewrite produced code that does not parse (") + crate::tree::syntax_message(e) + sb(")")
}

/// One round of a rule, given the parse of the current text: the next text, or `None` once the
/// rule asks for nothing or changes nothing. A syntax error is the input's own while the text is
/// still the source, and an internal error once a rule has changed it.
pub fn step(rule: Rule, text: &str, parsed: Result<Node<'_>, crate::Error>, source: &str) -> (r: Result<Option<Vec<u8>>, crate::Error>)
    requires
        parsed matches Ok(root) ==> root is Branch && wf_node(root, sb(text)),
    ensures
        match parsed {
            Err(crate::Error::Syntax(e)) => if sb(text) == sb(source) {
                r == Err::<Option<Vec<u8>>, crate::Error>(crate::Error::Syntax(e))
            } else {
                r matches Err(crate::Error::Internal(m)) && m@ == vstd::utf8::decode_utf8(broken_message(e))
            },
            Err(crate::Error::Internal(m)) => r == Err::<Option<Vec<u8>>, crate::Error>(crate::Error::Internal(m)),
            Ok(root) => {
                let edits = rule_edits_v(rule, branch_v(root));
                if edits.len() == 0 || applied(sb(text), edits) == sb(text) {
                    r matches Ok(None)
                } else {
                    r matches Ok(Some(next)) && next@ == applied(sb(text), edits)
                }
            },
        },
        r matches Ok(Some(next)) ==> (!sb(text).contains(13u8) ==> !next@.contains(13u8)),
{
    let root = match parsed {
        Ok(Node::Branch(b)) => b,
        Ok(_) => {
            assert(false);
            return Ok(None);
        },
        Err(crate::Error::Syntax(e)) => {
            if bytes_eq(text.as_bytes(), source.as_bytes()) {
                return Err(crate::Error::Syntax(e));
            }
            let mut m: Vec<u8> = Vec::new();
            crate::bytes::append_str(&mut m, "the moc2 rewrite produced code that does not parse (");
            let mut t = e.message_bytes();
            m.append(&mut t);
            crate::bytes::append_str(&mut m, ")");
            assert(m@ =~= broken_message(e));
            proof {
                crate::tree::lemma_syntax_message_valid(e);
                crate::bytes::lemma_str_valid("the moc2 rewrite produced code that does not parse (");
                crate::bytes::lemma_str_valid(")");
                let head = sb("the moc2 rewrite produced code that does not parse (");
                vstd::utf8::valid_utf8_concat(head, crate::tree::syntax_message(e));
                vstd::utf8::valid_utf8_concat(head + crate::tree::syntax_message(e), sb(")"));
            }
            return Err(crate::Error::Internal(crate::bytes::string_from_bytes(m.as_slice())));
        },
        Err(crate::Error::Internal(m)) => return Err(crate::Error::Internal(m)),
    };
    let bytes = text.as_bytes();
    let _n = bytes.len();
    let edits = run_rule(rule, &root, Ghost(bytes@));
    if edits.len() == 0 {
        return Ok(None);
    }
    let next = apply(bytes, &edits);
    proof {
        if !bytes@.contains(13u8) {
            lemma_applied_free(bytes@, edits_v(edits@), 13u8);
        }
    }
    if bytes_eq(next.as_slice(), bytes) {
        return Ok(None);
    }
    Ok(Some(next))
}

/// Whether a rule has settled on a text: on the tree of the text, the rule asks for nothing or
/// changes nothing.
pub open spec fn settled(rule: Rule, g: crate::Grammar, s: Seq<u8>) -> bool {
    exists|root: Node| #[trigger] crate::tree::parsed(s, g, root) && {
        let edits = rule_edits_v(rule, branch_v(root));
        edits.len() == 0 || applied(s, edits) == s
    }
}

/// One round of `rule` takes `a` to `b`: the edits the rule asks for on the tree of `a`, applied.
pub open spec fn round_of(rule: Rule, g: crate::Grammar, a: Seq<u8>, b: Seq<u8>) -> bool {
    exists|root: Node| #[trigger] crate::tree::parsed(a, g, root) && b == applied(a, rule_edits_v(rule, branch_v(root)))
}

/// A run of rounds: each text comes from the one before it by one round of a rule.
pub open spec fn run_of(g: crate::Grammar, texts: Seq<Seq<u8>>, rules: Seq<Rule>) -> bool {
    &&& texts.len() == rules.len() + 1
    &&& forall|i: int| 0 <= i < rules.len() ==> round_of(#[trigger] rules[i], g, texts[i], texts[i + 1])
}

/// The place of a rule in the order the rules run in.
pub open spec fn rule_index(rule: Rule) -> int {
    match rule {
        Rule::BraceBodies => 0,
        Rule::GlueHeadCalls => 1,
        Rule::UnparenHeads => 2,
        Rule::DropCaseSemis => 3,
        Rule::UnwrapCasePatterns => 4,
    }
}

/// Rules in the order they run in: no round of a rule after a round of a later one.
pub open spec fn in_order(rules: Seq<Rule>) -> bool {
    forall|i: int, j: int| 0 <= i <= j < rules.len() ==> rule_index(#[trigger] rules[i]) <= rule_index(#[trigger] rules[j])
}

/// `b` comes from `a` by rounds of rules, taken in the order the rules run in.
pub open spec fn derived(g: crate::Grammar, a: Seq<u8>, b: Seq<u8>) -> bool {
    exists|texts: Seq<Seq<u8>>, rules: Seq<Rule>| #[trigger] run_of(g, texts, rules) && in_order(rules) && texts[0] == a && texts.last() == b
}

/// The run goes through the first `n` rules one stretch at a time, in order: `ends[r]` rounds are
/// of the rules up to the `r`th, and the text after them is settled for the `r`th rule.
pub open spec fn stretches(g: crate::Grammar, texts: Seq<Seq<u8>>, rules: Seq<Rule>, ends: Seq<int>, n: int) -> bool {
    &&& ends.len() == n
    &&& forall|r: int| #![trigger ends[r]] 0 <= r < n ==> {
        &&& 0 <= ends[r] <= rules.len()
        &&& settled(rule_at_v(r), g, texts[ends[r]])
        &&& forall|k: int| 0 <= k < rules.len() ==> (k < ends[r] <==> rule_index(#[trigger] rules[k]) <= r)
    }
}

/// `b` comes from `a` by each rule in turn, run on the tree of the text until it settles.
pub open spec fn rewritten(g: crate::Grammar, a: Seq<u8>, b: Seq<u8>) -> bool {
    exists|texts: Seq<Seq<u8>>, rules: Seq<Rule>, ends: Seq<int>| run_of(g, texts, rules)
        && texts[0] == a && texts.last() == b && #[trigger] stretches(g, texts, rules, ends, 5)
}

proof fn lemma_run_keeps(g: crate::Grammar, texts: Seq<Seq<u8>>, rules: Seq<Rule>, source: Seq<u8>, i: int)
    requires
        run_of(g, texts, rules),
        texts[0] == source,
        0 <= i < texts.len(),
        forall|rule: Rule, n: Node| crate::tree::parsed(source, g, n)
            ==> #[trigger] applied(source, rule_edits_v(rule, branch_v(n))) == source,
    ensures
        texts[i] == source,
    decreases i,
{
    if i > 0 {
        lemma_run_keeps(g, texts, rules, source, i - 1);
        assert(round_of(rules[i - 1], g, texts[i - 1], texts[i]));
        let n = choose|n: Node| #[trigger] crate::tree::parsed(texts[i - 1], g, n)
            && texts[i] == applied(texts[i - 1], rule_edits_v(rules[i - 1], branch_v(n)));
        assert(crate::tree::parsed(source, g, n));
    }
}

/// Where no rule changes the text on any tree of it, the rewrite gives the text back as it was.
pub proof fn law_a_text_no_rule_changes_is_kept(g: crate::Grammar, source: Seq<u8>, t: Seq<u8>)
    requires
        rewritten(g, source, t),
        forall|rule: Rule, n: Node| crate::tree::parsed(source, g, n)
            ==> #[trigger] applied(source, rule_edits_v(rule, branch_v(n))) == source,
    ensures
        t == source,
{
    let (texts, rules, ends) = choose|texts: Seq<Seq<u8>>, rules: Seq<Rule>, ends: Seq<int>| run_of(g, texts, rules)
        && texts[0] == source && texts.last() == t && #[trigger] stretches(g, texts, rules, ends, 5);
    lemma_run_keeps(g, texts, rules, source, texts.len() - 1);
}

/// Why a rewrite of `source` fails with the internal error `m`, after a run of rounds from it:
/// the last text can't be parsed for a reason of tree-sitter's, or a rule broke the code, or a
/// rule still changed the text after `MAX_ROUNDS` rounds in a row, or a round split a character.
pub open spec fn rewrite_fails(grammar: crate::Grammar, source: Seq<u8>, m: Seq<char>) -> bool {
    exists|texts: Seq<Seq<u8>>, rules: Seq<Rule>| #[trigger] run_of(grammar, texts, rules) && in_order(rules)
        && texts[0] == source && {
            let last = texts.last();
            ||| crate::tree::unparsed_v(last, grammar)
            ||| last != source && exists|e: crate::tree::SyntaxError| #[trigger] crate::tree::syntax_v(last, grammar, e)
                && m == vstd::utf8::decode_utf8(broken_message(e))
            ||| m == "a moc2 rule did not settle"@ && rules.len() >= MAX_ROUNDS
                && forall|k: int| rules.len() - MAX_ROUNDS <= k < rules.len() ==> #[trigger] rules[k] == rules.last()
                    && texts[k] != texts[k + 1]
            ||| m == "a moc2 rule split a character"@ && exists|rule: Rule, b: Seq<u8>| #[trigger] round_of(rule, grammar, last, b)
                && !vstd::utf8::valid_utf8(b)
        }
}

proof fn lemma_run_step(g: crate::Grammar, texts: Seq<Seq<u8>>, rules: Seq<Rule>, rule: Rule, c: Seq<u8>)
    requires
        run_of(g, texts, rules),
        round_of(rule, g, texts.last(), c),
    ensures
        run_of(g, texts.push(c), rules.push(rule)),
{
    let t = texts.push(c);
    let r = rules.push(rule);
    assert forall|i: int| 0 <= i < r.len() implies round_of(#[trigger] r[i], g, t[i], t[i + 1]) by {
        if i < rules.len() {
            assert(r[i] == rules[i]);
            assert(t[i] == texts[i]);
            assert(t[i + 1] == texts[i + 1]);
        } else {
            assert(t[i] == texts.last());
        }
    }
}

/// Rewrites legacy syntax to the moc 2.0 forms. Each rule runs on the tree of the text until it
/// asks for nothing or changes nothing, and then the next, since later rules need braced bodies
/// (see [`rewritten`]).
/// `Error::Syntax` exactly where the input doesn't parse, and `Error::Internal` where a rule
/// breaks the code or never settles (see [`rewrite_fails`]).
pub fn rewrite(source: &str, grammar: &crate::Grammar) -> (r: Result<String, crate::Error>)
    ensures
        r matches Ok(s) ==> settled(Rule::UnwrapCasePatterns, *grammar, crate::bytes::sbs(s)),
        r matches Ok(s) ==> derived(*grammar, sb(source), crate::bytes::sbs(s)),
        r matches Ok(s) ==> rewritten(*grammar, sb(source), crate::bytes::sbs(s)),
        r matches Ok(s) ==> (!sb(source).contains(13u8) ==> !crate::bytes::sbs(s).contains(13u8)),
        r is Ok ==> exists|n: Node| #[trigger] crate::tree::parsed(sb(source), *grammar, n),
        r matches Err(crate::Error::Syntax(e)) ==> crate::tree::syntax_v(sb(source), *grammar, e),
        r matches Err(crate::Error::Internal(m)) ==> rewrite_fails(*grammar, sb(source), m@),
{
    let mut text = crate::bytes::string_of(source);
    let ghost g = *grammar;
    let ghost mut texts: Seq<Seq<u8>> = seq![sb(source)];
    let ghost mut rules: Seq<Rule> = Seq::empty();
    let ghost mut ends: Seq<int> = Seq::empty();
    let mut ri: usize = 0;
    while ri < 5
        invariant
            ri <= 5,
            stretches(g, texts, rules, ends, ri as int),
            g == *grammar,
            ri > 0 ==> settled(rule_at_v(ri - 1), g, crate::bytes::sbs(text)),
            run_of(g, texts, rules),
            in_order(rules),
            forall|k: int| 0 <= k < rules.len() ==> rule_index(#[trigger] rules[k]) < ri,
            texts[0] == sb(source),
            texts.last() == crate::bytes::sbs(text),
            !sb(source).contains(13u8) ==> !crate::bytes::sbs(text).contains(13u8),
        decreases 5 - ri,
    {
        let rule = rule_at(ri);
        let mut round: usize = 0;
        loop
            invariant
                round <= MAX_ROUNDS,
                g == *grammar,
                rule == rule_at_v(ri as int),
                ri < 5,
                run_of(g, texts, rules),
                in_order(rules),
                forall|k: int| 0 <= k < rules.len() ==> rule_index(#[trigger] rules[k]) <= ri,
                round <= rules.len(),
                forall|k: int| rules.len() - round <= k < rules.len() ==> #[trigger] rules[k] == rule
                    && texts[k] != texts[k + 1],
                stretches(g, texts, rules, ends, ri as int),
                texts[0] == sb(source),
                texts.last() == crate::bytes::sbs(text),
                !sb(source).contains(13u8) ==> !crate::bytes::sbs(text).contains(13u8),
            ensures
                settled(rule_at_v(ri as int), g, crate::bytes::sbs(text)),
                stretches(g, texts, rules, ends, ri as int),
                run_of(g, texts, rules),
                in_order(rules),
                forall|k: int| 0 <= k < rules.len() ==> rule_index(#[trigger] rules[k]) <= ri,
                texts[0] == sb(source),
                texts.last() == crate::bytes::sbs(text),
                !sb(source).contains(13u8) ==> !crate::bytes::sbs(text).contains(13u8),
            decreases MAX_ROUNDS - round,
        {
            if round == MAX_ROUNDS {
                proof {
                    assert(rules.last() == rule);
                    assert(rewrite_fails(*grammar, sb(source), "a moc2 rule did not settle"@));
                }
                return Err(crate::Error::Internal(crate::bytes::string_of("a moc2 rule did not settle")));
            }
            let parsed = crate::tree::parse(text.as_str(), grammar);
            let ghost p = parsed;
            let stepped = step(rule, text.as_str(), parsed, source);
            match stepped {
                Err(e) => {
                    proof {
                        assert(e matches crate::Error::Internal(m) ==> rewrite_fails(*grammar, sb(source), m@));
                    }
                    return Err(e);
                },
                Ok(None) => {
                    proof {
                        let root = p->Ok_0;
                        assert(crate::tree::parsed(crate::bytes::sbs(text), g, root));
                    }
                    break;
                },
                Ok(Some(next)) => {
                    let ghost before = crate::bytes::sbs(text);
                    let ghost nv = next@;
                    proof {
                        let root = p->Ok_0;
                        assert(crate::tree::parsed(before, g, root) && nv == applied(before, rule_edits_v(rule, branch_v(root))));
                        assert(round_of(rule, g, before, nv));
                        lemma_run_step(g, texts, rules, rule, nv);
                    }
                    text = match crate::bytes::string_from_utf8(next) {
                        Some(t) => t,
                        None => {
                            proof {
                                assert(rewrite_fails(*grammar, sb(source), "a moc2 rule split a character"@));
                            }
                            return Err(crate::Error::Internal(crate::bytes::string_of("a moc2 rule split a character")));
                        },
                    };
                    proof {
                        vstd::utf8::decode_utf8_encode_utf8(nv);
                        let old_texts = texts;
                        texts = texts.push(nv);
                        let old_rules = rules;
                        rules = rules.push(rule);
                        assert(nv != before);
                        assert(rule_index(rule) == ri);
                        assert forall|i: int, j: int| 0 <= i <= j < rules.len() implies rule_index(#[trigger] rules[i]) <= rule_index(#[trigger] rules[j]) by {
                            if j < old_rules.len() {
                                assert(rules[i] == old_rules[i] && rules[j] == old_rules[j]);
                            } else if i < old_rules.len() {
                                assert(rules[i] == old_rules[i]);
                            }
                        }
                        assert forall|k: int| rules.len() - (round + 1) <= k < rules.len() implies #[trigger] rules[k] == rule
                            && texts[k] != texts[k + 1] by {
                            if k < old_rules.len() {
                                assert(rules[k] == old_rules[k]);
                                assert(texts[k] == old_texts[k]);
                                assert(texts[k + 1] == old_texts[k + 1]);
                            } else {
                                assert(texts[k] == before);
                            }
                        }
                        assert forall|r: int| #![trigger ends[r]] 0 <= r < ri implies {
                            &&& 0 <= ends[r] <= rules.len()
                            &&& settled(rule_at_v(r), g, texts[ends[r]])
                            &&& forall|k: int| 0 <= k < rules.len() ==> (k < ends[r] <==> rule_index(#[trigger] rules[k]) <= r)
                        } by {
                            assert(texts[ends[r]] == old_texts[ends[r]]);
                            assert forall|k: int| 0 <= k < rules.len() implies (k < ends[r] <==> rule_index(#[trigger] rules[k]) <= r) by {
                                if k < old_rules.len() {
                                    assert(rules[k] == old_rules[k]);
                                }
                            }
                        }
                    }
                },
            }
            round = round + 1;
        }
        proof {
            let old_ends = ends;
            ends = ends.push(rules.len() as int);
            assert forall|r: int| #![trigger ends[r]] 0 <= r < ri + 1 implies {
                &&& 0 <= ends[r] <= rules.len()
                &&& settled(rule_at_v(r), g, texts[ends[r]])
                &&& forall|k: int| 0 <= k < rules.len() ==> (k < ends[r] <==> rule_index(#[trigger] rules[k]) <= r)
            } by {
                if r < ri {
                    assert(ends[r] == old_ends[r]);
                } else {
                    assert(texts[ends[r]] == texts.last());
                }
            }
        }
        ri = ri + 1;
    }
    assert(run_of(g, texts, rules) && texts[0] == sb(source) && texts.last() == crate::bytes::sbs(text));
    proof {
        assert(stretches(g, texts, rules, ends, 5));
        assert(rewritten(g, sb(source), crate::bytes::sbs(text)));
        if rules.len() > 0 {
            assert(round_of(rules[0], g, texts[0], texts[1]));
        } else {
            assert(texts.last() == texts[0]);
        }
    }
    Ok(text)
}

} // verus!
