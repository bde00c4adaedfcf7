//! The symbol ids of the grammar's head-mode rules, read from the generated parser. They are
//! aliased onto ordinary node names, so only the id before aliasing reveals head mode.

use vstd::prelude::*;
use crate::bytes::{bytes_ends_with, bytes_eq, bytes_starts_with, ends_with, sb, starts_with, trim, trim_v};
use crate::doc::split_lines;

verus! {

broadcast use vstd::seq_lib::to_multiset_insert;

/// The first position of `pat` in `s`.
pub open spec fn find_v(s: Seq<u8>, pat: Seq<u8>) -> Option<int>
    decreases s.len(),
{
    if s.len() < pat.len() {
        None
    } else if s.take(pat.len() as int) == pat {
        Some(0)
    } else if s.len() == 0 {
        None
    } else {
        match find_v(s.skip(1), pat) {
            Some(i) => Some(i + 1),
            None => None,
        }
    }
}

proof fn lemma_find(s: Seq<u8>, pat: Seq<u8>)
    ensures
        find_v(s, pat) matches Some(i) ==> 0 <= i && i + pat.len() <= s.len() && s.subrange(i, i + pat.len()) == pat,
    decreases s.len(),
{
    if s.len() >= pat.len() && s.take(pat.len() as int) != pat && s.len() > 0 {
        lemma_find(s.skip(1), pat);
        if let Some(i) = find_v(s.skip(1), pat) {
            assert(s.subrange(i + 1, i + 1 + pat.len()) =~= s.skip(1).subrange(i, i + pat.len()));
        }
    }
}

fn find(s: &[u8], pat: &[u8]) -> (r: Option<usize>)
    ensures
        match r {
            Some(i) => find_v(s@, pat@) == Some(i as int),
            None => find_v(s@, pat@) is None,
        },
{
    let mut i: usize = 0;
    assert(s@.skip(0) =~= s@);
    loop
        invariant
            i <= s@.len(),
            find_v(s@, pat@) == match find_v(s@.skip(i as int), pat@) {
                Some(j) => Some(j + i),
                None => None::<int>,
            },
        decreases s@.len() - i,
    {
        let rest = vstd::slice::slice_subrange(s, i, s.len());
        assert(rest@ =~= s@.skip(i as int));
        if rest.len() < pat.len() {
            return None;
        }
        if bytes_starts_with(rest, pat) {
            return Some(i);
        }
        if rest.len() == 0 {
            return None;
        }
        assert(s@.skip(i as int).skip(1) =~= s@.skip(i + 1));
        i = i + 1;
    }
}

/// The value of a run of decimal digits.
pub open spec fn digits_value(ds: Seq<u8>) -> nat
    decreases ds.len(),
{
    if ds.len() == 0 {
        0
    } else {
        digits_value(ds.drop_last()) * 10 + (ds.last() - 48) as nat
    }
}

pub open spec fn all_digits(ds: Seq<u8>) -> bool {
    forall|i: int| 0 <= i < ds.len() ==> 48u8 <= #[trigger] ds[i] <= 57u8
}

/// `str::parse::<u16>`: an optional `+`, then at least one decimal digit, for a value that fits.
pub open spec fn parse_u16_v(s: Seq<u8>) -> Option<u16> {
    let ds = if s.len() > 0 && s[0] == 43u8 { s.skip(1) } else { s };
    if ds.len() == 0 || !all_digits(ds) || digits_value(ds) > 65535 {
        None
    } else {
        Some(digits_value(ds) as u16)
    }
}

fn parse_u16(s: &[u8]) -> (r: Option<u16>)
    ensures
        r == parse_u16_v(s@),
{
    let ds = if s.len() > 0 && s[0] == 43u8 { vstd::slice::slice_subrange(s, 1, s.len()) } else { s };
    assert(ds@ == if s@.len() > 0 && s@[0] == 43u8 { s@.skip(1) } else { s@ });
    if ds.len() == 0 {
        return None;
    }
    let mut v: u32 = 0;
    let mut i: usize = 0;
    while i < ds.len()
        invariant
            i <= ds@.len(),
            ds@.len() > 0,
            ds@ == if s@.len() > 0 && s@[0] == 43u8 { s@.skip(1) } else { s@ },
            all_digits(ds@.take(i as int)),
            v == digits_value(ds@.take(i as int)),
            v <= 65535,
        decreases ds@.len() - i,
    {
        assert(ds@.take(i + 1).drop_last() =~= ds@.take(i as int));
        let c = ds[i];
        if c < 48u8 || c > 57u8 {
            proof {
                assert(ds@[i as int] == c);
                assert(!(48u8 <= ds@[i as int] <= 57u8));
                assert(!all_digits(ds@));
                assert(parse_u16_v(s@) is None);
            }
            return None;
        }
        let next = v * 10 + (c - 48u8) as u32;
        if next > 65535 {
            proof {
                assert(ds@.take(i + 1).last() == c);
                assert(digits_value(ds@.take(i + 1)) == v * 10 + (c - 48) as nat);
                lemma_digits_grow(ds@, i as int + 1);
                assert(parse_u16_v(s@) is None);
            }
            return None;
        }
        v = next;
        i = i + 1;
    }
    assert(ds@.take(ds@.len() as int) =~= ds@);
    Some(v as u16)
}

proof fn lemma_digits_grow(ds: Seq<u8>, k: int)
    requires
        0 <= k <= ds.len(),
    ensures
        all_digits(ds) ==> digits_value(ds) >= digits_value(ds.take(k)),
    decreases ds.len() - k,
{
    if k < ds.len() && all_digits(ds) {
        lemma_digits_grow(ds, k + 1);
        assert(ds.take(k + 1).drop_last() =~= ds.take(k));
        assert(ds.take(k + 1).last() == ds[k]);
        assert(48u8 <= ds[k] <= 57u8);
    } else if k == ds.len() {
        assert(ds.take(k) =~= ds);
    }
}

/// `s` without its trailing commas.
pub open spec fn strip_commas(s: Seq<u8>) -> Seq<u8>
    decreases s.len(),
{
    if s.len() > 0 && s.last() == 44u8 {
        strip_commas(s.drop_last())
    } else {
        s
    }
}

/// What a line of the symbol enum says: nothing for a line that isn't a head rule's, the id of a
/// head rule (`sym_…_head` or `sym__par_exp_tight`), or `Some(None)` for a head rule whose id isn't
/// a number.
pub open spec fn line_id(line: Seq<u8>) -> Option<Option<u16>> {
    let t = strip_commas(trim_v(line));
    match find_v(t, sb(" = ")) {
        None => None,
        Some(i) => {
            let designator = t.take(i);
            let id = t.skip(i + sb(" = ").len());
            if !starts_with(designator, sb("sym_")) {
                None
            } else {
                let rule = designator.skip(sb("sym_").len() as int);
                if ends_with(rule, sb("_head")) || rule == sb("_par_exp_tight") {
                    Some(parse_u16_v(id))
                } else {
                    None
                }
            }
        },
    }
}

/// The ids of the head rules among the lines, in order, or `None` if one isn't a number.
pub open spec fn ids_v(ls: Seq<Seq<u8>>) -> Option<Seq<u16>>
    decreases ls.len(),
{
    if ls.len() == 0 {
        Some(Seq::empty())
    } else {
        match ids_v(ls.drop_last()) {
            None => None,
            Some(v) => match line_id(ls.last()) {
                None => Some(v),
                Some(None) => None,
                Some(Some(n)) => Some(v.push(n)),
            },
        }
    }
}

fn line_id_exec(line: &[u8]) -> (r: Option<Option<u16>>)
    ensures
        r == line_id(line@),
{
    let t0 = trim(line);
    let mut e = t0.len();
    assert(t0@.take(e as int) =~= t0@);
    while e > 0 && t0[e - 1] == 44u8
        invariant
            e <= t0@.len(),
            strip_commas(t0@) == strip_commas(t0@.take(e as int)),
        decreases e,
    {
        assert(t0@.take(e as int).drop_last() =~= t0@.take(e - 1));
        e = e - 1;
    }
    let t = vstd::slice::slice_subrange(t0, 0, e);
    assert(strip_commas(t@) == t@);
    let eq = " = ".as_bytes();
    let i = match find(t, eq) {
        Some(i) => i,
        None => return None,
    };
    proof {
        lemma_find(t@, eq@);
    }
    let designator = vstd::slice::slice_subrange(t, 0, i);
    let id = vstd::slice::slice_subrange(t, i + eq.len(), t.len());
    let sym = "sym_".as_bytes();
    if !bytes_starts_with(designator, sym) {
        return None;
    }
    let rule = vstd::slice::slice_subrange(designator, sym.len(), designator.len());
    if bytes_ends_with(rule, "_head".as_bytes()) || bytes_eq(rule, "_par_exp_tight".as_bytes()) {
        Some(parse_u16(id))
    } else {
        None
    }
}

/// Whether the ids are in ascending order.
pub open spec fn ascending(v: Seq<u16>) -> bool {
    forall|i: int, j: int| 0 <= i <= j < v.len() ==> v[i] <= v[j]
}

/// The number of head rules the grammar has: a new one named otherwise would be missed silently,
/// so the count makes any change to them fail, for someone to check the names.
pub const HEAD_RULES: usize = 27;

/// The start of the symbol enum in the generated parser.
pub open spec fn enum_start() -> Seq<u8> {
    sb("enum ts_symbol_identifiers {")
}

/// The head rules' ids, sorted, read from the generated parser's symbol enum; an error where the
/// enum is missing or unterminated, where a head rule's id isn't a number, or where there aren't
/// [`HEAD_RULES`] of them.
pub fn head_symbol_ids(parser_c: &str) -> (r: Result<Vec<u16>, String>)
    ensures
        ({
            let b = sb(parser_c);
            match find_v(b, enum_start()) {
                None => r matches Err(m) && m@ == "no `enum ts_symbol_identifiers` in parser.c"@,
                Some(start) => match find_v(b.skip(start), sb("\n};")) {
                    None => r matches Err(m) && m@ == "the symbol enum in parser.c does not end"@,
                    Some(len) => match ids_v(split_lines(b.subrange(start, start + len))) {
                        None => r matches Err(m) && m@ == "a head rule's symbol id in parser.c is not a number"@,
                        Some(ids) => if ids.len() != HEAD_RULES {
                            r matches Err(m) && m@ == "expected 27 head-mode rules (`*_head` and `_par_exp_tight`) in parser.c; if the grammar changed them on purpose, check every head rule matches and update the count"@
                        } else {
                            r matches Ok(v) && ascending(v@) && v@.to_multiset() == ids.to_multiset()
                        },
                    },
                },
            }
        }),
{
    let b = parser_c.as_bytes();
    let start = match find(b, "enum ts_symbol_identifiers {".as_bytes()) {
        Some(s) => s,
        None => return Err(crate::bytes::string_of("no `enum ts_symbol_identifiers` in parser.c")),
    };
    proof {
        lemma_find(b@, enum_start());
    }
    let rest = vstd::slice::slice_subrange(b, start, b.len());
    assert(rest@ =~= b@.skip(start as int));
    let len = match find(rest, "\n};".as_bytes()) {
        Some(l) => l,
        None => return Err(crate::bytes::string_of("the symbol enum in parser.c does not end")),
    };
    proof {
        lemma_find(rest@, sb("\n};"));
    }
    let body = vstd::slice::slice_subrange(rest, 0, len);
    assert(body@ =~= b@.subrange(start as int, start + len));
    let ids = match ids_of(body) {
        Some(v) => v,
        None => return Err(crate::bytes::string_of("a head rule's symbol id in parser.c is not a number")),
    };
    if ids.len() != HEAD_RULES {
        return Err(crate::bytes::string_of(
            "expected 27 head-mode rules (`*_head` and `_par_exp_tight`) in parser.c; if the grammar changed them on purpose, check every head rule matches and update the count",
        ));
    }
    Ok(sort_ids(&ids))
}

/// The ids of the head rules among the lines of `body`, or `None` if one isn't a number.
fn ids_of(body: &[u8]) -> (r: Option<Vec<u16>>)
    ensures
        match r {
            Some(v) => ids_v(split_lines(body@)) == Some(v@),
            None => ids_v(split_lines(body@)) is None,
        },
{
    let mut ids: Vec<u16> = Vec::new();
    let mut failed = false;
    let mut ls: usize = 0;
    let mut i: usize = 0;
    assert(split_lines(body@.take(0)) =~= seq![Seq::<u8>::empty()]) by {
        assert(body@.take(0).len() == 0);
    }
    while i < body.len()
        invariant
            ls <= i <= body@.len(),
            split_lines(body@.take(i as int)).len() >= 1,
            split_lines(body@.take(i as int)).last() == body@.subrange(ls as int, i as int),
            ids_v(split_lines(body@.take(i as int)).drop_last()) == if failed { None } else { Some(ids@) },
        decreases body@.len() - i,
    {
        let ghost lines = split_lines(body@.take(i as int));
        assert(body@.take(i + 1).drop_last() =~= body@.take(i as int));
        assert(body@.take(i + 1).last() == body@[i as int]);
        if body[i] == 10u8 {
            let line = vstd::slice::slice_subrange(body, ls, i);
            proof {
                assert(lines == lines.drop_last().push(lines.last()));
                lemma_ids_push(lines.drop_last(), lines.last());
            }
            match line_id_exec(line) {
                None => {},
                Some(None) => failed = true,
                Some(Some(n)) => ids.push(n),
            }
            proof {
                let nl = split_lines(body@.take(i + 1));
                assert(nl == lines.push(Seq::empty()));
                assert(nl.drop_last() =~= lines);
            }
            ls = i + 1;
        } else {
            proof {
                let nl = split_lines(body@.take(i + 1));
                assert(nl == lines.update(lines.len() - 1, lines.last().push(body@[i as int])));
                assert(nl.drop_last() =~= lines.drop_last());
                assert(body@.subrange(ls as int, i + 1) =~= body@.subrange(ls as int, i as int).push(body@[i as int]));
            }
        }
        i = i + 1;
    }
    assert(body@.take(body@.len() as int) =~= body@);
    let ghost lines = split_lines(body@);
    let last = vstd::slice::slice_subrange(body, ls, body.len());
    proof {
        assert(lines == lines.drop_last().push(lines.last()));
        lemma_ids_push(lines.drop_last(), lines.last());
    }
    match line_id_exec(last) {
        None => {},
        Some(None) => failed = true,
        Some(Some(n)) => ids.push(n),
    }
    if failed {
        return None;
    }
    Some(ids)
}

proof fn lemma_ids_push(ls: Seq<Seq<u8>>, l: Seq<u8>)
    ensures
        ls.push(l).drop_last() == ls,
        ls.push(l).last() == l,
{
    assert(ls.push(l).drop_last() =~= ls);
}

/// The ids in ascending order.
fn sort_ids(ids: &Vec<u16>) -> (r: Vec<u16>)
    ensures
        ascending(r@),
        r@.to_multiset() == ids@.to_multiset(),
{
    let ghost found = ids@;
    let mut sorted: Vec<u16> = Vec::new();
    let mut k: usize = 0;
    assert(sorted@ =~= found.take(0));
    while k < ids.len()
        invariant
            k <= ids@.len(),
            ids@ == found,
            ascending(sorted@),
            sorted@.to_multiset() == found.take(k as int).to_multiset(),
        decreases ids@.len() - k,
    {
        let x = ids[k];
        let mut p = sorted.len();
        while p > 0 && sorted[p - 1] > x
            invariant
                p <= sorted@.len(),
                forall|j: int| p <= j < sorted@.len() ==> sorted@[j] > x,
            decreases p,
        {
            p = p - 1;
        }
        let ghost before = sorted@;
        sorted.insert(p, x);
        proof {
            assert(found.take(k + 1) =~= found.take(k as int).push(x));
            vstd::seq_lib::to_multiset_build(found.take(k as int), x);
            assert(sorted@ == before.insert(p as int, x));
            assert forall|a: int, c: int| 0 <= a <= c < sorted@.len() implies sorted@[a] <= sorted@[c] by {
                if a < p && c > p {
                    assert(sorted@[a] == before[a]);
                    assert(sorted@[c] == before[c - 1]);
                } else if a == p && c > p {
                    assert(sorted@[c] == before[c - 1]);
                } else if a < p && c == p {
                    assert(before[a] <= before[p - 1]);
                } else if a > p {
                    assert(sorted@[a] == before[a - 1]);
                    assert(sorted@[c] == before[c - 1]);
                }
            }
        }
        k = k + 1;
    }
    assert(found.take(found.len() as int) =~= found);
    sorted
}

} // verus!
