//! Verified helpers on text as UTF-8 bytes.

use vstd::prelude::*;
use vstd::slice::{slice_subrange, slice_to_vec};
use vstd::string::{StringExecFns, StringSliceAdditionalSpecFns};

verus! {

/// The bytes of `s`.
pub open spec fn sb(s: &str) -> Seq<u8> {
    s.spec_bytes()
}

/// The UTF-8 bytes of a `String`.
pub open spec fn sbs(s: String) -> Seq<u8> {
    vstd::utf8::encode_utf8(s@)
}

/// The UTF-8 bytes of `s`.
pub fn bytes_of(s: &str) -> (v: Vec<u8>)
    ensures
        v@ == sb(s),
{
    slice_to_vec(s.as_bytes())
}

/// Whether two byte sequences are equal.
pub fn bytes_eq(a: &[u8], b: &[u8]) -> (r: bool)
    ensures
        r == (a@ == b@),
{
    if a.len() != b.len() {
        return false;
    }
    let mut i: usize = 0;
    while i < a.len()
        invariant
            i <= a.len(),
            a@.len() == b@.len(),
            forall|j: int| 0 <= j < i ==> a@[j] == b@[j],
        decreases a.len() - i,
    {
        if a[i] != b[i] {
            return false;
        }
        i = i + 1;
    }
    assert(a@ =~= b@);
    true
}

/// Whether two strings are equal.
pub fn str_eq(a: &str, b: &str) -> (r: bool)
    ensures
        r == (a@ == b@),
{
    let r = bytes_eq(a.as_bytes(), b.as_bytes());
    proof {
        vstd::utf8::encode_utf8_decode_utf8(a@);
        vstd::utf8::encode_utf8_decode_utf8(b@);
    }
    r
}

/// Whether `s` holds the byte `c`.
pub fn has_byte(s: &[u8], c: u8) -> (r: bool)
    ensures
        r == s@.contains(c),
{
    let mut i: usize = 0;
    while i < s.len()
        invariant
            i <= s.len(),
            forall|j: int| 0 <= j < i ==> s@[j] != c,
        decreases s.len() - i,
    {
        if s[i] == c {
            assert(s@[i as int] == c);
            return true;
        }
        i = i + 1;
    }
    false
}

/// The string the bytes decode to. Trusted: calls std's `String::from_utf8_lossy`, whose
/// documentation says that the valid UTF-8 in the bytes is kept as it is and each invalid
/// sequence becomes U+FFFD. The contract claims the string's characters are the decoding of `v`
/// when `v` is valid UTF-8, and that a carriage return, which is ASCII and so never replaced nor
/// part of U+FFFD's encoding, is in the string's UTF-8 only where it was in `v`; it says nothing
/// else of where the replacement characters go.
#[verifier::external_body]
pub(crate) fn string_from_bytes(v: &[u8]) -> (s: String)
    ensures
        vstd::utf8::valid_utf8(v@) ==> s@ == vstd::utf8::decode_utf8(v@),
        !v@.contains(13u8) ==> !sbs(s).contains(13u8),
{
    String::from_utf8_lossy(v).into_owned()
}


/// The length of the encoding of the Unicode whitespace character that ends `b`, or 0 when `b`
/// does not end with one. Whitespace is Unicode's `White_Space`: U+0009 to U+000D, U+0020,
/// U+0085, U+00A0, U+1680, U+2000 to U+200A, U+2028, U+2029, U+202F, U+205F and U+3000.
pub open spec fn ws_end(b: Seq<u8>) -> nat {
    let n = b.len();
    if n >= 1 && (b[n - 1] == 32u8 || (9u8 <= b[n - 1] && b[n - 1] <= 13u8)) {
        1
    } else if n >= 2 && b[n - 2] == 0xC2u8 && (b[n - 1] == 0x85u8 || b[n - 1] == 0xA0u8) {
        2
    } else if n >= 3 && ws3(b[n - 3], b[n - 2], b[n - 1]) {
        3
    } else {
        0
    }
}

/// The length of the encoding of the Unicode whitespace character that starts `b`, or 0.
pub open spec fn ws_start(b: Seq<u8>) -> nat {
    let n = b.len();
    if n >= 1 && (b[0] == 32u8 || (9u8 <= b[0] && b[0] <= 13u8)) {
        1
    } else if n >= 2 && b[0] == 0xC2u8 && (b[1] == 0x85u8 || b[1] == 0xA0u8) {
        2
    } else if n >= 3 && ws3(b[0], b[1], b[2]) {
        3
    } else {
        0
    }
}

/// A three-byte encoding of a whitespace character.
pub open spec fn ws3(x: u8, y: u8, z: u8) -> bool {
    ||| x == 0xE1u8 && y == 0x9Au8 && z == 0x80u8
    ||| x == 0xE2u8 && y == 0x80u8 && ((0x80u8 <= z && z <= 0x8Au8) || z == 0xA8u8 || z == 0xA9u8 || z == 0xAFu8)
    ||| x == 0xE2u8 && y == 0x81u8 && z == 0x9Fu8
    ||| x == 0xE3u8 && y == 0x80u8 && z == 0x80u8
}

/// The length of `b` without its trailing whitespace.
pub open spec fn trim_end_len(b: Seq<u8>) -> nat
    decreases b.len(),
{
    if ws_end(b) > 0 {
        trim_end_len(b.take(b.len() - ws_end(b)))
    } else {
        b.len()
    }
}

/// The length of `b`'s leading whitespace.
pub open spec fn trim_start_len(b: Seq<u8>) -> nat
    decreases b.len(),
{
    if ws_start(b) > 0 {
        ws_start(b) + trim_start_len(b.skip(ws_start(b) as int))
    } else {
        0
    }
}

pub proof fn lemma_trim_end_len(b: Seq<u8>)
    ensures
        trim_end_len(b) <= b.len(),
    decreases b.len(),
{
    if ws_end(b) > 0 {
        lemma_trim_end_len(b.take(b.len() - ws_end(b)));
    }
}

/// The whitespace character at the end of `b` is the one at the end of `a + b`.
proof fn lemma_ws_end_append(a: Seq<u8>, b: Seq<u8>)
    requires
        ws_end(b) > 0,
    ensures
        ws_end(a + b) == ws_end(b),
{
    let c = a + b;
    let n = b.len();
    let m = c.len();
    assert(c[m - 1] == b[n - 1]);
    if n >= 2 {
        assert(c[m - 2] == b[n - 2]);
    }
    if n >= 3 {
        assert(c[m - 3] == b[n - 3]);
    }
}

/// Whitespace after whitespace is whitespace.
pub proof fn lemma_trim_end_blank_concat(a: Seq<u8>, b: Seq<u8>)
    requires
        trim_end_len(a) == 0,
        trim_end_len(b) == 0,
    ensures
        trim_end_len(a + b) == 0,
    decreases b.len(),
{
    if b.len() == 0 {
        assert(a + b =~= a);
    } else {
        let k = ws_end(b);
        assert(k > 0);
        lemma_ws_end_append(a, b);
        let c = b.take(b.len() - k);
        assert(trim_end_len(c) == 0);
        lemma_trim_end_blank_concat(a, c);
        assert((a + b).take((a + b).len() - k) =~= a + c);
    }
}

/// What trimming takes off the end is whitespace.
pub proof fn lemma_trim_end_rest_blank(b: Seq<u8>)
    ensures
        trim_end_len(b.skip(trim_end_len(b) as int)) == 0,
    decreases b.len(),
{
    lemma_trim_end_len(b);
    let k = ws_end(b);
    if k == 0 {
        assert(b.skip(b.len() as int) =~= Seq::<u8>::empty());
    } else {
        let c = b.take(b.len() - k);
        lemma_trim_end_rest_blank(c);
        lemma_trim_end_len(c);
        let t = trim_end_len(c);
        let tail = b.skip(b.len() - k);
        assert(ws_end(tail) == k) by {
            assert(tail.len() == k);
            assert(tail[k - 1] == b[b.len() - 1]);
            if k >= 2 {
                assert(tail[k - 2] == b[b.len() - 2]);
            }
            if k >= 3 {
                assert(tail[k - 3] == b[b.len() - 3]);
            }
        }
        assert(tail.take(0) =~= Seq::<u8>::empty());
        assert(trim_end_len(tail.take(tail.len() - k)) == 0);
        assert(trim_end_len(tail) == 0);
        lemma_trim_end_blank_concat(c.skip(t as int), tail);
        assert(b.skip(t as int) =~= c.skip(t as int) + tail);
    }
}

/// What trimming leaves ends without whitespace.
pub proof fn lemma_trim_end_fixed(b: Seq<u8>)
    ensures
        trim_end_len(b.take(trim_end_len(b) as int)) == trim_end_len(b),
    decreases b.len(),
{
    lemma_trim_end_len(b);
    if ws_end(b) > 0 {
        let c = b.take(b.len() - ws_end(b));
        lemma_trim_end_fixed(c);
        lemma_trim_end_len(c);
        assert(c.take(trim_end_len(c) as int) =~= b.take(trim_end_len(b) as int));
    } else {
        assert(b.take(b.len() as int) =~= b);
    }
}

pub proof fn lemma_trim_start_len(b: Seq<u8>)
    ensures
        trim_start_len(b) <= b.len(),
    decreases b.len(),
{
    if ws_start(b) > 0 {
        lemma_trim_start_len(b.skip(ws_start(b) as int));
    }
}

fn ws_end_exec(b: &[u8], n: usize) -> (r: usize)
    requires
        n <= b@.len(),
    ensures
        r == ws_end(b@.take(n as int)),
{
    let ghost t = b@.take(n as int);
    if n >= 1 && (b[n - 1] == 32u8 || (9u8 <= b[n - 1] && b[n - 1] <= 13u8)) {
        1
    } else if n >= 2 && b[n - 2] == 0xC2u8 && (b[n - 1] == 0x85u8 || b[n - 1] == 0xA0u8) {
        2
    } else if n >= 3 && ws3_exec(b[n - 3], b[n - 2], b[n - 1]) {
        3
    } else {
        0
    }
}

fn ws3_exec(x: u8, y: u8, z: u8) -> (r: bool)
    ensures
        r == ws3(x, y, z),
{
    (x == 0xE1u8 && y == 0x9Au8 && z == 0x80u8)
        || (x == 0xE2u8 && y == 0x80u8 && ((0x80u8 <= z && z <= 0x8Au8) || z == 0xA8u8 || z == 0xA9u8 || z == 0xAFu8))
        || (x == 0xE2u8 && y == 0x81u8 && z == 0x9Fu8)
        || (x == 0xE3u8 && y == 0x80u8 && z == 0x80u8)
}

/// The length of `b` without its trailing whitespace.
pub fn trimmed_end(b: &[u8]) -> (r: usize)
    ensures
        r == trim_end_len(b@),
{
    let mut n = b.len();
    assert(b@.take(n as int) =~= b@);
    while ws_end_exec(b, n) > 0
        invariant
            n <= b@.len(),
            trim_end_len(b@.take(n as int)) == trim_end_len(b@),
        decreases n,
    {
        let k = ws_end_exec(b, n);
        assert(b@.take(n as int).take(n - k) =~= b@.take(n - k));
        n = n - k;
    }
    n
}

/// The length of `b`'s leading whitespace.
pub fn trimmed_start(b: &[u8]) -> (r: usize)
    ensures
        r == trim_start_len(b@),
{
    let mut i: usize = 0;
    assert(b@.skip(0) =~= b@);
    loop
        invariant
            i <= b@.len(),
            trim_start_len(b@) == i + trim_start_len(b@.skip(i as int)),
        decreases b@.len() - i,
    {
        let ghost t = b@.skip(i as int);
        let k: usize = if i < b.len() && (b[i] == 32u8 || (9u8 <= b[i] && b[i] <= 13u8)) {
            1
        } else if b.len() - i >= 2 && b[i] == 0xC2u8 && (b[i + 1] == 0x85u8 || b[i + 1] == 0xA0u8) {
            2
        } else if b.len() - i >= 3 && ws3_exec(b[i], b[i + 1], b[i + 2]) {
            3
        } else {
            0
        };
        assert(k == ws_start(t));
        if k == 0 {
            return i;
        }
        assert(t.skip(k as int) =~= b@.skip(i + k));
        i = i + k;
    }
}

/// `b` without its leading and trailing whitespace.
pub open spec fn trim_v(b: Seq<u8>) -> Seq<u8> {
    let rest = b.skip(trim_start_len(b) as int);
    rest.take(trim_end_len(rest) as int)
}

/// Trimming keeps no byte the text didn't have.
pub proof fn lemma_trim_within(b: Seq<u8>, x: u8)
    requires
        !b.contains(x),
    ensures
        !trim_v(b).contains(x),
{
    lemma_trim_start_len(b);
    let rest = b.skip(trim_start_len(b) as int);
    lemma_trim_end_len(rest);
    let t = trim_v(b);
    assert forall|k: int| 0 <= k < t.len() implies t[k] != x by {
        assert(t[k] == rest[k]);
        assert(rest[k] == b[trim_start_len(b) + k]);
    }
}

proof fn lemma_trim_end_valid(b: Seq<u8>)
    requires
        vstd::utf8::valid_utf8(b),
    ensures
        vstd::utf8::valid_utf8(b.take(trim_end_len(b) as int)),
    decreases b.len(),
{
    let k = ws_end(b);
    if k > 0 {
        let i = b.len() - k;
        vstd::utf8::is_char_boundary_iff_not_is_continuation_byte(b, i);
        vstd::utf8::valid_utf8_split(b, i);
        assert(b.subrange(0, i) =~= b.take(i));
        lemma_trim_end_valid(b.take(i));
        lemma_trim_end_len(b.take(i));
        assert(b.take(i).take(trim_end_len(b.take(i)) as int) =~= b.take(trim_end_len(b) as int));
    } else {
        assert(b.take(b.len() as int) =~= b);
    }
}

proof fn lemma_trim_start_valid(b: Seq<u8>)
    requires
        vstd::utf8::valid_utf8(b),
    ensures
        vstd::utf8::valid_utf8(b.skip(trim_start_len(b) as int)),
    decreases b.len(),
{
    let k = ws_start(b);
    if k > 0 {
        assert(vstd::utf8::length_of_first_scalar(b) == k);
        assert(vstd::utf8::pop_first_scalar(b) =~= b.skip(k as int));
        lemma_trim_start_valid(b.skip(k as int));
        lemma_trim_start_len(b.skip(k as int));
        assert(b.skip(k as int).skip(trim_start_len(b.skip(k as int)) as int) =~= b.skip(trim_start_len(b) as int));
    } else {
        assert(b.skip(0) =~= b);
    }
}

/// Trimming valid UTF-8 leaves valid UTF-8: whitespace is removed a whole character at a time.
pub proof fn lemma_trim_valid(b: Seq<u8>)
    requires
        vstd::utf8::valid_utf8(b),
    ensures
        vstd::utf8::valid_utf8(trim_v(b)),
{
    lemma_trim_start_valid(b);
    lemma_trim_end_valid(b.skip(trim_start_len(b) as int));
}

/// `b` without its leading and trailing whitespace.
pub fn trim(b: &[u8]) -> (r: &[u8])
    ensures
        r@ == trim_v(b@),
{
    let s = trimmed_start(b);
    proof {
        lemma_trim_start_len(b@);
    }
    let rest = slice_subrange(b, s, b.len());
    assert(rest@ =~= b@.skip(s as int));
    let e = trimmed_end(rest);
    proof {
        lemma_trim_end_len(rest@);
    }
    slice_subrange(rest, 0, e)
}

/// The decimal digits of `n`.
pub open spec fn decimal(n: nat) -> Seq<u8>
    decreases n,
{
    if n < 10 {
        seq![(48 + n) as u8]
    } else {
        decimal(n / 10).push((48 + n % 10) as u8)
    }
}

/// A byte below 128 on its own is valid UTF-8.
pub proof fn lemma_ascii_byte_valid(b: u8)
    requires
        b < 128,
    ensures
        vstd::utf8::valid_utf8(seq![b]),
{
    assert(b & 0x7f <= 0x7f) by (bit_vector);
    let s = seq![b];
    assert(vstd::utf8::valid_utf8(Seq::<u8>::empty()));
    assert(vstd::utf8::length_of_first_scalar(s) == 1);
    assert(vstd::utf8::pop_first_scalar(s) =~= Seq::<u8>::empty());
    assert(vstd::utf8::valid_first_scalar(s));
}

/// The bytes of a string are valid UTF-8.
pub proof fn lemma_str_valid(s: &str)
    ensures
        vstd::utf8::valid_utf8(sb(s)),
{
    vstd::utf8::encode_utf8_valid_utf8(s@);
}

/// Decimal digits are valid UTF-8.
pub proof fn lemma_decimal_valid(n: nat)
    ensures
        vstd::utf8::valid_utf8(decimal(n)),
    decreases n,
{
    lemma_ascii_byte_valid((48 + n % 10) as u8);
    if n >= 10 {
        lemma_decimal_valid(n / 10);
        assert(decimal(n) =~= decimal(n / 10) + seq![(48 + n % 10) as u8]);
        vstd::utf8::valid_utf8_concat(decimal(n / 10), seq![(48 + n % 10) as u8]);
    }
}

/// The decimal digits of `n`.
pub fn decimal_of(n: usize) -> (v: Vec<u8>)
    ensures
        v@ == decimal(n as nat),
    decreases n,
{
    if n < 10 {
        let mut v = Vec::new();
        v.push((48 + n) as u8);
        v
    } else {
        let mut v = decimal_of(n / 10);
        v.push((48 + n % 10) as u8);
        v
    }
}

/// The decimal digits of `n`.
pub fn decimal_u64(n: u64) -> (v: Vec<u8>)
    ensures
        v@ == decimal(n as nat),
    decreases n,
{
    if n < 10 {
        let mut v = Vec::new();
        v.push((48 + n) as u8);
        v
    } else {
        let mut v = decimal_u64(n / 10);
        v.push((48 + n % 10) as u8);
        v
    }
}

/// `v` with the bytes of `s` appended.
pub fn append_str(v: &mut Vec<u8>, s: &str)
    ensures
        final(v)@ == old(v)@ + sb(s),
{
    let mut b = bytes_of(s);
    v.append(&mut b);
}


/// Whether `b` ends with `suffix`.
pub open spec fn ends_with(b: Seq<u8>, suffix: Seq<u8>) -> bool {
    suffix.len() <= b.len() && b.skip(b.len() - suffix.len()) == suffix
}

/// Whether `b` starts with `prefix`.
pub open spec fn starts_with(b: Seq<u8>, prefix: Seq<u8>) -> bool {
    prefix.len() <= b.len() && b.take(prefix.len() as int) == prefix
}

pub fn bytes_ends_with(b: &[u8], suffix: &[u8]) -> (r: bool)
    ensures
        r == ends_with(b@, suffix@),
{
    if suffix.len() > b.len() {
        return false;
    }
    let off = b.len() - suffix.len();
    let mut i: usize = 0;
    while i < suffix.len()
        invariant
            off + suffix.len() == b.len(),
            i <= suffix@.len(),
            forall|j: int| 0 <= j < i ==> b@[off + j] == suffix@[j],
        decreases suffix.len() - i,
    {
        assert(off + i < b@.len());
        if b[off + i] != suffix[i] {
            assert(b@.skip(off as int)[i as int] != suffix@[i as int]);
            return false;
        }
        i = i + 1;
    }
    assert(b@.skip(off as int) =~= suffix@);
    true
}

pub fn bytes_starts_with(b: &[u8], prefix: &[u8]) -> (r: bool)
    ensures
        r == starts_with(b@, prefix@),
{
    if prefix.len() > b.len() {
        return false;
    }
    let mut i: usize = 0;
    while i < prefix.len()
        invariant
            prefix@.len() <= b@.len(),
            i <= prefix@.len(),
            forall|j: int| 0 <= j < i ==> b@[j] == prefix@[j],
        decreases prefix.len() - i,
    {
        if b[i] != prefix[i] {
            assert(b@.take(prefix@.len() as int)[i as int] != prefix@[i as int]);
            return false;
        }
        i = i + 1;
    }
    assert(b@.take(prefix@.len() as int) =~= prefix@);
    true
}

/// A `String` holding `s`.
pub fn string_of(s: &str) -> (r: String)
    ensures
        r@ == s@,
{
    s.to_owned()
}

/// `s` with every match of `from`, found left to right without overlapping, replaced by `to`.
pub open spec fn replace_v(s: Seq<u8>, from: Seq<u8>, to: Seq<u8>) -> Seq<u8>
    decreases s.len(),
{
    if from.len() == 0 || s.len() < from.len() {
        s
    } else if s.take(from.len() as int) == from {
        to + replace_v(s.skip(from.len() as int), from, to)
    } else {
        seq![s[0]] + replace_v(s.skip(1), from, to)
    }
}

/// `String::from_utf8`: the string the bytes are, or `None` where they aren't valid UTF-8. Trusted:
/// its documentation says it fails exactly on bytes that are not UTF-8 and otherwise takes the
/// bytes as they are; the contract claims just that.
#[verifier::external_body]
pub(crate) fn string_from_utf8(v: Vec<u8>) -> (r: Option<String>)
    ensures
        r is Some <==> vstd::utf8::valid_utf8(v@),
        r matches Some(s) ==> s@ == vstd::utf8::decode_utf8(v@),
{
    String::from_utf8(v).ok()
}

/// `str::replace`: a new string with every match of `from`, found left to right without
/// overlapping, replaced by `to`.
#[verifier::external_body]
pub(crate) fn str_replace(s: &str, from: &str, to: &str) -> (r: String)
    requires
        sb(from).len() > 0,
    ensures
        sbs(r) == replace_v(sb(s), sb(from), sb(to)),
{
    s.replace(from, to)
}

/// `str::strip_prefix`: what follows `prefix`, if `s` starts with it.
#[verifier::external_body]
pub(crate) fn strip_prefix<'a>(s: &'a str, prefix: &str) -> (r: Option<&'a str>)
    ensures
        r is Some <==> starts_with(sb(s), sb(prefix)),
        r matches Some(t) ==> sb(t) == sb(s).skip(sb(prefix).len() as int),
{
    s.strip_prefix(prefix)
}

/// Appends `s` to a string.
pub fn push_str(out: &mut String, s: &str)
    ensures
        final(out)@ == old(out)@ + s@,
{
    out.append(s);
}

/// Splitting a valid UTF-8 sequence just before a valid UTF-8 suffix splits it between characters.
pub proof fn lemma_suffix_boundary(b: Seq<u8>, suffix: Seq<u8>)
    requires
        vstd::utf8::valid_utf8(b),
        vstd::utf8::valid_utf8(suffix),
        suffix.len() > 0,
        ends_with(b, suffix),
    ensures
        vstd::utf8::is_char_boundary(b, b.len() - suffix.len()),
{
    let idx = b.len() - suffix.len();
    if idx > 0 {
        vstd::utf8::is_char_boundary_iff_not_is_continuation_byte(suffix, 0);
        assert(b[idx] == suffix[0]);
        vstd::utf8::is_char_boundary_iff_not_is_continuation_byte(b, idx);
    }
}

} // verus!
