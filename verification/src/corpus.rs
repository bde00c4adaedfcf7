//! Turning the compiler's and the core library's Motoko files into tree-sitter corpus tests.

use vstd::prelude::*;
use crate::bytes::{append_str, bytes_starts_with, sb, starts_with, str_eq};

verus! {

/// Whether a file is left out of the corpus: one of `excludes`, or a `syntax*` test.
pub open spec fn is_excluded_v(file_name: &str, excludes: Seq<&str>) -> bool {
    (exists|i: int| 0 <= i < excludes.len() && #[trigger] excludes[i]@ == file_name@) || starts_with(sb(file_name), sb("syntax"))
}

pub fn is_excluded(file_name: &str, excludes: &[&str]) -> (r: bool)
    ensures
        r == is_excluded_v(file_name, excludes@),
{
    let mut i: usize = 0;
    while i < excludes.len()
        invariant
            i <= excludes@.len(),
            forall|j: int| 0 <= j < i ==> #[trigger] excludes@[j]@ != file_name@,
        decreases excludes@.len() - i,
    {
        if str_eq(excludes[i], file_name) {
            return true;
        }
        i = i + 1;
    }
    bytes_starts_with(file_name.as_bytes(), "syntax".as_bytes())
}

/// A corpus test: a header naming it, the file, and an empty expected tree.
pub open spec fn test_v(name: Seq<u8>, content: Seq<u8>) -> Seq<u8> {
    sb("=========\n") + name + sb("\n=========\n\n") + content + sb("\n---\n")
}

pub fn mk_test(name: &str, content: &str) -> (r: String)
    ensures
        vstd::utf8::valid_utf8(test_v(sb(name), sb(content))) ==> r@ == vstd::utf8::decode_utf8(test_v(sb(name), sb(content))),
{
    let mut out: Vec<u8> = Vec::new();
    append_str(&mut out, "=========\n");
    append_str(&mut out, name);
    append_str(&mut out, "\n=========\n\n");
    append_str(&mut out, content);
    append_str(&mut out, "\n---\n");
    assert(out@ =~= test_v(sb(name), sb(content)));
    crate::bytes::string_from_bytes(out.as_slice())
}

} // verus!
