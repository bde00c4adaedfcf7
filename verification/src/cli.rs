//! What the command line reports: a failed file, the closing summary, and the exit status.

use vstd::prelude::*;
use crate::bytes::{append_str, decimal, decimal_of, sb};
use crate::Error;

verus! {

/// How a file that failed to format is reported: its path, then a syntax error's location right
/// after a colon, or an internal error after a colon and a space.
pub open spec fn report_v(file: Seq<u8>, e: Error) -> Seq<u8> {
    match e {
        Error::Syntax(_) => file + sb(":") + crate::error_message(e),
        Error::Internal(_) => file + sb(": ") + crate::error_message(e),
    }
}

pub fn report(file: &str, e: &Error) -> (r: String)
    ensures
        r@ == vstd::utf8::decode_utf8(report_v(sb(file), *e)),
{
    proof {
        crate::bytes::lemma_str_valid(file);
        crate::bytes::lemma_str_valid(":");
        crate::bytes::lemma_str_valid(": ");
        crate::lemma_error_message_valid(*e);
        vstd::utf8::valid_utf8_concat(sb(file), sb(":"));
        vstd::utf8::valid_utf8_concat(sb(file), sb(": "));
        vstd::utf8::valid_utf8_concat(sb(file) + sb(":"), crate::error_message(*e));
        vstd::utf8::valid_utf8_concat(sb(file) + sb(": "), crate::error_message(*e));
    }
    let mut out = crate::bytes::bytes_of(file);
    match e {
        Error::Syntax(_) => append_str(&mut out, ":"),
        Error::Internal(_) => append_str(&mut out, ": "),
    }
    let mut m = e.message_bytes();
    out.append(&mut m);
    assert(out@ =~= report_v(sb(file), *e));
    crate::bytes::string_from_bytes(out.as_slice())
}

/// The closing line: how many of the files were formatted, or, with `--check`, whether they all
/// are or how many need formatting.
pub open spec fn summary_v(changed: nat, total: nat, check: bool) -> Seq<u8> {
    let noun = if total == 1 { sb("file") } else { sb("files") };
    if !check {
        sb("Formatted ") + decimal(changed) + sb(" of ") + decimal(total) + sb(" ") + noun + sb(".")
    } else if changed == 0 && total == 1 {
        sb("The file is formatted.")
    } else if changed == 0 {
        sb("All ") + decimal(total) + sb(" files are formatted.")
    } else {
        decimal(changed) + sb(" of ") + decimal(total) + sb(" ") + noun + sb(" need formatting.")
    }
}

pub fn summary(changed: usize, total: usize, check: bool) -> (r: String)
    ensures
        vstd::utf8::valid_utf8(summary_v(changed as nat, total as nat, check)) ==> r@ == vstd::utf8::decode_utf8(summary_v(changed as nat, total as nat, check)),
{
    let noun = if total == 1 { "file" } else { "files" };
    let mut out: Vec<u8> = Vec::new();
    if !check {
        append_str(&mut out, "Formatted ");
        let mut c = decimal_of(changed);
        out.append(&mut c);
        append_str(&mut out, " of ");
        let mut t = decimal_of(total);
        out.append(&mut t);
        append_str(&mut out, " ");
        append_str(&mut out, noun);
        append_str(&mut out, ".");
    } else if changed == 0 && total == 1 {
        append_str(&mut out, "The file is formatted.");
    } else if changed == 0 {
        append_str(&mut out, "All ");
        let mut t = decimal_of(total);
        out.append(&mut t);
        append_str(&mut out, " files are formatted.");
    } else {
        let mut c = decimal_of(changed);
        out.append(&mut c);
        append_str(&mut out, " of ");
        let mut t = decimal_of(total);
        out.append(&mut t);
        append_str(&mut out, " ");
        append_str(&mut out, noun);
        append_str(&mut out, " need formatting.");
    }
    assert(out@ =~= summary_v(changed as nat, total as nat, check));
    crate::bytes::string_from_bytes(out.as_slice())
}

/// The exit status: 2 if a file failed or the command was misused, 1 if `--check` found files
/// that need formatting, 0 otherwise.
pub fn exit_status(failed: bool, check: bool, changed: usize) -> (r: u8)
    ensures
        r == if failed { 2u8 } else if check && changed > 0 { 1u8 } else { 0u8 },
{
    if failed {
        2
    } else if check && changed > 0 {
        1
    } else {
        0
    }
}

} // verus!
