//! mo-fmt: a formatter for Motoko.

pub mod bytes;
pub mod cli;
pub mod config;
pub mod corpus;
pub mod doc;
pub mod grammar;
pub mod moc2;
pub mod print;
pub mod tree;
pub mod ts;
pub mod verify;

use vstd::prelude::*;
use vstd::string::StringSliceAdditionalSpecFns;
use bytes::{sb, sbs};
use tree::{leaves, wf_node, Node};
pub use tree::SyntaxError;
pub use ts::Grammar;
pub use config::{Config, IndentWidth, Syntax};

verus! {

/// Why formatting failed.
#[derive(Debug)]
pub enum Error {
    /// The input doesn't parse.
    Syntax(SyntaxError),
    /// A bug in mo-fmt; the input is left as it was.
    Internal(String),
}

/// How an error reads.
pub open spec fn error_message(e: Error) -> Seq<u8> {
    match e {
        Error::Syntax(s) => tree::syntax_message(s),
        Error::Internal(m) => bytes::sb("internal error: ") + vstd::utf8::encode_utf8(m@) + bytes::sb(
            ". The file was left unchanged; please report this with the file at https://github.com/caffeinelabs/tree-sitter-motoko/issues",
        ),
    }
}

/// An error reads as valid UTF-8.
pub proof fn lemma_error_message_valid(e: Error)
    ensures
        vstd::utf8::valid_utf8(error_message(e)),
{
    match e {
        Error::Syntax(s) => tree::lemma_syntax_message_valid(s),
        Error::Internal(m) => {
            let head = sb("internal error: ");
            let tail = sb(
                ". The file was left unchanged; please report this with the file at https://github.com/caffeinelabs/tree-sitter-motoko/issues",
            );
            bytes::lemma_str_valid("internal error: ");
            bytes::lemma_str_valid(
                ". The file was left unchanged; please report this with the file at https://github.com/caffeinelabs/tree-sitter-motoko/issues",
            );
            vstd::utf8::encode_utf8_valid_utf8(m@);
            vstd::utf8::valid_utf8_concat(head, vstd::utf8::encode_utf8(m@));
            vstd::utf8::valid_utf8_concat(head + vstd::utf8::encode_utf8(m@), tail);
        },
    }
}

impl Error {
    /// The error as it reads, in UTF-8.
    pub fn message_bytes(&self) -> (r: Vec<u8>)
        ensures
            r@ == error_message(*self),
    {
        match self {
            Error::Syntax(e) => e.message_bytes(),
            Error::Internal(m) => {
                let mut out: Vec<u8> = Vec::new();
                bytes::append_str(&mut out, "internal error: ");
                bytes::append_str(&mut out, m.as_str());
                bytes::append_str(
                    &mut out,
                    ". The file was left unchanged; please report this with the file at https://github.com/caffeinelabs/tree-sitter-motoko/issues",
                );
                assert(out@ =~= error_message(*self));
                out
            },
        }
    }

    /// The error as it reads: a syntax error with its location and frame, or an internal error
    /// with a request to report it.
    pub fn to_message(&self) -> (r: String)
        ensures
            r@ == vstd::utf8::decode_utf8(error_message(*self)),
    {
        proof {
            lemma_error_message_valid(*self);
        }
        let b = self.message_bytes();
        bytes::string_from_bytes(b.as_slice())
    }
}

/// The name of the thread a program runs `format` on, for a panic hook that leaves reporting a
/// panic to the program.
pub const THREAD_NAME: &'static str = "mo-fmt";

/// The byte-order mark.
pub const BOM: &'static str = "\u{feff}";

/// `b` with every line ending a line feed: `\r\n` first, then a lone `\r`.
pub open spec fn lf_v(b: Seq<u8>) -> Seq<u8> {
    bytes::replace_v(bytes::replace_v(b, seq![13u8, 10u8], seq![10u8]), seq![13u8], seq![10u8])
}

proof fn lemma_replace_without(s: Seq<u8>, from: Seq<u8>, to: Seq<u8>)
    requires
        from.len() > 0,
        !s.contains(from[0]),
    ensures
        bytes::replace_v(s, from, to) == s,
    decreases s.len(),
{
    if s.len() >= from.len() {
        assert(s.take(from.len() as int)[0] == s[0]);
        lemma_replace_without(s.skip(1), from, to);
        assert(seq![s[0]] + s.skip(1) =~= s);
    }
}

proof fn lemma_replace_cr(s: Seq<u8>)
    ensures
        !bytes::replace_v(s, seq![13u8], seq![10u8]).contains(13u8),
    decreases s.len(),
{
    if s.len() >= 1 {
        lemma_replace_cr(s.skip(1));
        let rest = bytes::replace_v(s.skip(1), seq![13u8], seq![10u8]);
        if s.take(1) == seq![13u8] {
            assert(!(seq![10u8] + rest).contains(13u8)) by {
                assert forall|k: int| 0 <= k < (seq![10u8] + rest).len() implies (seq![10u8] + rest)[k] != 13u8 by {
                    if k > 0 {
                        assert((seq![10u8] + rest)[k] == rest[k - 1]);
                    }
                }
            }
        } else {
            assert(s.take(1)[0] == s[0]);
            assert(s[0] != 13u8) by {
                if s[0] == 13u8 {
                    assert(s.take(1) =~= seq![13u8]);
                }
            }
            assert forall|k: int| 0 <= k < (seq![s[0]] + rest).len() implies (seq![s[0]] + rest)[k] != 13u8 by {
                if k > 0 {
                    assert((seq![s[0]] + rest)[k] == rest[k - 1]);
                }
            }
        }
    }
}

/// Line endings become line feeds: what the line endings are turned into holds no carriage
/// return, and a source without one is left as it is.
pub proof fn lemma_line_endings(b: Seq<u8>)
    ensures
        !lf_v(b).contains(13u8),
        !b.contains(13u8) ==> lf_v(b) == b,
{
    lemma_replace_cr(bytes::replace_v(b, seq![13u8, 10u8], seq![10u8]));
    if !b.contains(13u8) {
        lemma_replace_without(b, seq![13u8, 10u8], seq![10u8]);
        lemma_replace_without(b, seq![13u8], seq![10u8]);
    }
}

fn ascii_bytes_lf()
    ensures
        sb("\r\n") == seq![13u8, 10u8],
        sb("\r") == seq![13u8],
        sb("\n") == seq![10u8],
{
    proof {
        reveal_strlit("\r\n");
        reveal_strlit("\r");
        reveal_strlit("\n");
        assert(vstd::string::is_ascii("\r\n"));
        assert(vstd::string::is_ascii("\r"));
        assert(vstd::string::is_ascii("\n"));
        vstd::string::is_ascii_spec_bytes("\r\n");
        vstd::string::is_ascii_spec_bytes("\r");
        vstd::string::is_ascii_spec_bytes("\n");
        assert(sb("\r\n") =~= seq![13u8, 10u8]);
        assert(sb("\r") =~= seq![13u8]);
        assert(sb("\n") =~= seq![10u8]);
    }
}

/// The source with every line ending a line feed.
pub fn normalize_line_endings(body: &str) -> (r: String)
    ensures
        sbs(r) == lf_v(sb(body)),
{
    ascii_bytes_lf();
    if bytes::has_byte(body.as_bytes(), 13u8) {
        let once = bytes::str_replace(body, "\r\n", "\n");
        bytes::str_replace(once.as_str(), "\r", "\n")
    } else {
        proof {
            lemma_line_endings(sb(body));
        }
        bytes::string_of(body)
    }
}

/// The source without its byte-order mark.
pub open spec fn body_v(source: Seq<u8>) -> Seq<u8> {
    if bytes::starts_with(source, sb(BOM)) {
        source.skip(sb(BOM).len() as int)
    } else {
        source
    }
}

/// Whether the source starts with a byte-order mark, and the source without it.
pub fn split_bom(source: &str) -> (r: (bool, &str))
    ensures
        r.0 == bytes::starts_with(sb(source), sb(BOM)),
        sb(r.1) == body_v(sb(source)),
{
    match bytes::strip_prefix(source, BOM) {
        Some(rest) => (true, rest),
        None => (false, source),
    }
}

/// The byte-order mark the output starts with: the source's, if it had one.
pub open spec fn bom_v(source: Seq<u8>) -> Seq<char> {
    if bytes::starts_with(source, sb(BOM)) {
        BOM@
    } else {
        Seq::empty()
    }
}

/// What a formatting reports: the output `s` is the byte-order mark of `source`, if any, then
/// printed code `p`: the layout of the tree of the code that was printed, rendered at the indent
/// width `w`, which parses to the same tree up to layout, and whose UTF-8 holds no carriage return.
pub open spec fn formats_to(source: Seq<u8>, syntax: Syntax, w: nat, g: Grammar, p: Seq<char>, s: Seq<char>) -> bool {
    &&& s == bom_v(source) + p
    &&& exists|t: Node, o: Node| #[trigger] same_code(source, syntax, w, g, t, o, p)
    &&& lf_only(vstd::utf8::encode_utf8(p))
}

/// A formatting keeps the source's byte-order mark: where the source starts with the UTF-8 of
/// U+FEFF, the output is that character and then the printed code; where it doesn't, the output is
/// the printed code alone.
pub proof fn law_a_byte_order_mark_is_kept(source: Seq<u8>, syntax: Syntax, w: nat, g: Grammar, p: Seq<char>, s: Seq<char>)
    requires
        formats_to(source, syntax, w, g, p, s),
    ensures
        bytes::starts_with(source, sb("\u{feff}")) ==> s == seq!['\u{feff}'] + p,
        !bytes::starts_with(source, sb("\u{feff}")) ==> s == p,
{
    reveal_strlit("\u{feff}");
    assert(BOM@ == seq!['\u{feff}']);
    if !bytes::starts_with(source, sb("\u{feff}")) {
        assert(Seq::<char>::empty() + p =~= p);
    }
}

/// The bytes the printer renders for a tree: the layout of its source, at indent width `w`.
pub open spec fn rendered<'a>(t: Node<'a>, w: nat) -> Seq<u8> {
    doc::printed(print::layout::print_v(t, leaves(t)), w)
}

/// Bytes with no carriage return.
pub open spec fn lf_only(b: Seq<u8>) -> bool {
    !b.contains(13u8)
}

/// The code that is printed for `source`: in `preserve`, the source with LF line endings; in
/// `moc2`, text that comes from that by each of the rewrite's rules in turn, run until it
/// settles.
pub open spec fn code_of(source: Seq<u8>, syntax: Syntax, g: Grammar, text: Seq<u8>) -> bool {
    &&& syntax == Syntax::Preserve ==> text == lf_v(body_v(source))
    &&& syntax == Syntax::Moc2 ==> moc2::rewritten(g, lf_v(body_v(source)), text)
}

/// The printed code `p` is the rendering of the tree `t` of the code that was printed, and its
/// own tree `o` is the same as `t` up to layout.
pub open spec fn same_code<'a>(source: Seq<u8>, syntax: Syntax, w: nat, g: Grammar, t: Node<'a>, o: Node<'a>, p: Seq<char>) -> bool {
    &&& code_of(source, syntax, g, leaves(t))
    &&& tree::parsed(leaves(t), g, t)
    &&& vstd::utf8::encode_utf8(p) == rendered(t, w)
    &&& tree::parsed(vstd::utf8::encode_utf8(p), g, o)
    &&& verify::diff(t, o) is None
}

/// Why formatting `source` fails with the internal error `m`: the rewrite fails, or the code to
/// print can't be parsed for a reason of tree-sitter's, or its tree is too large to index or
/// nested too deeply to indent at width `w`, or the guard fails on its printing.
pub open spec fn format_fails(source: Seq<u8>, syntax: Syntax, w: nat, grammar: Grammar, m: Seq<char>) -> bool {
    ||| syntax == Syntax::Moc2 && moc2::rewrite_fails(grammar, lf_v(body_v(source)), m)
    ||| exists|text: Seq<u8>| #[trigger] code_of(source, syntax, grammar, text) && {
        ||| tree::unparsed_v(text, grammar)
        ||| exists|t: Node| #[trigger] tree::parsed(text, grammar, t) && {
            ||| text.len() == usize::MAX
            ||| !doc::indent_fits(print::layout::print_v(t, text), 0, w)
            ||| verify::verify_fails(t, rendered(t, w), grammar)
        }
    }
}

/// The printed code for the tree of `text`: its layout rendered at indent width `width`; an
/// internal error where the text is too large to index, or the layout is nested too deeply for
/// its indentation to be counted.
pub fn render(root: &Node<'_>, text: &str, width: usize) -> (r: Result<String, Error>)
    requires
        wf_node(*root, sb(text)),
        leaves(*root) == sb(text),
    ensures
        sb(text).len() == usize::MAX ==> (r matches Err(Error::Internal(m)) && m@ == "the file is too large"@),
        sb(text).len() < usize::MAX ==> match r {
            Ok(s) => {
                &&& doc::indent_fits(print::layout::print_v(*root, sb(text)), 0, width as nat)
                &&& vstd::utf8::valid_utf8(rendered(*root, width as nat)) ==> s@ == vstd::utf8::decode_utf8(rendered(*root, width as nat))
                &&& tree::utf8_tree(*root) ==> vstd::utf8::valid_utf8(rendered(*root, width as nat))
                &&& !sb(text).contains(13u8) ==> lf_only(rendered(*root, width as nat))
            },
            Err(e) => !doc::indent_fits(print::layout::print_v(*root, sb(text)), 0, width as nat)
                && (e matches Error::Internal(m) && m@ == "the code is nested too deeply to indent"@),
        },
{
    if text.as_bytes().len() == usize::MAX {
        return Err(Error::Internal(bytes::string_of("the file is too large")));
    }
    let doc = print::print(root, text);
    if !doc::indentation_fits(&doc, 0, width) {
        return Err(Error::Internal(bytes::string_of("the code is nested too deeply to indent")));
    }
    proof {
        if tree::utf8_tree(*root) {
            print::utf8::lemma_print_utf8(*root, sb(text));
        }
    }
    Ok(doc::print(doc, width))
}

/// Formats Motoko source. The result parses to the same tree as the input, or this returns an
/// error: `Error::Syntax` exactly where the input doesn't parse, `Error::Internal` where the
/// printed code differs from it (see [`format_fails`]).
pub fn format(source: &str, config: &Config, grammar: &Grammar) -> (r: Result<String, Error>)
    ensures
        r matches Ok(s) ==> exists|p: Seq<char>| #[trigger] formats_to(sb(source), config.syntax, config.indent_width.width(), *grammar, p, s@),
        r matches Err(Error::Syntax(e)) ==> tree::syntax_v(lf_v(body_v(sb(source))), *grammar, e)
            || (config.syntax == Syntax::Moc2 && exists|text: Seq<u8>| #[trigger] code_of(sb(source), config.syntax, *grammar, text)
                && tree::syntax_v(text, *grammar, e)),
        r matches Err(Error::Internal(m)) ==> format_fails(sb(source), config.syntax, config.indent_width.width(), *grammar, m@),
{
    let (bom, body) = split_bom(source);
    let normalized = normalize_line_endings(body);
    proof {
        lemma_line_endings(sb(body));
    }
    let text = match config.syntax {
        Syntax::Preserve => normalized,
        Syntax::Moc2 => match moc2::rewrite(normalized.as_str(), grammar) {
            Ok(t) => t,
            Err(e) => return Err(e),
        },
    };
    assert(code_of(sb(source), config.syntax, *grammar, sbs(text)));
    assert(print::parts::clean(sbs(text)));
    let width = config.indent_width.get();
    let root = match tree::parse(text.as_str(), grammar) {
        Ok(n) => n,
        Err(e) => {
            proof {
                assert(e matches Error::Internal(m) ==> format_fails(sb(source), config.syntax, width as nat, *grammar, m@));
            }
            return Err(e);
        },
    };
    proof {
        tree::lemma_wf_leaves(root, sbs(text));
    }
    let printed = match render(&root, text.as_str(), width) {
        Ok(p) => p,
        Err(e) => {
            proof {
                assert(tree::parsed(sbs(text), *grammar, root));
            }
            return Err(e);
        },
    };
    proof {
        vstd::utf8::decode_utf8_encode_utf8(rendered(root, width as nat));
    }
    match verify::verify(&root, text.as_str(), printed.as_str(), grammar) {
        Ok(()) => {},
        Err(m) => {
            proof {
                assert(tree::parsed(sbs(text), *grammar, root));
                assert(sbs(printed) == rendered(root, width as nat));
                assert(verify::verify_fails(root, rendered(root, width as nat), *grammar));
            }
            return Err(Error::Internal(m));
        },
    }
    let mut out = if bom { bytes::string_of(BOM) } else { String::new() };
    bytes::push_str(&mut out, printed.as_str());
    proof {
        let o = choose|o: Node| #[trigger] tree::parsed(sbs(printed), *grammar, o) && verify::diff(root, o) is None;
        assert(out@ =~= bom_v(sb(source)) + printed@);
        assert(same_code(sb(source), config.syntax, width as nat, *grammar, root, o, printed@));
        assert(formats_to(sb(source), config.syntax, width as nat, *grammar, printed@, out@));
    }
    let ghost ov = out@;
    let r: Result<String, Error> = Ok(out);
    assert(r matches Ok(s) && s@ == ov);
    assert(r matches Ok(s) ==> exists|p: Seq<char>| #[trigger] formats_to(sb(source), config.syntax, width as nat, *grammar, p, s@));
    r
}

} // verus!
