//! The calls into tree-sitter. Each node of the tree it parses is read into plain values, named
//! by the source and the node's path from the root; the code that reads the tree checks what it
//! relies on of them.

use vstd::prelude::*;
use tree_sitter::Node as TsNode;

verus! {

#[verifier::external_type_specification]
#[verifier::external_body]
pub struct ExLanguage(tree_sitter::Language);

#[verifier::external_type_specification]
#[verifier::external_body]
pub struct ExParser(tree_sitter::Parser);

#[verifier::external_type_specification]
#[verifier::external_body]
pub struct ExTree(tree_sitter::Tree);

#[verifier::external_type_specification]
#[verifier::external_body]
pub struct ExTsNode<'tree>(TsNode<'tree>);

/// The Motoko grammar: tree-sitter's language, and the symbol ids of the grammar's head-mode
/// rules, which are aliased onto ordinary node names so that only the id before aliasing
/// reveals head mode. `abi` is the language's ABI version, read when the grammar is made.
pub struct Grammar {
    language: tree_sitter::Language,
    abi: usize,
    head_symbols: Vec<u16>,
}

impl Grammar {
    /// The ABI version of the grammar's language.
    pub closed spec fn abi(&self) -> usize {
        self.abi
    }

    /// The grammar's language.
    pub closed spec fn language(&self) -> tree_sitter::Language {
        self.language
    }

    /// The symbol ids of the head-mode rules.
    pub closed spec fn heads(&self) -> Seq<u16> {
        self.head_symbols@
    }

    /// tree-sitter takes the language: its ABI version is one this tree-sitter reads
    /// (`MIN_COMPATIBLE_LANGUAGE_VERSION..=LANGUAGE_VERSION`).
    pub open spec fn accepted(&self) -> bool {
        13 <= self.abi() <= 15
    }

    /// The grammar of `language`, whose head-mode rules have the symbol ids `head_symbols`.
    pub fn new(language: tree_sitter::Language, head_symbols: Vec<u16>) -> (r: Grammar)
        ensures
            r.language() == language,
            r.heads() == head_symbols@,
    {
        let abi = language_abi_version(&language);
        Grammar { language, abi, head_symbols }
    }

    /// The symbol ids of the head-mode rules.
    pub fn head_symbols(&self) -> (r: &[u16])
        ensures
            r@ == self.heads(),
    {
        self.head_symbols.as_slice()
    }
}

/// A parser that has taken the grammar's language, `language`.
pub struct MotokoParser<'g> {
    parser: tree_sitter::Parser,
    language: &'g tree_sitter::Language,
}

impl<'g> MotokoParser<'g> {
    /// The language the parser has.
    pub closed spec fn language(&self) -> tree_sitter::Language {
        *self.language
    }
}

/// tree-sitter's tree of `source` in `language`.
pub struct Parsed<'s> {
    tree: tree_sitter::Tree,
    source: &'s [u8],
    language: &'s tree_sitter::Language,
}

impl<'s> Parsed<'s> {
    /// The text the tree was parsed from.
    pub closed spec fn source(&self) -> Seq<u8> {
        self.source@
    }

    /// The language the text was parsed in.
    pub closed spec fn language(&self) -> tree_sitter::Language {
        *self.language
    }
}

/// A node of tree-sitter's tree of `source` in `language`, reached from the root by taking, at
/// each level, the child at the next index of `path`.
pub struct At<'t> {
    node: TsNode<'t>,
    source: &'t [u8],
    language: &'t tree_sitter::Language,
    path: Vec<usize>,
}

impl<'t> At<'t> {
    pub closed spec fn source(&self) -> Seq<u8> {
        self.source@
    }

    pub closed spec fn language(&self) -> tree_sitter::Language {
        *self.language
    }

    pub closed spec fn path(&self) -> Seq<usize> {
        self.path@
    }

    /// The node's path from the root.
    pub fn path_vec(&self) -> (r: &Vec<usize>)
        ensures
            r@ == self.path(),
    {
        &self.path
    }
}

// What tree-sitter's parse of `source` in `language` holds at the node reached by `path` (see
// `At`). tree-sitter's parse depends on the language and the bytes alone: the parser here is
// given no timeout, no cancellation flag and no earlier tree. The language is tree-sitter's own
// value, which stands for the grammar it was generated from.

/// The node's type name (`tree_sitter::Node::kind`).
pub uninterp spec fn motoko_kind(language: tree_sitter::Language, source: Seq<u8>, path: Seq<usize>) -> Seq<char>;

/// The node's symbol before aliasing (`tree_sitter::Node::grammar_id`).
pub uninterp spec fn motoko_grammar_id(language: tree_sitter::Language, source: Seq<u8>, path: Seq<usize>) -> u16;

/// The node's first byte (`tree_sitter::Node::start_byte`).
pub uninterp spec fn motoko_start(language: tree_sitter::Language, source: Seq<u8>, path: Seq<usize>) -> usize;

/// The byte after the node (`tree_sitter::Node::end_byte`).
pub uninterp spec fn motoko_end(language: tree_sitter::Language, source: Seq<u8>, path: Seq<usize>) -> usize;

/// `tree_sitter::Node::is_named`.
pub uninterp spec fn motoko_named(language: tree_sitter::Language, source: Seq<u8>, path: Seq<usize>) -> bool;

/// `tree_sitter::Node::is_extra`.
pub uninterp spec fn motoko_extra(language: tree_sitter::Language, source: Seq<u8>, path: Seq<usize>) -> bool;

/// `tree_sitter::Node::is_error`.
pub uninterp spec fn motoko_error(language: tree_sitter::Language, source: Seq<u8>, path: Seq<usize>) -> bool;

/// `tree_sitter::Node::is_missing`.
pub uninterp spec fn motoko_missing(language: tree_sitter::Language, source: Seq<u8>, path: Seq<usize>) -> bool;

/// `tree_sitter::Node::has_error`.
pub uninterp spec fn motoko_has_error(language: tree_sitter::Language, source: Seq<u8>, path: Seq<usize>) -> bool;

/// `tree_sitter::Node::child_count`.
pub uninterp spec fn motoko_child_count(language: tree_sitter::Language, source: Seq<u8>, path: Seq<usize>) -> usize;

/// Whether `tree_sitter::Node::child` gives a node for the index `i`.
pub uninterp spec fn motoko_child_present(language: tree_sitter::Language, source: Seq<u8>, path: Seq<usize>, i: usize) -> bool;

/// `tree_sitter::Node::field_name_for_child` for the index `i`.
pub uninterp spec fn motoko_field(language: tree_sitter::Language, source: Seq<u8>, path: Seq<usize>, i: u32) -> Option<Seq<char>>;

/// `tree_sitter::Language::abi_version`. Nothing is claimed of it: it is the version the grammar
/// was generated for.
#[verifier::external_body]
fn language_abi_version(language: &tree_sitter::Language) -> (r: usize) {
    language.abi_version()
}

/// `tree_sitter::Parser::new`: a parser with no language. Nothing is claimed of it.
#[verifier::external_body]
pub(crate) fn parser_new() -> (r: tree_sitter::Parser) {
    tree_sitter::Parser::new()
}

/// `tree_sitter::Parser::set_language` with the grammar's language: tree-sitter takes it exactly
/// when its ABI version lies in `MIN_COMPATIBLE_LANGUAGE_VERSION..=LANGUAGE_VERSION` (13 to 15),
/// and the parser then has the language.
#[verifier::external_body]
pub(crate) fn parser_set_language<'g>(parser: tree_sitter::Parser, grammar: &'g Grammar) -> (r: Option<MotokoParser<'g>>)
    ensures
        r is Some <==> grammar.accepted(),
        r matches Some(p) ==> p.language() == grammar.language(),
{
    let mut parser = parser;
    match parser.set_language(&grammar.language) {
        Ok(()) => Some(MotokoParser { parser, language: &grammar.language }),
        Err(_) => None,
    }
}

/// `tree_sitter::Parser::parse` on the whole of `source`, with no earlier tree. It gives a tree:
/// tree-sitter gives none only to a parser without a language, or one with a timeout or a
/// cancellation flag, and this one has its language and neither of the others.
#[verifier::external_body]
pub(crate) fn parser_parse<'s>(parser: &mut MotokoParser<'s>, source: &'s [u8]) -> (r: Option<Parsed<'s>>)
    ensures
        r is Some,
        r.unwrap().source() == source@,
        r.unwrap().language() == old(parser).language(),
{
    let language = parser.language;
    parser.parser.parse(source, None).map(|tree| Parsed { tree, source, language })
}

/// `tree_sitter::Tree::root_node`: the node at the empty path.
#[verifier::external_body]
pub(crate) fn root_node<'t, 's>(tree: &'t Parsed<'s>, path: Vec<usize>) -> (r: At<'t>)
    requires
        path@ == Seq::<usize>::empty(),
    ensures
        r.source() == tree.source(),
        r.language() == tree.language(),
        r.path() == path@,
{
    At { node: tree.tree.root_node(), source: tree.source, language: tree.language, path }
}

/// `tree_sitter::Node::kind`: the node's type name.
#[verifier::external_body]
pub(crate) fn node_kind(n: &At) -> (r: &'static str)
    ensures
        r@ == motoko_kind(n.language(), n.source(), n.path()),
{
    n.node.kind()
}

/// `tree_sitter::Node::grammar_id`: the node's symbol before aliasing.
#[verifier::external_body]
pub(crate) fn node_grammar_id(n: &At) -> (r: u16)
    ensures
        r == motoko_grammar_id(n.language(), n.source(), n.path()),
{
    n.node.grammar_id()
}

/// `tree_sitter::Node::start_byte`.
#[verifier::external_body]
pub(crate) fn node_start_byte(n: &At) -> (r: usize)
    ensures
        r == motoko_start(n.language(), n.source(), n.path()),
{
    n.node.start_byte()
}

/// `tree_sitter::Node::end_byte`.
#[verifier::external_body]
pub(crate) fn node_end_byte(n: &At) -> (r: usize)
    ensures
        r == motoko_end(n.language(), n.source(), n.path()),
{
    n.node.end_byte()
}

/// `tree_sitter::Node::is_named`.
#[verifier::external_body]
pub(crate) fn node_is_named(n: &At) -> (r: bool)
    ensures
        r == motoko_named(n.language(), n.source(), n.path()),
{
    n.node.is_named()
}

/// `tree_sitter::Node::is_extra`.
#[verifier::external_body]
pub(crate) fn node_is_extra(n: &At) -> (r: bool)
    ensures
        r == motoko_extra(n.language(), n.source(), n.path()),
{
    n.node.is_extra()
}

/// `tree_sitter::Node::is_error`.
#[verifier::external_body]
pub(crate) fn node_is_error(n: &At) -> (r: bool)
    ensures
        r == motoko_error(n.language(), n.source(), n.path()),
{
    n.node.is_error()
}

/// `tree_sitter::Node::is_missing`.
#[verifier::external_body]
pub(crate) fn node_is_missing(n: &At) -> (r: bool)
    ensures
        r == motoko_missing(n.language(), n.source(), n.path()),
{
    n.node.is_missing()
}

/// `tree_sitter::Node::has_error`.
#[verifier::external_body]
pub(crate) fn node_has_error(n: &At) -> (r: bool)
    ensures
        r == motoko_has_error(n.language(), n.source(), n.path()),
{
    n.node.has_error()
}

/// `tree_sitter::Node::child_count`.
#[verifier::external_body]
pub(crate) fn node_child_count(n: &At) -> (r: usize)
    ensures
        r == motoko_child_count(n.language(), n.source(), n.path()),
{
    n.node.child_count()
}

/// `tree_sitter::Node::child`: the child at `i`, which lies at `path`, or `None`.
#[verifier::external_body]
pub(crate) fn node_child<'t>(n: &At<'t>, i: usize, path: Vec<usize>) -> (r: Option<At<'t>>)
    requires
        path@ == n.path().push(i),
    ensures
        r is Some <==> motoko_child_present(n.language(), n.source(), n.path(), i),
        r matches Some(c) ==> c.source() == n.source() && c.language() == n.language() && c.path() == path@,
{
    n.node.child(i).map(|node| At { node, source: n.source, language: n.language, path })
}

/// `tree_sitter::Node::field_name_for_child`: the field name of the child at `i`, or `None`.
#[verifier::external_body]
pub(crate) fn node_field_name_for_child(n: &At, i: u32) -> (r: Option<&'static str>)
    ensures
        match r {
            Some(f) => motoko_field(n.language(), n.source(), n.path(), i) == Some(f@),
            None => motoko_field(n.language(), n.source(), n.path(), i) is None,
        },
{
    n.node.field_name_for_child(i)
}

} // verus!

verus! {

/// The field name tree-sitter gives a child: `field` as the child holds it, `name` as named.
pub open spec fn field_is(field: Option<&'static str>, name: Option<Seq<char>>) -> bool {
    match field {
        Some(f) => name == Some(f@),
        None => name is None,
    }
}

/// tree-sitter's tree of `source` below the node at `path` can be read within `fuel` levels:
/// every child a node counts is there, and no node has more than `u32::MAX + 1` of them.
pub open spec fn readable(lang: tree_sitter::Language, source: Seq<u8>, path: Seq<usize>, fuel: nat) -> bool
    decreases fuel, motoko_child_count(lang, source, path) + 1,
{
    fuel > 0 && readable_from(lang, source, path, fuel, 0)
}

/// The children of the node at `path` from the `i`th on can be read within `fuel - 1` levels.
pub open spec fn readable_from(lang: tree_sitter::Language, source: Seq<u8>, path: Seq<usize>, fuel: nat, i: int) -> bool
    decreases fuel, motoko_child_count(lang, source, path) - i,
{
    if i < 0 || i >= motoko_child_count(lang, source, path) || fuel == 0 {
        true
    } else {
        &&& i <= u32::MAX
        &&& motoko_child_present(lang, source, path, i as usize)
        &&& readable(lang, source, path.push(i as usize), (fuel - 1) as nat)
        &&& readable_from(lang, source, path, fuel, i + 1)
    }
}

/// `raw` holds, as plain values, the node of tree-sitter's tree of `source` at `path` and all below
/// it, within `fuel` levels.
pub open spec fn raw_at(raw: crate::tree::RawNode, lang: tree_sitter::Language, source: Seq<u8>, path: Seq<usize>, fuel: nat) -> bool
    decreases fuel, raw.children@.len() + 1,
{
    &&& fuel > 0
    &&& raw.kind@ == motoko_kind(lang, source, path)
    &&& raw.grammar_id == motoko_grammar_id(lang, source, path)
    &&& raw.start == motoko_start(lang, source, path)
    &&& raw.end == motoko_end(lang, source, path)
    &&& raw.named == motoko_named(lang, source, path)
    &&& raw.extra == motoko_extra(lang, source, path)
    &&& raw.error == motoko_error(lang, source, path)
    &&& raw.missing == motoko_missing(lang, source, path)
    &&& raw.has_error == motoko_has_error(lang, source, path)
    &&& raw.children@.len() == motoko_child_count(lang, source, path)
    &&& raw_children_at(raw.children@, lang, source, path, fuel, 0)
}

/// The children from the `i`th on hold the children of the node at `path`, within `fuel - 1`
/// levels.
pub open spec fn raw_children_at(cs: Seq<crate::tree::RawChild>, lang: tree_sitter::Language, source: Seq<u8>, path: Seq<usize>, fuel: nat, i: int) -> bool
    decreases fuel, cs.len() - i,
{
    if i < 0 || i >= cs.len() {
        true
    } else {
        &&& fuel > 0
        &&& field_is(cs[i].field, motoko_field(lang, source, path, i as u32))
        &&& raw_at(cs[i].node, lang, source, path.push(i as usize), (fuel - 1) as nat)
        &&& raw_children_at(cs, lang, source, path, fuel, i + 1)
    }
}

proof fn lemma_readable_step(lang: tree_sitter::Language, source: Seq<u8>, path: Seq<usize>, fuel: nat, i: int)
    requires
        fuel > 0,
        0 <= i < motoko_child_count(lang, source, path),
    ensures
        readable_from(lang, source, path, fuel, i) == (i <= u32::MAX && motoko_child_present(lang, source, path, i as usize)
            && readable(lang, source, path.push(i as usize), (fuel - 1) as nat) && readable_from(lang, source, path, fuel, i + 1)),
{
}

proof fn lemma_readable_end(lang: tree_sitter::Language, source: Seq<u8>, path: Seq<usize>, fuel: nat)
    requires
        fuel > 0,
    ensures
        readable_from(lang, source, path, fuel, motoko_child_count(lang, source, path) as int),
        readable(lang, source, path, fuel) == readable_from(lang, source, path, fuel, 0),
{
}

proof fn lemma_raw_children_at(cs: Seq<crate::tree::RawChild>, lang: tree_sitter::Language, source: Seq<u8>, path: Seq<usize>, fuel: nat, i: int)
    requires
        0 <= i <= cs.len(),
        fuel > 0,
        forall|j: int| #![trigger cs[j]] i <= j < cs.len() ==> {
            &&& field_is(cs[j].field, motoko_field(lang, source, path, j as u32))
            &&& raw_at(cs[j].node, lang, source, path.push(j as usize), (fuel - 1) as nat)
        },
    ensures
        raw_children_at(cs, lang, source, path, fuel, i),
    decreases cs.len() - i,
{
    if i < cs.len() {
        lemma_raw_children_at(cs, lang, source, path, fuel, i + 1);
        assert(cs[i] == cs[i]);
    }
}

/// Reads the node `n` and all below it into plain values: exactly tree-sitter's tree there. An
/// error, exactly when it can't be read within `fuel` levels: the tree is deeper, a child is
/// missing, or a node has more children than tree-sitter can index.
pub fn read_node(n: &At, fuel: usize) -> (r: Result<crate::tree::RawNode, String>)
    ensures
        r is Ok <==> readable(n.language(), n.source(), n.path(), fuel as nat),
        r matches Ok(raw) ==> raw_at(raw, n.language(), n.source(), n.path(), fuel as nat),
    decreases fuel,
{
    if fuel == 0 {
        return Err(crate::bytes::string_of("the syntax tree is too deep"));
    }
    let count = node_child_count(n);
    let mut children: Vec<crate::tree::RawChild> = Vec::new();
    let mut i: usize = 0;
    proof {
        lemma_readable_end(n.language(), n.source(), n.path(), fuel as nat);
    }
    while i < count
        invariant
            i <= count,
            fuel > 0,
            count == motoko_child_count(n.language(), n.source(), n.path()),
            children@.len() == i,
            readable(n.language(), n.source(), n.path(), fuel as nat) == readable_from(n.language(), n.source(), n.path(), fuel as nat, i as int),
            forall|j: int| #![trigger children@[j]] 0 <= j < i ==> {
                &&& field_is(children@[j].field, motoko_field(n.language(), n.source(), n.path(), j as u32))
                &&& raw_at(children@[j].node, n.language(), n.source(), n.path().push(j as usize), (fuel - 1) as nat)
            },
        decreases count - i,
    {
        if i > u32::MAX as usize {
            proof {
                lemma_readable_step(n.language(), n.source(), n.path(), fuel as nat, i as int);
            }
            return Err(crate::bytes::string_of("a node has too many children"));
        }
        let mut path: Vec<usize> = n.path_vec().clone();
        proof {
            assert(path@ == n.path());
        }
        path.push(i);
        let child = match node_child(n, i, path) {
            Some(c) => c,
            None => {
                proof {
                    lemma_readable_step(n.language(), n.source(), n.path(), fuel as nat, i as int);
                }
                return Err(crate::bytes::string_of("a child of a node is missing"));
            },
        };
        let field = node_field_name_for_child(n, i as u32);
        let node = match read_node(&child, fuel - 1) {
            Ok(node) => node,
            Err(e) => {
                proof {
                    lemma_readable_step(n.language(), n.source(), n.path(), fuel as nat, i as int);
                }
                return Err(e);
            },
        };
        let c = crate::tree::RawChild { field, node };
        let ghost before = children@;
        children.push(c);
        proof {
            assert forall|j: int| #![trigger children@[j]] 0 <= j < i + 1 implies {
                &&& field_is(children@[j].field, motoko_field(n.language(), n.source(), n.path(), j as u32))
                &&& raw_at(children@[j].node, n.language(), n.source(), n.path().push(j as usize), (fuel - 1) as nat)
            } by {
                if j < i {
                    assert(children@[j] == before[j]);
                }
            }
            lemma_readable_step(n.language(), n.source(), n.path(), fuel as nat, i as int);
            assert(child.path() == n.path().push(i));
        }
        i = i + 1;
    }
    let raw = crate::tree::RawNode {
        kind: node_kind(n),
        grammar_id: node_grammar_id(n),
        start: node_start_byte(n),
        end: node_end_byte(n),
        named: node_is_named(n),
        extra: node_is_extra(n),
        error: node_is_error(n),
        missing: node_is_missing(n),
        has_error: node_has_error(n),
        children,
    };
    proof {
        lemma_readable_end(n.language(), n.source(), n.path(), fuel as nat);
        lemma_raw_children_at(raw.children@, n.language(), n.source(), n.path(), fuel as nat, 0);
    }
    Ok(raw)
}

} // verus!
