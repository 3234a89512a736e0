//! The tree-sitter parser and query engine, and the std conversions that the
//! buffer needs, behind trusted items. Each item's doc comment says what its
//! contract claims of the code it calls.

use crate::buffer::Lang;
use vstd::prelude::*;
use vstd::utf8::*;
use vstd::string::StringSliceAdditionalSpecFns;

verus! {

/// `tree_sitter::Tree`, carried as an opaque value.
#[verifier::external_type_specification]
#[verifier::external_body]
pub struct ExTree(tree_sitter::Tree);

/// `tree_sitter::Language`, carried as an opaque value.
#[verifier::external_type_specification]
#[verifier::external_body]
pub struct ExLanguage(tree_sitter::Language);

/// `tree_sitter::Parser`, carried as an opaque value.
#[verifier::external_type_specification]
#[verifier::external_body]
pub struct ExParser(tree_sitter::Parser);

/// `tree_sitter::Query`, carried as an opaque value.
#[verifier::external_type_specification]
#[verifier::external_body]
pub struct ExQuery(tree_sitter::Query);

/// `tree_sitter::QueryCursor`, carried as an opaque value.
#[verifier::external_type_specification]
#[verifier::external_body]
pub struct ExQueryCursor(tree_sitter::QueryCursor);

/// `tree_sitter::LanguageError`, the error of `Parser::set_language`.
#[verifier::external_type_specification]
#[verifier::external_body]
pub struct ExLanguageError(tree_sitter::LanguageError);

/// `tree_sitter::QueryError`, the error of `Query::new`.
#[verifier::external_type_specification]
#[verifier::external_body]
pub struct ExQueryError(tree_sitter::QueryError);

/// `std::str::Utf8Error`, the error of `std::str::from_utf8`.
#[verifier::external_type_specification]
#[verifier::external_body]
pub struct ExUtf8Error(std::str::Utf8Error);

/// The grammar of a manifest language, as tree-sitter loads it.
pub struct Grammar {
    language: tree_sitter::Language,
    lang: Lang,
}

impl View for Grammar {
    type V = Lang;

    /// The language whose grammar this is.
    closed spec fn view(&self) -> Lang {
        self.lang
    }
}

impl Lang {
    /// The tree-sitter grammar of the language.
    pub(crate) fn language(&self) -> (g: Grammar)
        ensures
            g@ == *self,
    {
        match self {
            Lang::Json => json_language(),
            Lang::Toml => toml_language(),
        }
    }
}

/// A parser whose language has been set to the grammar of a manifest
/// language.
pub struct LangParser {
    parser: tree_sitter::Parser,
    lang: Lang,
}

impl View for LangParser {
    type V = Lang;

    /// The language the parser reads.
    closed spec fn view(&self) -> Lang {
        self.lang
    }
}

/// A source text together with the syntax tree that tree-sitter parsed from
/// it in the grammar of a language.
pub struct ParsedTree {
    tree: tree_sitter::Tree,
    lang: Lang,
    text: String,
}

impl View for ParsedTree {
    type V = (Lang, Seq<char>);

    /// The language and the text that the tree was parsed from.
    closed spec fn view(&self) -> (Lang, Seq<char>) {
        (self.lang, self.text@)
    }
}

impl ParsedTree {
    /// The text the tree was parsed from.
    pub(crate) fn text(&self) -> (s: &str)
        ensures
            s@ == self@.1,
    {
        self.text.as_str()
    }

    /// The language the tree was parsed in.
    pub(crate) fn lang(&self) -> (l: Lang)
        ensures
            l == self@.0,
    {
        self.lang
    }

    /// The syntax tree itself.
    pub(crate) fn syntax(&self) -> &tree_sitter::Tree {
        &self.tree
    }
}

/// `Parser::set_language` accepts the grammar of `lang`: its ABI version is
/// one that the linked tree-sitter supports, and it can be parsed with.
pub uninterp spec fn grammar_loads(lang: Lang) -> bool;

/// `Parser::parse`, with a parser set to the grammar of `lang`, gives a tree
/// for `text`.
pub uninterp spec fn parse_gives_tree(lang: Lang, text: Seq<char>) -> bool;

/// `Node::has_error` on the root of the tree that `Parser::parse` builds
/// from `text` in the grammar of `lang`: the tree holds an `ERROR` or
/// `MISSING` node somewhere.
pub uninterp spec fn has_syntax_error(lang: Lang, text: Seq<char>) -> bool;

/// The JSON grammar: `tree_sitter_json::LANGUAGE` converted into a
/// `Language`, kept with the tag `Lang::Json`. The contract claims that the
/// grammar it holds is the JSON one.
#[verifier::external_body]
fn json_language() -> (g: Grammar)
    ensures
        g@ == Lang::Json,
{
    Grammar { language: tree_sitter_json::LANGUAGE.into(), lang: Lang::Json }
}

/// The TOML grammar: `tree_sitter_toml_ng::LANGUAGE` converted into a
/// `Language`, kept with the tag `Lang::Toml`. The contract claims that the
/// grammar it holds is the TOML one.
#[verifier::external_body]
fn toml_language() -> (g: Grammar)
    ensures
        g@ == Lang::Toml,
{
    Grammar { language: tree_sitter_toml_ng::LANGUAGE.into(), lang: Lang::Toml }
}

/// `Parser::new`: a parser with no language. Nothing is claimed of it.
#[verifier::external_body]
pub(crate) fn new_parser() -> tree_sitter::Parser {
    tree_sitter::Parser::new()
}

/// `Parser::set_language` with a grammar. Whether it succeeds depends on the
/// grammar alone (its ABI version and whether it can be parsed with), and is
/// named (`grammar_loads`); on success the parser is kept with the language
/// it now reads.
#[verifier::external_body]
pub(crate) fn set_language(parser: tree_sitter::Parser, grammar: &Grammar) -> (r: Result<
    LangParser,
    tree_sitter::LanguageError,
>)
    ensures
        r is Ok <==> grammar_loads(grammar@),
        r matches Ok(p) ==> p@ == grammar@,
{
    let mut parser = parser;
    match parser.set_language(&grammar.language) {
        Ok(()) => Ok(LangParser { parser, lang: grammar.lang }),
        Err(e) => Err(e),
    }
}

/// `Parser::parse` on the whole of `text`, with no earlier tree. Its
/// documentation names one case in which no tree comes back, a parser
/// without a language, which a `LangParser` never is; its source shows
/// others (an external scanner that fails, a progress callback that halts,
/// and no callback is set here). Whether a tree comes back depends on the
/// grammar and the text alone, and is named (`parse_gives_tree`); a tree is
/// kept with the parser's language and the text. Text too long for
/// tree-sitter's 32-bit byte offsets is left out.
#[verifier::external_body]
pub(crate) fn parse(parser: LangParser, text: String) -> (t: Option<ParsedTree>)
    requires
        encode_utf8(text@).len() <= u32::MAX,
    ensures
        t is Some <==> parse_gives_tree(parser@, text@),
        t matches Some(t) ==> t@ == (parser@, text@),
{
    let mut p = parser;
    match p.parser.parse(&text, None) {
        Some(tree) => Some(ParsedTree { tree, lang: p.lang, text }),
        None => None,
    }
}

/// `Node::has_error` on the root node of a parsed tree: whether the tree
/// holds a syntax error anywhere. The answer depends on the language and the
/// text alone, and is named (`has_syntax_error`).
#[verifier::external_body]
pub(crate) fn root_has_error(tree: &ParsedTree) -> (b: bool)
    ensures
        b == has_syntax_error(tree@.0, tree@.1),
{
    tree.tree.root_node().has_error()
}

/// `QueryCursor::new`: a cursor for running queries. Nothing is claimed of
/// it.
#[verifier::external_body]
pub(crate) fn new_cursor() -> tree_sitter::QueryCursor {
    tree_sitter::QueryCursor::new()
}

/// `std::str::from_utf8`: the bytes as a `str` exactly when they are valid
/// UTF-8, as std documents.
#[verifier::external_body]
pub(crate) fn str_from_utf8(bytes: &[u8]) -> (res: Result<&str, std::str::Utf8Error>)
    ensures
        res is Ok <==> valid_utf8(bytes@),
        res matches Ok(s) ==> s.spec_bytes() == bytes@,
{
    std::str::from_utf8(bytes)
}

} // verus!
