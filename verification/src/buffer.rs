//! A manifest's source text with its syntax tree: key/value pairs found by a
//! tree-sitter query, and edits that put new values in place of old ones.

use crate::grammar::{self, grammar_loads, has_syntax_error, parse_gives_tree, ParsedTree};
use crate::matches::{
    captures_on_boundaries, captures_within, has_capture, captures_within_seq, match_pairs, pair_fault_text,
    pairs_from_matches, pairs_of, Capture, PairFault,
};
use crate::splice::{
    last_ending, last_ending_index, lemma_disjoint_remove, lemma_last_ending,
    lemma_others_before_last, lemma_splice_prefix, lemma_splice_same_text, replace_span, span_of, spans_fit, spans_of,
    splice,
};
use crate::text::{lemma_encode_concat, substr};
use tree_sitter::StreamingIteratorMut;
use vstd::prelude::*;
use vstd::string::{to_string_from_display_ensures, StringSliceAdditionalSpecFns};
use vstd::utf8::*;

verus! {

/// The manifest languages.
#[derive(PartialEq, Eq, Structural, Clone, Copy, Debug)]
pub enum Lang {
    Json,
    Toml,
}

/// A source text with the syntax tree parsed from it in its language.
pub struct Buffer {
    tree: ParsedTree,
}

impl View for Buffer {
    type V = (Lang, Seq<char>);

    /// The language and the source text.
    closed spec fn view(&self) -> (Lang, Seq<char>) {
        self.tree@
    }
}

/// A tree-sitter query compiled for a language, with its source text.
pub struct CompiledQuery {
    query: tree_sitter::Query,
    lang: Lang,
    source: String,
}

impl View for CompiledQuery {
    type V = (Lang, Seq<char>);

    /// The language the query was compiled for, and its source text.
    closed spec fn view(&self) -> (Lang, Seq<char>) {
        (self.lang, self.source@)
    }
}

/// `Query::new` accepts the query source `source` in the grammar of `lang`.
pub uninterp spec fn query_compiles(lang: Lang, source: Seq<char>) -> bool;

/// `Query::capture_index_for_name`: the index of the capture `@name` in the
/// query compiled from `source` for `lang`, if it has one.
pub uninterp spec fn capture_index_of(lang: Lang, source: Seq<char>, name: Seq<char>) -> Option<
    u32,
>;

/// The matches, each as its captures in order, that `QueryCursor::matches`
/// yields for the query compiled from `source`, run over the whole tree
/// parsed from `text` in the grammar of `lang`, with `text` as the text that
/// predicates read.
pub uninterp spec fn query_captures(lang: Lang, text: Seq<char>, source: Seq<char>) -> Seq<
    Seq<Capture>,
>;

/// A key and its value, both slices of a buffer's text; `range` is the byte
/// range of the value in that text.
pub struct Pair<'a> {
    pub key: &'a str,
    pub value: &'a str,
    pub range: std::ops::Range<usize>,
}

/// A pair together with the text that is to take the place of its value.
pub struct Edit<'a> {
    pub pair: Pair<'a>,
    pub value: String,
}

/// The UTF-8 bytes of a character sequence.
pub open spec fn bytes_of(s: Seq<char>) -> Seq<u8> {
    encode_utf8(s)
}

/// `t` is the text of `src` in some byte range.
pub open spec fn is_slice_of(src: Seq<u8>, t: Seq<u8>) -> bool {
    exists|a: int, z: int| #![trigger src.subrange(a, z)] 0 <= a <= z <= src.len() && t == src.subrange(a, z)
}

/// `Pair`'s value is the text of `src` (as bytes) at the pair's range.
pub open spec fn value_at_range(src: Seq<u8>, p: Pair) -> bool {
    &&& p.range.start <= p.range.end <= src.len()
    &&& bytes_of(p.value@) == src.subrange(p.range.start as int, p.range.end as int)
}

/// `e` is the text of a grammar that could not be loaded (`LanguageError`'s
/// `Display`).
pub open spec fn language_error_text(e: String) -> bool {
    exists|le: tree_sitter::LanguageError| to_string_from_display_ensures(&le, e)
}

/// `text` parses in the grammar of `lang` without a syntax error: what
/// `Buffer::new` asks of a source.
pub open spec fn parses(lang: Lang, text: Seq<char>) -> bool {
    &&& grammar_loads(lang)
    &&& fits_offsets(text)
    &&& parse_gives_tree(lang, text)
    &&& !has_syntax_error(lang, text)
}

/// What `Buffer::new` gives for `src` in the language `lang`: a buffer of
/// that text, the text of the error of a grammar that could not be loaded,
/// or "failed to parse source" for a source too long for tree-sitter's
/// offsets, one that gives no tree, or one whose tree holds a syntax error.
pub open spec fn new_result(lang: Lang, src: Seq<char>, res: Result<Buffer, String>) -> bool {
    if !grammar_loads(lang) {
        res matches Err(e) && language_error_text(e)
    } else if !fits_offsets(src) || !parse_gives_tree(lang, src) || has_syntax_error(lang, src) {
        res matches Err(e) && e@ == "failed to parse source"@
    } else {
        res matches Ok(b) && b@ == (lang, src)
    }
}

/// `e` is the text of a query that does not compile (`QueryError`'s
/// `Display`).
pub open spec fn query_compile_error_text(e: String) -> bool {
    exists|qe: tree_sitter::QueryError| to_string_from_display_ensures(&qe, e)
}

/// Why `Buffer::query_pairs` finds no pairs.
pub enum QueryFault {
    /// The query does not compile in the buffer's grammar.
    NotCompiled,
    /// The query has no capture named `key`.
    NoKeyCapture,
    /// The query has no capture named `value`.
    NoValueCapture,
    /// A match of the query lacks one of the two captures.
    Match(PairFault),
}

/// What the query `query` finds in `text`, parsed in the grammar of `lang`:
/// the key and value captures of every match, in the order of the matches,
/// or why it finds no pairs.
pub open spec fn query_outcome(lang: Lang, text: Seq<char>, query: Seq<char>) -> Result<
    Seq<(Capture, Capture)>,
    QueryFault,
> {
    if !query_compiles(lang, query) {
        Err(QueryFault::NotCompiled)
    } else {
        match capture_index_of(lang, query, "key"@) {
            None => Err(QueryFault::NoKeyCapture),
            Some(key_id) => match capture_index_of(lang, query, "value"@) {
                None => Err(QueryFault::NoValueCapture),
                Some(value_id) => match match_pairs(
                    query_captures(lang, text, query),
                    key_id,
                    value_id,
                ) {
                    Ok(kv) => Ok(kv),
                    Err(f) => Err(QueryFault::Match(f)),
                },
            },
        }
    }
}

/// `e` is the error text of the fault `f`.
pub open spec fn query_fault_text(f: QueryFault, e: String) -> bool {
    match f {
        QueryFault::NotCompiled => query_compile_error_text(e),
        QueryFault::NoKeyCapture => e@ == "query must capture @key"@,
        QueryFault::NoValueCapture => e@ == "query must capture @value"@,
        QueryFault::Match(pf) => e@ == pair_fault_text(pf),
    }
}

/// `res` is what `Buffer::query_pairs` gives for the query `query` on `text`
/// in the language `lang`: the pairs of its matches' captures, or the error
/// of its fault.
pub open spec fn query_result<'a>(
    lang: Lang,
    text: Seq<char>,
    query: Seq<char>,
    res: Result<Vec<Pair<'a>>, String>,
) -> bool {
    match query_outcome(lang, text, query) {
        Ok(kv) => res matches Ok(ps) && pairs_of(bytes_of(text), kv, ps@),
        Err(f) => res matches Err(e) && query_fault_text(f, e),
    }
}

/// The text is short enough for tree-sitter, which measures text in 32-bit
/// byte offsets.
pub open spec fn fits_offsets(text: Seq<char>) -> bool {
    bytes_of(text).len() <= u32::MAX
}

impl Buffer {
    /// Every buffer's text fits tree-sitter's byte offsets.
    #[verifier::type_invariant]
    spec fn fits(self) -> bool {
        fits_offsets(self.tree@.1)
    }

    /// The source text.
    pub open spec fn text(&self) -> Seq<char> {
        self@.1
    }

    /// The language of the source text.
    pub open spec fn lang(&self) -> Lang {
        self@.0
    }

    /// Parses `src` in the language `lang`; fails with the grammar's error
    /// where it cannot be loaded, and with "failed to parse source" where
    /// tree-sitter gives no tree or one with a syntax error, or where the
    /// source is too long for its 32-bit byte offsets.
    pub fn new(src: String, lang: Lang) -> (res: Result<Buffer, String>)
        ensures
            new_result(lang, src@, res),
            res is Ok <==> parses(lang, src@),
            grammar_loads(lang) && bytes_of(src@).len() <= u32::MAX && parse_gives_tree(lang, src@)
                && !has_syntax_error(lang, src@) ==> (res matches Ok(b) && b@ == (lang, src@)),
    {
        let grammar = lang.language();
        let parser = match grammar::set_language(grammar::new_parser(), &grammar) {
            Ok(p) => p,
            Err(e) => {
                let msg = e.to_string();
                assert(to_string_from_display_ensures(&e, msg));
                return Err(msg);
            },
        };
        if src.as_str().as_bytes().len() as u64 > 0xffff_ffffu64 {
            return Err("failed to parse source".to_owned());
        }
        let tree = match grammar::parse(parser, src) {
            Some(tree) => tree,
            None => {
                return Err("failed to parse source".to_owned());
            },
        };
        if grammar::root_has_error(&tree) {
            return Err("failed to parse source".to_owned());
        }
        Ok(Buffer { tree })
    }

    /// The pairs that `query` finds: one per match, its key the text of the
    /// match's `@key` capture and its value the text of its `@value`
    /// capture. Every pair's value is the text at the pair's range, which
    /// starts and ends on character boundaries.
    pub fn query_pairs(&self, query: &str) -> (res: Result<Vec<Pair<'_>>, String>)
        ensures
            query_result(self.lang(), self.text(), query@, res),
            ({
                let qc = query_captures(self.lang(), self.text(), query@);
                query_compiles(self.lang(), query@) ==> match (
                    capture_index_of(self.lang(), query@, "key"@),
                    capture_index_of(self.lang(), query@, "value"@),
                ) {
                    (Some(k), Some(v)) => (forall|i: int|
                        0 <= i < qc.len() ==> has_capture(#[trigger] qc[i], k) && has_capture(
                            qc[i],
                            v,
                        )) ==> (res matches Ok(ps) && ps@.len() == qc.len()),
                    _ => true,
                }
            }),
            res matches Ok(ps) ==> forall|i: int|
                0 <= i < ps@.len() ==> value_at_range(bytes_of(self.text()), #[trigger] ps@[i]),
            res matches Ok(ps) ==> forall|i: int|
                0 <= i < ps@.len() ==> is_slice_of(
                    bytes_of(self.text()),
                    bytes_of((#[trigger] ps@[i]).key@),
                ),
            res matches Ok(ps) ==> forall|i: int|
                0 <= i < ps@.len() ==> is_char_boundary(
                    bytes_of(self.text()),
                    (#[trigger] ps@[i]).range.start as int,
                ) && is_char_boundary(bytes_of(self.text()), ps@[i].range.end as int),
    {
        let q = match self.compile_query(query) {
            Ok(q) => q,
            Err(e) => {
                let msg = e.to_string();
                assert(to_string_from_display_ensures(&e, msg));
                return Err(msg);
            },
        };
        let key_id = match capture_index_for_name(&q, "key") {
            Some(id) => id,
            None => {
                return Err("query must capture @key".to_owned());
            },
        };
        let value_id = match capture_index_for_name(&q, "value") {
            Some(id) => id,
            None => {
                return Err("query must capture @value".to_owned());
            },
        };
        let src = self.tree.text();
        let matches = self.query_matches(&q);
        proof {
            let qc = query_captures(self.lang(), self.text(), query@);
            assert(matches@.map_values(|m: Vec<Capture>| m@) == qc);
            if forall|i: int|
                0 <= i < qc.len() ==> has_capture(#[trigger] qc[i], key_id) && has_capture(
                    qc[i],
                    value_id,
                ) {
                assert forall|i: int| 0 <= i < matches@.len() implies has_capture(
                    (#[trigger] matches@[i])@,
                    key_id,
                ) && has_capture(matches@[i]@, value_id) by {
                    assert(qc[i] == matches@[i]@);
                }
            }
        }
        pairs_from_matches(src, key_id, value_id, &matches)
    }

    /// `Query::new` in the buffer's grammar, the query kept with its
    /// language and source. The result is named (`query_compiles`), and the
    /// contract claims that a compiled query keeps the buffer's language and
    /// the source it was given.
    #[verifier::external_body]
    fn compile_query(&self, source: &str) -> (r: Result<CompiledQuery, tree_sitter::QueryError>)
        ensures
            r is Ok <==> query_compiles(self.lang(), source@),
            r matches Ok(q) ==> q@ == (self.lang(), source@),
    {
        tree_sitter::Query::new(&self.tree.syntax().language(), source).map(
            |query| CompiledQuery { query, lang: self.tree.lang(), source: source.to_owned() },
        )
    }

    /// `QueryCursor::matches` run over the whole tree, with the buffer's text
    /// as the text that predicates read. The matches that the stream will
    /// hand out are named (`query_captures`), for a query compiled in the
    /// buffer's language; the contract also claims that every capture's node
    /// starts no later than it ends and ends within the text, on character
    /// boundaries: a buffer's tree is always the one parsed from its text,
    /// whose byte offsets fit in 32 bits, and tree-sitter's lexer advances by
    /// whole UTF-8 code points, so nodes begin and end between characters.
    #[verifier::external_body]
    fn start_matches<'a>(
        &'a self,
        cursor: &'a mut tree_sitter::QueryCursor,
        query: &'a CompiledQuery,
    ) -> (m: MatchStream<'a>)
        requires
            query@.0 == self.lang(),
            fits_offsets(self.text()),
        ensures
            pending_matches(m) == query_captures(self.lang(), self.text(), query@.1),
            captures_within_seq(pending_matches(m), bytes_of(self.text()).len()),
            captures_on_boundaries(pending_matches(m), bytes_of(self.text())),
    {
        MatchStream {
            it: cursor.matches(&query.query, self.tree.syntax().root_node(), self.tree.text().as_bytes()),
        }
    }

    /// Every match of `query` over the tree, each as its captures, in the
    /// order tree-sitter yields them.
    fn query_matches(&self, query: &CompiledQuery) -> (res: Vec<Vec<Capture>>)
        requires
            query@.0 == self.lang(),
        ensures
            res@.map_values(|m: Vec<Capture>| m@) == query_captures(
                self.lang(),
                self.text(),
                query@.1,
            ),
            captures_within(res@, bytes_of(self.text()).len()),
            captures_on_boundaries(
                query_captures(self.lang(), self.text(), query@.1),
                bytes_of(self.text()),
            ),
    {
        proof {
            use_type_invariant(self);
        }
        let mut cursor = grammar::new_cursor();
        let mut stream = self.start_matches(&mut cursor, query);
        let ghost all = pending_matches(stream);
        let mut out: Vec<Vec<Capture>> = Vec::new();
        assert(out@.map_values(|m: Vec<Capture>| m@) + all =~= all);
        loop
            invariant_except_break
                captures_within_seq(pending_matches(stream), bytes_of(self.text()).len()),
                out@.map_values(|m: Vec<Capture>| m@) + pending_matches(stream) == all,
            invariant
                all == query_captures(self.lang(), self.text(), query@.1),
                captures_within(out@, bytes_of(self.text()).len()),
            ensures
                out@.map_values(|m: Vec<Capture>| m@) == all,
            decreases pending_matches(stream).len(),
        {
            let ghost before = pending_matches(stream);
            let ghost done = out@.map_values(|m: Vec<Capture>| m@);
            match next_match(&mut stream) {
                Some(caps) => {
                    assert(caps@ == before[0]);
                    out.push(caps);
                    assert(out@.map_values(|m: Vec<Capture>| m@) =~= done.push(caps@));
                    assert(done.push(caps@) + pending_matches(stream) =~= done + before);
                    assert forall|i: int, j: int|
                        0 <= i < out@.len() && 0 <= j < out@[i]@.len() implies #[trigger] out@[i]@[j].start
                        <= out@[i]@[j].end <= bytes_of(self.text()).len() by {
                        if i == out@.len() - 1 {
                            assert(out@[i]@[j] == before[0][j]);
                        }
                    }
                    assert forall|i: int, j: int|
                        0 <= i < pending_matches(stream).len() && 0 <= j < pending_matches(
                            stream,
                        )[i].len() implies #[trigger] pending_matches(stream)[i][j].start
                        <= pending_matches(stream)[i][j].end <= bytes_of(self.text()).len() by {
                        assert(pending_matches(stream)[i] == before[i + 1]);
                    }
                },
                None => {
                    assert(done + before =~= done);
                    break ;
                },
            }
        }
        out
    }

    /// The edits meet what `replace` asks of them: each range lies within
    /// the text on character boundaries, and no two overlap or end at the
    /// same byte.
    pub fn can_replace(&self, edits: &Vec<Edit>) -> (ok: bool)
        ensures
            ok == spans_fit(bytes_of(self.text()), spans_of(edits@)),
    {
        let src = self.tree.text();
        let len = src.as_bytes().len();
        let n = edits.len();
        let ghost b = bytes_of(self.text());
        let ghost es = spans_of(edits@);
        let mut i: usize = 0;
        while i < n
            invariant
                n == edits@.len(),
                es == spans_of(edits@),
                b == bytes_of(self.text()),
                b == src.spec_bytes(),
                len == b.len(),
                i <= n,
                forall|t: int|
                    #![trigger es[t]]
                    0 <= t < i ==> {
                        &&& 0 <= es[t].0 <= es[t].1 <= b.len()
                        &&& is_char_boundary(b, es[t].0)
                        &&& is_char_boundary(b, es[t].1)
                    },
            decreases n - i,
        {
            let r = &edits[i].pair.range;
            assert(es[i as int] == span_of(edits@[i as int]));
            if !(r.start <= r.end && r.end <= len && src.is_char_boundary(r.start)
                && src.is_char_boundary(r.end)) {
                return false;
            }
            i = i + 1;
        }
        let mut i: usize = 0;
        while i < n
            invariant
                n == edits@.len(),
                es == spans_of(edits@),
                i <= n,
                forall|t: int| #![trigger es[t]] 0 <= t < n ==> es[t].0 <= es[t].1,
                forall|a: int, c: int|
                    #![trigger es[a], es[c]]
                    0 <= a < i && 0 <= c < n && a != c ==> (es[a].1 <= es[c].0 || es[c].1
                        <= es[a].0) && es[a].1 != es[c].1,
            decreases n - i,
        {
            let mut j: usize = 0;
            while j < n
                invariant
                    n == edits@.len(),
                    es == spans_of(edits@),
                    i < n,
                    j <= n,
                    forall|t: int| #![trigger es[t]] 0 <= t < n ==> es[t].0 <= es[t].1,
                    forall|a: int, c: int|
                        #![trigger es[a], es[c]]
                        0 <= a < i && 0 <= c < n && a != c ==> (es[a].1 <= es[c].0 || es[c].1
                            <= es[a].0) && es[a].1 != es[c].1,
                    forall|c: int|
                        #![trigger es[c]]
                        0 <= c < j && i != c ==> (es[i as int].1 <= es[c].0 || es[c].1 <= es[i as int].0)
                            && es[i as int].1 != es[c].1,
                decreases n - j,
            {
                let x = &edits[i].pair.range;
                let y = &edits[j].pair.range;
                assert(es[i as int] == span_of(edits@[i as int]));
                assert(es[j as int] == span_of(edits@[j as int]));
                if i != j && !((x.end <= y.start || y.end <= x.start) && x.end != y.end) {
                    return false;
                }
                j = j + 1;
            }
            i = i + 1;
        }
        true
    }

    /// The text with every edit's range replaced by the edit's value. The
    /// edits are applied one at a time, the one that ends last first, so that
    /// the ranges still to come keep their place.
    pub fn replace(&self, edits: Vec<Edit>) -> (res: String)
        requires
            spans_fit(bytes_of(self.text()), spans_of(edits@)),
        ensures
            bytes_of(res@) == splice(bytes_of(self.text()), spans_of(edits@)),
    {
        let src = self.tree.text();
        let ghost b = bytes_of(src@);
        let ghost es0 = spans_of(edits@);
        proof {
            encode_utf8_valid_utf8(src@);
            is_char_boundary_start_end_of_seq(b);
            assert(b.take(b.len() as int) =~= b);
            assert(bytes_of(Seq::<char>::empty()) =~= Seq::<u8>::empty());
            assert(b + Seq::<u8>::empty() =~= b);
        }
        let mut rest = edits;
        let mut hi: usize = src.as_bytes().len();
        let mut acc = String::new();
        while rest.len() > 0
            invariant
                b == bytes_of(src@),
                b == bytes_of(self.text()),
                valid_utf8(b),
                hi <= b.len(),
                is_char_boundary(b, hi as int),
                spans_fit(b, spans_of(rest@)),
                forall|i: int| 0 <= i < rest@.len() ==> (#[trigger] spans_of(rest@)[i]).1 <= hi,
                splice(b, es0) == splice(b.take(hi as int), spans_of(rest@)) + bytes_of(acc@),
            decreases rest@.len(),
        {
            let k = last_ending_index(&rest);
            let ghost es = spans_of(rest@);
            proof {
                lemma_last_ending(es);
                lemma_others_before_last(es);
                lemma_disjoint_remove(es, k as int);
            }
            let e = rest.remove(k);
            let start = e.pair.range.start;
            let end = e.pair.range.end;
            proof {
                assert(es[k as int] == span_of(e));
                assert(spans_of(rest@) =~= es.remove(k as int));
            }
            let piece = substr(src, end, hi);
            let ghost old_acc = acc@;
            let mut next = e.value;
            next.append(piece);
            next.append(acc.as_str());
            acc = next;
            proof {
                let (s, t, v) = es[k as int];
                let r = es.remove(k as int);
                assert forall|i: int| 0 <= i < r.len() implies 0 <= #[trigger] r[i].0 && r[i].1
                    <= b.take(s).len() by {
                    if i < k {
                        assert(r[i] == es[i]);
                    } else {
                        assert(r[i] == es[i + 1]);
                    }
                }
                assert(replace_span(b.take(hi as int), s, t, v) =~= b.take(s) + (v + b.subrange(
                    t,
                    hi as int,
                )));
                lemma_splice_prefix(b.take(s), v + b.subrange(t, hi as int), r);
                lemma_encode_concat(e.value@, piece@);
                lemma_encode_concat(e.value@ + piece@, old_acc);
                assert(bytes_of(acc@) == v + b.subrange(t, hi as int) + bytes_of(old_acc));
                assert(splice(b, es0) =~= splice(b.take(s), r) + bytes_of(acc@));
                assert forall|i: int| 0 <= i < r.len() implies (#[trigger] r[i]).1 <= s by {
                    if i < k {
                        assert(r[i] == es[i]);
                    } else {
                        assert(r[i] == es[i + 1]);
                    }
                }
            }
            hi = start;
        }
        let head = substr(src, 0, hi);
        let mut out = head.to_owned();
        out.append(acc.as_str());
        proof {
            lemma_encode_concat(head@, acc@);
            assert(b.subrange(0, hi as int) =~= b.take(hi as int));
        }
        out
    }
}

impl<'a> Pair<'a> {
    /// This pair, to be given `value` in place of its current value.
    pub fn with_value(self, value: String) -> (e: Edit<'a>)
        ensures
            e.pair == self,
            e.value == value,
    {
        Edit { pair: self, value }
    }
}

/// `Buffer::new` accepts every source that tree-sitter parses without a
/// syntax error and whose bytes fit its 32-bit offsets, however long it is
/// below that limit, and gives a buffer of that source; it refuses every
/// other source.
pub proof fn lemma_new_accepts(lang: Lang, src: Seq<char>, res: Result<Buffer, String>)
    requires
        new_result(lang, src, res),
    ensures
        res is Ok <==> (grammar_loads(lang) && encode_utf8(src).len() <= u32::MAX
            && parse_gives_tree(lang, src) && !has_syntax_error(lang, src)),
        res matches Ok(b) ==> b@ == (lang, src),
{
}

/// Writing back each value that `Buffer::query_pairs` found, each in its
/// own place, leaves the text as it was: for pairs whose values are the text
/// at their ranges (as `query_pairs` gives them), edits that give each pair
/// its own value splice the text into itself, wherever they meet what
/// `Buffer::replace` asks of them.
pub proof fn lemma_query_values_written_back<'a>(
    text: Seq<char>,
    ps: Seq<Pair<'a>>,
    edits: Seq<Edit<'a>>,
)
    requires
        forall|i: int| 0 <= i < ps.len() ==> value_at_range(bytes_of(text), #[trigger] ps[i]),
        edits.len() == ps.len(),
        forall|i: int|
            0 <= i < edits.len() ==> (#[trigger] edits[i]).pair == ps[i] && edits[i].value@
                == ps[i].value@,
        spans_fit(bytes_of(text), spans_of(edits)),
    ensures
        splice(bytes_of(text), spans_of(edits)) == bytes_of(text),
{
    let b = bytes_of(text);
    let es = spans_of(edits);
    assert forall|i: int|
        0 <= i < es.len() implies 0 <= #[trigger] es[i].0 && es[i].1 <= b.len() && es[i].2
        == b.subrange(es[i].0, es[i].1) by {
        assert(es[i] == span_of(edits[i]));
        assert(value_at_range(b, ps[i]));
    }
    lemma_splice_same_text(b, es);
}

/// `Query::capture_index_for_name` on a compiled query; its result is named
/// (`capture_index_of`).
#[verifier::external_body]
fn capture_index_for_name(query: &CompiledQuery, name: &str) -> (r: Option<u32>)
    ensures
        r == capture_index_of(query@.0, query@.1, name@),
{
    query.query.capture_index_for_name(name)
}

/// The matches of a running query, `QueryMatches`, which hands out one match
/// at a time.
#[verifier::external_body]
pub struct MatchStream<'a> {
    it: tree_sitter::QueryMatches<'a, 'a, 'static, &'a [u8], &'a [u8]>,
}

/// The matches, each as its captures, that a match stream has yet to hand
/// out.
pub uninterp spec fn pending_matches(m: MatchStream<'_>) -> Seq<Seq<Capture>>;

/// `StreamingIteratorMut::next_mut` on the matches: the next match, as its
/// captures' indices and node byte ranges, or `None` once there are no
/// more; as the streaming iterator hands them out, in order, each once.
#[verifier::external_body]
fn next_match(m: &mut MatchStream<'_>) -> (r: Option<Vec<Capture>>)
    ensures
        pending_matches(*old(m)).len() > 0 ==> (r matches Some(v) && v@ == pending_matches(
            *old(m),
        )[0] && pending_matches(*final(m)) == pending_matches(*old(m)).drop_first()),
        pending_matches(*old(m)).len() == 0 ==> r is None,
{
    m.it.next_mut().map(
        |x|
            x.captures().iter().map(
                |c| Capture { index: c.index, start: c.node.start_byte(), end: c.node.end_byte() },
            ).collect(),
    )
}

} // verus!
