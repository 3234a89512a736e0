//! Key/value pairs from the captures of query matches.

use crate::buffer::{bytes_of, is_slice_of, value_at_range, Pair};
use crate::grammar;
use crate::text::lemma_boundary_in_suffix;
use vstd::prelude::*;
use vstd::string::StringSliceAdditionalSpecFns;
use vstd::utf8::*;

verus! {

/// A capture of a query match: the capture's index in the query and the
/// byte range of the captured node.
#[derive(Clone, Copy, Debug)]
pub struct Capture {
    pub index: u32,
    pub start: usize,
    pub end: usize,
}


/// Every capture's byte range lies within a text of `len` bytes.
pub open spec fn captures_within(ms: Seq<Vec<Capture>>, len: nat) -> bool {
    forall|i: int, j: int|
        0 <= i < ms.len() && 0 <= j < ms[i]@.len() ==> #[trigger] ms[i]@[j].start <= ms[i]@[j].end
            <= len
}

/// Every capture's byte range lies within a text of `len` bytes.
pub open spec fn captures_within_seq(ms: Seq<Seq<Capture>>, len: nat) -> bool {
    forall|i: int, j: int|
        0 <= i < ms.len() && 0 <= j < ms[i].len() ==> #[trigger] ms[i][j].start <= ms[i][j].end
            <= len
}

/// The first capture in a match with the given index.
pub open spec fn first_capture(caps: Seq<Capture>, id: u32) -> Option<Capture>
    decreases caps.len(),
{
    if caps.len() == 0 {
        None
    } else if caps[0].index == id {
        Some(caps[0])
    } else {
        first_capture(caps.drop_first(), id)
    }
}

/// Every capture starts and ends on a character boundary of `src`.
pub open spec fn captures_on_boundaries(ms: Seq<Seq<Capture>>, src: Seq<u8>) -> bool {
    forall|i: int, j: int|
        0 <= i < ms.len() && 0 <= j < ms[i].len() ==> is_char_boundary(src, #[trigger] ms[i][j].start as int)
            && is_char_boundary(src, ms[i][j].end as int)
}

/// Why a match yields no pair.
#[derive(Debug)]
pub enum PairFault {
    MissingKey,
    MissingValue,
}

/// The captured text is valid UTF-8.
pub open spec fn capture_text_ok(src: Seq<u8>, c: Capture) -> bool {
    valid_utf8(src.subrange(c.start as int, c.end as int))
}

/// The text of valid UTF-8 between two of its character boundaries is valid
/// UTF-8.
pub proof fn lemma_capture_text_ok(src: Seq<u8>, c: Capture)
    requires
        valid_utf8(src),
        c.start <= c.end <= src.len(),
        is_char_boundary(src, c.start as int),
        is_char_boundary(src, c.end as int),
    ensures
        capture_text_ok(src, c),
{
    let (x, y) = (c.start as int, c.end as int);
    lemma_boundary_in_suffix(src, x, y);
    valid_utf8_split(src.skip(x), y - x);
    assert(src.skip(x).subrange(0, y - x) =~= src.subrange(x, y));
}

/// The key and value captures of one match, or why it has none.
pub open spec fn match_pair(m: Seq<Capture>, key_id: u32, value_id: u32) -> Result<
    (Capture, Capture),
    PairFault,
> {
    match first_capture(m, key_id) {
        None => Err(PairFault::MissingKey),
        Some(k) => match first_capture(m, value_id) {
            None => Err(PairFault::MissingValue),
            Some(v) => Ok((k, v)),
        },
    }
}

/// The key and value captures of every match, in order, or the fault of the
/// first match that has none.
pub open spec fn match_pairs(
    ms: Seq<Seq<Capture>>,
    key_id: u32,
    value_id: u32,
) -> Result<Seq<(Capture, Capture)>, PairFault>
    decreases ms.len(),
{
    if ms.len() == 0 {
        Ok(Seq::empty())
    } else {
        match match_pair(ms[0], key_id, value_id) {
            Err(f) => Err(f),
            Ok(p) => match match_pairs(ms.drop_first(), key_id, value_id) {
                Err(f) => Err(f),
                Ok(rest) => Ok(seq![p] + rest),
            },
        }
    }
}

/// The match holds a capture with index `id`.
pub open spec fn has_capture(caps: Seq<Capture>, id: u32) -> bool {
    exists|j: int| 0 <= j < caps.len() && #[trigger] caps[j].index == id
}

/// `c` is the first capture of the match with index `id`.
pub open spec fn is_first_capture(caps: Seq<Capture>, c: Capture, id: u32) -> bool {
    exists|j: int|
        #![trigger caps[j]]
        0 <= j < caps.len() && caps[j] == c && c.index == id && forall|t: int|
            0 <= t < j ==> (#[trigger] caps[t]).index != id
}

/// `first_capture` finds a capture exactly when the match holds one with
/// that index, and then finds the first such.
pub proof fn lemma_first_capture(caps: Seq<Capture>, id: u32)
    ensures
        has_capture(caps, id) <==> first_capture(caps, id) is Some,
        first_capture(caps, id) matches Some(c) ==> is_first_capture(caps, c, id),
    decreases caps.len(),
{
    if caps.len() > 0 {
        let d = caps.drop_first();
        lemma_first_capture(d, id);
        if caps[0].index == id {
            assert(caps[0] == caps[0]);
        } else {
            if has_capture(caps, id) {
                let j = choose|j: int| 0 <= j < caps.len() && #[trigger] caps[j].index == id;
                assert(d[j - 1] == caps[j]);
            }
            if has_capture(d, id) {
                let j = choose|j: int| 0 <= j < d.len() && #[trigger] d[j].index == id;
                assert(caps[j + 1] == d[j]);
            }
            match first_capture(d, id) {
                Some(c) => {
                    let j = choose|j: int|
                        #![trigger d[j]]
                        0 <= j < d.len() && d[j] == c && c.index == id && forall|t: int|
                            0 <= t < j ==> (#[trigger] d[t]).index != id;
                    assert(caps[j + 1] == c);
                    assert forall|t: int| 0 <= t < j + 1 implies (#[trigger] caps[t]).index
                        != id by {
                        if t > 0 {
                            assert(caps[t] == d[t - 1]);
                        }
                    }
                },
                None => {},
            }
        }
    }
}

/// Every match that holds both captures gives one pair: where all of them
/// do, the matches give exactly as many key and value captures as there are
/// matches, in order, each the first capture of its index in its match.
pub proof fn lemma_match_pairs_one_per_match(ms: Seq<Seq<Capture>>, key_id: u32, value_id: u32)
    requires
        forall|i: int|
            0 <= i < ms.len() ==> has_capture(#[trigger] ms[i], key_id) && has_capture(
                ms[i],
                value_id,
            ),
    ensures
        match_pairs(ms, key_id, value_id) matches Ok(kv) && kv.len() == ms.len() && forall|i: int|
            0 <= i < ms.len() ==> is_first_capture(ms[i], (#[trigger] kv[i]).0, key_id)
                && is_first_capture(ms[i], kv[i].1, value_id),
    decreases ms.len(),
{
    if ms.len() == 0 {
    } else {
        let d = ms.drop_first();
        assert forall|i: int| 0 <= i < d.len() implies has_capture(#[trigger] d[i], key_id)
            && has_capture(d[i], value_id) by {
            assert(d[i] == ms[i + 1]);
        }
        lemma_match_pairs_one_per_match(d, key_id, value_id);
        assert(has_capture(ms[0], key_id) && has_capture(ms[0], value_id));
        lemma_first_capture(ms[0], key_id);
        lemma_first_capture(ms[0], value_id);
        let k = first_capture(ms[0], key_id).unwrap();
        let v = first_capture(ms[0], value_id).unwrap();
        let rest = match_pairs(d, key_id, value_id)->Ok_0;
        let kv = seq![(k, v)] + rest;
        assert(match_pairs(ms, key_id, value_id) == Ok::<Seq<(Capture, Capture)>, PairFault>(kv));
        assert forall|i: int| 0 <= i < ms.len() implies is_first_capture(
            ms[i],
            (#[trigger] kv[i]).0,
            key_id,
        ) && is_first_capture(ms[i], kv[i].1, value_id) by {
            if i > 0 {
                assert(kv[i] == rest[i - 1]);
                assert(ms[i] == d[i - 1]);
            }
        }
    }
}

/// A match that lacks the key or the value capture gives no pairs at all.
pub proof fn lemma_match_pairs_missing(ms: Seq<Seq<Capture>>, key_id: u32, value_id: u32, i: int)
    requires
        0 <= i < ms.len(),
        !has_capture(ms[i], key_id) || !has_capture(ms[i], value_id),
    ensures
        match_pairs(ms, key_id, value_id) is Err,
    decreases ms.len(),
{
    lemma_first_capture(ms[0], key_id);
    lemma_first_capture(ms[0], value_id);
    if i > 0 {
        assert(ms.drop_first()[i - 1] == ms[i]);
        lemma_match_pairs_missing(ms.drop_first(), key_id, value_id, i - 1);
    }
}

/// The pair built from a key capture and a value capture.
pub open spec fn pair_matches(src: Seq<u8>, p: Pair, k: Capture, v: Capture) -> bool {
    &&& k.start <= k.end <= src.len()
    &&& v.start <= v.end <= src.len()
    &&& bytes_of(p.key@) == src.subrange(k.start as int, k.end as int)
    &&& bytes_of(p.value@) == src.subrange(v.start as int, v.end as int)
    &&& p.range.start == v.start
    &&& p.range.end == v.end
}

pub open spec fn prepend_pairs(
    done: Seq<(Capture, Capture)>,
    r: Result<Seq<(Capture, Capture)>, PairFault>,
) -> Result<Seq<(Capture, Capture)>, PairFault> {
    match r {
        Ok(rest) => Ok(done + rest),
        Err(f) => Err(f),
    }
}

/// `ps` are the pairs of the text `src` built from the key and value
/// captures `kv`, one for one and in order.
pub open spec fn pairs_of<'a>(src: Seq<u8>, kv: Seq<(Capture, Capture)>, ps: Seq<Pair<'a>>) -> bool {
    &&& ps.len() == kv.len()
    &&& forall|i: int| 0 <= i < kv.len() ==> pair_matches(src, #[trigger] ps[i], kv[i].0, kv[i].1)
}

/// The error text of a match without a pair.
pub open spec fn pair_fault_text(f: PairFault) -> Seq<char> {
    match f {
        PairFault::MissingKey => "match missing @key"@,
        PairFault::MissingValue => "match missing @value"@,
    }
}

/// `res` is what the matches `ms` give as pairs of the text `src`: one pair
/// per match, built from its first `key_id` and `value_id` captures, or the
/// error of the first match that has none.
pub open spec fn pairs_result<'a>(
    src: Seq<u8>,
    ms: Seq<Seq<Capture>>,
    key_id: u32,
    value_id: u32,
    res: Result<Vec<Pair<'a>>, String>,
) -> bool {
    match match_pairs(ms, key_id, value_id) {
        Ok(kv) => res matches Ok(ps) && pairs_of(src, kv, ps@),
        Err(f) => res matches Err(e) && e@ == pair_fault_text(f),
    }
}

/// The first capture with index `id`, by position.
fn find_capture(caps: &Vec<Capture>, id: u32) -> (r: Option<usize>)
    ensures
        match first_capture(caps@, id) {
            Some(c) => r matches Some(i) && i < caps@.len() && caps@[i as int] == c,
            None => r is None,
        },
{
    let mut i: usize = 0;
    assert(caps@.skip(0) =~= caps@);
    while i < caps.len()
        invariant
            i <= caps@.len(),
            first_capture(caps@, id) == first_capture(caps@.skip(i as int), id),
        decreases caps@.len() - i,
    {
        assert(caps@.skip(i as int).drop_first() =~= caps@.skip(i + 1));
        assert(caps@.skip(i as int)[0] == caps@[i as int]);
        if caps[i].index == id {
            return Some(i);
        }
        i = i + 1;
    }
    None
}

/// The text of `src` at a capture's byte range, as `Node::utf8_text` gives
/// it.
fn capture_text<'a>(src: &'a str, c: Capture) -> (r: Result<&'a str, String>)
    requires
        c.start <= c.end <= src.spec_bytes().len(),
    ensures
        r is Ok <==> capture_text_ok(src.spec_bytes(), c),
        r matches Ok(t) ==> bytes_of(t@) == src.spec_bytes().subrange(c.start as int, c.end as int),
{
    let bytes = src.as_bytes();
    let part = &bytes[c.start..c.end];
    match grammar::str_from_utf8(part) {
        Ok(t) => Ok(t),
        Err(e) => Err(e.to_string()),
    }
}

/// The pairs named by the captures `key_id` and `value_id` of each match,
/// as `Buffer::query_pairs` builds them from the matches of its query. Every
/// capture lies within the text on character boundaries, so the text of
/// every capture is valid UTF-8.
pub fn pairs_from_matches<'a>(
    src: &'a str,
    key_id: u32,
    value_id: u32,
    matches: &Vec<Vec<Capture>>,
) -> (res: Result<Vec<Pair<'a>>, String>)
    requires
        captures_within(matches@, src.spec_bytes().len()),
        captures_on_boundaries(matches@.map_values(|m: Vec<Capture>| m@), src.spec_bytes()),
    ensures
        pairs_result(
            src.spec_bytes(),
            matches@.map_values(|m: Vec<Capture>| m@),
            key_id,
            value_id,
            res,
        ),
        (forall|i: int|
            0 <= i < matches@.len() ==> has_capture((#[trigger] matches@[i])@, key_id)
                && has_capture(matches@[i]@, value_id)) ==> (res matches Ok(ps) && ps@.len()
            == matches@.len()),
        res matches Ok(ps) ==> forall|i: int|
            0 <= i < ps@.len() ==> value_at_range(bytes_of(src@), #[trigger] ps@[i]),
        res matches Ok(ps) ==> forall|i: int|
            0 <= i < ps@.len() ==> is_slice_of(bytes_of(src@), bytes_of((#[trigger] ps@[i]).key@)),
        res matches Ok(ps) ==> forall|i: int|
            0 <= i < ps@.len() ==> is_char_boundary(bytes_of(src@), (#[trigger] ps@[i]).range.start as int)
                && is_char_boundary(bytes_of(src@), ps@[i].range.end as int),
{
    let ghost b = src.spec_bytes();
    let ghost ms = matches@.map_values(|m: Vec<Capture>| m@);
    proof {
        encode_utf8_valid_utf8(src@);
    }
    let mut pairs: Vec<Pair<'a>> = Vec::new();
    let ghost mut done: Seq<(Capture, Capture)> = Seq::empty();
    let mut i: usize = 0;
    proof {
        assert(ms.skip(0) =~= ms);
        match match_pairs(ms, key_id, value_id) {
            Ok(r) => {
                assert(done + r =~= r);
            },
            Err(_) => {},
        }
    }
    while i < matches.len()
        invariant
            b == src.spec_bytes(),
            valid_utf8(b),
            ms == matches@.map_values(|m: Vec<Capture>| m@),
            i <= matches@.len(),
            captures_within(matches@, src.spec_bytes().len()),
            captures_on_boundaries(ms, b),
            match_pairs(ms, key_id, value_id) == prepend_pairs(
                done,
                match_pairs(ms.skip(i as int), key_id, value_id),
            ),
            pairs@.len() == done.len(),
            forall|t: int|
                0 <= t < done.len() ==> pair_matches(b, #[trigger] pairs@[t], done[t].0, done[t].1),
            forall|t: int|
                0 <= t < pairs@.len() ==> value_at_range(bytes_of(src@), #[trigger] pairs@[t]),
            forall|t: int|
                0 <= t < pairs@.len() ==> is_char_boundary(b, (#[trigger] pairs@[t]).range.start as int)
                    && is_char_boundary(b, pairs@[t].range.end as int),
        decreases matches@.len() - i,
    {
        let m = &matches[i];
        assert(ms.skip(i as int).drop_first() =~= ms.skip(i + 1));
        assert(ms.skip(i as int)[0] == m@);
        let ki = match find_capture(m, key_id) {
            Some(ki) => ki,
            None => {
                proof {
                    lemma_first_capture(m@, key_id);
                    assert(!has_capture(matches@[i as int]@, key_id));
                }
                return Err("match missing @key".to_owned());
            },
        };
        let vi = match find_capture(m, value_id) {
            Some(vi) => vi,
            None => {
                proof {
                    lemma_first_capture(m@, value_id);
                    assert(!has_capture(matches@[i as int]@, value_id));
                }
                return Err("match missing @value".to_owned());
            },
        };
        let kc = m[ki];
        let vc = m[vi];
        proof {
            assert(ms[i as int] == m@);
            assert(m@[ki as int].start <= m@[ki as int].end <= b.len());
            assert(m@[vi as int].start <= m@[vi as int].end <= b.len());
            assert(is_char_boundary(b, ms[i as int][ki as int].start as int));
            assert(is_char_boundary(b, ms[i as int][vi as int].start as int));
            lemma_capture_text_ok(b, kc);
            lemma_capture_text_ok(b, vc);
        }
        let key = match capture_text(src, kc) {
            Ok(t) => t,
            Err(e) => {
                return Err(e);
            },
        };
        let value = match capture_text(src, vc) {
            Ok(t) => t,
            Err(e) => {
                return Err(e);
            },
        };
        pairs.push(Pair { key, value, range: vc.start..vc.end });
        proof {
            let t = pairs@.len() - 1;
            assert(bytes_of(pairs@[t].key@) == b.subrange(kc.start as int, kc.end as int));
            let rest = ms.skip(i + 1);
            assert(match_pair(m@, key_id, value_id) == Ok::<(Capture, Capture), PairFault>(
                (kc, vc),
            ));
            match match_pairs(rest, key_id, value_id) {
                Ok(r) => {
                    assert(done + (seq![(kc, vc)] + r) =~= done.push((kc, vc)) + r);
                },
                Err(_) => {},
            }
            done = done.push((kc, vc));
        }
        i = i + 1;
    }
    assert(ms.skip(i as int) =~= Seq::<Seq<Capture>>::empty());
    proof {
        if forall|t: int|
            0 <= t < matches@.len() ==> has_capture((#[trigger] matches@[t])@, key_id)
                && has_capture(matches@[t]@, value_id) {
            assert forall|t: int| 0 <= t < ms.len() implies has_capture(#[trigger] ms[t], key_id)
                && has_capture(ms[t], value_id) by {
                assert(ms[t] == matches@[t]@);
            }
            lemma_match_pairs_one_per_match(ms, key_id, value_id);
        }
    }
    assert(done + Seq::<(Capture, Capture)>::empty() =~= done);
    assert forall|t: int| 0 <= t < pairs@.len() implies is_slice_of(
        bytes_of(src@),
        bytes_of((#[trigger] pairs@[t]).key@),
    ) by {
        assert(pair_matches(b, pairs@[t], done[t].0, done[t].1));
        let a = done[t].0.start as int;
        let z = done[t].0.end as int;
        assert(bytes_of(pairs@[t].key@) == bytes_of(src@).subrange(a, z));
    }
    Ok(pairs)
}

} // verus!
