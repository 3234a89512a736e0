//! Edits as byte spans of a text, and what applying them gives: the spans
//! applied one at a time, the one that ends last first.

use crate::buffer::{bytes_of, value_at_range, Edit};
use crate::text::str_chars;
use vstd::prelude::*;
use vstd::seq_lib::{to_multiset_contains, to_multiset_len, to_multiset_remove};
use vstd::utf8::*;

verus! {

/// An edit as plain values: the byte range it replaces and the replacement
/// bytes.
pub open spec fn span_of(e: Edit) -> (int, int, Seq<u8>) {
    (e.pair.range.start as int, e.pair.range.end as int, bytes_of(e.value@))
}

pub open spec fn spans_of(es: Seq<Edit>) -> Seq<(int, int, Seq<u8>)> {
    es.map_values(|e: Edit| span_of(e))
}

/// The index of the span that ends last (the first such, on a tie).
pub open spec fn last_ending(es: Seq<(int, int, Seq<u8>)>) -> int
    decreases es.len(),
{
    if es.len() <= 1 {
        0
    } else {
        let k = last_ending(es.drop_last());
        if es.last().1 > es[k].1 {
            es.len() - 1
        } else {
            k
        }
    }
}

/// `b` with the bytes in `[start, end)` replaced by `t`.
pub open spec fn replace_span(b: Seq<u8>, start: int, end: int, t: Seq<u8>) -> Seq<u8> {
    b.take(start) + t + b.skip(end)
}

/// `b` with the spans applied one at a time, the span that ends last first:
/// the order in which `Buffer::replace` applies edits.
pub open spec fn splice(b: Seq<u8>, es: Seq<(int, int, Seq<u8>)>) -> Seq<u8>
    decreases es.len(),
{
    if es.len() == 0 {
        b
    } else {
        let k = last_ending(es);
        proof {
            lemma_last_ending(es);
        }
        splice(replace_span(b, es[k].0, es[k].1, es[k].2), es.remove(k))
    }
}

/// The spans lie within `b` on character boundaries, do not overlap, and no
/// two of them end at the same byte.
pub open spec fn spans_fit(b: Seq<u8>, es: Seq<(int, int, Seq<u8>)>) -> bool {
    &&& forall|i: int|
        #![trigger es[i]]
        0 <= i < es.len() ==> {
            &&& 0 <= es[i].0 <= es[i].1 <= b.len()
            &&& is_char_boundary(b, es[i].0)
            &&& is_char_boundary(b, es[i].1)
        }
    &&& spans_disjoint(es)
}

/// No two spans overlap or end at the same byte.
pub open spec fn spans_disjoint(es: Seq<(int, int, Seq<u8>)>) -> bool {
    &&& forall|i: int| #![trigger es[i]] 0 <= i < es.len() ==> es[i].0 <= es[i].1
    &&& forall|i: int, j: int|
        #![trigger es[i], es[j]]
        0 <= i < es.len() && 0 <= j < es.len() && i != j ==> (es[i].1 <= es[j].0 || es[j].1
            <= es[i].0) && es[i].1 != es[j].1
}

pub proof fn lemma_last_ending(es: Seq<(int, int, Seq<u8>)>)
    requires
        es.len() > 0,
    ensures
        0 <= last_ending(es) < es.len(),
        forall|j: int| 0 <= j < es.len() ==> #[trigger] es[j].1 <= es[last_ending(es)].1,
    decreases es.len(),
{
    if es.len() > 1 {
        let d = es.drop_last();
        lemma_last_ending(d);
        assert forall|j: int| 0 <= j < es.len() implies #[trigger] es[j].1 <= es[last_ending(
            es,
        )].1 by {
            if j < es.len() - 1 {
                assert(es[j] == d[j]);
            }
        }
    }
}

/// With disjoint spans, every span but the last-ending one ends before that
/// one starts.
pub(crate) proof fn lemma_others_before_last(es: Seq<(int, int, Seq<u8>)>)
    requires
        es.len() > 0,
        spans_disjoint(es),
    ensures
        forall|j: int|
            0 <= j < es.len() && j != last_ending(es) ==> #[trigger] es[j].1 <= es[last_ending(
                es,
            )].0,
{
    lemma_last_ending(es);
    let k = last_ending(es);
    assert forall|j: int| 0 <= j < es.len() && j != k implies #[trigger] es[j].1 <= es[k].0 by {
        assert(es[j].1 <= es[k].1);
        assert(es[j].0 <= es[j].1);
    }
}

pub(crate) proof fn lemma_disjoint_remove(es: Seq<(int, int, Seq<u8>)>, k: int)
    requires
        0 <= k < es.len(),
        spans_disjoint(es),
    ensures
        spans_disjoint(es.remove(k)),
{
    let r = es.remove(k);
    assert forall|i: int| 0 <= i < r.len() implies #[trigger] r[i].0 <= r[i].1 by {
        if i < k {
            assert(r[i] == es[i]);
        } else {
            assert(r[i] == es[i + 1]);
        }
    }
    assert forall|i: int, j: int| 0 <= i < r.len() && 0 <= j < r.len() && i != j implies (
    #[trigger] r[i].1 <= #[trigger] r[j].0 || r[j].1 <= r[i].0) && r[i].1 != r[j].1 by {
        let ii = if i < k {
            i
        } else {
            i + 1
        };
        let jj = if j < k {
            j
        } else {
            j + 1
        };
        assert(r[i] == es[ii]);
        assert(r[j] == es[jj]);
        assert(es[ii].1 <= es[jj].0 || es[jj].1 <= es[ii].0);
    }
}

/// Splicing spans that all end within `x` into `x + y` leaves `y` as it is.
pub(crate) proof fn lemma_splice_prefix(x: Seq<u8>, y: Seq<u8>, es: Seq<(int, int, Seq<u8>)>)
    requires
        spans_disjoint(es),
        forall|i: int| 0 <= i < es.len() ==> 0 <= #[trigger] es[i].0 && es[i].1 <= x.len(),
    ensures
        splice(x + y, es) == splice(x, es) + y,
    decreases es.len(),
{
    if es.len() > 0 {
        let k = last_ending(es);
        lemma_last_ending(es);
        lemma_others_before_last(es);
        let (s, t, v) = es[k];
        let x2 = replace_span(x, s, t, v);
        assert(replace_span(x + y, s, t, v) =~= x2 + y);
        let r = es.remove(k);
        lemma_disjoint_remove(es, k);
        assert forall|i: int| 0 <= i < r.len() implies 0 <= #[trigger] r[i].0 && r[i].1
            <= x2.len() by {
            if i < k {
                assert(r[i] == es[i]);
            } else {
                assert(r[i] == es[i + 1]);
            }
        }
        lemma_splice_prefix(x2, y, r);
    }
}

/// Spans whose replacement is the text they cover leave the text unchanged.
pub proof fn lemma_splice_same_text(b: Seq<u8>, es: Seq<(int, int, Seq<u8>)>)
    requires
        spans_disjoint(es),
        forall|i: int|
            0 <= i < es.len() ==> 0 <= #[trigger] es[i].0 && es[i].1 <= b.len() && es[i].2
                == b.subrange(es[i].0, es[i].1),
    ensures
        splice(b, es) == b,
    decreases es.len(),
{
    if es.len() > 0 {
        let k = last_ending(es);
        lemma_last_ending(es);
        let (s, t, v) = es[k];
        assert(replace_span(b, s, t, v) =~= b);
        let r = es.remove(k);
        lemma_disjoint_remove(es, k);
        assert forall|i: int|
            0 <= i < r.len() implies 0 <= #[trigger] r[i].0 && r[i].1 <= b.len() && r[i].2
            == b.subrange(r[i].0, r[i].1) by {
            if i < k {
                assert(r[i] == es[i]);
            } else {
                assert(r[i] == es[i + 1]);
            }
        }
        lemma_splice_same_text(b, r);
    }
}

/// The result of splicing disjoint spans does not depend on the order in
/// which they are given.
pub proof fn lemma_splice_any_order(
    b: Seq<u8>,
    es1: Seq<(int, int, Seq<u8>)>,
    es2: Seq<(int, int, Seq<u8>)>,
)
    requires
        spans_disjoint(es1),
        es1.to_multiset() == es2.to_multiset(),
    ensures
        splice(b, es1) == splice(b, es2),
    decreases es1.len(),
{
    to_multiset_len(es1);
    to_multiset_len(es2);
    if es1.len() > 0 {
        let k1 = last_ending(es1);
        let k2 = last_ending(es2);
        lemma_last_ending(es1);
        lemma_last_ending(es2);
        let x = es1[k1];
        let y = es2[k2];
        to_multiset_contains(es1, y);
        to_multiset_contains(es2, y);
        to_multiset_contains(es1, x);
        to_multiset_contains(es2, x);
        assert(es2.contains(y));
        assert(es1.contains(x));
        let j = choose|j: int| 0 <= j < es1.len() && es1[j] == y;
        let j2 = choose|j: int| 0 <= j < es2.len() && es2[j] == x;
        assert(es2[j2].1 <= es2[k2].1);
        assert(es1[j].1 <= es1[k1].1);
        if j != k1 {
            assert(es1[j].1 != es1[k1].1);
        }
        assert(x == y);
        to_multiset_remove(es1, k1);
        to_multiset_remove(es2, k2);
        lemma_disjoint_remove(es1, k1);
        lemma_splice_any_order(replace_span(b, x.0, x.1, x.2), es1.remove(k1), es2.remove(k2));
    }
}

/// The spans applied in position order, stated directly: the spans before
/// the last one applied to the text before it, then the last replacement and
/// the text after it. Unfolded from the front, this is the text before the
/// first span, its replacement, the text up to the next span, and so on.
pub open spec fn spliced_in_order(b: Seq<u8>, es: Seq<(int, int, Seq<u8>)>) -> Seq<u8>
    decreases es.len(),
{
    if es.len() == 0 {
        b
    } else {
        spliced_in_order(b.take(es.last().0), es.drop_last()) + es.last().2 + b.skip(es.last().1)
    }
}

/// Each span ends before the next one starts.
pub open spec fn in_position_order(es: Seq<(int, int, Seq<u8>)>) -> bool {
    forall|i: int, j: int| #![trigger es[i], es[j]] 0 <= i < j < es.len() ==> es[i].1 <= es[j].0
}

/// Applying the spans one at a time, the one that ends last first, gives
/// the untouched text and the replacements interleaved in position order.
pub proof fn lemma_splice_in_order(b: Seq<u8>, es: Seq<(int, int, Seq<u8>)>)
    requires
        spans_disjoint(es),
        in_position_order(es),
        forall|i: int| 0 <= i < es.len() ==> 0 <= #[trigger] es[i].0 && es[i].1 <= b.len(),
    ensures
        splice(b, es) == spliced_in_order(b, es),
    decreases es.len(),
{
    if es.len() > 0 {
        let m = es.len() - 1;
        assert forall|j: int| 0 <= j < es.len() implies #[trigger] es[j].1 <= es[m].1 by {
            if j < m {
                assert(es[j].1 <= es[m].0);
            }
        }
        lemma_last_ending_unique(es, m);
        let (s, t, v) = es[m];
        let r = es.drop_last();
        assert(es.remove(m) =~= r);
        lemma_disjoint_remove(es, m);
        let x = b.take(s);
        assert forall|i: int| 0 <= i < r.len() implies 0 <= #[trigger] r[i].0 && r[i].1
            <= x.len() by {
            assert(r[i] == es[i]);
            assert(es[i].1 <= es[m].0);
        }
        assert(replace_span(b, s, t, v) =~= x + (v + b.skip(t)));
        lemma_splice_prefix(x, v + b.skip(t), r);
        assert forall|i: int, j: int| 0 <= i < j < r.len() implies #[trigger] r[i].1
            <= #[trigger] r[j].0 by {
            assert(r[i] == es[i]);
            assert(r[j] == es[j]);
        }
        lemma_splice_in_order(x, r);
        assert(spliced_in_order(x, r) + (v + b.skip(t)) =~= spliced_in_order(x, r) + v + b.skip(
            t,
        ));
    }
}

/// Spans that lie within the text on character boundaries, each ending
/// before the next one starts and ending after the one before it ends,
/// meet what `Buffer::replace` asks of them.
pub proof fn lemma_spans_fit_in_order(b: Seq<u8>, es: Seq<(int, int, Seq<u8>)>)
    requires
        forall|i: int|
            #![trigger es[i]]
            0 <= i < es.len() ==> 0 <= es[i].0 <= es[i].1 <= b.len() && is_char_boundary(
                b,
                es[i].0,
            ) && is_char_boundary(b, es[i].1),
        forall|i: int, j: int|
            #![trigger es[i], es[j]]
            0 <= i < j < es.len() ==> es[i].1 <= es[j].0 && es[i].1 < es[j].1,
    ensures
        spans_fit(b, es),
{
    assert forall|i: int, j: int|
        0 <= i < es.len() && 0 <= j < es.len() && i != j implies (#[trigger] es[i].1
        <= #[trigger] es[j].0 || es[j].1 <= es[i].0) && es[i].1 != es[j].1 by {
        if i < j {
            assert(es[i].1 <= es[j].0 && es[i].1 < es[j].1);
        } else {
            assert(es[j].1 <= es[i].0 && es[j].1 < es[i].1);
        }
    }
}

/// Edits that are a permutation of each other have spans that are a
/// permutation of each other.
proof fn lemma_spans_permutation(es1: Seq<Edit>, es2: Seq<Edit>)
    requires
        es1.to_multiset() == es2.to_multiset(),
    ensures
        spans_of(es1).to_multiset() == spans_of(es2).to_multiset(),
    decreases es1.len(),
{
    to_multiset_len(es1);
    to_multiset_len(es2);
    if es1.len() == 0 {
        assert(spans_of(es1) =~= Seq::<(int, int, Seq<u8>)>::empty());
        assert(spans_of(es2) =~= Seq::<(int, int, Seq<u8>)>::empty());
    } else {
        let k = es1.len() - 1;
        let x = es1[k];
        to_multiset_contains(es1, x);
        to_multiset_contains(es2, x);
        let j = choose|j: int| 0 <= j < es2.len() && es2[j] == x;
        to_multiset_remove(es1, k);
        to_multiset_remove(es2, j);
        lemma_spans_permutation(es1.remove(k), es2.remove(j));
        lemma_spans_remove(es1, k);
        lemma_spans_remove(es2, j);
        let p1 = spans_of(es1);
        let p2 = spans_of(es2);
        assert(p1[k] == span_of(x));
        assert(p2[j] == span_of(x));
        to_multiset_remove(p1, k);
        to_multiset_remove(p2, j);
        to_multiset_contains(p1, span_of(x));
        to_multiset_contains(p2, span_of(x));
        assert(p1.contains(span_of(x)));
        assert(p2.contains(span_of(x)));
        assert(p1.to_multiset() =~= p1.to_multiset().remove(span_of(x)).insert(span_of(x)));
        assert(p2.to_multiset() =~= p2.to_multiset().remove(span_of(x)).insert(span_of(x)));
    }
}

/// `Buffer::replace` does not depend on the order of its edits: edits that
/// fit the text, given in any order, splice it the same way.
pub proof fn lemma_replace_any_order(b: Seq<u8>, es1: Seq<Edit>, es2: Seq<Edit>)
    requires
        spans_fit(b, spans_of(es1)),
        es1.to_multiset() == es2.to_multiset(),
    ensures
        splice(b, spans_of(es1)) == splice(b, spans_of(es2)),
{
    lemma_spans_permutation(es1, es2);
    lemma_splice_any_order(b, spans_of(es1), spans_of(es2));
}

/// With distinct ends, the span with the greatest end is the one that
/// `last_ending` picks.
proof fn lemma_last_ending_unique(es: Seq<(int, int, Seq<u8>)>, m: int)
    requires
        spans_disjoint(es),
        0 <= m < es.len(),
        forall|j: int| 0 <= j < es.len() ==> #[trigger] es[j].1 <= es[m].1,
    ensures
        last_ending(es) == m,
{
    lemma_last_ending(es);
    let l = last_ending(es);
    assert(es[l].1 <= es[m].1);
    assert(es[m].1 <= es[l].1);
    if l != m {
        assert(es[l].1 != es[m].1);
    }
}

proof fn lemma_splice_unfold(b: Seq<u8>, es: Seq<(int, int, Seq<u8>)>)
    requires
        es.len() > 0,
    ensures
        splice(b, es) == splice(
            replace_span(b, es[last_ending(es)].0, es[last_ending(es)].1, es[last_ending(es)].2),
            es.remove(last_ending(es)),
        ),
{
}

proof fn lemma_remove_twice<A>(es: Seq<A>, m: int, k: int)
    requires
        0 <= m < es.len(),
        0 <= k < es.len(),
        m != k,
    ensures
        es.remove(m).remove(if k < m { k } else { k - 1 }) == es.remove(k).remove(
            if m < k { m } else { m - 1 },
        ),
{
    assert(es.remove(m).remove(if k < m { k } else { k - 1 }) =~= es.remove(k).remove(
        if m < k { m } else { m - 1 },
    ));
}

proof fn lemma_remove_within(es: Seq<(int, int, Seq<u8>)>, m: int, len: int)
    requires
        0 <= m < es.len(),
        forall|i: int| 0 <= i < es.len() && i != m ==> 0 <= #[trigger] es[i].0 && es[i].1 <= len,
    ensures
        forall|i: int|
            0 <= i < es.remove(m).len() ==> 0 <= #[trigger] es.remove(m)[i].0 && es.remove(m)[i].1
                <= len,
{
    let r = es.remove(m);
    assert forall|i: int| 0 <= i < r.len() implies 0 <= #[trigger] r[i].0 && r[i].1 <= len by {
        if i < m {
            assert(r[i] == es[i]);
        } else {
            assert(r[i] == es[i + 1]);
        }
    }
}

/// After the last-ending span is removed, the other last-ending span is
/// still the one with the greatest end.
proof fn lemma_last_after_remove(es: Seq<(int, int, Seq<u8>)>, k: int)
    requires
        spans_disjoint(es),
        0 <= k < es.len(),
        last_ending(es) != k,
    ensures
        last_ending(es.remove(k)) == (if last_ending(es) < k {
            last_ending(es)
        } else {
            last_ending(es) - 1
        }),
{
    let m = last_ending(es);
    lemma_last_ending(es);
    let q = es.remove(k);
    let m2 = if m < k {
        m
    } else {
        m - 1
    };
    assert(q[m2] == es[m]);
    lemma_disjoint_remove(es, k);
    assert forall|j: int| 0 <= j < q.len() implies #[trigger] q[j].1 <= q[m2].1 by {
        if j < k {
            assert(q[j] == es[j]);
        } else {
            assert(q[j] == es[j + 1]);
        }
    }
    lemma_last_ending_unique(q, m2);
}

/// A span whose replacement is the text it covers can be dropped without
/// changing what the spans give.
proof fn lemma_drop_same_text(b: Seq<u8>, es: Seq<(int, int, Seq<u8>)>, k: int)
    requires
        spans_disjoint(es),
        forall|i: int| 0 <= i < es.len() ==> 0 <= #[trigger] es[i].0 && es[i].1 <= b.len(),
        0 <= k < es.len(),
        es[k].2 == b.subrange(es[k].0, es[k].1),
    ensures
        splice(b, es) == splice(b, es.remove(k)),
    decreases es.len(),
{
    let m = last_ending(es);
    lemma_last_ending(es);
    lemma_splice_unfold(b, es);
    if m == k {
        assert(replace_span(b, es[k].0, es[k].1, es[k].2) =~= b);
    } else {
        lemma_others_before_last(es);
        let (sm, tm, vm) = es[m];
        let b2 = replace_span(b, sm, tm, vm);
        let r = es.remove(m);
        let k2 = if k < m {
            k
        } else {
            k - 1
        };
        let m2 = if m < k {
            m
        } else {
            m - 1
        };
        assert(r[k2] == es[k]);
        assert(es[k].1 <= sm);
        assert(b2.subrange(es[k].0, es[k].1) =~= b.subrange(es[k].0, es[k].1));
        lemma_disjoint_remove(es, m);
        assert forall|i: int| 0 <= i < es.len() && i != m implies 0 <= #[trigger] es[i].0
            && es[i].1 <= b2.len() by {}
        lemma_remove_within(es, m, b2.len() as int);
        lemma_drop_same_text(b2, r, k2);
        let q = es.remove(k);
        lemma_last_after_remove(es, k);
        assert(q[m2] == es[m]);
        lemma_splice_unfold(b, q);
        lemma_remove_twice(es, m, k);
    }
}

proof fn lemma_spans_remove(es: Seq<Edit>, k: int)
    requires
        0 <= k < es.len(),
    ensures
        spans_of(es.remove(k)) == spans_of(es).remove(k),
{
    assert(spans_of(es.remove(k)) =~= spans_of(es).remove(k));
}

proof fn lemma_changed_prefix(b: Seq<u8>, es: Seq<Edit>, extra: Seq<Edit>)
    requires
        spans_disjoint(spans_of(es + extra)),
        forall|i: int|
            0 <= i < spans_of(es + extra).len() ==> 0 <= #[trigger] spans_of(es + extra)[i].0
                && spans_of(es + extra)[i].1 <= b.len(),
        forall|i: int| 0 <= i < es.len() ==> value_at_range(b, (#[trigger] es[i]).pair),
    ensures
        splice(b, spans_of(es + extra)) == splice(b, spans_of(changed_edits(es) + extra)),
    decreases es.len(),
{
    if es.len() > 0 {
        let d = es.drop_last();
        let x = es.last();
        assert(es + extra =~= d + (seq![x] + extra));
        assert forall|i: int| 0 <= i < d.len() implies value_at_range(b, (#[trigger] d[i]).pair) by {
            assert(d[i] == es[i]);
        }
        if x.value@ != x.pair.value@ {
            lemma_changed_prefix(b, d, seq![x] + extra);
            assert(changed_edits(d) + (seq![x] + extra) =~= changed_edits(es) + extra);
        } else {
            let all = es + extra;
            let k = d.len() as int;
            assert(all[k] == x);
            assert(value_at_range(b, x.pair));
            assert(spans_of(all)[k] == span_of(x));
            lemma_drop_same_text(b, spans_of(all), k);
            lemma_spans_remove(all, k);
            assert(all.remove(k) =~= d + extra);
            lemma_disjoint_remove(spans_of(all), k);
            assert forall|i: int|
                0 <= i < spans_of(d + extra).len() implies 0 <= #[trigger] spans_of(d + extra)[i].0
                && spans_of(d + extra)[i].1 <= b.len() by {
                if i < k {
                    assert(spans_of(d + extra)[i] == spans_of(all)[i]);
                } else {
                    assert(spans_of(d + extra)[i] == spans_of(all)[i + 1]);
                }
            }
            lemma_changed_prefix(b, d, extra);
        }
    } else {
        assert(changed_edits(es) + extra =~= es + extra);
    }
}

/// Applying only the edits that change something (`changed`) gives the same
/// text as applying all of them, where every pair's value is the text at
/// its range.
pub proof fn lemma_replace_changed_only(b: Seq<u8>, es: Seq<Edit>)
    requires
        spans_fit(b, spans_of(es)),
        forall|i: int| 0 <= i < es.len() ==> value_at_range(b, (#[trigger] es[i]).pair),
    ensures
        splice(b, spans_of(es)) == splice(b, spans_of(changed_edits(es))),
{
    assert(es + Seq::<Edit>::empty() =~= es);
    assert(changed_edits(es) + Seq::<Edit>::empty() =~= changed_edits(es));
    lemma_changed_prefix(b, es, Seq::empty());
}

/// The index of the edit that ends last (the first such, on a tie).
pub(crate) fn last_ending_index(edits: &Vec<Edit>) -> (k: usize)
    requires
        edits@.len() > 0,
    ensures
        k == last_ending(spans_of(edits@)),
{
    let ghost es = spans_of(edits@);
    let mut k: usize = 0;
    let mut i: usize = 1;
    assert(es.take(1).len() == 1);
    while i < edits.len()
        invariant
            es == spans_of(edits@),
            1 <= i <= edits@.len(),
            k < i,
            k == last_ending(es.take(i as int)),
        decreases edits@.len() - i,
    {
        assert(es.take(i + 1).drop_last() =~= es.take(i as int));
        assert(es[k as int].1 == edits@[k as int].pair.range.end);
        assert(es[i as int].1 == edits@[i as int].pair.range.end);
        if edits[i].pair.range.end > edits[k].pair.range.end {
            k = i;
        }
        i = i + 1;
    }
    assert(es.take(i as int) =~= es);
    k
}

/// The edits whose value differs from the current value of their pair, in
/// order.
pub open spec fn changed_edits(es: Seq<Edit>) -> Seq<Edit>
    decreases es.len(),
{
    if es.len() == 0 {
        Seq::empty()
    } else {
        let r = changed_edits(es.drop_last());
        if es.last().value@ != es.last().pair.value@ {
            r.push(es.last())
        } else {
            r
        }
    }
}

/// The two texts are equal.
pub fn same_text(a: &str, b: &str) -> (r: bool)
    ensures
        r == (a@ == b@),
{
    let x = str_chars(a);
    let y = str_chars(b);
    if x.len() != y.len() {
        return false;
    }
    let mut i: usize = 0;
    while i < x.len()
        invariant
            x@ == a@,
            y@ == b@,
            x@.len() == y@.len(),
            i <= x@.len(),
            forall|t: int| 0 <= t < i ==> x@[t] == y@[t],
        decreases x@.len() - i,
    {
        if x[i] != y[i] {
            return false;
        }
        i = i + 1;
    }
    assert(x@ =~= y@);
    true
}

/// `changed` keeps exactly the edits that change something: every edit it
/// keeps is one of the given edits and has a new value different from its
/// pair's current value, every given edit with a different value is kept,
/// and where every edit gives its pair its own value back, nothing is kept.
pub proof fn lemma_changed_edits(es: Seq<Edit>)
    ensures
        forall|i: int|
            0 <= i < changed_edits(es).len() ==> (#[trigger] changed_edits(es)[i]).value@
                != changed_edits(es)[i].pair.value@ && es.contains(changed_edits(es)[i]),
        forall|i: int|
            0 <= i < es.len() && (#[trigger] es[i]).value@ != es[i].pair.value@
                ==> changed_edits(es).contains(es[i]),
        (forall|i: int| 0 <= i < es.len() ==> (#[trigger] es[i]).value@ == es[i].pair.value@)
            ==> changed_edits(es).len() == 0,
    decreases es.len(),
{
    let r = changed_edits(es);
    if es.len() > 0 {
        let d = es.drop_last();
        lemma_changed_edits(d);
        let rd = changed_edits(d);
        assert forall|i: int| 0 <= i < r.len() implies (#[trigger] r[i]).value@
            != r[i].pair.value@ && es.contains(r[i]) by {
            if i < rd.len() {
                assert(r[i] == rd[i]);
                let j = choose|j: int| 0 <= j < d.len() && d[j] == rd[i];
                assert(es[j] == d[j]);
            } else {
                assert(r[i] == es.last());
                assert(es[es.len() - 1] == es.last());
            }
        }
        assert forall|i: int|
            0 <= i < es.len() && (#[trigger] es[i]).value@ != es[i].pair.value@ implies r.contains(
            es[i],
        ) by {
            if i < es.len() - 1 {
                assert(d[i] == es[i]);
                let j = choose|j: int| 0 <= j < rd.len() && rd[j] == d[i];
                assert(r[j] == rd[j]);
            } else {
                assert(r[r.len() - 1] == es[i]);
            }
        }
        if forall|i: int| 0 <= i < es.len() ==> (#[trigger] es[i]).value@ == es[i].pair.value@ {
            assert forall|i: int| 0 <= i < d.len() implies (#[trigger] d[i]).value@
                == d[i].pair.value@ by {
                assert(d[i] == es[i]);
            }
            assert(es[es.len() - 1] == es.last());
        }
    }
}

/// The edits that change something: those whose value is not already the
/// pair's value.
pub fn changed<'a>(edits: Vec<Edit<'a>>) -> (res: Vec<Edit<'a>>)
    ensures
        res@ == changed_edits(edits@),
        forall|i: int|
            0 <= i < res@.len() ==> (#[trigger] res@[i]).value@ != res@[i].pair.value@
                && edits@.contains(res@[i]),
        forall|i: int|
            0 <= i < edits@.len() && (#[trigger] edits@[i]).value@ != edits@[i].pair.value@
                ==> res@.contains(edits@[i]),
{
    let ghost all = edits@;
    let n = edits.len();
    let mut rest = edits;
    let mut res: Vec<Edit<'a>> = Vec::new();
    let mut i: usize = 0;
    assert(all.take(0) =~= Seq::<Edit>::empty());
    while rest.len() > 0
        invariant
            n == all.len(),
            i + rest@.len() == all.len(),
            rest@ == all.skip(i as int),
            res@ == changed_edits(all.take(i as int)),
        decreases rest@.len(),
    {
        let e = rest.remove(0);
        assert(all.take(i + 1).drop_last() =~= all.take(i as int));
        assert(all.take(i + 1).last() == e);
        assert(rest@ =~= all.skip(i + 1));
        if !same_text(e.pair.value, e.value.as_str()) {
            res.push(e);
        }
        i = i + 1;
    }
    assert(all.take(i as int) =~= all);
    proof {
        lemma_changed_edits(all);
    }
    res
}

} // verus!
