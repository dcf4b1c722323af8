use vstd::prelude::*;

use crate::printer::{entry_keys, entry_texts, insert_index, rendered, sorted_order, ParsedValue};
use crate::search::{
    fast_hits, scan_lines, search_outcome, LineHits, SearchMode, MATCH_CAP,
};
use crate::text::{bytes_lt, lines_of, occurrences, occurs_at};

verus! {

/// No byte string comes before itself, and of two byte strings at most one
/// comes before the other.
pub proof fn bytes_lt_asymmetric(a: Seq<u8>, b: Seq<u8>)
    ensures
        bytes_lt(a, b) ==> !bytes_lt(b, a),
    decreases a.len(),
{
    if a.len() > 0 && b.len() > 0 && a[0] == b[0] {
        bytes_lt_asymmetric(a.drop_first(), b.drop_first());
    }
}

/// Whether no key in `order` comes before the key just ahead of it.
pub open spec fn keys_ascending(keys: Seq<Seq<u8>>, order: Seq<int>) -> bool {
    forall|k: int| 0 <= k < order.len() - 1 ==> !bytes_lt(#[trigger] keys[order[k + 1]], keys[order[k]])
}

proof fn lemma_insert_index(order: Seq<int>, keys: Seq<Seq<u8>>, j: int)
    ensures
        insert_index(order, keys, j).len() == order.len() + 1,
        forall|x: int| #[trigger] insert_index(order, keys, j).contains(x) <==> (order.contains(x) || x == j),
        insert_index(order, keys, j)[0] == j || (order.len() > 0 && insert_index(order, keys, j)[0] == order[0]),
        order.no_duplicates() && !order.contains(j) ==> insert_index(order, keys, j).no_duplicates(),
        keys_ascending(keys, order) ==> keys_ascending(keys, insert_index(order, keys, j)),
    decreases order.len(),
{
    let r = insert_index(order, keys, j);
    if order.len() == 0 {
        assert forall|x: int| r.contains(x) <==> (order.contains(x) || x == j) by {
            if r.contains(x) {
                assert(r[0] == x);
            }
            if x == j {
                assert(r[0] == j);
            }
        }
    } else if bytes_lt(keys[j], keys[order[0]]) {
        assert forall|x: int| r.contains(x) <==> (order.contains(x) || x == j) by {
            if r.contains(x) {
                let k = choose|k: int| 0 <= k < r.len() && r[k] == x;
                if k > 0 {
                    assert(order[k - 1] == x);
                }
            }
            if order.contains(x) {
                let k = choose|k: int| 0 <= k < order.len() && order[k] == x;
                assert(r[k + 1] == x);
            }
            if x == j {
                assert(r[0] == j);
            }
        }
        if keys_ascending(keys, order) {
            bytes_lt_asymmetric(keys[j], keys[order[0]]);
            assert forall|k: int| 0 <= k < r.len() - 1 implies !bytes_lt(#[trigger] keys[r[k + 1]], keys[r[k]]) by {
                if k > 0 {
                    assert(r[k] == order[k - 1] && r[k + 1] == order[k]);
                    assert(!bytes_lt(keys[order[(k - 1) + 1]], keys[order[k - 1]]));
                } else {
                    assert(r[0] == j && r[1] == order[0]);
                }
            }
        }
        if order.no_duplicates() && !order.contains(j) {
            assert forall|a: int, b: int| 0 <= a < r.len() && 0 <= b < r.len() && a != b implies r[a] != r[b] by {
                if a == 0 && b > 0 {
                    assert(order[b - 1] == r[b]);
                } else if b == 0 && a > 0 {
                    assert(order[a - 1] == r[a]);
                } else if a > 0 && b > 0 {
                    assert(order[a - 1] == r[a] && order[b - 1] == r[b]);
                }
            }
        }
    } else {
        let rest = order.drop_first();
        let ins = insert_index(rest, keys, j);
        lemma_insert_index(rest, keys, j);
        assert(r == seq![order[0]] + ins);
        assert forall|x: int| r.contains(x) <==> (order.contains(x) || x == j) by {
            if r.contains(x) {
                let k = choose|k: int| 0 <= k < r.len() && r[k] == x;
                if k > 0 {
                    assert(ins[k - 1] == x);
                    assert(ins.contains(x));
                    if rest.contains(x) {
                        let m = choose|m: int| 0 <= m < rest.len() && rest[m] == x;
                        assert(order[m + 1] == x);
                    }
                } else {
                    assert(order[0] == x);
                }
            }
            if order.contains(x) {
                let k = choose|k: int| 0 <= k < order.len() && order[k] == x;
                if k > 0 {
                    assert(rest[k - 1] == x);
                    assert(rest.contains(x));
                    assert(ins.contains(x));
                    let m = choose|m: int| 0 <= m < ins.len() && ins[m] == x;
                    assert(r[m + 1] == x);
                } else {
                    assert(r[0] == x);
                }
            }
            if x == j {
                assert(ins.contains(j));
                let m = choose|m: int| 0 <= m < ins.len() && ins[m] == j;
                assert(r[m + 1] == j);
            }
        }
        if keys_ascending(keys, order) {
            assert forall|k: int| 0 <= k < rest.len() - 1 implies !bytes_lt(#[trigger] keys[rest[k + 1]], keys[rest[k]]) by {
                assert(rest[k] == order[k + 1] && rest[k + 1] == order[k + 2]);
            }
            assert forall|k: int| 0 <= k < r.len() - 1 implies !bytes_lt(#[trigger] keys[r[k + 1]], keys[r[k]]) by {
                if k == 0 {
                    assert(r[0] == order[0] && r[1] == ins[0]);
                    if ins[0] != j {
                        assert(ins[0] == rest[0] && rest[0] == order[1]);
                        assert(!bytes_lt(keys[order[0int + 1]], keys[order[0int]]));
                    }
                } else {
                    assert(r[k] == ins[k - 1] && r[k + 1] == ins[k]);
                    assert(!bytes_lt(keys[ins[(k - 1) + 1]], keys[ins[k - 1]]));
                }
            }
        }
        if order.no_duplicates() && !order.contains(j) {
            assert(!rest.contains(j)) by {
                if rest.contains(j) {
                    let m = choose|m: int| 0 <= m < rest.len() && rest[m] == j;
                    assert(order[m + 1] == j);
                }
            }
            assert(rest.no_duplicates()) by {
                assert forall|a: int, b: int| 0 <= a < rest.len() && 0 <= b < rest.len() && a != b implies rest[a] != rest[b] by {
                    assert(rest[a] == order[a + 1] && rest[b] == order[b + 1]);
                }
            }
            assert(!ins.contains(order[0])) by {
                if ins.contains(order[0]) {
                    if rest.contains(order[0]) {
                        let m = choose|m: int| 0 <= m < rest.len() && rest[m] == order[0];
                        assert(order[m + 1] == order[0]);
                    }
                }
            }
            assert forall|a: int, b: int| 0 <= a < r.len() && 0 <= b < r.len() && a != b implies r[a] != r[b] by {
                if a == 0 && b > 0 {
                    assert(r[b] == ins[b - 1]);
                    assert(ins.contains(r[b]));
                } else if b == 0 && a > 0 {
                    assert(r[a] == ins[a - 1]);
                    assert(ins.contains(r[a]));
                } else if a > 0 && b > 0 {
                    assert(r[a] == ins[a - 1] && r[b] == ins[b - 1]);
                }
            }
        }
    }
}

/// The order in which an object's entries are printed takes each of its `n`
/// entries exactly once, and no key in it comes before the key printed
/// before it: keys are printed in ascending byte order.
pub proof fn key_order_is_ascending_permutation(keys: Seq<Seq<u8>>, n: int)
    requires
        0 <= n,
    ensures
        sorted_order(keys, n).len() == n,
        sorted_order(keys, n).no_duplicates(),
        forall|k: int| 0 <= k < n ==> 0 <= #[trigger] sorted_order(keys, n)[k] < n,
        forall|x: int| #[trigger] sorted_order(keys, n).contains(x) <==> 0 <= x < n,
        keys_ascending(keys, sorted_order(keys, n)),
    decreases n,
{
    if n > 0 {
        let prev = sorted_order(keys, n - 1);
        key_order_is_ascending_permutation(keys, n - 1);
        assert(!prev.contains(n - 1)) by {
            if prev.contains(n - 1) {
                let m = choose|m: int| 0 <= m < prev.len() && prev[m] == n - 1;
            }
        }
        lemma_insert_index(prev, keys, n - 1);
        let r = sorted_order(keys, n);
        assert forall|k: int| 0 <= k < n implies 0 <= #[trigger] r[k] < n by {
            assert(r.contains(r[k]));
            if prev.contains(r[k]) {
                let m = choose|m: int| 0 <= m < prev.len() && prev[m] == r[k];
            }
        }
    } else {
        assert(sorted_order(keys, n) =~= seq![]);
    }
}

/// Of two different byte strings, one comes before the other.
pub proof fn bytes_lt_total(a: Seq<u8>, b: Seq<u8>)
    ensures
        a != b ==> bytes_lt(a, b) || bytes_lt(b, a),
    decreases a.len(),
{
    if a.len() > 0 && b.len() > 0 && a[0] == b[0] {
        bytes_lt_total(a.drop_first(), b.drop_first());
        if a.drop_first() == b.drop_first() {
            assert(a =~= seq![a[0]] + a.drop_first());
            assert(b =~= seq![b[0]] + b.drop_first());
        }
    } else if a.len() == 0 && b.len() == 0 {
        assert(a =~= b);
    }
}

/// Lexicographic byte order is transitive.
pub proof fn bytes_lt_transitive(a: Seq<u8>, b: Seq<u8>, c: Seq<u8>)
    requires
        bytes_lt(a, b),
        bytes_lt(b, c),
    ensures
        bytes_lt(a, c),
    decreases a.len(),
{
    if a.len() > 0 && a[0] == b[0] && b[0] == c[0] {
        bytes_lt_transitive(a.drop_first(), b.drop_first(), c.drop_first());
    }
}

/// The entries taken in the order `order`.
pub open spec fn entries_in_order(entries: Seq<(String, ParsedValue)>, order: Seq<int>) -> Seq<(String, ParsedValue)> {
    order.map_values(|k: int| entries[k])
}

/// Whether each key of `keys` comes strictly before every later one.
pub open spec fn strictly_ascending(keys: Seq<Seq<u8>>) -> bool {
    forall|i: int, j: int| 0 <= i < j < keys.len() ==> bytes_lt(#[trigger] keys[i], #[trigger] keys[j])
}

proof fn lemma_strictly_ascending(keys: Seq<Seq<u8>>, order: Seq<int>)
    requires
        keys.no_duplicates(),
        order.no_duplicates(),
        forall|k: int| 0 <= k < order.len() ==> 0 <= #[trigger] order[k] < keys.len(),
        keys_ascending(keys, order),
    ensures
        strictly_ascending(order.map_values(|k: int| keys[k])),
{
    let ks = order.map_values(|k: int| keys[k]);
    assert forall|i: int| 0 <= i < ks.len() - 1 implies bytes_lt(#[trigger] ks[i], ks[i + 1]) by {
        assert(ks[i] == keys[order[i]] && ks[i + 1] == keys[order[i + 1]]);
        assert(!bytes_lt(keys[order[i + 1]], keys[order[i]]));
        assert(order[i] != order[i + 1]);
        bytes_lt_total(keys[order[i]], keys[order[i + 1]]);
    }
    assert forall|i: int, j: int| 0 <= i < j < ks.len() implies bytes_lt(#[trigger] ks[i], #[trigger] ks[j]) by {
        lemma_ascending_span(ks, i, j);
    }
}

proof fn lemma_ascending_span(ks: Seq<Seq<u8>>, i: int, j: int)
    requires
        0 <= i < j < ks.len(),
        forall|k: int| 0 <= k < ks.len() - 1 ==> bytes_lt(#[trigger] ks[k], ks[k + 1]),
    ensures
        bytes_lt(ks[i], ks[j]),
    decreases j - i,
{
    if j > i + 1 {
        lemma_ascending_span(ks, i, j - 1);
        assert(bytes_lt(ks[j - 1], ks[(j - 1) + 1]));
        bytes_lt_transitive(ks[i], ks[j - 1], ks[j]);
    }
}

proof fn lemma_sorted_unique(a: Seq<(String, ParsedValue)>, b: Seq<(String, ParsedValue)>)
    requires
        strictly_ascending(entry_keys(a)),
        strictly_ascending(entry_keys(b)),
        forall|x: (String, ParsedValue)| a.contains(x) <==> b.contains(x),
    ensures
        a == b,
    decreases a.len(),
{
    let ka = entry_keys(a);
    let kb = entry_keys(b);
    if a.len() == 0 {
        if b.len() > 0 {
            assert(b.contains(b[0]));
        }
        assert(a =~= b);
    } else {
        assert(a.contains(a[0]));
        let j = choose|j: int| 0 <= j < b.len() && b[j] == a[0];
        assert(b.contains(b[0]));
        let i = choose|i: int| 0 <= i < a.len() && a[i] == b[0];
        if j > 0 {
            assert(bytes_lt(kb[0], kb[j]));
            if i > 0 {
                assert(bytes_lt(ka[0], ka[i]));
                bytes_lt_asymmetric(ka[0], ka[i]);
            } else {
                bytes_lt_asymmetric(kb[0], kb[j]);
            }
        }
        assert(a[0] == b[0]);
        let a2 = a.drop_first();
        let b2 = b.drop_first();
        assert forall|x: (String, ParsedValue)| a2.contains(x) <==> b2.contains(x) by {
            if a2.contains(x) {
                let k = choose|k: int| 0 <= k < a2.len() && a2[k] == x;
                assert(a[k + 1] == x);
                assert(a.contains(x));
                let m = choose|m: int| 0 <= m < b.len() && b[m] == x;
                if m == 0 {
                    assert(bytes_lt(ka[0], ka[k + 1]));
                    bytes_lt_asymmetric(ka[0], ka[k + 1]);
                }
                assert(b2[m - 1] == x);
            }
            if b2.contains(x) {
                let k = choose|k: int| 0 <= k < b2.len() && b2[k] == x;
                assert(b[k + 1] == x);
                assert(b.contains(x));
                let m = choose|m: int| 0 <= m < a.len() && a[m] == x;
                if m == 0 {
                    assert(bytes_lt(kb[0], kb[k + 1]));
                    bytes_lt_asymmetric(kb[0], kb[k + 1]);
                }
                assert(a2[m - 1] == x);
            }
        }
        let ka2 = entry_keys(a2);
        let kb2 = entry_keys(b2);
        assert forall|p: int, q: int| 0 <= p < q < ka2.len() implies bytes_lt(#[trigger] ka2[p], #[trigger] ka2[q]) by {
            assert(ka2[p] == ka[p + 1] && ka2[q] == ka[q + 1]);
        }
        assert forall|p: int, q: int| 0 <= p < q < kb2.len() implies bytes_lt(#[trigger] kb2[p], #[trigger] kb2[q]) by {
            assert(kb2[p] == kb[p + 1] && kb2[q] == kb[q + 1]);
        }
        lemma_sorted_unique(a2, b2);
        assert(a =~= seq![a[0]] + a2);
        assert(b =~= seq![b[0]] + b2);
    }
}

proof fn lemma_sorted_entries(entries: Seq<(String, ParsedValue)>)
    requires
        entry_keys(entries).no_duplicates(),
    ensures
        strictly_ascending(entry_keys(entries_in_order(entries, sorted_order(entry_keys(entries), entries.len() as int)))),
        forall|x: (String, ParsedValue)|
            #[trigger] entries_in_order(entries, sorted_order(entry_keys(entries), entries.len() as int)).contains(x)
                <==> entries.contains(x),
{
    let keys = entry_keys(entries);
    let n = entries.len() as int;
    let ord = sorted_order(keys, n);
    let a = entries_in_order(entries, ord);
    key_order_is_ascending_permutation(keys, n);
    lemma_strictly_ascending(keys, ord);
    assert(entry_keys(a) =~= ord.map_values(|k: int| keys[k]));
    assert forall|x: (String, ParsedValue)| #[trigger] a.contains(x) <==> entries.contains(x) by {
        if a.contains(x) {
            let i = choose|i: int| 0 <= i < a.len() && a[i] == x;
            assert(entries[ord[i]] == x);
        }
        if entries.contains(x) {
            let k = choose|k: int| 0 <= k < entries.len() && entries[k] == x;
            assert(ord.contains(k));
            let i = choose|i: int| 0 <= i < ord.len() && ord[i] == k;
            assert(a[i] == x);
        }
    }
}

/// Two objects with the same entries, each key once, print the same text
/// whatever the order of their entries: the printer's key ordering makes
/// its output independent of entry order.
pub proof fn rendering_ignores_entry_order(v1: Vec<(String, ParsedValue)>, v2: Vec<(String, ParsedValue)>)
    requires
        entry_keys(v1@).no_duplicates(),
        entry_keys(v2@).no_duplicates(),
        forall|x: (String, ParsedValue)| v1@.contains(x) <==> v2@.contains(x),
    ensures
        rendered(ParsedValue::Object(v1)) == rendered(ParsedValue::Object(v2)),
{
    let o1 = sorted_order(entry_keys(v1@), v1@.len() as int);
    let o2 = sorted_order(entry_keys(v2@), v2@.len() as int);
    lemma_sorted_entries(v1@);
    lemma_sorted_entries(v2@);
    key_order_is_ascending_permutation(entry_keys(v1@), v1@.len() as int);
    key_order_is_ascending_permutation(entry_keys(v2@), v2@.len() as int);
    let a = entries_in_order(v1@, o1);
    let b = entries_in_order(v2@, o2);
    assert forall|x: (String, ParsedValue)| a.contains(x) <==> b.contains(x) by {
        assert(a.contains(x) <==> v1@.contains(x));
        assert(b.contains(x) <==> v2@.contains(x));
    }
    lemma_sorted_unique(a, b);
    assert(entry_texts(v1@, o1) =~= entry_texts(v2@, o2)) by {
        assert forall|i: int| 0 <= i < o1.len() implies entry_texts(v1@, o1)[i] == entry_texts(v2@, o2)[i] by {
            assert(a[i] == b[i]);
        }
    }
}

proof fn lemma_fast_scan_capped(lines: Seq<Seq<char>>, q: Seq<char>, i: int, count: int)
    requires
        0 <= count <= MATCH_CAP + 1,
    ensures
        scan_lines(lines, fast_hits(q), i, count).1 <= MATCH_CAP + 1,
    decreases lines.len() - i,
{
    if !(i < 0 || i >= lines.len() || count > MATCH_CAP) {
        let spans = fast_hits(q)(lines[i], MATCH_CAP + 1 - count);
        assert(spans.len() <= MATCH_CAP + 1 - count);
        lemma_fast_scan_capped(lines, q, i + 1, count + spans.len());
    }
}

/// A fast search never counts more than one match past the cap: it stops
/// at the match that takes the count past it.
pub proof fn fast_search_count_is_capped(text: Seq<char>, query: Seq<char>)
    ensures
        search_outcome(text, query, SearchMode::FastSubstring).1 <= MATCH_CAP + 1,
{
    lemma_fast_scan_capped(lines_of(text), query, 0, 0);
}

/// Whether `hits` reports lines of `lines` numbered above `after`, in
/// ascending order, each with at least one match and with its own text.
pub open spec fn hits_well_ordered(hits: Seq<LineHits>, lines: Seq<Seq<char>>, after: int) -> bool {
    &&& forall|k: int| 0 <= k < hits.len() ==> after < (#[trigger] hits[k]).0 <= lines.len()
    &&& forall|k: int| 0 <= k < hits.len() ==> (#[trigger] hits[k]).1 == lines[hits[k].0 - 1]
    &&& forall|k: int| 0 <= k < hits.len() ==> (#[trigger] hits[k]).2.len() > 0
    &&& forall|k: int| 0 < k < hits.len() ==> hits[k - 1].0 < (#[trigger] hits[k]).0
}

proof fn lemma_scan_ordered(
    lines: Seq<Seq<char>>,
    hits: spec_fn(Seq<char>, int) -> Seq<(int, int)>,
    i: int,
    count: int,
)
    requires
        0 <= i,
    ensures
        hits_well_ordered(scan_lines(lines, hits, i, count).0, lines, i),
    decreases lines.len() - i,
{
    if !(i >= lines.len() || count > MATCH_CAP) {
        let spans = hits(lines[i], MATCH_CAP + 1 - count);
        let next = crate::search::capped_sum(count, spans.len() as int);
        lemma_scan_ordered(lines, hits, i + 1, next);
        let rest = scan_lines(lines, hits, i + 1, next).0;
        if spans.len() > 0 {
            let all = seq![(i + 1, lines[i], spans)] + rest;
            assert forall|k: int| 0 < k < all.len() implies all[k - 1].0 < (#[trigger] all[k]).0 by {
                if k > 1 {
                    assert(all[k - 1] == rest[k - 2] && all[k] == rest[k - 1]);
                } else {
                    assert(all[k] == rest[0]);
                }
            }
            assert forall|k: int| 0 < k < all.len() implies (#[trigger] all[k]) == rest[k - 1] by {}
        }
    }
}

/// Whatever the mode, a search reports only lines with at least one match,
/// each with its own number and text, in ascending order of line number.
pub proof fn search_lines_ascending(text: Seq<char>, query: Seq<char>, mode: SearchMode)
    ensures
        hits_well_ordered(search_outcome(text, query, mode).0, lines_of(text), 0),
{
    match mode {
        SearchMode::Regex => lemma_scan_ordered(lines_of(text), crate::search::regex_hits(query), 0, 0),
        SearchMode::FastSubstring => lemma_scan_ordered(lines_of(text), fast_hits(query), 0, 0),
    }
}

/// The occurrences that fast search reports on a line are real occurrences,
/// from left to right, and never overlap: each begins at or after the end of
/// the one before it.
pub proof fn occurrences_are_disjoint(hay: Seq<u8>, needle: Seq<u8>, from: int)
    ensures
        forall|k: int| 0 <= k < occurrences(hay, needle, from).len() ==> {
            let p = #[trigger] occurrences(hay, needle, from)[k];
            from <= p && occurs_at(hay, needle, p)
        },
        forall|k: int| 0 < k < occurrences(hay, needle, from).len() ==>
            occurrences(hay, needle, from)[k - 1] + needle.len() <= #[trigger] occurrences(hay, needle, from)[k],
    decreases hay.len() - from,
{
    let occ = occurrences(hay, needle, from);
    if needle.len() == 0 || from < 0 || from + needle.len() > hay.len() {
        assert(occ.len() == 0);
    } else if occurs_at(hay, needle, from) {
        let rest = occurrences(hay, needle, from + needle.len());
        occurrences_are_disjoint(hay, needle, from + needle.len());
        assert(occ == seq![from] + rest);
        assert forall|k: int| 0 < k < occ.len() implies occ[k - 1] + needle.len() <= #[trigger] occ[k] by {
            assert(occ[k] == rest[k - 1]);
            if k > 1 {
                assert(occ[k - 1] == rest[k - 2]);
            }
        }
        assert forall|k: int| 0 <= k < occ.len() implies from <= #[trigger] occ[k] && occurs_at(hay, needle, occ[k]) by {
            if k > 0 {
                assert(occ[k] == rest[k - 1]);
            }
        }
    } else {
        occurrences_are_disjoint(hay, needle, from + 1);
        let rest = occurrences(hay, needle, from + 1);
        assert(occ == rest);
        assert forall|k: int| 0 <= k < occ.len() implies from <= #[trigger] occ[k] && occurs_at(hay, needle, occ[k]) by {
            assert(occ[k] == rest[k]);
        }
        assert forall|k: int| 0 < k < occ.len() implies occ[k - 1] + needle.len() <= #[trigger] occ[k] by {
            assert(occ[k] == rest[k] && occ[k - 1] == rest[k - 1]);
        }
    }
}

} // verus!
