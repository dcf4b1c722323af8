use vstd::prelude::*;
use vstd::string::StringExecFns;
use vstd::utf8::encode_utf8;

use crate::text::{bytes_less, bytes_lt, positions};

verus! {

/// A parsed JSON value. Numbers keep their text; an object keeps its entries
/// in the order it was given them.
#[derive(Debug)]
pub enum ParsedValue {
    Null,
    Bool(bool),
    Number(String),
    Str(String),
    Array(Vec<ParsedValue>),
    Object(Vec<(String, ParsedValue)>),
}

/// The key of each entry, as bytes.
pub open spec fn entry_keys(entries: Seq<(String, ParsedValue)>) -> Seq<Seq<u8>> {
    entries.map_values(|e: (String, ParsedValue)| encode_utf8(e.0@))
}

/// `order` with the index `j` placed before the first index whose key comes
/// after the key of `j`, so that indices with equal keys keep their order.
pub open spec fn insert_index(order: Seq<int>, keys: Seq<Seq<u8>>, j: int) -> Seq<int>
    decreases order.len(),
{
    if order.len() == 0 {
        seq![j]
    } else if bytes_lt(keys[j], keys[order[0]]) {
        seq![j] + order
    } else {
        seq![order[0]] + insert_index(order.drop_first(), keys, j)
    }
}

/// The indices `0..n` in ascending order of their keys; indices with equal
/// keys stay in ascending order of index.
pub open spec fn sorted_order(keys: Seq<Seq<u8>>, n: int) -> Seq<int>
    decreases n,
{
    if n <= 0 {
        seq![]
    } else {
        insert_index(sorted_order(keys, n - 1), keys, n - 1)
    }
}

/// The parts with `sep` between each two of them.
pub open spec fn join(parts: Seq<Seq<char>>, sep: Seq<char>) -> Seq<char>
    decreases parts.len(),
{
    if parts.len() == 0 {
        seq![]
    } else if parts.len() == 1 {
        parts[0]
    } else {
        join(parts.drop_last(), sep) + sep + parts.last()
    }
}

/// The text of `v`: objects as `{`, newline, the `"key": value` entries in
/// ascending byte order of their keys joined by `,` and newline, newline,
/// `}`; arrays alike with `[` and `]` and no keys; strings quoted as they
/// are; numbers as their text; `true`, `false` and `null`.
pub open spec fn rendered(v: ParsedValue) -> Seq<char>
    decreases v,
{
    match v {
        ParsedValue::Null => "null"@,
        ParsedValue::Bool(b) => if b {
            "true"@
        } else {
            "false"@
        },
        ParsedValue::Number(n) => n@,
        ParsedValue::Str(s) => "\""@ + s@ + "\""@,
        ParsedValue::Array(items) => "[\n"@ + join(item_texts(items@), ",\n"@) + "\n]"@,
        ParsedValue::Object(entries) => "{\n"@ + join(
            entry_texts(entries@, sorted_order(entry_keys(entries@), entries@.len() as int)),
            ",\n"@,
        ) + "\n}"@,
    }
}

/// The text of each item.
pub open spec fn item_texts(items: Seq<ParsedValue>) -> Seq<Seq<char>>
    decreases items,
{
    Seq::new(
        items.len(),
        |i: int|
            if 0 <= i < items.len() {
                rendered(items[i])
            } else {
                seq![]
            },
    )
}

/// The text `"key": value` of each entry, taken in the order `order`.
pub open spec fn entry_texts(entries: Seq<(String, ParsedValue)>, order: Seq<int>) -> Seq<Seq<char>>
    decreases entries,
{
    Seq::new(
        order.len(),
        |i: int|
            if 0 <= order[i] < entries.len() {
                "\""@ + entries[order[i]].0@ + "\": "@ + rendered(entries[order[i]].1)
            } else {
                seq![]
            },
    )
}

proof fn lemma_insert_at(order: Seq<int>, keys: Seq<Seq<u8>>, j: int, p: int)
    requires
        0 <= p <= order.len(),
        forall|q: int| 0 <= q < p ==> !bytes_lt(keys[j], #[trigger] keys[order[q]]),
        p < order.len() ==> bytes_lt(keys[j], keys[order[p]]),
    ensures
        insert_index(order, keys, j) == order.take(p) + seq![j] + order.skip(p),
    decreases p,
{
    if p == 0 {
        if order.len() == 0 {
            assert(order.take(0) + seq![j] + order.skip(0) =~= seq![j]);
        } else {
            assert(order.take(0) + seq![j] + order.skip(0) =~= seq![j] + order);
        }
    } else {
        let rest = order.drop_first();
        assert forall|q: int| 0 <= q < p - 1 implies !bytes_lt(keys[j], #[trigger] keys[rest[q]]) by {
            assert(rest[q] == order[q + 1]);
        }
        if p - 1 < rest.len() {
            assert(rest[p - 1] == order[p]);
        }
        lemma_insert_at(rest, keys, j, p - 1);
        assert(!bytes_lt(keys[j], keys[order[0]]));
        assert(seq![order[0]] + (rest.take(p - 1) + seq![j] + rest.skip(p - 1)) =~= order.take(p)
            + seq![j] + order.skip(p));
    }
}

/// The entry indices in ascending byte order of their keys, equal keys in
/// the order of the entries.
pub fn key_order(entries: &Vec<(String, ParsedValue)>) -> (r: Vec<usize>)
    ensures
        positions(r@) == sorted_order(entry_keys(entries@), entries@.len() as int),
        r@.len() == entries@.len(),
        forall|k: int| 0 <= k < r@.len() ==> #[trigger] r@[k] < entries@.len(),
{
    let ghost keys = entry_keys(entries@);
    let n = entries.len();
    let mut order: Vec<usize> = Vec::new();
    proof {
        assert(positions(order@) =~= sorted_order(keys, 0));
    }
    for j in 0..n
        invariant
            n == entries@.len(),
            keys == entry_keys(entries@),
            positions(order@) == sorted_order(keys, j as int),
            order@.len() == j,
            forall|k: int| 0 <= k < order@.len() ==> #[trigger] order@[k] < j,
    {
        let key = entries[j].0.as_str().as_bytes();
        assert(key@ == keys[j as int]);
        let mut p: usize = 0;
        while p < order.len() && !bytes_less(key, entries[order[p]].0.as_str().as_bytes())
            invariant
                p <= order@.len(),
                order@.len() == j,
                j < n,
                n == entries@.len(),
                key@ == keys[j as int],
                keys == entry_keys(entries@),
                forall|k: int| 0 <= k < order@.len() ==> #[trigger] order@[k] < j,
                forall|q: int|
                    0 <= q < p ==> !bytes_lt(keys[j as int], #[trigger] keys[positions(order@)[q]]),
            decreases order@.len() - p,
        {
            p = p + 1;
        }
        let ghost before = positions(order@);
        let ghost old_order = order@;
        proof {
            assert forall|q: int| 0 <= q < p implies !bytes_lt(keys[j as int], #[trigger] keys[before[q]]) by {
            }
            lemma_insert_at(before, keys, j as int, p as int);
        }
        order.insert(p, j);
        proof {
            assert(positions(order@) =~= before.take(p as int) + seq![j as int] + before.skip(p as int));
            assert forall|k: int| 0 <= k < order@.len() implies #[trigger] order@[k] < j + 1 by {
                if k < p {
                    assert(order@[k] == old_order[k]);
                } else if k > p {
                    assert(order@[k] == old_order[k - 1]);
                }
            }
        }
    }
    order
}

/// Appends the text of `value` to `out`.
pub fn render_into(value: &ParsedValue, out: &mut String)
    ensures
        final(out)@ == old(out)@ + rendered(*value),
    decreases value,
{
    match value {
        ParsedValue::Null => out.append("null"),
        ParsedValue::Bool(b) => if *b {
            out.append("true")
        } else {
            out.append("false")
        },
        ParsedValue::Number(n) => out.append(n.as_str()),
        ParsedValue::Str(s) => {
            out.append("\"");
            out.append(s.as_str());
            out.append("\"");
            proof {
                assert(final(out)@ =~= old(out)@ + rendered(*value));
            }
        },
        ParsedValue::Array(items) => {
            let ghost parts = item_texts(items@);
            let ghost start = out@;
            out.append("[\n");
            proof {
                assert(join(parts.take(0), ",\n"@) =~= seq![]);
                assert(out@ =~= start + "[\n"@ + join(parts.take(0), ",\n"@));
            }
            for i in 0..items.len()
                invariant
                    out@ == start + "[\n"@ + join(parts.take(i as int), ",\n"@),
                    *value == ParsedValue::Array(*items),
                    parts.len() == items@.len(),
                    parts == item_texts(items@),
                    *value == ParsedValue::Array(*items),
            {
                let ghost mid = out@;
                if i > 0 {
                    out.append(",\n");
                }
                proof {
                    assert(decreases_to!(*items => items[i as int]));
                }
                proof {
                    assert(decreases_to!(*value => (*value)->Array_0));
                    assert(decreases_to!(*items => items@));
                    assert(decreases_to!(items@ => items@[i as int]));
                }
                render_into(&items[i], out);
                proof {
                    let t = parts.take(i + 1);
                    assert(t.drop_last() =~= parts.take(i as int));
                    if i == 0 {
                        assert(join(t, ",\n"@) == parts[0]);
                        assert(out@ =~= start + "[\n"@ + join(t, ",\n"@));
                    } else {
                        assert(join(t, ",\n"@) == join(parts.take(i as int), ",\n"@) + ",\n"@ + parts[i as int]);
                        assert(out@ =~= start + "[\n"@ + join(t, ",\n"@));
                    }
                }
            }
            out.append("\n]");
            proof {
                assert(parts.take(items@.len() as int) =~= parts);
                assert(rendered(*value) == "[\n"@ + join(parts, ",\n"@) + "\n]"@);
                assert(out@ =~= start + rendered(*value));
            }
        },
        ParsedValue::Object(entries) => {
            let order = key_order(entries);
            let ghost ord = sorted_order(entry_keys(entries@), entries@.len() as int);
            let ghost parts = entry_texts(entries@, ord);
            let ghost start = out@;
            out.append("{\n");
            proof {
                assert(join(parts.take(0), ",\n"@) =~= seq![]);
                assert(out@ =~= start + "{\n"@ + join(parts.take(0), ",\n"@));
            }
            for i in 0..order.len()
                invariant
                    out@ == start + "{\n"@ + join(parts.take(i as int), ",\n"@),
                    *value == ParsedValue::Object(*entries),
                    positions(order@) == ord,
                    order@.len() == entries@.len(),
                    forall|k: int| 0 <= k < order@.len() ==> #[trigger] order@[k] < entries@.len(),
                    parts.len() == order@.len(),
                    parts == entry_texts(entries@, ord),
                    *value == ParsedValue::Object(*entries),
            {
                if i > 0 {
                    out.append(",\n");
                }
                let e = order[i];
                let ghost before_entry = out@;
                out.append("\"");
                out.append(entries[e].0.as_str());
                out.append("\": ");
                proof {
                    assert(decreases_to!(*entries => entries[e as int]));
                }
                proof {
                    assert(decreases_to!(*value => (*value)->Object_0));
                    assert(decreases_to!(*entries => entries@));
                    assert(decreases_to!(entries@ => entries@[e as int]));
                    assert(decreases_to!(entries@[e as int] => entries@[e as int].1));
                }
                render_into(&entries[e].1, out);
                proof {
                    assert(ord[i as int] == e as int);
                    assert(out@ =~= before_entry + parts[i as int]);
                    let t = parts.take(i + 1);
                    assert(t.drop_last() =~= parts.take(i as int));
                    if i == 0 {
                        assert(join(t, ",\n"@) == parts[0]);
                        assert(out@ =~= start + "{\n"@ + join(t, ",\n"@));
                    } else {
                        assert(join(t, ",\n"@) == join(parts.take(i as int), ",\n"@) + ",\n"@ + parts[i as int]);
                        assert(out@ =~= start + "{\n"@ + join(t, ",\n"@));
                    }
                }
            }
            out.append("\n}");
            proof {
                assert(parts.take(order@.len() as int) =~= parts);
                assert(out@ =~= start + rendered(*value));
            }
        },
    }
}

/// The text of `value`; see `rendered`.
pub fn render(value: &ParsedValue) -> (r: String)
    ensures
        r@ == rendered(*value),
{
    let mut out = String::new();
    render_into(value, &mut out);
    proof {
        assert(out@ =~= rendered(*value));
    }
    out
}

} // verus!
