//! The properties the extraction pass guarantees, stated and proved over the
//! mathematical model: determinism, the sort/dedup shape of the result, the
//! generic-plural rule, the no-value invariant, and attribute isolation.

use vstd::prelude::*;

use crate::ast::{
    Attribute,
    Entry,
    Expression,
    InlineExpression,
    Message,
    NamedArgument,
    Pattern,
    PatternElement,
    Resource,
};
use crate::order::{key_le, lemma_key_le_antisym, lemma_key_le_total, lemma_key_le_trans};
use crate::parse::{
    dedup_from,
    dedup_msgs,
    infer_variants,
    insert_sorted,
    is_generic_key,
    keys_of,
    msg_key,
    remove_other,
    sort_msgs,
    spec_args_named,
    spec_args_positional,
    spec_attribute,
    spec_attributes,
    spec_collect,
    spec_element,
    spec_elements,
    spec_inline,
    spec_message,
    spec_pattern,
    spec_resource,
    AttributeModel,
    MessageModel,
    MessagesModel,
    PlaceholderModel,
};

verus! {

/// Schemas in ascending case-insensitive name order.
pub open spec fn sorted_by_key(s: Seq<MessageModel>) -> bool {
    forall|i: int, j: int|
        0 <= i < j < s.len() ==> key_le(msg_key(#[trigger] s[i]), msg_key(#[trigger] s[j]))
}

/// No two schemas with the same case-insensitive name.
pub open spec fn distinct_keys(s: Seq<MessageModel>) -> bool {
    forall|i: int, j: int|
        0 <= i < j < s.len() ==> msg_key(#[trigger] s[i]) != msg_key(#[trigger] s[j])
}

/// Some schema of `s` carries the case-insensitive name `k`.
pub open spec fn has_key(s: Seq<MessageModel>, k: Seq<char>) -> bool {
    exists|i: int| 0 <= i < s.len() && msg_key(#[trigger] s[i]) == k
}

/// Membership distributes over concatenation.
proof fn lemma_concat_contains(a: Seq<MessageModel>, b: Seq<MessageModel>, y: MessageModel)
    ensures
        (a + b).contains(y) <==> (a.contains(y) || b.contains(y)),
{
    let s = a + b;
    if a.contains(y) {
        let i = choose|i: int| 0 <= i < a.len() && a[i] == y;
        assert(s[i] == y);
    }
    if b.contains(y) {
        let i = choose|i: int| 0 <= i < b.len() && b[i] == y;
        assert(s[a.len() + i] == y);
    }
    if s.contains(y) {
        let i = choose|i: int| 0 <= i < s.len() && s[i] == y;
        if i < a.len() {
            assert(a[i] == y);
        } else {
            assert(b[i - a.len()] == y);
        }
    }
}

/// Inserting adds one schema and otherwise keeps the elements.
proof fn lemma_insert_sorted_elems(s: Seq<MessageModel>, m: MessageModel)
    ensures
        insert_sorted(s, m).len() == s.len() + 1,
        forall|y: MessageModel|
            #[trigger] insert_sorted(s, m).contains(y) <==> (s.contains(y) || y == m),
    decreases s.len(),
{
    let r = insert_sorted(s, m);
    if s.len() == 0 {
        assert forall|y: MessageModel| #[trigger] r.contains(y) <==> (s.contains(y) || y == m) by {
            assert(r[0] == m);
            if r.contains(y) {
                let i = choose|i: int| 0 <= i < r.len() && r[i] == y;
                assert(i == 0);
            }
        }
    } else {
        let tail = s.subrange(1, s.len() as int);
        if key_le(msg_key(s[0]), msg_key(m)) {
            lemma_insert_sorted_elems(tail, m);
            let rt = insert_sorted(tail, m);
            assert(s =~= seq![s[0]] + tail);
            assert forall|y: MessageModel|
                #[trigger] r.contains(y) <==> (s.contains(y) || y == m) by {
                lemma_concat_contains(seq![s[0]], rt, y);
                lemma_concat_contains(seq![s[0]], tail, y);
                assert(seq![s[0]].contains(y) <==> y == s[0]) by {
                    if seq![s[0]].contains(y) {
                        let i = choose|i: int| 0 <= i < 1 && seq![s[0]][i] == y;
                        assert(i == 0);
                    }
                    if y == s[0] {
                        assert(seq![s[0]][0] == y);
                    }
                }
            }
        } else {
            assert forall|y: MessageModel|
                #[trigger] r.contains(y) <==> (s.contains(y) || y == m) by {
                lemma_concat_contains(seq![m], s, y);
                assert(seq![m].contains(y) <==> y == m) by {
                    if seq![m].contains(y) {
                        let i = choose|i: int| 0 <= i < 1 && seq![m][i] == y;
                        assert(i == 0);
                    }
                    if y == m {
                        assert(seq![m][0] == y);
                    }
                }
            }
        }
    }
}

/// Inserting into a sorted run keeps it sorted.
proof fn lemma_insert_sorted_sorted(s: Seq<MessageModel>, m: MessageModel)
    requires
        sorted_by_key(s),
    ensures
        sorted_by_key(insert_sorted(s, m)),
    decreases s.len(),
{
    let r = insert_sorted(s, m);
    if s.len() == 0 {
        assert(sorted_by_key(r));
    } else {
        let tail = s.subrange(1, s.len() as int);
        assert(sorted_by_key(tail));
        if key_le(msg_key(s[0]), msg_key(m)) {
            lemma_insert_sorted_sorted(tail, m);
            lemma_insert_sorted_elems(tail, m);
            let rt = insert_sorted(tail, m);
            // The head key is at or below every key of the inserted tail.
            assert forall|j: int| 0 <= j < rt.len() implies key_le(
                msg_key(s[0]),
                msg_key(rt[j]),
            ) by {
                assert(rt.contains(rt[j]));
                if rt[j] == m {
                } else {
                    let i = choose|i: int| 0 <= i < tail.len() && tail[i] == rt[j];
                    assert(s[i + 1] == tail[i]);
                }
            }
            assert forall|i: int, j: int| 0 <= i < j < r.len() implies key_le(
                msg_key(r[i]),
                msg_key(r[j]),
            ) by {
                if i == 0 {
                    assert(r[j] == rt[j - 1]);
                } else {
                    assert(r[i] == rt[i - 1]);
                    assert(r[j] == rt[j - 1]);
                }
            }
        } else {
            lemma_key_le_total(msg_key(s[0]), msg_key(m));
            assert(key_le(msg_key(m), msg_key(s[0])));
            assert forall|i: int, j: int| 0 <= i < j < r.len() implies key_le(
                msg_key(r[i]),
                msg_key(r[j]),
            ) by {
                if i == 0 {
                    assert(r[j] == s[j - 1]);
                    if j - 1 > 0 {
                        lemma_key_le_trans(msg_key(m), msg_key(s[0]), msg_key(s[j - 1]));
                    }
                } else {
                    assert(r[i] == s[i - 1]);
                    assert(r[j] == s[j - 1]);
                }
            }
        }
    }
}

/// Sorting keeps the elements and yields an ascending run.
proof fn lemma_sort_msgs_props(s: Seq<MessageModel>)
    ensures
        sort_msgs(s).len() == s.len(),
        sorted_by_key(sort_msgs(s)),
        forall|y: MessageModel| #[trigger] sort_msgs(s).contains(y) <==> s.contains(y),
    decreases s.len(),
{
    let r = sort_msgs(s);
    if s.len() == 0 {
        assert forall|y: MessageModel| #[trigger] r.contains(y) <==> s.contains(y) by {
            if r.contains(y) {
                let i = choose|i: int| 0 <= i < r.len() && r[i] == y;
            }
            if s.contains(y) {
                let i = choose|i: int| 0 <= i < s.len() && s[i] == y;
            }
        }
    } else {
        let pre = s.subrange(0, s.len() - 1);
        let last = s[s.len() - 1];
        lemma_sort_msgs_props(pre);
        lemma_insert_sorted_sorted(sort_msgs(pre), last);
        lemma_insert_sorted_elems(sort_msgs(pre), last);
        assert(s =~= pre + seq![last]);
        assert forall|y: MessageModel| #[trigger] r.contains(y) <==> s.contains(y) by {
            lemma_concat_contains(pre, seq![last], y);
            assert(seq![last].contains(y) <==> y == last) by {
                if seq![last].contains(y) {
                    let i = choose|i: int| 0 <= i < 1 && seq![last][i] == y;
                    assert(i == 0);
                }
                if y == last {
                    assert(seq![last][0] == y);
                }
            }
        }
    }
}


/// Deduplication of a sorted run whose keys all sit at or above `prev`:
/// the result is sorted, its keys are pairwise distinct and all strictly
/// above `prev`, its schemas are drawn from the run, and every key of the
/// run other than `prev` survives.
proof fn lemma_dedup_from_props(s: Seq<MessageModel>, prev: Seq<char>)
    requires
        sorted_by_key(s),
        forall|i: int| 0 <= i < s.len() ==> key_le(prev, msg_key(#[trigger] s[i])),
    ensures
        sorted_by_key(dedup_from(s, prev)),
        distinct_keys(dedup_from(s, prev)),
        forall|y: MessageModel| #[trigger] dedup_from(s, prev).contains(y) ==> s.contains(y),
        forall|y: MessageModel|
            #[trigger] dedup_from(s, prev).contains(y) ==> (key_le(prev, msg_key(y))
                && msg_key(y) != prev),
        forall|k: Seq<char>|
            #[trigger] has_key(s, k) && k != prev ==> has_key(dedup_from(s, prev), k),
    decreases s.len(),
{
    let r = dedup_from(s, prev);
    if s.len() == 0 {
        assert forall|k: Seq<char>| #[trigger] has_key(s, k) && k != prev implies has_key(
            r,
            k,
        ) by {
            let i = choose|i: int| 0 <= i < s.len() && msg_key(s[i]) == k;
        }
    } else {
        let tail = s.subrange(1, s.len() as int);
        let k0 = msg_key(s[0]);
        assert(sorted_by_key(tail));
        assert forall|i: int| 0 <= i < tail.len() implies key_le(k0, msg_key(
            #[trigger] tail[i],
        )) by {
            assert(tail[i] == s[i + 1]);
        }
        if k0 == prev {
            lemma_dedup_from_props(tail, prev);
            assert forall|y: MessageModel| #[trigger] r.contains(y) implies s.contains(y) by {
                if tail.contains(y) {
                    let i = choose|i: int| 0 <= i < tail.len() && tail[i] == y;
                    assert(s[i + 1] == y);
                }
            }
            assert forall|k: Seq<char>| #[trigger] has_key(s, k) && k != prev implies has_key(
                r,
                k,
            ) by {
                let i = choose|i: int| 0 <= i < s.len() && msg_key(s[i]) == k;
                assert(i != 0);
                assert(msg_key(tail[i - 1]) == k);
                assert(has_key(tail, k));
            }
        } else {
            lemma_dedup_from_props(tail, k0);
            let rt = dedup_from(tail, k0);
            assert(r == seq![s[0]] + rt);
            // Every schema of the deduplicated tail sits strictly above the
            // head key, hence also strictly above `prev`.
            assert forall|y: MessageModel| #[trigger] rt.contains(y) implies (key_le(
                k0,
                msg_key(y),
            ) && msg_key(y) != k0 && key_le(prev, msg_key(y)) && msg_key(y) != prev) by {
                lemma_key_le_trans(prev, k0, msg_key(y));
                if msg_key(y) == prev {
                    lemma_key_le_antisym(prev, k0);
                }
            }
            assert forall|y: MessageModel| #[trigger] r.contains(y) implies s.contains(y) by {
                lemma_concat_contains(seq![s[0]], rt, y);
                if seq![s[0]].contains(y) {
                    let i = choose|i: int| 0 <= i < 1 && seq![s[0]][i] == y;
                    assert(y == s[0]);
                } else {
                    assert(rt.contains(y));
                    let i = choose|i: int| 0 <= i < tail.len() && tail[i] == y;
                    assert(s[i + 1] == y);
                }
            }
            assert forall|y: MessageModel| #[trigger] r.contains(y) implies (key_le(
                prev,
                msg_key(y),
            ) && msg_key(y) != prev) by {
                lemma_concat_contains(seq![s[0]], rt, y);
                if seq![s[0]].contains(y) {
                    let i = choose|i: int| 0 <= i < 1 && seq![s[0]][i] == y;
                    assert(y == s[0]);
                }
            }
            assert forall|i: int, j: int| 0 <= i < j < r.len() implies (key_le(
                msg_key(r[i]),
                msg_key(r[j]),
            ) && msg_key(r[i]) != msg_key(r[j])) by {
                assert(r[j] == rt[j - 1]);
                assert(rt.contains(rt[j - 1]));
                if i == 0 {
                    assert(r[i] == s[0]);
                } else {
                    assert(r[i] == rt[i - 1]);
                }
            }
            assert forall|k: Seq<char>| #[trigger] has_key(s, k) && k != prev implies has_key(
                r,
                k,
            ) by {
                let i = choose|i: int| 0 <= i < s.len() && msg_key(s[i]) == k;
                if i == 0 {
                    assert(r[0] == s[0]);
                    assert(msg_key(r[0]) == k);
                } else {
                    assert(msg_key(tail[i - 1]) == k);
                    assert(has_key(tail, k));
                    if k != k0 {
                        assert(has_key(rt, k));
                        let w = choose|w: int| 0 <= w < rt.len() && msg_key(rt[w]) == k;
                        assert(r[w + 1] == rt[w]);
                        assert(msg_key(r[w + 1]) == k);
                    } else {
                        assert(r[0] == s[0]);
                        assert(msg_key(r[0]) == k);
                    }
                }
            }
        }
    }
}

/// Deduplication of a sorted run: the result is sorted with pairwise
/// distinct keys, its schemas are drawn from the run, and exactly the keys
/// of the run survive.
proof fn lemma_dedup_msgs_props(s: Seq<MessageModel>)
    requires
        sorted_by_key(s),
    ensures
        sorted_by_key(dedup_msgs(s)),
        distinct_keys(dedup_msgs(s)),
        forall|y: MessageModel| #[trigger] dedup_msgs(s).contains(y) ==> s.contains(y),
        forall|k: Seq<char>| #[trigger] has_key(dedup_msgs(s), k) <==> has_key(s, k),
{
    let r = dedup_msgs(s);
    if s.len() == 0 {
        assert forall|k: Seq<char>| #[trigger] has_key(r, k) <==> has_key(s, k) by {
            if has_key(r, k) {
                let i = choose|i: int| 0 <= i < r.len() && msg_key(r[i]) == k;
            }
            if has_key(s, k) {
                let i = choose|i: int| 0 <= i < s.len() && msg_key(s[i]) == k;
            }
        }
    } else {
        let tail = s.subrange(1, s.len() as int);
        let k0 = msg_key(s[0]);
        assert(sorted_by_key(tail));
        assert forall|i: int| 0 <= i < tail.len() implies key_le(k0, msg_key(
            #[trigger] tail[i],
        )) by {
            assert(tail[i] == s[i + 1]);
        }
        lemma_dedup_from_props(tail, k0);
        let rt = dedup_from(tail, k0);
        assert(r == seq![s[0]] + rt);
        assert forall|y: MessageModel| #[trigger] r.contains(y) implies s.contains(y) by {
            lemma_concat_contains(seq![s[0]], rt, y);
            if seq![s[0]].contains(y) {
                let i = choose|i: int| 0 <= i < 1 && seq![s[0]][i] == y;
                assert(y == s[0]);
            } else {
                assert(rt.contains(y));
                let i = choose|i: int| 0 <= i < tail.len() && tail[i] == y;
                assert(s[i + 1] == y);
            }
        }
        assert forall|i: int, j: int| 0 <= i < j < r.len() implies (key_le(
            msg_key(#[trigger] r[i]),
            msg_key(#[trigger] r[j]),
        ) && msg_key(r[i]) != msg_key(r[j])) by {
            assert(r[j] == rt[j - 1]);
            assert(rt.contains(rt[j - 1]));
            if i == 0 {
                assert(r[i] == s[0]);
            } else {
                assert(r[i] == rt[i - 1]);
            }
        }
        assert(sorted_by_key(r));
        assert(distinct_keys(r));
        assert forall|k: Seq<char>| #[trigger] has_key(r, k) implies has_key(s, k) by {
            let i = choose|i: int| 0 <= i < r.len() && msg_key(r[i]) == k;
            assert(r.contains(r[i]));
            assert(s.contains(r[i]));
            let w = choose|w: int| 0 <= w < s.len() && s[w] == r[i];
            assert(msg_key(s[w]) == k);
        }
        assert forall|k: Seq<char>| #[trigger] has_key(s, k) implies has_key(r, k) by {
            let i = choose|i: int| 0 <= i < s.len() && msg_key(s[i]) == k;
            if i == 0 || k == k0 {
                assert(r[0] == s[0]);
                assert(msg_key(r[0]) == k0);
            } else {
                assert(msg_key(tail[i - 1]) == k);
                assert(has_key(tail, k));
                assert(has_key(rt, k));
                let w = choose|w: int| 0 <= w < rt.len() && msg_key(rt[w]) == k;
                assert(r[w + 1] == rt[w]);
                assert(msg_key(r[w + 1]) == k);
            }
        }
    }
}



/// Whether a schema upholds the no-value rule: no default pattern means no
/// pattern-derived placeholders.
pub open spec fn no_value_ok(m: MessageModel) -> bool {
    !m.has_value ==> m.placeholders is None
}

/// Every schema collected from a resource upholds the no-value rule.
proof fn lemma_collect_no_value(body: Seq<Entry>)
    ensures
        forall|y: MessageModel| #[trigger] spec_collect(body).contains(y) ==> no_value_ok(y),
    decreases body.len(),
{
    let c = spec_collect(body);
    if body.len() == 0 {
    } else {
        let rest = spec_collect(body.subrange(1, body.len() as int));
        lemma_collect_no_value(body.subrange(1, body.len() as int));
        match body[0] {
            Entry::Message(m) => {
                assert forall|y: MessageModel| #[trigger] c.contains(y) implies no_value_ok(
                    y,
                ) by {
                    lemma_concat_contains(seq![spec_message(m)], rest, y);
                    if seq![spec_message(m)].contains(y) {
                        let i = choose|i: int| 0 <= i < 1 && seq![spec_message(m)][i] == y;
                        assert(y == spec_message(m));
                    }
                }
            },
            _ => {},
        }
    }
}

/// Determinism: the extraction result is a function of the input tree alone,
/// so any two results for the same tree are equal.
pub proof fn lemma_extract_deterministic(t: Resource, r1: MessagesModel, r2: MessagesModel)
    requires
        r1 == spec_resource(t),
        r2 == spec_resource(t),
    ensures
        r1 == r2,
{
}

/// The sort/dedup law: the extracted schemas are in ascending
/// case-insensitive name order, no two of them share a case-insensitive
/// name, each of them is the schema of a message of the resource, and every
/// case-insensitive name occurring among the resource's messages is
/// represented.
pub proof fn lemma_sort_dedup_law(t: Resource)
    ensures
        sorted_by_key(spec_resource(t).msgs),
        distinct_keys(spec_resource(t).msgs),
        forall|y: MessageModel|
            #[trigger] spec_resource(t).msgs.contains(y) ==> spec_collect(t.body@).contains(y),
        forall|k: Seq<char>|
            #[trigger] has_key(spec_resource(t).msgs, k) <==> has_key(spec_collect(t.body@), k),
{
    let c = spec_collect(t.body@);
    let sorted = sort_msgs(c);
    lemma_sort_msgs_props(c);
    lemma_dedup_msgs_props(sorted);
    assert forall|k: Seq<char>| #[trigger] has_key(sorted, k) <==> has_key(c, k) by {
        if has_key(sorted, k) {
            let i = choose|i: int| 0 <= i < sorted.len() && msg_key(sorted[i]) == k;
            assert(sorted.contains(sorted[i]));
            let w = choose|w: int| 0 <= w < c.len() && c[w] == sorted[i];
            assert(msg_key(c[w]) == k);
        }
        if has_key(c, k) {
            let i = choose|i: int| 0 <= i < c.len() && msg_key(c[i]) == k;
            assert(c.contains(c[i]));
            assert(sorted.contains(c[i]));
            let w = choose|w: int| 0 <= w < sorted.len() && sorted[w] == c[i];
            assert(msg_key(sorted[w]) == k);
        }
    }
}

/// The generic-plural law: a selector whose arm keys all come from the
/// generic plural categories yields no variant constraint.
pub proof fn lemma_generic_plural(keys: Seq<Seq<char>>)
    requires
        forall|i: int| 0 <= i < keys.len() ==> is_generic_key(#[trigger] keys[i]),
    ensures
        infer_variants(keys) is None,
{
}

/// The no-value invariant: an extracted schema without a default pattern
/// carries no pattern-derived placeholders.
pub proof fn lemma_no_value_invariant(t: Resource)
    ensures
        forall|y: MessageModel| #[trigger] spec_resource(t).msgs.contains(y) ==> no_value_ok(y),
{
    lemma_collect_no_value(t.body@);
    lemma_sort_dedup_law(t);
}

/// Attribute isolation: a message's own placeholder list is a function of
/// its default pattern alone, so nothing declared inside an attribute's
/// pattern can appear in it.
pub proof fn lemma_attribute_isolation(m1: Message, m2: Message)
    requires
        m1.value == m2.value,
    ensures
        spec_message(m1).placeholders == spec_message(m2).placeholders,
{
}



/// A well-formed variant set: when present it is non-empty and never holds
/// the literal `other`.
pub open spec fn variants_wf(v: Option<Seq<Seq<char>>>) -> bool {
    match v {
        None => true,
        Some(vs) => vs.len() > 0 && forall|i: int| 0 <= i < vs.len() ==> #[trigger] vs[i]
            != "other"@,
    }
}

/// Every placeholder of the run carries a well-formed variant set.
pub open spec fn placeholders_wf(ps: Seq<PlaceholderModel>) -> bool {
    forall|i: int| 0 <= i < ps.len() ==> variants_wf(#[trigger] ps[i].variants)
}

/// Every placeholder of an attribute schema carries a well-formed variant
/// set.
pub open spec fn attribute_wf(a: AttributeModel) -> bool {
    match a.placeholders {
        None => true,
        Some(ps) => placeholders_wf(ps),
    }
}

/// Every placeholder anywhere in a message schema carries a well-formed
/// variant set.
pub open spec fn message_wf(m: MessageModel) -> bool {
    &&& match m.placeholders {
        None => true,
        Some(ps) => placeholders_wf(ps),
    }
    &&& match m.attrs {
        None => true,
        Some(ats) => forall|i: int| 0 <= i < ats.len() ==> attribute_wf(#[trigger] ats[i]),
    }
}

/// Stripping the `other` arms leaves no `other` behind.
proof fn lemma_remove_other_wf(keys: Seq<Seq<char>>)
    ensures
        forall|i: int|
            0 <= i < remove_other(keys).len() ==> #[trigger] remove_other(keys)[i] != "other"@,
    decreases keys.len(),
{
    if keys.len() != 0 {
        let tail = keys.subrange(1, keys.len() as int);
        lemma_remove_other_wf(tail);
        if keys[0] != "other"@ {
            assert forall|i: int| 0 <= i < remove_other(keys).len() implies #[trigger] remove_other(
                keys,
            )[i] != "other"@ by {
                if i >= 1 {
                    assert(remove_other(keys)[i] == remove_other(tail)[i - 1]);
                }
            }
        }
    }
}

/// Variant inference only yields well-formed variant sets.
pub proof fn lemma_variant_inference_wf(keys: Seq<Seq<char>>)
    ensures
        variants_wf(infer_variants(keys)),
{
    lemma_remove_other_wf(keys);
}

/// Placeholder runs stay well-formed under concatenation.
proof fn lemma_placeholders_wf_concat(a: Seq<PlaceholderModel>, b: Seq<PlaceholderModel>)
    requires
        placeholders_wf(a),
        placeholders_wf(b),
    ensures
        placeholders_wf(a + b),
{
    assert forall|i: int| 0 <= i < (a + b).len() implies variants_wf(
        #[trigger] (a + b)[i].variants,
    ) by {
        if i < a.len() {
            assert((a + b)[i] == a[i]);
        } else {
            assert((a + b)[i] == b[i - a.len()]);
        }
    }
}

/// An inline expression given a well-formed variant set contributes only
/// well-formed placeholders.
proof fn lemma_inline_wf(e: InlineExpression, v: Option<Seq<Seq<char>>>)
    requires
        variants_wf(v),
    ensures
        placeholders_wf(spec_inline(e, v)),
    decreases e,
{
    match e {
        InlineExpression::FunctionReference { name: _, arguments } => {
            lemma_args_positional_wf(arguments.positional@, v);
            lemma_args_named_wf(arguments.named@, v);
            lemma_placeholders_wf_concat(
                spec_args_positional(arguments.positional@, v),
                spec_args_named(arguments.named@, v),
            );
        },
        _ => {},
    }
}

/// Positional arguments contribute only well-formed placeholders.
proof fn lemma_args_positional_wf(s: Seq<InlineExpression>, v: Option<Seq<Seq<char>>>)
    requires
        variants_wf(v),
    ensures
        placeholders_wf(spec_args_positional(s, v)),
    decreases s,
{
    if s.len() != 0 {
        lemma_inline_wf(s[0], v);
        lemma_args_positional_wf(s.subrange(1, s.len() as int), v);
        lemma_placeholders_wf_concat(
            spec_inline(s[0], v),
            spec_args_positional(s.subrange(1, s.len() as int), v),
        );
    }
}

/// Named arguments contribute only well-formed placeholders.
proof fn lemma_args_named_wf(s: Seq<NamedArgument>, v: Option<Seq<Seq<char>>>)
    requires
        variants_wf(v),
    ensures
        placeholders_wf(spec_args_named(s, v)),
    decreases s,
{
    if s.len() != 0 {
        lemma_inline_wf(s[0].value, v);
        lemma_args_named_wf(s.subrange(1, s.len() as int), v);
        lemma_placeholders_wf_concat(
            spec_inline(s[0].value, v),
            spec_args_named(s.subrange(1, s.len() as int), v),
        );
    }
}

/// A pattern contributes only well-formed placeholders.
proof fn lemma_pattern_wf(p: Pattern)
    ensures
        placeholders_wf(spec_pattern(p)),
{
    lemma_elements_wf(p.elements@);
}

/// Pattern elements contribute only well-formed placeholders.
proof fn lemma_elements_wf(s: Seq<PatternElement>)
    ensures
        placeholders_wf(spec_elements(s)),
    decreases s.len(),
{
    if s.len() != 0 {
        match s[0] {
            PatternElement::Placeable { expression } => {
                match expression {
                    Expression::Select { selector, variants } => {
                        lemma_variant_inference_wf(keys_of(variants@));
                        lemma_inline_wf(selector, infer_variants(keys_of(variants@)));
                    },
                    Expression::Inline(inl) => {
                        lemma_inline_wf(inl, None);
                    },
                }
            },
            _ => {},
        }
        lemma_elements_wf(s.subrange(1, s.len() as int));
        lemma_placeholders_wf_concat(
            spec_element(s[0]),
            spec_elements(s.subrange(1, s.len() as int)),
        );
    }
}

/// Every schema collected from a resource is well-formed.
proof fn lemma_collect_wf(body: Seq<Entry>)
    ensures
        forall|y: MessageModel| #[trigger] spec_collect(body).contains(y) ==> message_wf(y),
    decreases body.len(),
{
    let c = spec_collect(body);
    if body.len() != 0 {
        let rest = spec_collect(body.subrange(1, body.len() as int));
        lemma_collect_wf(body.subrange(1, body.len() as int));
        match body[0] {
            Entry::Message(m) => {
                assert(message_wf(spec_message(m))) by {
                    match m.value {
                        Some(p) => {
                            lemma_pattern_wf(p);
                        },
                        None => {},
                    }
                    if m.attributes@.len() != 0 {
                        lemma_attributes_wf(m.attributes@);
                    }
                }
                assert forall|y: MessageModel| #[trigger] c.contains(y) implies message_wf(
                    y,
                ) by {
                    lemma_concat_contains(seq![spec_message(m)], rest, y);
                    if seq![spec_message(m)].contains(y) {
                        let i = choose|i: int| 0 <= i < 1 && seq![spec_message(m)][i] == y;
                        assert(y == spec_message(m));
                    }
                }
            },
            _ => {},
        }
    }
}

/// Every attribute schema of a run is well-formed.
proof fn lemma_attributes_wf(s: Seq<Attribute>)
    ensures
        forall|i: int|
            0 <= i < spec_attributes(s).len() ==> attribute_wf(#[trigger] spec_attributes(s)[i]),
    decreases s.len(),
{
    if s.len() != 0 {
        let tail = s.subrange(1, s.len() as int);
        lemma_attributes_wf(tail);
        lemma_pattern_wf(s[0].value);
        assert(attribute_wf(spec_attribute(s[0])));
        assert forall|i: int| 0 <= i < spec_attributes(s).len() implies attribute_wf(
            #[trigger] spec_attributes(s)[i],
        ) by {
            if i >= 1 {
                assert(spec_attributes(s)[i] == spec_attributes(tail)[i - 1]);
            } else {
                assert(spec_attributes(s)[0] == spec_attribute(s[0]));
            }
        }
    }
}

/// The variant-set invariant: in every extracted schema, a placeholder's
/// variant set, when present, is non-empty and never holds the literal
/// `other`.
pub proof fn lemma_variants_invariant(t: Resource)
    ensures
        forall|y: MessageModel| #[trigger] spec_resource(t).msgs.contains(y) ==> message_wf(y),
{
    lemma_collect_wf(t.body@);
    lemma_sort_dedup_law(t);
}


} // verus!
