//! Answers to the queries that a decoded value may hold.
use crate::json::{entries_of, views, Entries, Json, Object, Value};
use vstd::prelude::*;

verus! {

/// Whether a value is a query.
pub open spec fn is_query(v: Json) -> bool {
    v is Quantity || v is Bash || v is Condition
}

/// Answers as mathematics.
pub open spec fn answer_views(answers: Seq<(Value, Value)>) -> Seq<(Json, Json)> {
    answers.map_values(|a: (Value, Value)| (a.0@, a.1@))
}

/// The first answer to `v`, or `v` itself.
pub open spec fn answer(answers: Seq<(Json, Json)>, v: Json) -> Json
    decreases answers.len(),
{
    if answers.len() == 0 {
        v
    } else if answers[0].0 == v {
        answers[0].1
    } else {
        answer(answers.drop_first(), v)
    }
}

/// The value with the answers in place of its queries; a query without an
/// answer stays.
pub open spec fn settled(v: Json, answers: Seq<(Json, Json)>) -> Json
    decreases v,
{
    match v {
        Json::Arr(items) => Json::Arr(
            Seq::new(
                items.len(),
                |i: int|
                    if 0 <= i < items.len() {
                        settled(items[i], answers)
                    } else {
                        Json::Null
                    },
            ),
        ),
        Json::Obj(o) => Json::Obj(
            Seq::new(
                o.len(),
                |i: int|
                    if 0 <= i < o.len() {
                        (o[i].0, settled(o[i].1, answers))
                    } else {
                        (Seq::empty(), Json::Null)
                    },
            ),
        ),
        _ => if is_query(v) {
            answer(answers, v)
        } else {
            v
        },
    }
}

/// The first answer to `v`, or a copy of `v`.
fn find_answer(v: &Value, answers: &Vec<(Value, Value)>) -> (r: Value)
    ensures
        r@ == answer(answer_views(answers@), v@),
{
    let ghost av = answer_views(answers@);
    assert(av.skip(0) =~= av);
    let mut i: usize = 0;
    while i < answers.len()
        invariant
            i <= answers.len(),
            av == answer_views(answers@),
            answer(av, v@) == answer(av.skip(i as int), v@),
        decreases answers.len() - i,
    {
        assert(av.skip(i as int)[0] == (answers@[i as int].0@, answers@[i as int].1@));
        if answers[i].0.identical(v) {
            return answers[i].1.copy();
        }
        assert(av.skip(i as int).drop_first() =~= av.skip(i + 1));
        i += 1;
    }
    v.copy()
}

/// Puts the answers in place of the queries.
#[verifier::loop_isolation(false)]
pub fn settle(v: &Value, answers: &Vec<(Value, Value)>) -> (r: Value)
    ensures
        r@ == settled(v@, answer_views(answers@)),
    decreases v,
{
    let ghost av = answer_views(answers@);
    match v {
        Value::Array(items) => {
            let mut out: Vec<Value> = Vec::new();
            let mut i: usize = 0;
            while i < items.len()
                invariant
                    i <= items.len(),
                    out.len() == i,
                    forall|j: int|
                        0 <= j < i ==> (#[trigger] out@[j])@ == settled(views(items@)[j], av),
                decreases items.len() - i,
            {
                out.push(settle(&items[i], answers));
                i += 1;
            }
            proof {
                let want = settled(v@, av)->Arr_0;
                assert(v@ == Json::Arr(views(items@)));
                assert(want.len() == out.len());
                assert forall|j: int| 0 <= j < out.len() implies views(out@)[j] == want[j] by {
                    assert(views(out@)[j] == out@[j]@);
                }
                assert(views(out@) =~= want);
            }
            Value::Array(out)
        },
        Value::Object(o) => {
            let mut entries: Vec<(String, Value)> = Vec::new();
            let mut i: usize = 0;
            while i < o.entries.len()
                invariant
                    i <= o.entries.len(),
                    entries.len() == i,
                    forall|j: int|
                        0 <= j < i ==> (#[trigger] entries@[j]).0@ == o@[j].0 && entries@[j].1@
                            == settled(o@[j].1, av),
                decreases o.entries.len() - i,
            {
                entries.push((o.entries[i].0.clone(), settle(&o.entries[i].1, answers)));
                i += 1;
            }
            proof {
                let want = settled(v@, av)->Obj_0;
                assert(v@ == Json::Obj(o@));
                assert(want.len() == entries.len());
                assert forall|j: int| 0 <= j < entries.len() implies entries_of(entries@)[j]
                    == want[j] by {
                    assert(entries_of(entries@)[j] == (entries@[j].0@, entries@[j].1@));
                }
                assert(entries_of(entries@) =~= want);
            }
            Value::Object(Object { entries })
        },
        Value::Quantity { .. } => find_answer(v, answers),
        Value::Bash { .. } => find_answer(v, answers),
        Value::Condition(_) => find_answer(v, answers),
        _ => v.copy(),
    }
}

/// The queries in a value, after `acc`.
pub open spec fn queries(v: Json, acc: Seq<Json>) -> Seq<Json>
    decreases v, 0nat,
{
    match v {
        Json::Arr(items) => item_queries(items, 0, acc),
        Json::Obj(o) => entry_queries(o, 0, acc),
        _ => if is_query(v) {
            acc.push(v)
        } else {
            acc
        },
    }
}

/// The queries in the items from `i` on, after `acc`.
pub open spec fn item_queries(items: Seq<Json>, i: nat, acc: Seq<Json>) -> Seq<Json>
    decreases items, items.len() - i,
{
    if i >= items.len() {
        acc
    } else {
        item_queries(items, i + 1, queries(items[i as int], acc))
    }
}

/// The queries in the entries from `i` on, after `acc`.
pub open spec fn entry_queries(o: Entries, i: nat, acc: Seq<Json>) -> Seq<Json>
    decreases o, o.len() - i,
{
    if i >= o.len() {
        acc
    } else {
        entry_queries(o, i + 1, queries(o[i as int].1, acc))
    }
}

/// Collects the queries in a value.
#[verifier::loop_isolation(false)]
pub fn collect_queries(v: &Value, out: &mut Vec<Value>)
    ensures
        views(final(out)@) == queries(v@, views(old(out)@)),
    decreases v,
{
    match v {
        Value::Array(items) => {
            let mut i: usize = 0;
            while i < items.len()
                invariant
                    i <= items.len(),
                    item_queries(views(items@), 0, views(old(out)@)) == item_queries(
                        views(items@),
                        i as nat,
                        views(out@),
                    ),
                decreases items.len() - i,
            {
                assert(views(items@)[i as int] == items@[i as int]@);
                collect_queries(&items[i], out);
                i += 1;
            }
        },
        Value::Object(o) => {
            let mut i: usize = 0;
            while i < o.entries.len()
                invariant
                    i <= o.entries.len(),
                    entry_queries(o@, 0, views(old(out)@)) == entry_queries(
                        o@,
                        i as nat,
                        views(out@),
                    ),
                decreases o.entries.len() - i,
            {
                assert(o@[i as int].1 == o.entries@[i as int].1@);
                collect_queries(&o.entries[i].1, out);
                i += 1;
            }
        },
        Value::Quantity { .. } => push_copy(out, v),
        Value::Bash { .. } => push_copy(out, v),
        Value::Condition(_) => push_copy(out, v),
        _ => {},
    }
}

/// Appends a copy of `v`.
fn push_copy(out: &mut Vec<Value>, v: &Value)
    ensures
        views(final(out)@) == views(old(out)@).push(v@),
{
    out.push(v.copy());
    assert(views(out@) =~= views(old(out)@).push(v@));
}

/// Without queries a value is settled as it is.
pub proof fn law_settled_without_queries(v: Json, answers: Seq<(Json, Json)>)
    requires
        queries(v, Seq::empty()).len() == 0,
    ensures
        settled(v, answers) == v,
    decreases v, 0nat,
{
    lemma_settled(v, answers, Seq::empty());
}

proof fn lemma_settled(v: Json, answers: Seq<(Json, Json)>, acc: Seq<Json>)
    ensures
        queries(v, acc).len() >= acc.len(),
        queries(v, acc).len() == acc.len() ==> settled(v, answers) == v,
    decreases v, 0nat,
{
    match v {
        Json::Arr(items) => {
            lemma_settled_items(items, 0, answers, acc);
            if queries(v, acc).len() == acc.len() {
                assert(settled(v, answers)->Arr_0 =~= items);
            }
        },
        Json::Obj(o) => {
            lemma_settled_entries(o, 0, answers, acc);
            if queries(v, acc).len() == acc.len() {
                assert(settled(v, answers)->Obj_0 =~= o);
            }
        },
        _ => {},
    }
}

proof fn lemma_settled_items(
    items: Seq<Json>,
    i: nat,
    answers: Seq<(Json, Json)>,
    acc: Seq<Json>,
)
    ensures
        item_queries(items, i, acc).len() >= acc.len(),
        item_queries(items, i, acc).len() == acc.len() ==> forall|j: int|
            i <= j < items.len() ==> settled(#[trigger] items[j], answers) == items[j],
    decreases items, items.len() - i,
{
    if i < items.len() {
        lemma_settled(items[i as int], answers, acc);
        lemma_settled_items(items, i + 1, answers, queries(items[i as int], acc));
    }
}

proof fn lemma_settled_entries(o: Entries, i: nat, answers: Seq<(Json, Json)>, acc: Seq<Json>)
    ensures
        entry_queries(o, i, acc).len() >= acc.len(),
        entry_queries(o, i, acc).len() == acc.len() ==> forall|j: int|
            i <= j < o.len() ==> settled((#[trigger] o[j]).1, answers) == o[j].1,
    decreases o, o.len() - i,
{
    if i < o.len() {
        lemma_settled(o[i as int].1, answers, acc);
        lemma_settled_entries(o, i + 1, answers, queries(o[i as int].1, acc));
    }
}

} // verus!
