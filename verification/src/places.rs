//! Places in a value, and what stands at them.
//!
//! A place is the way to a value inside another: through elements of arrays
//! and fields of objects. What is collected from decoded records, tested in
//! them and counted in them is stated here place by place.
use crate::coverage::{
    entry_markers, item_markers, listed_subrecords, markers_in, own_markers, Markers,
};
use crate::decode::context::{RAW, UNKNOWN_RECORD, UNMAPPED, UNRESOLVED};
use crate::filter::{
    deep_holds, element_path, entry_formid_texts, entry_holds, entry_paths, entry_scalars,
    entry_target_paths, formid_texts, item_formid_texts, item_holds, item_paths, item_scalars,
    item_target_paths, law_paths_sorted, op_holds, path_holds, paths, predicate_holds, scalars,
    some_path_holds, target_paths, under, value_holds, FilterOp, Numbers,
};
use crate::formid::{
    decoded_formid, form_id_of, hex_prefixed, law_display_form, law_display_is_decoded_formid,
    law_display_parses, FormId,
};
use crate::hardcoded::{form_of, Form};
use crate::index::{
    harvested, harvested_fields, harvested_items, law_referrers_are_exact, meta_of, references,
    referrers, refers, targets, Decoding, Metas,
};
use crate::json::{get, key_index, lemma_key_index, Entries, Json};
use crate::order::{joined, law_joined, place, texts_increase};
use crate::reader::{record_at, StoredRecord};
use crate::settle::{answer, entry_queries, item_queries, queries, settled};
use crate::text::{decimal, hex8, text_lt};
use vstd::prelude::*;

verus! {

/// One step into a value: to an element of an array, or to the value of a
/// field of an object, by its position.
pub ghost enum Step {
    Item(int),
    Field(int),
}

/// The way to a value inside another.
pub type Place = Seq<Step>;

/// What stands at a place of `v`, if it leads anywhere.
pub open spec fn value_at(v: Json, p: Place) -> Option<Json>
    decreases p.len(),
{
    if p.len() == 0 {
        Some(v)
    } else {
        match (v, p[0]) {
            (Json::Arr(items), Step::Item(i)) => if 0 <= i < items.len() {
                value_at(items[i], p.drop_first())
            } else {
                None
            },
            (Json::Obj(o), Step::Field(i)) => if 0 <= i < o.len() {
                value_at(o[i].1, p.drop_first())
            } else {
                None
            },
            _ => None,
        }
    }
}

/// Whether every field on the way to a place has a name that `through` lets
/// pass.
pub open spec fn passes(v: Json, p: Place, through: spec_fn(Seq<char>) -> bool) -> bool
    decreases p.len(),
{
    if p.len() == 0 {
        true
    } else {
        match (v, p[0]) {
            (Json::Arr(items), Step::Item(i)) => 0 <= i < items.len() && passes(
                items[i],
                p.drop_first(),
                through,
            ),
            (Json::Obj(o), Step::Field(i)) => 0 <= i < o.len() && through(o[i].0) && passes(
                o[i].1,
                p.drop_first(),
                through,
            ),
            _ => false,
        }
    }
}

/// Whether `w` stands at a place of `v` that `through` lets pass.
pub open spec fn stands_at(
    v: Json,
    p: Place,
    w: Json,
    through: spec_fn(Seq<char>) -> bool,
) -> bool {
    passes(v, p, through) && value_at(v, p) == Some(w)
}

/// Whether `w` stands anywhere in `v` where `through` lets pass.
pub open spec fn stands_in(v: Json, w: Json, through: spec_fn(Seq<char>) -> bool) -> bool {
    exists|p: Place| #[trigger] stands_at(v, p, w, through)
}

/// Whether `w` stands anywhere in `v`.
pub open spec fn holds_value(v: Json, w: Json) -> bool {
    stands_in(v, w, any_name())
}

/// Lets every name pass.
pub open spec fn any_name() -> spec_fn(Seq<char>) -> bool {
    |k: Seq<char>| true
}

/// Lets the names pass that do not start with an underscore.
pub open spec fn open_name() -> spec_fn(Seq<char>) -> bool {
    |k: Seq<char>| !(k.len() > 0 && k[0] == '_')
}

/// Lets every name pass but one.
pub open spec fn name_but(name: Seq<char>) -> spec_fn(Seq<char>) -> bool {
    |k: Seq<char>| k != name
}

/// The values in `v` of which `f` holds, in their order, each as often as it
/// stands there.
pub open spec fn gathered(
    v: Json,
    f: spec_fn(Json) -> bool,
    through: spec_fn(Seq<char>) -> bool,
) -> Seq<Json>
    decreases v, 0nat,
{
    let own = if f(v) {
        seq![v]
    } else {
        Seq::empty()
    };
    match v {
        Json::Arr(items) => own + gathered_items(items, 0, f, through),
        Json::Obj(o) => own + gathered_fields(o, 0, f, through),
        _ => own,
    }
}

/// The values in the items from `i` on of which `f` holds.
pub open spec fn gathered_items(
    items: Seq<Json>,
    i: nat,
    f: spec_fn(Json) -> bool,
    through: spec_fn(Seq<char>) -> bool,
) -> Seq<Json>
    decreases items, items.len() - i,
{
    if i >= items.len() {
        Seq::empty()
    } else {
        gathered(items[i as int], f, through) + gathered_items(items, i + 1, f, through)
    }
}

/// The values in the fields from `i` on of which `f` holds.
pub open spec fn gathered_fields(
    o: Entries,
    i: nat,
    f: spec_fn(Json) -> bool,
    through: spec_fn(Seq<char>) -> bool,
) -> Seq<Json>
    decreases o, o.len() - i,
{
    if i >= o.len() {
        Seq::empty()
    } else if through(o[i as int].0) {
        gathered(o[i as int].1, f, through) + gathered_fields(o, i + 1, f, through)
    } else {
        gathered_fields(o, i + 1, f, through)
    }
}

// ── Places ─────────────────────────────────────────────────────────────────
/// What stands in a value is the value itself, or stands in one of its
/// elements or fields.
pub proof fn law_stands_in(v: Json, w: Json, through: spec_fn(Seq<char>) -> bool)
    ensures
        stands_in(v, w, through) <==> (v == w || match v {
            Json::Arr(items) => exists|i: int|
                0 <= i < items.len() && stands_in(#[trigger] items[i], w, through),
            Json::Obj(o) => exists|i: int|
                0 <= i < o.len() && through((#[trigger] o[i]).0) && stands_in(o[i].1, w, through),
            _ => false,
        }),
{
    if stands_in(v, w, through) {
        let p = choose|p: Place| #[trigger] stands_at(v, p, w, through);
        if p.len() > 0 {
            match (v, p[0]) {
                (Json::Arr(items), Step::Item(i)) => {
                    assert(stands_at(items[i], p.drop_first(), w, through));
                    assert(stands_in(items[i], w, through));
                },
                (Json::Obj(o), Step::Field(i)) => {
                    assert(stands_at(o[i].1, p.drop_first(), w, through));
                    assert(stands_in(o[i].1, w, through));
                },
                _ => {},
            }
        }
    }
    if v == w {
        assert(stands_at(v, Seq::empty(), w, through));
    }
    match v {
        Json::Arr(items) => {
            if exists|i: int| 0 <= i < items.len() && stands_in(#[trigger] items[i], w, through) {
                let i = choose|i: int|
                    0 <= i < items.len() && stands_in(#[trigger] items[i], w, through);
                let q = choose|q: Place| #[trigger] stands_at(items[i], q, w, through);
                let p = seq![Step::Item(i)] + q;
                assert(p.drop_first() =~= q);
                assert(p[0] == Step::Item(i));
                assert(stands_at(v, p, w, through));
            }
        },
        Json::Obj(o) => {
            if exists|i: int|
                0 <= i < o.len() && through((#[trigger] o[i]).0) && stands_in(o[i].1, w, through) {
                let i = choose|i: int|
                    0 <= i < o.len() && through((#[trigger] o[i]).0) && stands_in(
                        o[i].1,
                        w,
                        through,
                    );
                let q = choose|q: Place| #[trigger] stands_at(o[i].1, q, w, through);
                let p = seq![Step::Field(i)] + q;
                assert(p.drop_first() =~= q);
                assert(p[0] == Step::Field(i));
                assert(stands_at(v, p, w, through));
            }
        },
        _ => {},
    }
}

/// What is gathered from a value is exactly what stands in it and satisfies
/// the condition.
pub proof fn law_gathered_stand(
    v: Json,
    f: spec_fn(Json) -> bool,
    through: spec_fn(Seq<char>) -> bool,
    w: Json,
)
    ensures
        gathered(v, f, through).contains(w) <==> f(w) && stands_in(v, w, through),
    decreases v, 0nat,
{
    law_stands_in(v, w, through);
    let own = if f(v) {
        seq![v]
    } else {
        Seq::empty()
    };
    assert(own.contains(w) <==> f(v) && v == w) by {
        if f(v) && v == w {
            assert(own[0] == w);
        }
    }
    match v {
        Json::Arr(items) => {
            lemma_gathered_items(items, 0, f, through, w);
            lemma_contains_concat(own, gathered_items(items, 0, f, through), w);
        },
        Json::Obj(o) => {
            lemma_gathered_fields(o, 0, f, through, w);
            lemma_contains_concat(own, gathered_fields(o, 0, f, through), w);
        },
        _ => {},
    }
}

proof fn lemma_contains_concat<T>(a: Seq<T>, b: Seq<T>, x: T)
    ensures
        (a + b).contains(x) <==> a.contains(x) || b.contains(x),
{
    if a.contains(x) {
        let i = choose|i: int| 0 <= i < a.len() && a[i] == x;
        assert((a + b)[i] == x);
    }
    if b.contains(x) {
        let i = choose|i: int| 0 <= i < b.len() && b[i] == x;
        assert((a + b)[a.len() + i] == x);
    }
    if (a + b).contains(x) {
        let i = choose|i: int| 0 <= i < (a + b).len() && (a + b)[i] == x;
        if i < a.len() {
            assert(a[i] == x);
        } else {
            assert(b[i - a.len()] == x);
        }
    }
}

proof fn lemma_gathered_items(
    items: Seq<Json>,
    i: nat,
    f: spec_fn(Json) -> bool,
    through: spec_fn(Seq<char>) -> bool,
    w: Json,
)
    ensures
        gathered_items(items, i, f, through).contains(w) <==> f(w) && exists|j: int|
            i <= j < items.len() && stands_in(#[trigger] items[j], w, through),
    decreases items, items.len() - i,
{
    if i < items.len() {
        law_gathered_stand(items[i as int], f, through, w);
        lemma_gathered_items(items, i + 1, f, through, w);
        lemma_contains_concat(
            gathered(items[i as int], f, through),
            gathered_items(items, i + 1, f, through),
            w,
        );
        if stands_in(items[i as int], w, through) {
            assert(i <= i as int && stands_in(items[i as int], w, through));
        }
    }
}

proof fn lemma_gathered_fields(
    o: Entries,
    i: nat,
    f: spec_fn(Json) -> bool,
    through: spec_fn(Seq<char>) -> bool,
    w: Json,
)
    ensures
        gathered_fields(o, i, f, through).contains(w) <==> f(w) && exists|j: int|
            i <= j < o.len() && through((#[trigger] o[j]).0) && stands_in(o[j].1, w, through),
    decreases o, o.len() - i,
{
    if i < o.len() {
        lemma_gathered_fields(o, i + 1, f, through, w);
        if through(o[i as int].0) {
            law_gathered_stand(o[i as int].1, f, through, w);
            lemma_contains_concat(
                gathered(o[i as int].1, f, through),
                gathered_fields(o, i + 1, f, through),
                w,
            );
            if stands_in(o[i as int].1, w, through) {
                assert(through(o[i as int].0) && stands_in(o[i as int].1, w, through));
            }
        }
    }
}

// ── References ─────────────────────────────────────────────────────────────
/// Whether a value is a text that writes a FormID, with `0x` before it.
pub open spec fn writes_id() -> spec_fn(Json) -> bool {
    |w: Json| w matches Json::Str(s) && hex_prefixed(s) && form_id_of(s) is Some
}

/// The FormIDs that texts write.
pub open spec fn written_ids(list: Seq<Json>) -> Seq<u32> {
    list.map_values(|w: Json| form_id_of(w->Str_0)->Some_0.0)
}

proof fn lemma_harvested(v: Json, acc: Seq<u32>)
    ensures
        harvested(v, acc) == acc + written_ids(gathered(v, writes_id(), open_name())),
    decreases v, 0nat,
{
    let g = gathered(v, writes_id(), open_name());
    match v {
        Json::Arr(items) => {
            lemma_harvested_items(items, 0, acc);
            assert(g =~= gathered_items(items, 0, writes_id(), open_name()));
        },
        Json::Obj(o) => {
            lemma_harvested_fields(o, 0, acc);
            assert(g =~= gathered_fields(o, 0, writes_id(), open_name()));
        },
        _ => {
            assert(harvested(v, acc) =~= acc + written_ids(g));
        },
    }
}

proof fn lemma_harvested_items(items: Seq<Json>, i: nat, acc: Seq<u32>)
    ensures
        harvested_items(items, i, acc) == acc + written_ids(
            gathered_items(items, i, writes_id(), open_name()),
        ),
    decreases items, items.len() - i,
{
    if i < items.len() {
        let a = gathered(items[i as int], writes_id(), open_name());
        let b = gathered_items(items, i + 1, writes_id(), open_name());
        lemma_harvested(items[i as int], acc);
        lemma_harvested_items(items, i + 1, harvested(items[i as int], acc));
        assert(acc + written_ids(a + b) =~= (acc + written_ids(a)) + written_ids(b));
    } else {
        assert(harvested_items(items, i, acc) =~= acc + written_ids(Seq::empty()));
    }
}

proof fn lemma_harvested_fields(o: Entries, i: nat, acc: Seq<u32>)
    ensures
        harvested_fields(o, i, acc) == acc + written_ids(
            gathered_fields(o, i, writes_id(), open_name()),
        ),
    decreases o, o.len() - i,
{
    if i < o.len() {
        let b = gathered_fields(o, i + 1, writes_id(), open_name());
        if open_name()(o[i as int].0) {
            let a = gathered(o[i as int].1, writes_id(), open_name());
            lemma_harvested(o[i as int].1, acc);
            lemma_harvested_fields(o, i + 1, harvested(o[i as int].1, acc));
            assert(acc + written_ids(a + b) =~= (acc + written_ids(a)) + written_ids(b));
        } else {
            lemma_harvested_fields(o, i + 1, acc);
        }
    } else {
        assert(harvested_fields(o, i, acc) =~= acc + written_ids(Seq::empty()));
    }
}

/// The FormIDs that are collected from a value are exactly those that texts in
/// it write, at any depth: in elements of arrays, and in fields whose names do
/// not start with an underscore.
pub proof fn law_references_are_collected(v: Json, acc: Seq<u32>, id: u32)
    ensures
        harvested(v, acc).contains(id) <==> acc.contains(id) || exists|s: Seq<char>|
            hex_prefixed(s) && form_id_of(s) == Some(FormId(id)) && #[trigger] stands_in(
                v,
                Json::Str(s),
                open_name(),
            ),
        harvested(v, acc).take(acc.len() as int) == acc,
{
    let g = gathered(v, writes_id(), open_name());
    let ids = written_ids(g);
    lemma_harvested(v, acc);
    lemma_contains_concat(acc, ids, id);
    assert(harvested(v, acc).take(acc.len() as int) =~= acc);
    if ids.contains(id) {
        let i = choose|i: int| 0 <= i < ids.len() && ids[i] == id;
        assert(g.contains(g[i]));
        law_gathered_stand(v, writes_id(), open_name(), g[i]);
        let s = g[i]->Str_0;
        assert(g[i] == Json::Str(s));
        assert(stands_in(v, Json::Str(s), open_name()));
    }
    if exists|s: Seq<char>|
        hex_prefixed(s) && form_id_of(s) == Some(FormId(id)) && #[trigger] stands_in(
            v,
            Json::Str(s),
            open_name(),
        ) {
        let s = choose|s: Seq<char>|
            hex_prefixed(s) && form_id_of(s) == Some(FormId(id)) && #[trigger] stands_in(
                v,
                Json::Str(s),
                open_name(),
            );
        law_gathered_stand(v, writes_id(), open_name(), Json::Str(s));
        let i = choose|i: int| 0 <= i < g.len() && g[i] == Json::Str(s);
        assert(ids[i] == id);
    }
}

/// A displayed FormID is collected wherever it stands.
pub proof fn law_displayed_reference_is_collected(v: Json, id: u32)
    requires
        stands_in(v, Json::Str(hex8(id)), open_name()),
    ensures
        harvested(v, Seq::empty()).contains(id),
{
    law_display_parses(FormId(id));
    law_display_form(FormId(id));
    assert(hex_prefixed(hex8(id)));
    law_references_are_collected(v, Seq::empty(), id);
}

// ── Texts of FormIDs ───────────────────────────────────────────────────────
/// Whether a value is a text that a decoded FormID reads as.
pub open spec fn reads_as_id() -> spec_fn(Json) -> bool {
    |w: Json| w matches Json::Str(s) && decoded_formid(s)
}

/// The texts of a list of texts.
pub open spec fn text_of_all(list: Seq<Json>) -> Seq<Seq<char>> {
    list.map_values(|w: Json| w->Str_0)
}

proof fn lemma_formid_texts(v: Json, acc: Seq<Seq<char>>)
    ensures
        formid_texts(v, acc) == acc + text_of_all(gathered(v, reads_as_id(), any_name())),
    decreases v, 0nat,
{
    let g = gathered(v, reads_as_id(), any_name());
    match v {
        Json::Arr(items) => {
            lemma_formid_texts_items(items, 0, acc);
            assert(g =~= gathered_items(items, 0, reads_as_id(), any_name()));
        },
        Json::Obj(o) => {
            lemma_formid_texts_fields(o, 0, acc);
            assert(g =~= gathered_fields(o, 0, reads_as_id(), any_name()));
        },
        _ => {
            assert(formid_texts(v, acc) =~= acc + text_of_all(g));
        },
    }
}

proof fn lemma_formid_texts_items(items: Seq<Json>, i: nat, acc: Seq<Seq<char>>)
    ensures
        item_formid_texts(items, i, acc) == acc + text_of_all(
            gathered_items(items, i, reads_as_id(), any_name()),
        ),
    decreases items, items.len() - i,
{
    if i < items.len() {
        let a = gathered(items[i as int], reads_as_id(), any_name());
        let b = gathered_items(items, i + 1, reads_as_id(), any_name());
        lemma_formid_texts(items[i as int], acc);
        lemma_formid_texts_items(items, i + 1, formid_texts(items[i as int], acc));
        assert(acc + text_of_all(a + b) =~= (acc + text_of_all(a)) + text_of_all(b));
    } else {
        assert(item_formid_texts(items, i, acc) =~= acc + text_of_all(Seq::empty()));
    }
}

proof fn lemma_formid_texts_fields(o: Entries, i: nat, acc: Seq<Seq<char>>)
    ensures
        entry_formid_texts(o, i, acc) == acc + text_of_all(
            gathered_fields(o, i, reads_as_id(), any_name()),
        ),
    decreases o, o.len() - i,
{
    if i < o.len() {
        let a = gathered(o[i as int].1, reads_as_id(), any_name());
        let b = gathered_fields(o, i + 1, reads_as_id(), any_name());
        lemma_formid_texts(o[i as int].1, acc);
        lemma_formid_texts_fields(o, i + 1, formid_texts(o[i as int].1, acc));
        assert(acc + text_of_all(a + b) =~= (acc + text_of_all(a)) + text_of_all(b));
    } else {
        assert(entry_formid_texts(o, i, acc) =~= acc + text_of_all(Seq::empty()));
    }
}

/// The texts of FormIDs that are collected from a value are exactly those that
/// stand in it, at any depth: `0x` and eight hexadecimal digits.
pub proof fn law_formid_texts_are_collected(v: Json, acc: Seq<Seq<char>>, s: Seq<char>)
    ensures
        formid_texts(v, acc).contains(s) <==> acc.contains(s) || (decoded_formid(s) && holds_value(
            v,
            Json::Str(s),
        )),
        formid_texts(v, acc).take(acc.len() as int) == acc,
{
    let g = gathered(v, reads_as_id(), any_name());
    let all = text_of_all(g);
    lemma_formid_texts(v, acc);
    lemma_contains_concat(acc, all, s);
    assert(formid_texts(v, acc).take(acc.len() as int) =~= acc);
    law_gathered_stand(v, reads_as_id(), any_name(), Json::Str(s));
    if all.contains(s) {
        let i = choose|i: int| 0 <= i < all.len() && all[i] == s;
        assert(g.contains(g[i]));
        law_gathered_stand(v, reads_as_id(), any_name(), g[i]);
        assert(g[i] == Json::Str(s));
    }
    if g.contains(Json::Str(s)) {
        let i = choose|i: int| 0 <= i < g.len() && g[i] == Json::Str(s);
        assert(all[i] == s);
    }
}

/// A displayed FormID is among the texts of FormIDs wherever it stands.
pub proof fn law_displayed_text_is_collected(v: Json, id: FormId)
    requires
        holds_value(v, Json::Str(hex8(id.0))),
    ensures
        formid_texts(v, Seq::empty()).contains(hex8(id.0)),
{
    law_display_is_decoded_formid(id);
    law_formid_texts_are_collected(v, Seq::empty(), hex8(id.0));
}

// ── Scalars and queries ────────────────────────────────────────────────────
/// Whether a value is a scalar.
pub open spec fn scalar_values() -> spec_fn(Json) -> bool {
    |w: Json| w is Null || w is Bool || w is Int || w is Float || w is Str
}

/// Whether a value is a query.
pub open spec fn query_values() -> spec_fn(Json) -> bool {
    |w: Json| w is Quantity || w is Bash || w is Condition
}

/// All scalars of a value are collected, in their order.
pub proof fn law_scalars_are_collected(v: Json, acc: Seq<Json>)
    ensures
        scalars(v, acc) == acc + gathered(v, scalar_values(), any_name()),
    decreases v, 0nat,
{
    let g = gathered(v, scalar_values(), any_name());
    match v {
        Json::Arr(items) => {
            lemma_scalar_items(items, 0, acc);
            assert(g =~= gathered_items(items, 0, scalar_values(), any_name()));
        },
        Json::Obj(o) => {
            lemma_scalar_fields(o, 0, acc);
            assert(g =~= gathered_fields(o, 0, scalar_values(), any_name()));
        },
        _ => {
            assert(scalars(v, acc) =~= acc + g);
        },
    }
}

proof fn lemma_scalar_items(items: Seq<Json>, i: nat, acc: Seq<Json>)
    ensures
        item_scalars(items, i, acc) == acc + gathered_items(
            items,
            i,
            scalar_values(),
            any_name(),
        ),
    decreases items, items.len() - i,
{
    if i < items.len() {
        law_scalars_are_collected(items[i as int], acc);
        lemma_scalar_items(items, i + 1, scalars(items[i as int], acc));
        assert(item_scalars(items, i, acc) =~= acc + gathered_items(
            items,
            i,
            scalar_values(),
            any_name(),
        ));
    } else {
        assert(item_scalars(items, i, acc) =~= acc + Seq::empty());
    }
}

proof fn lemma_scalar_fields(o: Entries, i: nat, acc: Seq<Json>)
    ensures
        entry_scalars(o, i, acc) == acc + gathered_fields(o, i, scalar_values(), any_name()),
    decreases o, o.len() - i,
{
    if i < o.len() {
        law_scalars_are_collected(o[i as int].1, acc);
        lemma_scalar_fields(o, i + 1, scalars(o[i as int].1, acc));
        assert(entry_scalars(o, i, acc) =~= acc + gathered_fields(
            o,
            i,
            scalar_values(),
            any_name(),
        ));
    } else {
        assert(entry_scalars(o, i, acc) =~= acc + Seq::empty());
    }
}

/// All queries of a value are collected, in their order.
pub proof fn law_queries_are_collected(v: Json, acc: Seq<Json>)
    ensures
        queries(v, acc) == acc + gathered(v, query_values(), any_name()),
    decreases v, 0nat,
{
    let g = gathered(v, query_values(), any_name());
    match v {
        Json::Arr(items) => {
            lemma_query_items(items, 0, acc);
            assert(g =~= gathered_items(items, 0, query_values(), any_name()));
        },
        Json::Obj(o) => {
            lemma_query_fields(o, 0, acc);
            assert(g =~= gathered_fields(o, 0, query_values(), any_name()));
        },
        _ => {
            assert(queries(v, acc) =~= acc + g);
        },
    }
}

proof fn lemma_query_items(items: Seq<Json>, i: nat, acc: Seq<Json>)
    ensures
        item_queries(items, i, acc) == acc + gathered_items(items, i, query_values(), any_name()),
    decreases items, items.len() - i,
{
    if i < items.len() {
        law_queries_are_collected(items[i as int], acc);
        lemma_query_items(items, i + 1, queries(items[i as int], acc));
        assert(item_queries(items, i, acc) =~= acc + gathered_items(
            items,
            i,
            query_values(),
            any_name(),
        ));
    } else {
        assert(item_queries(items, i, acc) =~= acc + Seq::empty());
    }
}

proof fn lemma_query_fields(o: Entries, i: nat, acc: Seq<Json>)
    ensures
        entry_queries(o, i, acc) == acc + gathered_fields(o, i, query_values(), any_name()),
    decreases o, o.len() - i,
{
    if i < o.len() {
        law_queries_are_collected(o[i as int].1, acc);
        lemma_query_fields(o, i + 1, queries(o[i as int].1, acc));
        assert(entry_queries(o, i, acc) =~= acc + gathered_fields(
            o,
            i,
            query_values(),
            any_name(),
        ));
    } else {
        assert(entry_queries(o, i, acc) =~= acc + Seq::empty());
    }
}

/// Settling a value changes nothing but its queries: what stood at a place and
/// was neither a query nor a container still stands there, and a query has
/// become its first answer, or stays where it has none.
pub proof fn law_settled_place_by_place(v: Json, answers: Seq<(Json, Json)>, p: Place, w: Json)
    requires
        value_at(v, p) == Some(w),
        !(w is Arr) && !(w is Obj),
    ensures
        !query_values()(w) ==> value_at(settled(v, answers), p) == Some(w),
        query_values()(w) && (forall|i: int|
            0 <= i < answers.len() ==> (#[trigger] answers[i]).0 != w) ==> value_at(
            settled(v, answers),
            p,
        ) == Some(w),
        forall|i: int|
            query_values()(w) && 0 <= i < answers.len() && (#[trigger] answers[i]).0 == w && (
            forall|j: int| 0 <= j < i ==> (#[trigger] answers[j]).0 != w) ==> value_at(
                settled(v, answers),
                p,
            ) == Some(answers[i].1),
    decreases p.len(),
{
    if p.len() == 0 {
        lemma_answer(answers, w);
    } else {
        match (v, p[0]) {
            (Json::Arr(items), Step::Item(i)) => {
                law_settled_place_by_place(items[i], answers, p.drop_first(), w);
                assert(settled(v, answers)->Arr_0[i] == settled(items[i], answers));
            },
            (Json::Obj(o), Step::Field(i)) => {
                law_settled_place_by_place(o[i].1, answers, p.drop_first(), w);
                assert(settled(v, answers)->Obj_0[i] == (o[i].0, settled(o[i].1, answers)));
            },
            _ => {},
        }
    }
}

proof fn lemma_answer(answers: Seq<(Json, Json)>, w: Json)
    ensures
        (forall|i: int| 0 <= i < answers.len() ==> (#[trigger] answers[i]).0 != w) ==> answer(
            answers,
            w,
        ) == w,
        forall|i: int|
            0 <= i < answers.len() && (#[trigger] answers[i]).0 == w && (forall|j: int|
                0 <= j < i ==> (#[trigger] answers[j]).0 != w) ==> answer(answers, w)
                == answers[i].1,
    decreases answers.len(),
{
    if answers.len() > 0 {
        let rest = answers.drop_first();
        lemma_answer(rest, w);
        assert(forall|j: int| 0 <= j < rest.len() ==> #[trigger] rest[j] == answers[j + 1]);
        if answers[0].0 != w {
            if forall|i: int| 0 <= i < answers.len() ==> (#[trigger] answers[i]).0 != w {
                assert forall|i: int| 0 <= i < rest.len() implies (#[trigger] rest[i]).0 != w by {
                    assert(answers[i + 1].0 != w);
                }
            }
            assert forall|i: int|
                0 <= i < answers.len() && (#[trigger] answers[i]).0 == w && (forall|j: int|
                    0 <= j < i ==> (#[trigger] answers[j]).0 != w) implies answer(answers, w)
                == answers[i].1 by {
                assert(rest[i - 1] == answers[i]);
                assert forall|j: int| 0 <= j < i - 1 implies (#[trigger] rest[j]).0 != w by {
                    assert(answers[j + 1].0 != w);
                }
            }
        }
    }
}

// ── Predicates ─────────────────────────────────────────────────────────────
/// Without a path a record satisfies a predicate exactly where a scalar at
/// some place of it does.
pub proof fn law_deep_scan_finds_every_value(
    v: Json,
    op: FilterOp,
    value: Option<Seq<char>>,
    nums: Numbers,
)
    ensures
        deep_holds(v, op, value, nums) <==> exists|w: Json|
            value_holds(w, op, value, nums) && #[trigger] holds_value(v, w),
        predicate_holds(v, None, op, value, nums) == deep_holds(v, op, value, nums),
{
    let f = |w: Json| value_holds(w, op, value, nums);
    lemma_deep(v, op, value, nums, f);
    let g = gathered(v, f, any_name());
    if g.len() > 0 {
        assert(g.contains(g[0]));
        law_gathered_stand(v, f, any_name(), g[0]);
        assert(holds_value(v, g[0]));
    }
    if exists|w: Json| value_holds(w, op, value, nums) && #[trigger] holds_value(v, w) {
        let w = choose|w: Json| value_holds(w, op, value, nums) && #[trigger] holds_value(v, w);
        law_gathered_stand(v, f, any_name(), w);
        assert(g.contains(w));
    }
}

proof fn lemma_deep(
    v: Json,
    op: FilterOp,
    value: Option<Seq<char>>,
    nums: Numbers,
    f: spec_fn(Json) -> bool,
)
    requires
        f == (|w: Json| value_holds(w, op, value, nums)),
    ensures
        deep_holds(v, op, value, nums) <==> gathered(v, f, any_name()).len() > 0,
    decreases v, 0nat,
{
    match v {
        Json::Arr(items) => lemma_deep_items(items, 0, op, value, nums, f),
        Json::Obj(o) => lemma_deep_fields(o, 0, op, value, nums, f),
        _ => {},
    }
}

proof fn lemma_deep_items(
    items: Seq<Json>,
    i: nat,
    op: FilterOp,
    value: Option<Seq<char>>,
    nums: Numbers,
    f: spec_fn(Json) -> bool,
)
    requires
        f == (|w: Json| value_holds(w, op, value, nums)),
    ensures
        item_holds(items, i, op, value, nums) <==> gathered_items(items, i, f, any_name()).len()
            > 0,
    decreases items, items.len() - i,
{
    if i < items.len() {
        lemma_deep(items[i as int], op, value, nums, f);
        lemma_deep_items(items, i + 1, op, value, nums, f);
    }
}

proof fn lemma_deep_fields(
    o: Entries,
    i: nat,
    op: FilterOp,
    value: Option<Seq<char>>,
    nums: Numbers,
    f: spec_fn(Json) -> bool,
)
    requires
        f == (|w: Json| value_holds(w, op, value, nums)),
    ensures
        entry_holds(o, i, op, value, nums) <==> gathered_fields(o, i, f, any_name()).len() > 0,
    decreases o, o.len() - i,
{
    if i < o.len() {
        lemma_deep(o[i as int].1, op, value, nums, f);
        lemma_deep_fields(o, i + 1, op, value, nums, f);
    }
}

/// Whether a place follows a path: `[]` to any element of an array, and a name
/// to the first field of that name.
pub open spec fn follows(v: Json, p: Place, path: Seq<Seq<char>>) -> bool
    decreases path.len(),
{
    if path.len() == 0 {
        p.len() == 0
    } else {
        p.len() > 0 && match (v, p[0]) {
            (Json::Arr(items), Step::Item(i)) => path[0] == "[]"@ && 0 <= i < items.len()
                && follows(items[i], p.drop_first(), path.drop_first()),
            (Json::Obj(o), Step::Field(i)) => path[0] != "[]"@ && 0 <= i < o.len() && o[i].0
                == path[0] && (forall|j: int| 0 <= j < i ==> (#[trigger] o[j]).0 != path[0])
                && follows(o[i].1, p.drop_first(), path.drop_first()),
            _ => false,
        }
    }
}

/// Whether a path leads to `w` by some place.
pub open spec fn leads_to(v: Json, path: Seq<Seq<char>>, w: Json) -> bool {
    exists|p: Place| #[trigger] follows(v, p, path) && value_at(v, p) == Some(w)
}

/// A path satisfies a predicate exactly where it leads to a value that does.
/// To be there is enough for `Exists`; `Contains` looks at every place below;
/// any other operator tests the value itself.
pub proof fn law_path_finds_every_value(
    v: Json,
    path: Seq<Seq<char>>,
    op: FilterOp,
    value: Option<Seq<char>>,
    nums: Numbers,
)
    ensures
        path_holds(v, path, op, value, nums) <==> exists|w: Json| #[trigger]
            leads_to(v, path, w) && (op == FilterOp::Exists || (op == FilterOp::Contains
                && exists|x: Json|
                value_holds(x, op, value, nums) && #[trigger] holds_value(w, x)) || (op
                != FilterOp::Contains && value_holds(w, op, value, nums))),
{
    lemma_path(v, path, op, value, nums);
    assert forall|w: Json| #[trigger] leads_to(v, path, w) implies op_holds(w, op, value, nums) == (
    op == FilterOp::Exists || (op == FilterOp::Contains && exists|x: Json|
        value_holds(x, op, value, nums) && #[trigger] holds_value(w, x)) || (op
        != FilterOp::Contains && value_holds(w, op, value, nums))) by {
        law_deep_scan_finds_every_value(w, op, value, nums);
    }
}

proof fn lemma_path(
    v: Json,
    path: Seq<Seq<char>>,
    op: FilterOp,
    value: Option<Seq<char>>,
    nums: Numbers,
)
    ensures
        path_holds(v, path, op, value, nums) <==> exists|w: Json| #[trigger]
            leads_to(v, path, w) && op_holds(w, op, value, nums),
    decreases path.len(), 0nat,
{
    if path.len() == 0 {
        let none: Place = Seq::empty();
        assert(follows(v, none, path) && value_at(v, none) == Some(v));
        assert(leads_to(v, path, v));
        assert forall|w: Json| #[trigger] leads_to(v, path, w) implies w == v by {
            let p = choose|p: Place| #[trigger] follows(v, p, path) && value_at(v, p) == Some(w);
        }
    } else {
        let rest = path.drop_first();
        match v {
            Json::Arr(items) => {
                if path[0] == "[]"@ {
                    lemma_some_path(items, 0, rest, op, value, nums);
                    assert forall|i: int, w: Json| 0 <= i < items.len() && #[trigger] leads_to(
                        items[i],
                        rest,
                        w,
                    ) implies leads_to(v, path, w) by {
                        let q = choose|q: Place| #[trigger]
                            follows(items[i], q, rest) && value_at(items[i], q) == Some(w);
                        let p = seq![Step::Item(i)] + q;
                        assert(p.drop_first() =~= q && p[0] == Step::Item(i));
                        assert(follows(v, p, path) && value_at(v, p) == Some(w));
                    }
                }
                assert forall|w: Json| #[trigger] leads_to(v, path, w) implies path[0] == "[]"@
                    && exists|i: int| 0 <= i < items.len() && leads_to(items[i], rest, w) by {
                    let p = choose|p: Place| #[trigger]
                        follows(v, p, path) && value_at(v, p) == Some(w);
                    if let Step::Item(i) = p[0] {
                        assert(follows(items[i], p.drop_first(), rest) && value_at(
                            items[i],
                            p.drop_first(),
                        ) == Some(w));
                        assert(leads_to(items[i], rest, w));
                    }
                }
                if path[0] == "[]"@ {
                    if path_holds(v, path, op, value, nums) {
                        let (i, w) = choose|i: int, w: Json|
                            0 <= i < items.len() && #[trigger] leads_to(items[i], rest, w)
                                && op_holds(w, op, value, nums);
                        assert(leads_to(v, path, w) && op_holds(w, op, value, nums));
                    }
                    if exists|w: Json| #[trigger]
                        leads_to(v, path, w) && op_holds(w, op, value, nums) {
                        let w = choose|w: Json| #[trigger]
                            leads_to(v, path, w) && op_holds(w, op, value, nums);
                        let i = choose|i: int| 0 <= i < items.len() && leads_to(items[i], rest, w);
                        assert(0 <= i < items.len() && leads_to(items[i], rest, w) && op_holds(
                            w,
                            op,
                            value,
                            nums,
                        ));
                    }
                }
            },
            Json::Obj(o) => {
                let i = key_index(o, path[0]);
                lemma_key_index(o, path[0]);
                if path[0] != "[]"@ && i < o.len() {
                    lemma_path(o[i].1, rest, op, value, nums);
                    assert forall|w: Json| #[trigger] leads_to(o[i].1, rest, w) implies leads_to(
                        v,
                        path,
                        w,
                    ) by {
                        let q = choose|q: Place| #[trigger]
                            follows(o[i].1, q, rest) && value_at(o[i].1, q) == Some(w);
                        let p = seq![Step::Field(i)] + q;
                        assert(p.drop_first() =~= q && p[0] == Step::Field(i));
                        assert(follows(v, p, path) && value_at(v, p) == Some(w));
                    }
                }
                assert forall|w: Json| #[trigger] leads_to(v, path, w) implies path[0] != "[]"@ && i
                    < o.len() && leads_to(o[i].1, rest, w) by {
                    let p = choose|p: Place| #[trigger]
                        follows(v, p, path) && value_at(v, p) == Some(w);
                    if let Step::Field(j) = p[0] {
                        if j != i {
                            assert(o[i].0 == path[0] || i == o.len());
                            if i < j {
                                assert(o[i].0 != path[0]);
                            } else {
                                assert(o[j].0 != path[0]);
                            }
                        }
                        assert(follows(o[i].1, p.drop_first(), rest) && value_at(
                            o[i].1,
                            p.drop_first(),
                        ) == Some(w));
                    }
                }
            },
            _ => {
                assert forall|w: Json| !(#[trigger] leads_to(v, path, w)) by {
                    if leads_to(v, path, w) {
                        let p = choose|p: Place| #[trigger]
                            follows(v, p, path) && value_at(v, p) == Some(w);
                    }
                }
            },
        }
    }
}

proof fn lemma_some_path(
    items: Seq<Json>,
    i: nat,
    path: Seq<Seq<char>>,
    op: FilterOp,
    value: Option<Seq<char>>,
    nums: Numbers,
)
    ensures
        some_path_holds(items, i, path, op, value, nums) <==> exists|j: int, w: Json|
            i <= j < items.len() && #[trigger] leads_to(items[j], path, w) && op_holds(
                w,
                op,
                value,
                nums,
            ),
    decreases path.len(), 1nat, items.len() - i,
{
    if i < items.len() {
        lemma_path(items[i as int], path, op, value, nums);
        lemma_some_path(items, i + 1, path, op, value, nums);
        if path_holds(items[i as int], path, op, value, nums) {
            let w = choose|w: Json| #[trigger]
                leads_to(items[i as int], path, w) && op_holds(w, op, value, nums);
            assert(leads_to(items[i as int], path, w) && op_holds(w, op, value, nums));
        }
        if some_path_holds(items, i + 1, path, op, value, nums) {
            let (j, w) = choose|j: int, w: Json|
                i + 1 <= j < items.len() && #[trigger] leads_to(items[j], path, w) && op_holds(
                    w,
                    op,
                    value,
                    nums,
                );
            assert(i <= j && leads_to(items[j], path, w));
        }
    }
}

// ── Paths ──────────────────────────────────────────────────────────────────
/// A name behind a path, with a dot between them.
pub open spec fn dotted(prefix: Seq<char>, name: Seq<char>) -> Seq<char> {
    if prefix.len() == 0 {
        name
    } else {
        prefix + "."@ + name
    }
}

/// How a place is written: `Name.Other[2]`, the elements of arrays by their
/// positions.
pub open spec fn spelled(v: Json, p: Place, prefix: Seq<char>) -> Seq<char>
    decreases p.len(),
{
    if p.len() == 0 {
        prefix
    } else {
        match (v, p[0]) {
            (Json::Arr(items), Step::Item(i)) => spelled(
                items[i],
                p.drop_first(),
                prefix + "["@ + decimal(i) + "]"@,
            ),
            (Json::Obj(o), Step::Field(i)) => spelled(
                o[i].1,
                p.drop_first(),
                dotted(prefix, o[i].0),
            ),
            _ => prefix,
        }
    }
}

/// Whether `target` stands at a place that is written as `q`.
pub open spec fn target_at(
    v: Json,
    p: Place,
    target: Seq<char>,
    prefix: Seq<char>,
    q: Seq<char>,
) -> bool {
    value_at(v, p) == Some(Json::Str(target)) && spelled(v, p, prefix) == q
}

/// Whether `target` stands somewhere that is written as `q`.
pub open spec fn target_in(v: Json, target: Seq<char>, prefix: Seq<char>, q: Seq<char>) -> bool {
    exists|p: Place| #[trigger] target_at(v, p, target, prefix, q)
}

proof fn lemma_target_in(v: Json, target: Seq<char>, prefix: Seq<char>, q: Seq<char>)
    ensures
        target_in(v, target, prefix, q) <==> match v {
            Json::Str(s) => s == target && q == prefix,
            Json::Arr(items) => exists|i: int|
                0 <= i < items.len() && target_in(
                    #[trigger] items[i],
                    target,
                    prefix + "["@ + decimal(i) + "]"@,
                    q,
                ),
            Json::Obj(o) => exists|i: int|
                0 <= i < o.len() && target_in(
                    (#[trigger] o[i]).1,
                    target,
                    dotted(prefix, o[i].0),
                    q,
                ),
            _ => false,
        },
{
    if target_in(v, target, prefix, q) {
        let p = choose|p: Place| #[trigger] target_at(v, p, target, prefix, q);
        if p.len() > 0 {
            match (v, p[0]) {
                (Json::Arr(items), Step::Item(i)) => {
                    let next = prefix + "["@ + decimal(i) + "]"@;
                    assert(target_at(items[i], p.drop_first(), target, next, q));
                    assert(target_in(items[i], target, next, q));
                },
                (Json::Obj(o), Step::Field(i)) => {
                    let next = dotted(prefix, o[i].0);
                    assert(target_at(o[i].1, p.drop_first(), target, next, q));
                    assert(target_in(o[i].1, target, next, q));
                },
                _ => {},
            }
        }
    }
    match v {
        Json::Str(s) => {
            if s == target && q == prefix {
                assert(target_at(v, Seq::empty(), target, prefix, q));
            }
        },
        Json::Arr(items) => {
            if exists|i: int|
                0 <= i < items.len() && target_in(
                    #[trigger] items[i],
                    target,
                    prefix + "["@ + decimal(i) + "]"@,
                    q,
                ) {
                let i = choose|i: int|
                    0 <= i < items.len() && target_in(
                        #[trigger] items[i],
                        target,
                        prefix + "["@ + decimal(i) + "]"@,
                        q,
                    );
                let next = prefix + "["@ + decimal(i) + "]"@;
                let r = choose|r: Place| #[trigger] target_at(items[i], r, target, next, q);
                let p = seq![Step::Item(i)] + r;
                assert(p.drop_first() =~= r && p[0] == Step::Item(i));
                assert(target_at(v, p, target, prefix, q));
            }
        },
        Json::Obj(o) => {
            if exists|i: int|
                0 <= i < o.len() && target_in(
                    (#[trigger] o[i]).1,
                    target,
                    dotted(prefix, o[i].0),
                    q,
                ) {
                let i = choose|i: int|
                    0 <= i < o.len() && target_in(
                        (#[trigger] o[i]).1,
                        target,
                        dotted(prefix, o[i].0),
                        q,
                    );
                let next = dotted(prefix, o[i].0);
                let r = choose|r: Place| #[trigger] target_at(o[i].1, r, target, next, q);
                let p = seq![Step::Field(i)] + r;
                assert(p.drop_first() =~= r && p[0] == Step::Field(i));
                assert(target_at(v, p, target, prefix, q));
            }
        },
        _ => {},
    }
}

/// The paths to a target are exactly those of the places at which it stands.
pub proof fn law_target_paths_are_its_places(
    v: Json,
    target: Seq<char>,
    prefix: Seq<char>,
    out: Seq<Seq<char>>,
    q: Seq<char>,
)
    ensures
        target_paths(v, target, prefix, out).contains(q) <==> out.contains(q) || target_in(
            v,
            target,
            prefix,
            q,
        ),
    decreases v, 0nat,
{
    lemma_target_in(v, target, prefix, q);
    match v {
        Json::Str(s) => {
            if s == target {
                assert(out.push(prefix) =~= out + seq![prefix]);
                lemma_contains_concat(out, seq![prefix], q);
                assert(seq![prefix][0] == prefix);
            }
        },
        Json::Arr(items) => lemma_item_target_paths(items, 0, target, prefix, out, q),
        Json::Obj(o) => lemma_entry_target_paths(o, 0, target, prefix, out, q),
        _ => {},
    }
}

proof fn lemma_item_target_paths(
    items: Seq<Json>,
    i: nat,
    target: Seq<char>,
    prefix: Seq<char>,
    out: Seq<Seq<char>>,
    q: Seq<char>,
)
    ensures
        item_target_paths(items, i, target, prefix, out).contains(q) <==> out.contains(q) || exists|
            j: int,
        |
            i <= j < items.len() && target_in(
                #[trigger] items[j],
                target,
                prefix + "["@ + decimal(j) + "]"@,
                q,
            ),
    decreases items, items.len() - i,
{
    if i < items.len() {
        let next = prefix + "["@ + decimal(i as int) + "]"@;
        assert(element_path(prefix, i as int) == next);
        law_target_paths_are_its_places(items[i as int], target, next, out, q);
        lemma_item_target_paths(
            items,
            i + 1,
            target,
            prefix,
            target_paths(items[i as int], target, next, out),
            q,
        );
        if target_in(items[i as int], target, next, q) {
            assert(i <= i as int && target_in(items[i as int], target, next, q));
        }
    }
}

proof fn lemma_entry_target_paths(
    o: Entries,
    i: nat,
    target: Seq<char>,
    prefix: Seq<char>,
    out: Seq<Seq<char>>,
    q: Seq<char>,
)
    ensures
        entry_target_paths(o, i, target, prefix, out).contains(q) <==> out.contains(q) || exists|
            j: int,
        |
            i <= j < o.len() && target_in((#[trigger] o[j]).1, target, dotted(prefix, o[j].0), q),
    decreases o, o.len() - i,
{
    if i < o.len() {
        let next = dotted(prefix, o[i as int].0);
        assert(under(prefix, o[i as int].0) == next);
        law_target_paths_are_its_places(o[i as int].1, target, next, out, q);
        lemma_entry_target_paths(
            o,
            i + 1,
            target,
            prefix,
            target_paths(o[i as int].1, target, next, out),
            q,
        );
        if target_in(o[i as int].1, target, next, q) {
            assert(i <= i as int && target_in(o[i as int].1, target, next, q));
        }
    }
}

/// The pattern of a place: its names, and `[]` for every element of an array.
pub open spec fn pattern_of(v: Json, p: Place, prefix: Seq<char>) -> Seq<char>
    decreases p.len(),
{
    if p.len() == 0 {
        prefix
    } else {
        match (v, p[0]) {
            (Json::Arr(items), Step::Item(i)) => pattern_of(
                items[i],
                p.drop_first(),
                dotted(prefix, "[]"@),
            ),
            (Json::Obj(o), Step::Field(i)) => pattern_of(
                o[i].1,
                p.drop_first(),
                dotted(prefix, o[i].0),
            ),
            _ => prefix,
        }
    }
}

/// Whether `x` is the pattern of a place below `v`, or that of the elements of
/// an array at one.
pub open spec fn pattern_at(v: Json, p: Place, prefix: Seq<char>, x: Seq<char>) -> bool {
    value_at(v, p) matches Some(w) && ((p.len() > 0 && pattern_of(v, p, prefix) == x) || (w is Arr
        && dotted(pattern_of(v, p, prefix), "[]"@) == x))
}

/// Whether `x` is the pattern of some place below `v`.
pub open spec fn pattern_in(v: Json, prefix: Seq<char>, x: Seq<char>) -> bool {
    exists|p: Place| #[trigger] pattern_at(v, p, prefix, x)
}

proof fn lemma_pattern_in(v: Json, prefix: Seq<char>, x: Seq<char>)
    ensures
        pattern_in(v, prefix, x) <==> match v {
            Json::Arr(items) => x == dotted(prefix, "[]"@) || exists|i: int|
                0 <= i < items.len() && pattern_in(
                    #[trigger] items[i],
                    dotted(prefix, "[]"@),
                    x,
                ),
            Json::Obj(o) => exists|i: int|
                0 <= i < o.len() && (x == dotted(prefix, (#[trigger] o[i]).0) || pattern_in(
                    o[i].1,
                    dotted(prefix, o[i].0),
                    x,
                )),
            _ => false,
        },
{
    if pattern_in(v, prefix, x) {
        let p = choose|p: Place| #[trigger] pattern_at(v, p, prefix, x);
        if p.len() > 0 {
            match (v, p[0]) {
                (Json::Arr(items), Step::Item(i)) => {
                    let next = dotted(prefix, "[]"@);
                    let r = p.drop_first();
                    if !(r.len() == 0 && x == next) {
                        assert(pattern_at(items[i], r, next, x));
                        assert(pattern_in(items[i], next, x));
                    }
                },
                (Json::Obj(o), Step::Field(i)) => {
                    let next = dotted(prefix, o[i].0);
                    let r = p.drop_first();
                    if r.len() == 0 && x == next {
                        assert(x == dotted(prefix, o[i].0));
                    } else {
                        assert(pattern_of(v, p, prefix) == pattern_of(o[i].1, r, next));
                        assert(value_at(v, p) == value_at(o[i].1, r));
                        assert(pattern_at(o[i].1, r, next, x));
                        assert(pattern_in(o[i].1, next, x));
                    }
                },
                _ => {},
            }
        }
    }
    match v {
        Json::Arr(items) => {
            let next = dotted(prefix, "[]"@);
            if x == next {
                assert(pattern_at(v, Seq::empty(), prefix, x));
            }
            if exists|i: int| 0 <= i < items.len() && pattern_in(#[trigger] items[i], next, x) {
                let i = choose|i: int|
                    0 <= i < items.len() && pattern_in(#[trigger] items[i], next, x);
                let r = choose|r: Place| #[trigger] pattern_at(items[i], r, next, x);
                let p = seq![Step::Item(i)] + r;
                assert(p.drop_first() =~= r && p[0] == Step::Item(i));
                assert(pattern_at(v, p, prefix, x));
            }
        },
        Json::Obj(o) => {
            if exists|i: int|
                0 <= i < o.len() && (x == dotted(prefix, (#[trigger] o[i]).0) || pattern_in(
                    o[i].1,
                    dotted(prefix, o[i].0),
                    x,
                )) {
                let i = choose|i: int|
                    0 <= i < o.len() && (x == dotted(prefix, (#[trigger] o[i]).0) || pattern_in(
                        o[i].1,
                        dotted(prefix, o[i].0),
                        x,
                    ));
                let next = dotted(prefix, o[i].0);
                if x == next {
                    let p = seq![Step::Field(i)];
                    assert(p.drop_first() =~= Seq::<Step>::empty());
                    assert(pattern_of(o[i].1, p.drop_first(), next) == next);
                    assert(value_at(o[i].1, p.drop_first()) == Some(o[i].1));
                    assert(pattern_at(v, p, prefix, x));
                } else {
                    let r = choose|r: Place| #[trigger] pattern_at(o[i].1, r, next, x);
                    let p = seq![Step::Field(i)] + r;
                    assert(p.drop_first() =~= r && p[0] == Step::Field(i));
                    assert(pattern_at(v, p, prefix, x));
                }
            }
        },
        _ => {},
    }
}

/// The paths that are listed for a value are patterns of its places, and all
/// of them where there are fewer than `cap`.
pub proof fn law_paths_are_patterns(
    v: Json,
    prefix: Seq<char>,
    out: Seq<Seq<char>>,
    cap: int,
    x: Seq<char>,
)
    requires
        texts_increase(out),
        out.len() <= cap,
    ensures
        paths(v, prefix, out, cap).contains(x) ==> out.contains(x) || pattern_in(v, prefix, x),
        paths(v, prefix, out, cap).len() < cap && (out.contains(x) || pattern_in(v, prefix, x))
            ==> paths(v, prefix, out, cap).contains(x),
        paths(v, prefix, out, cap).len() >= out.len(),
    decreases v, 0nat,
{
    lemma_pattern_in(v, prefix, x);
    if out.len() < cap {
        match v {
            Json::Arr(items) => {
                let next = under(prefix, "[]"@);
                assert(next == dotted(prefix, "[]"@));
                law_joined(out, next);
                lemma_joined_longer(out, next);
                lemma_item_patterns(items, 0, next, joined(out, next), cap, x);
            },
            Json::Obj(o) => lemma_entry_patterns(o, 0, prefix, out, cap, x),
            _ => {},
        }
    }
}

proof fn lemma_joined_longer(out: Seq<Seq<char>>, t: Seq<char>)
    ensures
        out.len() <= joined(out, t).len() <= out.len() + 1,
{
    lemma_place_within(out, t);
}

proof fn lemma_place_within(out: Seq<Seq<char>>, t: Seq<char>)
    ensures
        0 <= place(out, t) <= out.len(),
    decreases out.len(),
{
    if !(out.len() == 0 || !text_lt(out[0], t)) {
        lemma_place_within(out.drop_first(), t);
    }
}

proof fn lemma_item_patterns(
    items: Seq<Json>,
    i: nat,
    prefix: Seq<char>,
    out: Seq<Seq<char>>,
    cap: int,
    x: Seq<char>,
)
    requires
        texts_increase(out),
        out.len() <= cap,
    ensures
        ({
            let all = item_paths(items, i, prefix, out, cap);
            let there = out.contains(x) || exists|j: int|
                i <= j < items.len() && pattern_in(#[trigger] items[j], prefix, x);
            &&& all.contains(x) ==> there
            &&& all.len() < cap && there ==> all.contains(x)
            &&& all.len() >= out.len()
        }),
    decreases items, items.len() - i,
{
    if i < items.len() {
        law_paths_are_patterns(items[i as int], prefix, out, cap, x);
        law_paths_sorted(items[i as int], prefix, out, cap);
        let more = paths(items[i as int], prefix, out, cap);
        if more.len() < cap {
            lemma_item_patterns(items, i + 1, prefix, more, cap, x);
        }
        if pattern_in(items[i as int], prefix, x) {
            assert(i <= i as int && pattern_in(items[i as int], prefix, x));
        }
    }
}

proof fn lemma_entry_patterns(
    o: Entries,
    i: nat,
    prefix: Seq<char>,
    out: Seq<Seq<char>>,
    cap: int,
    x: Seq<char>,
)
    requires
        texts_increase(out),
        out.len() < cap,
    ensures
        ({
            let all = entry_paths(o, i, prefix, out, cap);
            let there = out.contains(x) || exists|j: int|
                i <= j < o.len() && (x == dotted(prefix, (#[trigger] o[j]).0) || pattern_in(
                    o[j].1,
                    dotted(prefix, o[j].0),
                    x,
                ));
            &&& all.contains(x) ==> there
            &&& all.len() < cap && there ==> all.contains(x)
            &&& all.len() >= out.len()
        }),
    decreases o, o.len() - i,
{
    if i < o.len() {
        let next = under(prefix, o[i as int].0);
        assert(next == dotted(prefix, o[i as int].0));
        law_joined(out, next);
        lemma_joined_longer(out, next);
        law_paths_are_patterns(o[i as int].1, next, joined(out, next), cap, x);
        law_paths_sorted(o[i as int].1, next, joined(out, next), cap);
        let more = paths(o[i as int].1, next, joined(out, next), cap);
        if more.len() < cap {
            lemma_entry_patterns(o, i + 1, prefix, more, cap, x);
        }
        if x == next || pattern_in(o[i as int].1, next, x) {
            assert(i <= i as int && (x == dotted(prefix, o[i as int].0) || pattern_in(
                o[i as int].1,
                next,
                x,
            )));
        }
    }
}

// ── Markers ────────────────────────────────────────────────────────────────
/// Whether a value is an object with a marker set.
pub open spec fn has_mark(k: Seq<char>) -> spec_fn(Json) -> bool {
    |w: Json| w matches Json::Obj(o) && get(o, k) == Some(Json::Bool(true))
}

/// Whether a value is what stands for bytes that could not be decoded, with
/// the reason.
pub open spec fn raw_with_reason() -> spec_fn(Json) -> bool {
    |w: Json|
        w matches Json::Obj(o) && get(o, RAW@) == Some(Json::Bool(true)) && get(o, "reason"@)
            is Some
}

/// How many subrecords an object lists under its names.
pub open spec fn subrecords_listed(o: Entries, n: nat) -> int
    decreases n,
{
    if n == 0 || n > o.len() {
        0
    } else {
        subrecords_listed(o, (n - 1) as nat) + match o[n - 1].1 {
            Json::Arr(items) => items.len() as int,
            _ => 0,
        }
    }
}

/// How many subrecords the objects of a list hold that nothing consumed.
pub open spec fn leftover(list: Seq<Json>) -> int
    decreases list.len(),
{
    if list.len() == 0 {
        0
    } else {
        leftover(list.drop_last()) + match list.last() {
            Json::Obj(o) => match get(o, UNMAPPED@) {
                Some(Json::Obj(m)) => subrecords_listed(m, m.len()),
                _ => 0,
            },
            _ => 0,
        }
    }
}

/// Whether a value is an object.
pub open spec fn object_values() -> spec_fn(Json) -> bool {
    |w: Json| w is Obj
}

/// A count of what there is, up to the largest number.
pub open spec fn up_to_max(n: int) -> int {
    if n <= u64::MAX {
        n
    } else {
        u64::MAX as int
    }
}

/// What the markers of `m` and those counted in a value come to.
pub open spec fn counts_of(
    m: Markers,
    unknown: Seq<Json>,
    raw: Seq<Json>,
    unresolved: Seq<Json>,
    objects: Seq<Json>,
    r: Markers,
) -> bool {
    &&& r.unknown_record as int == up_to_max(m.unknown_record + unknown.len())
    &&& r.raw_fallback as int == up_to_max(m.raw_fallback + raw.len())
    &&& r.unresolved as int == up_to_max(m.unresolved + unresolved.len())
    &&& r.unmapped as int == up_to_max(m.unmapped + leftover(objects))
    &&& r.records == m.records
}

proof fn lemma_leftover(a: Seq<Json>, b: Seq<Json>)
    ensures
        leftover(a + b) == leftover(a) + leftover(b),
        leftover(b) >= 0,
    decreases b.len(),
{
    if b.len() == 0 {
        assert(a + b =~= a);
    } else {
        lemma_leftover(a, b.drop_last());
        assert((a + b).drop_last() =~= a + b.drop_last());
        assert((a + b).last() == b.last());
        if let Json::Obj(o) = b.last() {
            if let Some(Json::Obj(m)) = get(o, UNMAPPED@) {
                lemma_listed(m, m.len(), 0);
            }
        }
    }
}

proof fn lemma_listed(o: Entries, n: nat, m: int)
    requires
        0 <= m <= u64::MAX,
    ensures
        subrecords_listed(o, n) >= 0,
        listed_subrecords(o, n, m) == up_to_max(m + subrecords_listed(o, n)),
    decreases n,
{
    if 0 < n <= o.len() {
        lemma_listed(o, (n - 1) as nat, m);
    }
}

/// The markers in a value are counted place by place: each object that has
/// one set, and each subrecord that is listed as left over. What is left over
/// is not looked into.
pub proof fn law_markers_are_counted(v: Json, m: Markers)
    ensures
        counts_of(
            m,
            gathered(v, has_mark(UNKNOWN_RECORD@), name_but(UNMAPPED@)),
            gathered(v, raw_with_reason(), name_but(UNMAPPED@)),
            gathered(v, has_mark(UNRESOLVED@), name_but(UNMAPPED@)),
            gathered(v, object_values(), name_but(UNMAPPED@)),
            markers_in(v, m),
        ),
    decreases v, 0nat,
{
    let t = name_but(UNMAPPED@);
    match v {
        Json::Arr(items) => {
            lemma_item_markers(items, 0, m);
            assert(gathered(v, has_mark(UNKNOWN_RECORD@), t) =~= gathered_items(
                items,
                0,
                has_mark(UNKNOWN_RECORD@),
                t,
            ));
            assert(gathered(v, raw_with_reason(), t) =~= gathered_items(
                items,
                0,
                raw_with_reason(),
                t,
            ));
            assert(gathered(v, has_mark(UNRESOLVED@), t) =~= gathered_items(
                items,
                0,
                has_mark(UNRESOLVED@),
                t,
            ));
            assert(gathered(v, object_values(), t) =~= gathered_items(
                items,
                0,
                object_values(),
                t,
            ));
        },
        Json::Obj(o) => {
            let own = own_markers(o, m);
            lemma_entry_markers(o, 0, own);
            let objects = gathered_fields(o, 0, object_values(), t);
            let me = seq![v];
            lemma_leftover(me, objects);
            assert(gathered(v, object_values(), t) =~= me + objects);
            assert(me.drop_last() =~= Seq::<Json>::empty());
            assert(leftover(me.drop_last()) == 0);
            assert(me.last() == v);
            if let Some(Json::Obj(list)) = get(o, UNMAPPED@) {
                lemma_listed(list, list.len(), m.unmapped as int);
            }
        },
        _ => {
            assert(gathered(v, object_values(), t) =~= Seq::<Json>::empty());
        },
    }
}

proof fn lemma_item_markers(items: Seq<Json>, i: nat, m: Markers)
    ensures
        counts_of(
            m,
            gathered_items(items, i, has_mark(UNKNOWN_RECORD@), name_but(UNMAPPED@)),
            gathered_items(items, i, raw_with_reason(), name_but(UNMAPPED@)),
            gathered_items(items, i, has_mark(UNRESOLVED@), name_but(UNMAPPED@)),
            gathered_items(items, i, object_values(), name_but(UNMAPPED@)),
            item_markers(items, i, m),
        ),
    decreases items, items.len() - i,
{
    if i < items.len() {
        let t = name_but(UNMAPPED@);
        law_markers_are_counted(items[i as int], m);
        lemma_item_markers(items, i + 1, markers_in(items[i as int], m));
        lemma_leftover(
            gathered(items[i as int], object_values(), t),
            gathered_items(items, i + 1, object_values(), t),
        );
    }
}

proof fn lemma_entry_markers(o: Entries, i: nat, m: Markers)
    ensures
        counts_of(
            m,
            gathered_fields(o, i, has_mark(UNKNOWN_RECORD@), name_but(UNMAPPED@)),
            gathered_fields(o, i, raw_with_reason(), name_but(UNMAPPED@)),
            gathered_fields(o, i, has_mark(UNRESOLVED@), name_but(UNMAPPED@)),
            gathered_fields(o, i, object_values(), name_but(UNMAPPED@)),
            entry_markers(o, i, m),
        ),
    decreases o, o.len() - i,
{
    if i < o.len() {
        let t = name_but(UNMAPPED@);
        if o[i as int].0 == UNMAPPED@ {
            lemma_entry_markers(o, i + 1, m);
        } else {
            law_markers_are_counted(o[i as int].1, m);
            lemma_entry_markers(o, i + 1, markers_in(o[i as int].1, m));
            lemma_leftover(
                gathered(o[i as int].1, object_values(), t),
                gathered_fields(o, i + 1, object_values(), t),
            );
        }
    }
}

// ── Referrers ──────────────────────────────────────────────────────────────
proof fn lemma_targets(t: Metas, table: Seq<(u32, Form)>, own: u32, list: Seq<u32>, n: nat, id: u32)
    requires
        n <= list.len(),
    ensures
        targets(t, table, own, list, n).contains(id) <==> id != own && (meta_of(t, id) is Some
            || form_of(table, id) is Some) && list.take(n as int).contains(id),
    decreases n,
{
    if n > 0 {
        lemma_targets(t, table, own, list, (n - 1) as nat, id);
        let before = targets(t, table, own, list, (n - 1) as nat);
        let x = list[n - 1];
        assert(list.take(n as int) =~= list.take(n - 1) + seq![x]);
        lemma_contains_concat(list.take(n - 1), seq![x], id);
        assert(seq![x].contains(id) <==> x == id) by {
            assert(seq![x][0] == x);
        }
        assert(before.push(x) =~= before + seq![x]);
        lemma_contains_concat(before, seq![x], id);
    }
}

/// Whether the record at `offset` is `src`, is indexed, is not `id` itself and
/// has a text at some place that writes `id`.
pub open spec fn names(
    t: Metas,
    recs: Map<u64, StoredRecord>,
    d: Decoding<'_>,
    offset: u64,
    src: u32,
    id: u32,
) -> bool {
    record_at(recs, offset) matches Some(r) && r.header.form_id.0 == src && meta_of(t, src) is Some
        && src != id && exists|s: Seq<char>|
        hex_prefixed(s) && form_id_of(s) == Some(FormId(id)) && #[trigger] stands_in(
            d.fields(r),
            Json::Str(s),
            open_name(),
        )
}

/// A record is listed among those that refer to a known form exactly where one
/// of the file's records is it and writes the form's FormID at some place: in
/// an element of an array, or in a field, however deep.
pub proof fn law_referrers_name_their_target(
    t: Metas,
    table: Seq<(u32, Form)>,
    order: Seq<u64>,
    recs: Map<u64, StoredRecord>,
    d: Decoding<'_>,
    src: u32,
    id: u32,
)
    ensures
        referrers(references(t, table, order, recs, d, order.len()), id).contains(src) <==> (
        meta_of(t, id) is Some || form_of(table, id) is Some) && exists|k: int|
            0 <= k < order.len() && names(t, recs, d, #[trigger] order[k], src, id),
{
    law_referrers_are_exact(t, table, order, recs, d, order.len(), src, id);
    assert forall|k: int| 0 <= k < order.len() implies refers(
        t,
        table,
        recs,
        d,
        #[trigger] order[k],
        src,
        id,
    ) == ((meta_of(t, id) is Some || form_of(table, id) is Some) && names(
        t,
        recs,
        d,
        order[k],
        src,
        id,
    )) by {
        if let Some(r) = record_at(recs, order[k]) {
            let list = harvested(d.fields(r), Seq::empty());
            lemma_targets(t, table, src, list, list.len(), id);
            assert(list.take(list.len() as int) =~= list);
            law_references_are_collected(d.fields(r), Seq::empty(), id);
        }
    }
    if exists|k: int|
        0 <= k < order.len() && refers(t, table, recs, d, #[trigger] order[k], src, id) {
        let k = choose|k: int|
            0 <= k < order.len() && refers(t, table, recs, d, #[trigger] order[k], src, id);
        assert(names(t, recs, d, order[k], src, id));
    }
    if (meta_of(t, id) is Some || form_of(table, id) is Some) && exists|k: int|
        0 <= k < order.len() && names(t, recs, d, #[trigger] order[k], src, id) {
        let k = choose|k: int|
            0 <= k < order.len() && names(t, recs, d, #[trigger] order[k], src, id);
        assert(refers(t, table, recs, d, order[k], src, id));
    }
}

} // verus!
