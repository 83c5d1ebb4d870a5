//! What is kept of changed records once padding, defaults and version changes
//! are taken out.
use crate::decode::scalars::version_ok;
use crate::diff::array_diff::no_diff;
use crate::diff::calibrate::{calibrated, undefaulted, undefaulted_fields, without_defaults};
use crate::diff::noise::{
    any_crosses, crosses, is_leaf, pure_elements, pure_fields, pure_transition,
};
use crate::diff::report::{Counts, DiffView};
use crate::diff::restamp::{
    restamped, restamped_array, restamped_elements, restamped_fields, unpadded, unpadded_elements,
    unpadded_fields, with_value, without_padding, zeroed_hex,
};
use crate::json::{get, key_index, lemma_key_index, Entries, Json};
use crate::matched::sum_of;
use crate::order::{keys_increase, law_get_after_del};
use crate::picks::{holds_picks, lemma_picked, picked};
use crate::schema::MemberDef;
use vstd::prelude::*;

verus! {

// ── Padding ────────────────────────────────────────────────────────────────
/// Digits are set to zero where a text becomes another that has only zeros,
/// and neither is empty.
pub proof fn law_digits_set_to_zero(o: Entries)
    requires
        is_leaf(o),
    ensures
        zeroed_hex(Json::Obj(o)) <==> (get(o, "from"@) matches Some(Json::Str(f)) && f.len() > 0)
            && (get(o, "to"@) matches Some(Json::Str(t)) && t.len() > 0 && forall|i: int|
            0 <= i < t.len() ==> #[trigger] t[i] == '0'),
{
}

/// Undecoded bytes of which only the digits changed, to zeros, are one piece
/// of padding, and nothing is left of them.
pub proof fn law_zeroed_bytes_are_padding(leaf: Json)
    requires
        zeroed_hex(leaf),
    ensures
        unpadded(Json::Obj(seq![("hex"@, leaf)])).1 == 1,
        unpadded(Json::Obj(seq![("hex"@, leaf)])).2,
{
    let o = seq![("hex"@, leaf)];
    lemma_key_index(o, "hex"@);
    assert(o[0].0 == "hex"@);
}

/// What is no object has no padding in it.
pub proof fn law_plain_values_have_no_padding(v: Json)
    requires
        !(v is Obj),
    ensures
        unpadded(v) == (v, 0nat, false),
{
}

/// A field without its padding, unless nothing is left of it.
pub open spec fn field_without_padding(o: Entries, skip: int) -> spec_fn(int) -> Option<
    (Seq<char>, Json),
> {
    |i: int|
        if i == skip || unpadded(o[i].1).2 {
            None
        } else {
            Some((o[i].0, unpadded(o[i].1).0))
        }
}

/// How many pieces of padding a field has.
pub open spec fn padding_in_field(o: Entries, skip: int) -> spec_fn(int) -> int {
    |i: int|
        if i == skip {
            1int
        } else {
            unpadded(o[i].1).1 as int
        }
}

proof fn lemma_unpadded_fields(o: Entries, skip: int, n: nat)
    requires
        n <= o.len(),
    ensures
        unpadded_fields(o, skip, n).0 == picked(field_without_padding(o, skip), n),
        unpadded_fields(o, skip, n).1 == sum_of(padding_in_field(o, skip), n),
    decreases n,
{
    if n > 0 {
        lemma_unpadded_fields(o, skip, (n - 1) as nat);
        let f = field_without_padding(o, skip);
        let g = padding_in_field(o, skip);
        let x = f(n - 1);
        let y = g(n - 1);
    }
}

/// Every field of which something is left without its padding stays, in order,
/// and no other; and every piece of padding is counted.
pub proof fn law_fields_without_padding(o: Entries, skip: int)
    ensures
        holds_picks(
            unpadded_fields(o, skip, o.len()).0,
            field_without_padding(o, skip),
            o.len(),
        ),
        unpadded_fields(o, skip, o.len()).1 == sum_of(padding_in_field(o, skip), o.len()),
{
    lemma_unpadded_fields(o, skip, o.len());
    let _ = lemma_picked(field_without_padding(o, skip), o.len());
}

/// A changed element without the padding in its changes, unless nothing is
/// left of them.
pub open spec fn element_without_padding(list: Seq<Json>) -> spec_fn(int) -> Option<Json> {
    |i: int|
        match list[i] {
            Json::Obj(e) => match get(e, "changes"@) {
                Some(Json::Obj(inner)) => {
                    let rest = unpadded_fields(inner, -1, inner.len()).0;
                    if rest.len() == 0 {
                        None
                    } else {
                        Some(Json::Obj(with_value(e, key_index(e, "changes"@), Json::Obj(rest))))
                    }
                },
                _ => Some(list[i]),
            },
            _ => Some(list[i]),
        }
}

/// How many pieces of padding the changes of an element have.
pub open spec fn padding_in_element(list: Seq<Json>) -> spec_fn(int) -> int {
    |i: int|
        match list[i] {
            Json::Obj(e) => match get(e, "changes"@) {
                Some(Json::Obj(inner)) => unpadded_fields(inner, -1, inner.len()).1 as int,
                _ => 0,
            },
            _ => 0,
        }
}

proof fn lemma_unpadded_elements(list: Seq<Json>, n: nat)
    requires
        n <= list.len(),
    ensures
        unpadded_elements(list, n).0 == picked(element_without_padding(list), n),
        unpadded_elements(list, n).1 == sum_of(padding_in_element(list), n),
    decreases n,
{
    if n > 0 {
        lemma_unpadded_elements(list, (n - 1) as nat);
        if let Json::Obj(e) = list[n - 1] {
            lemma_key_index(e, "changes"@);
        }
        let f = element_without_padding(list);
        let g = padding_in_element(list);
        let x = f(n - 1);
        let y = g(n - 1);
    }
}

/// Every changed element of which something is left without its padding stays,
/// in order, and no other; and every piece of padding is counted.
pub proof fn law_elements_without_padding(list: Seq<Json>)
    ensures
        holds_picks(
            unpadded_elements(list, list.len()).0,
            element_without_padding(list),
            list.len(),
        ),
        unpadded_elements(list, list.len()).1 == sum_of(padding_in_element(list), list.len()),
{
    lemma_unpadded_elements(list, list.len());
    let _ = lemma_picked(element_without_padding(list), list.len());
}

// ── Fields within fields ───────────────────────────────────────────────────
/// A field that has fields is taken apart field by field, and goes where none
/// of them is left.
pub proof fn law_fields_within_fields(
    o: Entries,
    sig: Seq<char>,
    key: Seq<char>,
    path: Seq<char>,
    set: Seq<(Seq<char>, Json)>,
)
    requires
        !is_leaf(o),
        get(o, "_array_diff"@) is None,
    ensures
        restamped(Json::Obj(o), sig, key) == (
            Json::Obj(restamped_fields(o, sig, o.len())),
            restamped_fields(o, sig, o.len()).len() == 0,
        ),
        undefaulted(Json::Obj(o), path, set) == (
            Json::Obj(undefaulted_fields(o, path, set, o.len())),
            undefaulted_fields(o, path, set, o.len()).len() == 0,
        ),
{
    lemma_key_index(o, "_array_diff"@);
}

/// The list under a key of an array difference.
pub open spec fn elements_under(v: Json, k: Seq<char>) -> Option<Seq<Json>> {
    match v {
        Json::Obj(o) => match get(o, "_array_diff"@) {
            Some(Json::Obj(ad)) => match get(ad, k) {
                Some(Json::Arr(list)) => Some(list),
                _ => None,
            },
            _ => None,
        },
        _ => None,
    }
}

proof fn lemma_value_replaced(o: Entries, i: int, v: Json, k: Seq<char>)
    requires
        0 <= i < o.len(),
        i == key_index(o, o[i].0),
    ensures
        get(with_value(o, i, v), k) == if k == o[i].0 {
            Some(v)
        } else {
            get(o, k)
        },
    decreases o.len(),
{
    let after = with_value(o, i, v);
    lemma_key_index(o, k);
    lemma_key_index(after, k);
    lemma_key_index(o, o[i].0);
    let x = key_index(o, k);
    let y = key_index(after, k);
    assert forall|j: int| 0 <= j < o.len() implies (#[trigger] after[j]).0 == o[j].0 by {}
    if x < y {
        assert(after[x].0 != k);
        assert(o[x].0 == k);
    }
    if y < x {
        assert(o[y].0 != k);
        assert(after[y].0 == k);
    }
    if x < o.len() && k != o[i].0 {
        assert(after[x] == o[x]);
    }
}

/// An array difference is taken apart in its changed elements: the elements of
/// which something is left stay, and where none does there is no list of them.
/// It goes where nothing was added, removed or is left changed.
pub proof fn law_array_differences_within(ad: Entries, sig: Seq<char>, key: Seq<char>)
    requires
        keys_increase(ad),
        get(ad, "changed"@) matches Some(v) ==> v is Arr,
    ensures
        ({
            let v = Json::Obj(seq![("_array_diff"@, Json::Obj(ad))]);
            let (rest, gone) = restamped(v, sig, key);
            let left = match elements_under(v, "changed"@) {
                Some(list) => restamped_elements(list, sig, list.len()),
                None => Seq::empty(),
            };
            &&& elements_under(rest, "changed"@) == if left.len() == 0 {
                None
            } else {
                Some(left)
            }
            &&& elements_under(rest, "added"@) == elements_under(v, "added"@)
            &&& elements_under(rest, "removed"@) == elements_under(v, "removed"@)
            &&& gone <==> get(ad, "added"@) is None && get(ad, "removed"@) is None && left.len()
                == 0
        }),
{
    let name = "_array_diff"@;
    let o = seq![(name, Json::Obj(ad))];
    assert(o[0].0 == name);
    lemma_key_index(o, name);
    lemma_key_index(ad, "changed"@);
    let done = restamped_array(ad, sig);
    lemma_value_replaced(o, 0, Json::Obj(done), name);
    reveal_strlit("added");
    reveal_strlit("removed");
    reveal_strlit("changed");
    assert("added"@.len() == 5 && "removed"@.len() == 7 && "changed"@.len() == 7);
    assert("removed"@[0] == 'r' && "changed"@[0] == 'c');
    let c = key_index(ad, "changed"@);
    if c < ad.len() {
        let list = ad[c].1->Arr_0;
        let left = restamped_elements(list, sig, list.len());
        if left.len() == 0 {
            law_get_after_del(ad, "changed"@, "changed"@);
            law_get_after_del(ad, "changed"@, "added"@);
            law_get_after_del(ad, "changed"@, "removed"@);
        } else {
            assert(done == with_value(ad, c, Json::Arr(left)));
            lemma_value_replaced(ad, c, Json::Arr(left), "changed"@);
            lemma_value_replaced(ad, c, Json::Arr(left), "added"@);
            lemma_value_replaced(ad, c, Json::Arr(left), "removed"@);
        }
    }
}

// ── Records ────────────────────────────────────────────────────────────────
/// What is kept of a changed record: all of it unless it was re-saved, and
/// else what is left without padding and defaults, if anything is.
pub open spec fn record_kept(
    changed: Seq<DiffView>,
    restamp: Seq<bool>,
    set: Seq<(Seq<char>, Json)>,
) -> spec_fn(int) -> Option<DiffView> {
    |i: int|
        {
            let d = changed[i];
            let bare = without_padding(d.changes).0;
            let rest = if set.len() == 0 {
                bare
            } else {
                without_defaults(bare, set)
            };
            if !restamp[i] {
                Some(d)
            } else if rest == no_diff() {
                None
            } else {
                Some(DiffView { stub: d.stub, changes: rest, prev: d.prev })
            }
        }
}

proof fn lemma_records_kept(
    changed: Seq<DiffView>,
    restamp: Seq<bool>,
    counts: Counts,
    set: Seq<(Seq<char>, Json)>,
    n: nat,
)
    requires
        n <= changed.len(),
    ensures
        calibrated(changed, restamp, counts, set, n).kept == picked(
            record_kept(changed, restamp, set),
            n,
        ),
    decreases n,
{
    if n > 0 {
        lemma_records_kept(changed, restamp, counts, set, (n - 1) as nat);
        let f = record_kept(changed, restamp, set);
        let x = f(n - 1);
    }
}

/// Every changed record of which something is left is kept, in order, and no
/// other; one that was not re-saved is kept as it is.
pub proof fn law_every_changed_record_is_kept(
    changed: Seq<DiffView>,
    restamp: Seq<bool>,
    counts: Counts,
    set: Seq<(Seq<char>, Json)>,
)
    ensures
        holds_picks(
            calibrated(changed, restamp, counts, set, changed.len()).kept,
            record_kept(changed, restamp, set),
            changed.len(),
        ),
{
    lemma_records_kept(changed, restamp, counts, set, changed.len());
    let _ = lemma_picked(record_kept(changed, restamp, set), changed.len());
}

// ── Transitions ────────────────────────────────────────────────────────────
/// A replaced value only appears where it was nothing, and only disappears
/// where it becomes nothing.
pub proof fn law_replaced_value_appears(o: Entries, side: Seq<char>)
    requires
        is_leaf(o),
    ensures
        pure_transition(Json::Obj(o), side) <==> get(o, side) == Some(Json::Null),
{
}

/// Fields only appear where each of them does, but for those whose name starts
/// with an underscore, and there is at least one of the others.
pub proof fn law_fields_appear_together(o: Entries, side: Seq<char>, i: nat, seen: bool)
    requires
        i <= o.len(),
    ensures
        pure_fields(o, side, i, seen) <==> (forall|j: int|
            i <= j < o.len() && !starts_low(#[trigger] o[j]) ==> pure_transition(o[j].1, side)) && (
        seen || exists|j: int| i <= j < o.len() && !starts_low(#[trigger] o[j])),
    decreases o.len() - i,
{
    if i < o.len() {
        let e = o[i as int];
        if starts_low(e) {
            law_fields_appear_together(o, side, i + 1, seen);
        } else {
            law_fields_appear_together(o, side, i + 1, true);
            assert(!starts_low(o[i as int]));
        }
    }
}

/// Whether the name of an entry starts with an underscore.
pub open spec fn starts_low(e: (Seq<char>, Json)) -> bool {
    e.0.len() > 0 && e.0[0] == '_'
}

/// Elements only appear where all of their changes do.
pub proof fn law_elements_appear_together(list: Seq<Json>, side: Seq<char>, i: nat)
    requires
        i <= list.len(),
    ensures
        pure_elements(list, side, i) <==> forall|j: int|
            i <= j < list.len() ==> changes_appear(#[trigger] list[j], side),
    decreases list.len() - i,
{
    if i < list.len() {
        law_elements_appear_together(list, side, i + 1);
        if let Json::Obj(e) = list[i as int] {
            lemma_key_index(e, "changes"@);
        }
        assert(changes_appear(list[i as int], side) || !changes_appear(list[i as int], side));
    }
}

/// Whether an element has changes, and they only appear.
pub open spec fn changes_appear(v: Json, side: Seq<char>) -> bool {
    v matches Json::Obj(e) && get(e, "changes"@) is Some && pure_transition(
        get(e, "changes"@)->Some_0,
        side,
    )
}

/// A list only appears where nothing was added to it or removed from it, and
/// its changed elements do.
pub proof fn law_list_appears(ad: Entries, side: Seq<char>)
    ensures
        pure_transition(Json::Obj(seq![("_array_diff"@, Json::Obj(ad))]), side) <==> get(
            ad,
            "added"@,
        ) is None && get(ad, "removed"@) is None && (get(ad, "changed"@) matches Some(
            Json::Arr(list),
        ) && pure_elements(list, side, 0)),
{
    let o = seq![("_array_diff"@, Json::Obj(ad))];
    lemma_key_index(o, "_array_diff"@);
    lemma_key_index(ad, "changed"@);
    assert(o[0].0 == "_array_diff"@);
}

// ── Members between versions ───────────────────────────────────────────────
proof fn lemma_any_crosses(
    list: Vec<MemberDef>,
    i: nat,
    a: u16,
    b: u16,
    at_a: bool,
    at_b: bool,
)
    requires
        i <= list@.len(),
    ensures
        any_crosses(list, i, a, b, at_a, at_b) <==> exists|j: int|
            i <= j < list@.len() && crosses(#[trigger] list@[j], a, b, at_a, at_b),
    decreases list@.len() - i,
{
    if i < list@.len() {
        lemma_any_crosses(list, i + 1, a, b, at_a, at_b);
        if crosses(list@[i as int], a, b, at_a, at_b) {
            assert(crosses(list@[i as int], a, b, at_a, at_b));
        }
    }
}

/// A struct comes to exist between two versions where it does itself or one of
/// its fields does.
pub proof fn law_struct_crosses(m: MemberDef, a: u16, b: u16, at_a: bool, at_b: bool)
    requires
        m is Struct,
    ensures
        crosses(m, a, b, at_a, at_b) <==> version_ok(a, m) == at_a && version_ok(b, m) == at_b
            || exists|j: int|
            0 <= j < m->Struct_fields@.len() && crosses(
                #[trigger] m->Struct_fields@[j],
                a,
                b,
                at_a,
                at_b,
            ),
{
    lemma_any_crosses(m->Struct_fields, 0, a, b, at_a, at_b);
}

/// A group of members, and a choice between some, come to exist between two
/// versions where they do themselves or one of the members does.
pub proof fn law_group_crosses(
    m: MemberDef,
    list: Vec<MemberDef>,
    a: u16,
    b: u16,
    at_a: bool,
    at_b: bool,
)
    requires
        m is RStruct && list == m->RStruct_members || m is Union && list == m->Union_variants,
    ensures
        crosses(m, a, b, at_a, at_b) <==> version_ok(a, m) == at_a && version_ok(b, m) == at_b
            || exists|j: int|
            0 <= j < list@.len() && crosses(#[trigger] list@[j], a, b, at_a, at_b),
{
    lemma_any_crosses(list, 0, a, b, at_a, at_b);
}

} // verus!
