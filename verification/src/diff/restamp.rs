//! What a newer serializer writes out, or sets to zero, where an older one
//! did not. None of it is in the schema.
use crate::diff::noise::{is_from_to_leaf, is_leaf};
use crate::json::{
    del, entries_of, get, has_key, key_index, nothing, views, Entries, Json, Object, Value,
};
use crate::text::{chars_of, str_eq};
use vstd::prelude::*;

verus! {

/// Whether every character is `0`.
pub open spec fn all_zeros(s: Seq<char>) -> bool {
    forall|i: int| 0 <= i < s.len() ==> #[trigger] s[i] == '0'
}

/// Whether every character is `0`.
fn only_zeros(v: &Vec<char>) -> (b: bool)
    ensures
        b == all_zeros(v@),
{
    let mut i: usize = 0;
    while i < v.len()
        invariant
            i <= v.len(),
            forall|j: int| 0 <= j < i ==> #[trigger] v@[j] == '0',
        decreases v.len() - i,
    {
        if v[i] != '0' {
            return false;
        }
        i += 1;
    }
    true
}

/// Whether hexadecimal digits write whole zero bytes.
pub open spec fn zero_hex(s: Seq<char>) -> bool {
    s.len() % 2 == 0 && all_zeros(s)
}

/// Whether hexadecimal digits write whole zero bytes.
pub fn is_zero_hex(s: &str) -> (b: bool)
    ensures
        b == zero_hex(s@),
{
    let v = chars_of(s);
    v.len() % 2 == 0 && only_zeros(&v)
}

/// Whether `v` stands for undecoded bytes that are all zero.
pub open spec fn zero_blob(v: Json) -> bool {
    match v {
        Json::Obj(o) => get(o, "_raw"@) == Some(Json::Bool(true)) && match get(o, "hex"@) {
            Some(Json::Str(s)) => zero_hex(s),
            _ => false,
        },
        _ => false,
    }
}

/// Whether `v` stands for undecoded bytes that are all zero.
pub fn is_zero_raw_blob(v: &Value) -> (b: bool)
    ensures
        b == zero_blob(v@),
{
    match v {
        Value::Object(o) => {
            let raw = match o.get("_raw") {
                Some(r) => r.is_true(),
                None => false,
            };
            if !raw {
                return false;
            }
            match o.get("hex") {
                Some(h) => match h {
                    Value::String(s) => is_zero_hex(s),
                    _ => false,
                },
                None => false,
            }
        },
        _ => false,
    }
}

/// Whether a value is noise where it appears: a subrecord that a newer
/// serializer writes out. Where it disappears, it is an edit.
pub open spec fn materialized(sig: Seq<char>, key: Seq<char>) -> bool {
    sig == "INFO"@ && key == "Previous INFO"@
}

/// Whether the replacement of `from` by `to` is noise: zero bytes that come
/// or go, or a field that is written out.
pub open spec fn restamp_leaf(sig: Seq<char>, key: Seq<char>, from: Json, to: Json) -> bool {
    ||| from == Json::Null && zero_blob(to)
    ||| to == Json::Null && zero_blob(from)
    ||| from == Json::Null && to != Json::Null && materialized(sig, key)
}

/// Whether the replacement of `from` by `to` is noise.
fn is_restamp_leaf(sig: &str, key: &str, from: &Value, to: &Value) -> (b: bool)
    ensures
        b == restamp_leaf(sig@, key@, from@, to@),
{
    (from.is_null() && is_zero_raw_blob(to)) || (to.is_null() && is_zero_raw_blob(from)) || (
    from.is_null() && !to.is_null() && str_eq(sig, "INFO") && str_eq(key, "Previous INFO"))
}

/// Whether an array difference still says something.
pub open spec fn says_nothing(ad: Entries) -> bool {
    !has_key(ad, "added"@) && !has_key(ad, "removed"@) && !has_key(ad, "changed"@)
}

/// Whether an array difference still says something.
pub fn envelope_is_empty(ad: &Object) -> (b: bool)
    ensures
        b == says_nothing(ad@),
{
    !(ad.contains_key("added") || ad.contains_key("removed") || ad.contains_key("changed"))
}

/// The array difference `ad` with the elements `list` under `changed`, at
/// position `c`.
pub open spec fn with_changed(ad: Entries, c: int, list: Seq<Json>) -> Entries {
    if list.len() == 0 {
        del(ad, "changed"@)
    } else {
        ad.update(c, (ad[c].0, Json::Arr(list)))
    }
}

/// Puts the elements `list` in place of those at position `c`.
pub fn replace_changed(ad: &Object, c: usize, list: Vec<Value>) -> (r: Object)
    requires
        c < ad.entries.len(),
    ensures
        r@ == with_changed(ad@, c as int, views(list@)),
{
    let mut r = ad.copy();
    if list.len() == 0 {
        let _gone = r.remove("changed");
    } else {
        let key = ad.entries[c].0.clone();
        assert(r@.len() == r.entries.len() && ad@.len() == ad.entries.len());
        let ghost before = r@;
        let ghost lv = views(list@);
        assert(before[c as int].0 == key@);
        r.entries[c] = (key, Value::Array(list));
        assert(r@ =~= before.update(c as int, (before[c as int].0, Json::Arr(lv))));
    }
    r
}

/// The object `o` with another value at position `i`.
pub open spec fn with_value(o: Entries, i: int, v: Json) -> Entries {
    o.update(i, (o[i].0, v))
}

/// Puts another value at position `i`.
pub fn replace_value(o: &Object, i: usize, v: Value) -> (r: Object)
    requires
        i < o.entries.len(),
    ensures
        r@ == with_value(o@, i as int, v@),
{
    let mut r = o.copy();
    let key = o.entries[i].0.clone();
    assert(r@.len() == r.entries.len() && o@.len() == o.entries.len());
    let ghost before = r@;
    let ghost vv = v@;
    assert(before[i as int].0 == key@);
    r.entries[i] = (key, v);
    assert(r@ =~= before.update(i as int, (before[i as int].0, vv)));
    r
}

/// An object with one more entry at its end.
pub proof fn lemma_entries_push(entries: Seq<(String, Value)>, e: (String, Value))
    ensures
        entries_of(entries.push(e)) == entries_of(entries).push((e.0@, e.1@)),
{
    assert(entries_of(entries.push(e)) =~= entries_of(entries).push((e.0@, e.1@)));
}

/// A list with one more value at its end.
pub proof fn lemma_views_push(list: Seq<Value>, v: Value)
    ensures
        views(list.push(v)) == views(list).push(v@),
{
    assert(views(list.push(v)) =~= views(list).push(v@));
}

// ── Values that are written out ────────────────────────────────────────────
/// The value `v` of field `key` without restamp noise, and whether nothing of
/// it is left.
pub open spec fn restamped(v: Json, sig: Seq<char>, key: Seq<char>) -> (Json, bool)
    decreases v, 1nat, 0nat,
{
    match v {
        Json::Obj(o) => {
            let i = key_index(o, "_array_diff"@);
            if 0 <= i < o.len() && o[i].1 is Obj {
                let ad = restamped_array(o[i].1->Obj_0, sig);
                (Json::Obj(with_value(o, i, Json::Obj(ad))), says_nothing(ad))
            } else if is_leaf(o) {
                (v, restamp_leaf(sig, key, get(o, "from"@)->0, get(o, "to"@)->0))
            } else {
                let rest = restamped_fields(o, sig, o.len());
                (Json::Obj(rest), rest.len() == 0)
            }
        },
        _ => (v, false),
    }
}

/// The first `n` fields without restamp noise.
pub open spec fn restamped_fields(o: Entries, sig: Seq<char>, n: nat) -> Entries
    decreases o, 0nat, n,
{
    if n == 0 || n > o.len() {
        nothing()
    } else {
        let kept = restamped_fields(o, sig, (n - 1) as nat);
        let (v, gone) = restamped(o[n - 1].1, sig, o[n - 1].0);
        if gone {
            kept
        } else {
            kept.push((o[n - 1].0, v))
        }
    }
}

/// An array difference without restamp noise in its changed elements.
pub open spec fn restamped_array(ad: Entries, sig: Seq<char>) -> Entries
    decreases ad, 2nat, 0nat,
{
    let c = key_index(ad, "changed"@);
    if 0 <= c < ad.len() && ad[c].1 is Arr {
        let list = ad[c].1->Arr_0;
        with_changed(ad, c, restamped_elements(list, sig, list.len()))
    } else {
        ad
    }
}

/// The first `n` changed elements without restamp noise; an element of which
/// nothing is left is dropped.
pub open spec fn restamped_elements(list: Seq<Json>, sig: Seq<char>, n: nat) -> Seq<Json>
    decreases list, 0nat, n,
{
    if n == 0 || n > list.len() {
        Seq::empty()
    } else {
        let kept = restamped_elements(list, sig, (n - 1) as nat);
        match list[n - 1] {
            Json::Obj(e) => {
                let j = key_index(e, "changes"@);
                if 0 <= j < e.len() && e[j].1 is Obj {
                    let inner = e[j].1->Obj_0;
                    let rest = restamped_fields(inner, sig, inner.len());
                    if rest.len() == 0 {
                        kept
                    } else {
                        kept.push(Json::Obj(with_value(e, j, Json::Obj(rest))))
                    }
                } else {
                    kept.push(list[n - 1])
                }
            },
            _ => kept.push(list[n - 1]),
        }
    }
}

/// The value of a field without restamp noise, and whether nothing is left.
fn strip_value(v: &Value, sig: &str, key: &str) -> (r: (Value, bool))
    ensures
        (r.0@, r.1) == restamped(v@, sig@, key@),
    decreases v, 1nat, 0nat,
{
    let o: &Object = match v {
        Value::Object(o) => o,
        _ => {
            return (v.copy(), false);
        },
    };
    let i: usize = o.find("_array_diff");
    if i < o.entries.len() {
        assert(o@[i as int].1 == o.entries@[i as int].1@);
        match &o.entries[i].1 {
            Value::Object(ad) => {
                let (rest, gone) = strip_restamp_array_diff(ad, sig);
                return (Value::Object(replace_value(o, i, Value::Object(rest))), gone);
            },
            _ => {},
        }
    }
    if is_from_to_leaf(o) {
        let noise = match (o.get("from"), o.get("to")) {
            (Some(from), Some(to)) => is_restamp_leaf(sig, key, from, to),
            _ => false,
        };
        return (v.copy(), noise);
    }
    let rest = strip_fields(o, sig);
    let gone = rest.len() == 0;
    (Value::Object(rest), gone)
}

/// The fields without restamp noise.
#[verifier::loop_isolation(false)]
fn strip_fields(o: &Object, sig: &str) -> (r: Object)
    ensures
        r@ == restamped_fields(o@, sig@, o@.len()),
    decreases o, 0nat, 0nat,
{
    let mut entries: Vec<(String, Value)> = Vec::new();
    assert(entries_of(entries@) =~= nothing());
    let mut i: usize = 0;
    while i < o.entries.len()
        invariant
            i <= o.entries.len(),
            entries_of(entries@) == restamped_fields(o@, sig@, i as nat),
        decreases o.entries.len() - i,
    {
        assert(o@[i as int] == (o.entries@[i as int].0@, o.entries@[i as int].1@));
        let (v, gone) = strip_value(&o.entries[i].1, sig, &o.entries[i].0);
        if !gone {
            let e = (o.entries[i].0.clone(), v);
            proof {
                lemma_entries_push(entries@, e);
            }
            entries.push(e);
        }
        i += 1;
    }
    Object { entries }
}

/// An array difference without restamp noise in its changed elements, and
/// whether it says nothing any more.
pub fn strip_restamp_array_diff(ad: &Object, sig: &str) -> (r: (Object, bool))
    ensures
        r.0@ == restamped_array(ad@, sig@),
        r.1 == says_nothing(r.0@),
    decreases ad, 2nat, 0nat,
{
    let c: usize = ad.find("changed");
    if c < ad.entries.len() {
        assert(ad@[c as int].1 == ad.entries@[c as int].1@);
        match &ad.entries[c].1 {
            Value::Array(list) => {
                let kept = strip_elements(list, sig);
                assert(views(list@).len() == list.len());
                let rest = replace_changed(ad, c, kept);
                let gone = envelope_is_empty(&rest);
                return (rest, gone);
            },
            _ => {},
        }
    }
    let gone = envelope_is_empty(ad);
    (ad.copy(), gone)
}

/// The changed elements without restamp noise.
#[verifier::loop_isolation(false)]
fn strip_elements(list: &Vec<Value>, sig: &str) -> (r: Vec<Value>)
    ensures
        views(r@) == restamped_elements(views(list@), sig@, list.len() as nat),
    decreases list, 0nat, 0nat,
{
    let mut kept: Vec<Value> = Vec::new();
    assert(views(kept@) =~= Seq::<Json>::empty());
    let mut i: usize = 0;
    while i < list.len()
        invariant
            i <= list.len(),
            views(kept@) == restamped_elements(views(list@), sig@, i as nat),
        decreases list.len() - i,
    {
        assert(views(list@)[i as int] == list@[i as int]@);
        let mut item: Option<Value> = Some(list[i].copy());
        if let Value::Object(e) = &list[i] {
            let j: usize = e.find("changes");
            if j < e.entries.len() {
                assert(e@[j as int].1 == e.entries@[j as int].1@);
                if let Value::Object(inner) = &e.entries[j].1 {
                    let rest = strip_fields(inner, sig);
                    if rest.len() == 0 {
                        item = None;
                    } else {
                        item = Some(Value::Object(replace_value(e, j, Value::Object(rest))));
                    }
                }
            }
        }
        if let Some(v) = item {
            proof {
                lemma_views_push(kept@, v);
            }
            kept.push(v);
        }
        i += 1;
    }
    kept
}

/// The field changes without restamp noise.
pub open spec fn without_restamp(v: Json, sig: Seq<char>) -> Json {
    match v {
        Json::Obj(o) => Json::Obj(restamped_fields(o, sig, o.len())),
        _ => v,
    }
}

/// Takes restamp noise out of the field changes.
pub fn strip_restamp_appearances(field_changes: &mut Value, sig: &str)
    ensures
        final(field_changes)@ == without_restamp(old(field_changes)@, sig@),
{
    let rest = match field_changes {
        Value::Object(o) => strip_fields(o, sig),
        _ => {
            return;
        },
    };
    *field_changes = Value::Object(rest);
}

// ── Padding that is set to zero ────────────────────────────────────────────
/// Whether `v` is the replacement of some digits by zeros.
pub open spec fn zeroed_hex(v: Json) -> bool {
    match v {
        Json::Obj(o) => is_leaf(o) && match (get(o, "from"@), get(o, "to"@)) {
            (Some(Json::Str(from)), Some(Json::Str(to))) => from.len() > 0 && to.len() > 0
                && all_zeros(to),
            _ => false,
        },
        _ => false,
    }
}

/// Whether `v` is the replacement of some digits by zeros.
pub fn is_padding_zeroed_hex_diff(v: &Value) -> (b: bool)
    ensures
        b == zeroed_hex(v@),
{
    let o: &Object = match v {
        Value::Object(o) => o,
        _ => {
            return false;
        },
    };
    if !is_from_to_leaf(o) {
        return false;
    }
    match (o.get("from"), o.get("to")) {
        (Some(from), Some(to)) => match (from.as_str(), to.as_str()) {
            (Some(f), Some(t)) => {
                let z = chars_of(t);
                !f.is_empty() && !t.is_empty() && only_zeros(&z)
            },
            _ => false,
        },
        _ => false,
    }
}

/// Whether `v` is a change of undecoded bytes to zeros, and nothing else.
pub open spec fn zeroed_blob(v: Json) -> bool {
    match v {
        Json::Obj(o) => o.len() == 1 && match get(o, "hex"@) {
            Some(h) => zeroed_hex(h),
            None => false,
        },
        _ => false,
    }
}

/// Whether `v` is a change of undecoded bytes to zeros, and nothing else.
pub fn is_padding_zeroed_value(v: &Value) -> (b: bool)
    ensures
        b == zeroed_blob(v@),
{
    match v {
        Value::Object(o) => o.len() == 1 && match o.get("hex") {
            Some(h) => is_padding_zeroed_hex_diff(h),
            None => false,
        },
        _ => false,
    }
}

/// A value without zeroed padding, how many leaves went, and whether nothing
/// is left.
pub open spec fn unpadded(v: Json) -> (Json, nat, bool)
    decreases v, 1nat, 0nat,
{
    match v {
        Json::Obj(o) => {
            let i = key_index(o, "_array_diff"@);
            let h = key_index(o, "hex"@);
            if zeroed_blob(v) {
                (v, 1, true)
            } else if 0 <= i < o.len() && o[i].1 is Obj {
                let (ad, n) = unpadded_array(o[i].1->Obj_0);
                (Json::Obj(with_value(o, i, Json::Obj(ad))), n, says_nothing(ad))
            } else {
                let skip = if 0 <= h < o.len() && zeroed_hex(o[h].1) {
                    h
                } else {
                    -1
                };
                let (rest, n) = unpadded_fields(o, skip, o.len());
                (Json::Obj(rest), n, rest.len() == 0)
            }
        },
        _ => (v, 0, false),
    }
}

/// The first `n` fields without zeroed padding, and how many leaves went. The
/// field at position `skip` is one of them.
pub open spec fn unpadded_fields(o: Entries, skip: int, n: nat) -> (Entries, nat)
    decreases o, 0nat, n,
{
    if n == 0 || n > o.len() {
        (nothing(), 0)
    } else {
        let (kept, count) = unpadded_fields(o, skip, (n - 1) as nat);
        if n - 1 == skip {
            (kept, count + 1)
        } else {
            let (v, m, gone) = unpadded(o[n - 1].1);
            (
                if gone {
                    kept
                } else {
                    kept.push((o[n - 1].0, v))
                },
                count + m,
            )
        }
    }
}

/// An array difference without zeroed padding, and how many leaves went.
pub open spec fn unpadded_array(ad: Entries) -> (Entries, nat)
    decreases ad, 2nat, 0nat,
{
    let c = key_index(ad, "changed"@);
    if 0 <= c < ad.len() && ad[c].1 is Arr {
        let list = ad[c].1->Arr_0;
        let (kept, n) = unpadded_elements(list, list.len());
        (with_changed(ad, c, kept), n)
    } else {
        (ad, 0)
    }
}

/// The first `n` changed elements without zeroed padding, and how many leaves
/// went.
pub open spec fn unpadded_elements(list: Seq<Json>, n: nat) -> (Seq<Json>, nat)
    decreases list, 0nat, n,
{
    if n == 0 || n > list.len() {
        (Seq::empty(), 0)
    } else {
        let (kept, count) = unpadded_elements(list, (n - 1) as nat);
        match list[n - 1] {
            Json::Obj(e) => {
                let j = key_index(e, "changes"@);
                if 0 <= j < e.len() && e[j].1 is Obj {
                    let inner = e[j].1->Obj_0;
                    let (rest, m) = unpadded_fields(inner, -1, inner.len());
                    (
                        if rest.len() == 0 {
                            kept
                        } else {
                            kept.push(Json::Obj(with_value(e, j, Json::Obj(rest))))
                        },
                        count + m,
                    )
                } else {
                    (kept.push(list[n - 1]), count)
                }
            },
            _ => (kept.push(list[n - 1]), count),
        }
    }
}

/// The larger count that fits.
pub open spec fn fit(n: nat) -> int {
    if n > u64::MAX {
        u64::MAX as int
    } else {
        n as int
    }
}

/// The sum of two counts, or the largest count.
fn add_counts(a: u64, b: u64, Ghost(x): Ghost<nat>, Ghost(y): Ghost<nat>) -> (r: u64)
    requires
        a == fit(x),
        b == fit(y),
    ensures
        r == fit(x + y),
{
    if a > u64::MAX - b {
        u64::MAX
    } else {
        a + b
    }
}

/// A value without zeroed padding, how many leaves went, and whether nothing
/// is left.
fn unpad_value(v: &Value) -> (r: (Value, u64, bool))
    ensures
        r.0@ == unpadded(v@).0,
        r.1 == fit(unpadded(v@).1),
        r.2 == unpadded(v@).2,
    decreases v, 1nat, 0nat,
{
    if is_padding_zeroed_value(v) {
        return (v.copy(), 1, true);
    }
    let o: &Object = match v {
        Value::Object(o) => o,
        _ => {
            return (v.copy(), 0, false);
        },
    };
    let i: usize = o.find("_array_diff");
    if i < o.entries.len() {
        assert(o@[i as int].1 == o.entries@[i as int].1@);
        if let Value::Object(ad) = &o.entries[i].1 {
            let (rest, n) = unpad_array(ad);
            let gone = envelope_is_empty(&rest);
            return (Value::Object(replace_value(o, i, Value::Object(rest))), n, gone);
        }
    }
    let h: usize = o.find("hex");
    let mut skip: Option<usize> = None;
    if h < o.entries.len() {
        assert(o@[h as int].1 == o.entries@[h as int].1@);
        if is_padding_zeroed_hex_diff(&o.entries[h].1) {
            skip = Some(h);
        }
    }
    let (rest, n) = unpad_fields(o, skip);
    let gone = rest.len() == 0;
    (Value::Object(rest), n, gone)
}

/// The position to skip as a number; none is before the first.
pub open spec fn skip_int(skip: Option<usize>) -> int {
    match skip {
        Some(i) => i as int,
        None => -1,
    }
}

/// The fields without zeroed padding, and how many leaves went.
#[verifier::loop_isolation(false)]
fn unpad_fields(o: &Object, skip: Option<usize>) -> (r: (Object, u64))
    ensures
        r.0@ == unpadded_fields(o@, skip_int(skip), o@.len()).0,
        r.1 == fit(unpadded_fields(o@, skip_int(skip), o@.len()).1),
    decreases o, 0nat, 0nat,
{
    let mut entries: Vec<(String, Value)> = Vec::new();
    assert(entries_of(entries@) =~= nothing());
    let mut count: u64 = 0;
    let mut i: usize = 0;
    while i < o.entries.len()
        invariant
            i <= o.entries.len(),
            entries_of(entries@) == unpadded_fields(o@, skip_int(skip), i as nat).0,
            count == fit(unpadded_fields(o@, skip_int(skip), i as nat).1),
        decreases o.entries.len() - i,
    {
        assert(o@[i as int] == (o.entries@[i as int].0@, o.entries@[i as int].1@));
        let ghost before = unpadded_fields(o@, skip_int(skip), i as nat).1;
        let here = match skip {
            Some(s) => s == i,
            None => false,
        };
        if here {
            count = add_counts(count, 1, Ghost(before), Ghost(1));
        } else {
            let (v, n, gone) = unpad_value(&o.entries[i].1);
            count = add_counts(count, n, Ghost(before), Ghost(unpadded(o@[i as int].1).1));
            if !gone {
                let e = (o.entries[i].0.clone(), v);
                proof {
                    lemma_entries_push(entries@, e);
                }
                entries.push(e);
            }
        }
        i += 1;
    }
    (Object { entries }, count)
}

/// An array difference without zeroed padding, and how many leaves went.
fn unpad_array(ad: &Object) -> (r: (Object, u64))
    ensures
        r.0@ == unpadded_array(ad@).0,
        r.1 == fit(unpadded_array(ad@).1),
    decreases ad, 2nat, 0nat,
{
    let c: usize = ad.find("changed");
    if c < ad.entries.len() {
        assert(ad@[c as int].1 == ad.entries@[c as int].1@);
        if let Value::Array(list) = &ad.entries[c].1 {
            let (kept, n) = unpad_elements(list);
            assert(views(list@).len() == list.len());
            return (replace_changed(ad, c, kept), n);
        }
    }
    (ad.copy(), 0)
}

/// The changed elements without zeroed padding, and how many leaves went.
#[verifier::loop_isolation(false)]
fn unpad_elements(list: &Vec<Value>) -> (r: (Vec<Value>, u64))
    ensures
        views(r.0@) == unpadded_elements(views(list@), list.len() as nat).0,
        r.1 == fit(unpadded_elements(views(list@), list.len() as nat).1),
    decreases list, 0nat, 0nat,
{
    let mut kept: Vec<Value> = Vec::new();
    assert(views(kept@) =~= Seq::<Json>::empty());
    let mut count: u64 = 0;
    let mut i: usize = 0;
    while i < list.len()
        invariant
            i <= list.len(),
            views(kept@) == unpadded_elements(views(list@), i as nat).0,
            count == fit(unpadded_elements(views(list@), i as nat).1),
        decreases list.len() - i,
    {
        assert(views(list@)[i as int] == list@[i as int]@);
        let ghost before = unpadded_elements(views(list@), i as nat).1;
        let mut item: Option<Value> = Some(list[i].copy());
        if let Value::Object(e) = &list[i] {
            let j: usize = e.find("changes");
            if j < e.entries.len() {
                assert(e@[j as int].1 == e.entries@[j as int].1@);
                if let Value::Object(inner) = &e.entries[j].1 {
                    let (rest, n) = unpad_fields(inner, None);
                    count = add_counts(
                        count,
                        n,
                        Ghost(before),
                        Ghost(unpadded_fields(inner@, -1, inner@.len()).1),
                    );
                    if rest.len() == 0 {
                        item = None;
                    } else {
                        item = Some(Value::Object(replace_value(e, j, Value::Object(rest))));
                    }
                }
            }
        }
        if let Some(v) = item {
            proof {
                lemma_views_push(kept@, v);
            }
            kept.push(v);
        }
        i += 1;
    }
    (kept, count)
}

/// The field changes without zeroed padding, and how many leaves went.
pub open spec fn without_padding(v: Json) -> (Json, nat) {
    match v {
        Json::Obj(o) => {
            let (rest, n) = unpadded_fields(o, -1, o.len());
            (Json::Obj(rest), n)
        },
        _ => (v, 0),
    }
}

/// Takes zeroed padding out of the field changes and returns how many leaves
/// went.
pub fn strip_padding_zeroed(field_changes: &mut Value) -> (n: u64)
    ensures
        final(field_changes)@ == without_padding(old(field_changes)@).0,
        n == fit(without_padding(old(field_changes)@).1),
{
    let (rest, n) = match field_changes {
        Value::Object(o) => unpad_fields(o, None),
        _ => {
            return 0;
        },
    };
    *field_changes = Value::Object(rest);
    n
}

} // verus!
