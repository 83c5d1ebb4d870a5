//! Structural comparison of JSON values, with per-element treatment of
//! arrays.
//!
//! The difference of two values is an object that holds what changed and
//! nothing else: `{"from": .., "to": ..}` where a value was replaced, nested
//! objects above it, and an `_array_diff` envelope for an array. Elements of
//! arrays are paired by key, by position, as a multiset, or not at all.
use crate::diff::align::{aligned, lcs_align};
use crate::diff::keys::{
    all_keys, compute_keys, display_key, element_key_spec, key_for, key_ok, key_view,
    lemma_key_for_ok, nested_views, shown_key, widen_key_spec_until_unique, widened,
    KeySpec,
};
use crate::json::{
    equals_all, get, identical_all, nothing, obj1, obj2, obj3, obj4, put, same, same_all, text,
    views, Entries, Json, Object, Value,
};
use crate::text::{decimal, decimal_string, hex8, hex8_string, str_lt, text_lt, texts};
use std::collections::BTreeMap;
use vstd::prelude::*;

verus! {

/// The text of a JSON string, with its quotes and escapes.
pub uninterp spec fn json_quoted(s: Seq<char>) -> Seq<char>;

/// `serde_json::to_string` on a string: a function of the text alone.
#[verifier::external_body]
fn quote(s: &str) -> (r: String)
    ensures
        r@ == json_quoted(s@),
{
    serde_json::to_string(s).unwrap_or_default()
}

/// The difference of equal values.
pub open spec fn no_diff() -> Json {
    Json::Obj(nothing())
}

/// The difference of two values that have nothing in common.
pub open spec fn from_to(a: Json, b: Json) -> Json {
    Json::Obj(obj2("from"@, a, "to"@, b))
}

/// The difference of two values that have nothing in common.
pub fn from_to_value(a: Value, b: Value) -> (v: Value)
    ensures
        v@ == from_to(a@, b@),
{
    Value::Object(Object::new().with("from", a).with("to", b))
}

/// Whether `v` is the difference of equal values.
pub fn is_empty_diff(v: &Value) -> (b: bool)
    ensures
        b == (v@ == no_diff()),
{
    match v {
        Value::Object(o) => o.is_empty(),
        _ => false,
    }
}

/// The envelope of an array difference.
pub open spec fn envelope(inner: Entries) -> Json {
    Json::Obj(obj1("_array_diff"@, Json::Obj(inner)))
}

/// The envelope of an array difference.
fn wrap_array_diff(inner: Object) -> (v: Value)
    ensures
        v@ == envelope(inner@),
{
    Value::Object(Object::new().with("_array_diff", Value::Object(inner)))
}

/// `o` with a list under `k`, unless it is empty.
pub open spec fn put_list(o: Entries, k: Seq<char>, list: Seq<Json>) -> Entries {
    if list.len() == 0 {
        o
    } else {
        put(o, k, Json::Arr(list))
    }
}

/// Puts a list under `k`, unless it is empty.
fn insert_list(o: &mut Object, k: &str, list: Vec<Value>)
    ensures
        final(o)@ == put_list(old(o)@, k@, views(list@)),
{
    if list.len() > 0 {
        o.insert(k.to_owned(), Value::Array(list));
    }
}

/// What every envelope holds: the strategy and the lengths.
pub open spec fn counts(strategy: Seq<char>, a: int, b: int) -> Entries {
    obj3(
        "strategy"@,
        Json::Str(strategy),
        "count_from"@,
        Json::Int(a),
        "count_to"@,
        Json::Int(b),
    )
}

/// What every envelope holds: the strategy and the lengths.
fn counts_object(strategy: &str, a: usize, b: usize) -> (o: Object)
    ensures
        o@ == counts(strategy@, a as int, b as int),
{
    Object::new().with("strategy", text(strategy)).with("count_from", Value::Int(a as i128)).with(
        "count_to",
        Value::Int(b as i128),
    )
}

// ── Unpaired ───────────────────────────────────────────────────────────────
/// The difference of two lists whose elements have no identity.
pub open spec fn unkeyed_diff(a: Seq<Json>, b: Seq<Json>) -> Json {
    let m = aligned(a, b);
    let o = put(
        counts("unkeyed"@, a.len() as int, b.len() as int),
        "unchanged_count"@,
        Json::Int(m.unchanged),
    );
    envelope(put_list(put_list(o, "removed"@, m.removed), "added"@, m.added))
}

/// The difference of two lists whose elements have no identity.
pub fn unkeyed_array_diff(a: &Vec<Value>, b: &Vec<Value>) -> (v: Value)
    ensures
        v@ == unkeyed_diff(views(a@), views(b@)),
{
    let m = lcs_align(a, b);
    let mut o = counts_object("unkeyed", a.len(), b.len()).with(
        "unchanged_count",
        Value::Int(m.unchanged as i128),
    );
    insert_list(&mut o, "removed", m.removed);
    insert_list(&mut o, "added", m.added);
    wrap_array_diff(o)
}

// ── Multisets ──────────────────────────────────────────────────────────────
/// How the floats of two files read as JSON, by their bit patterns.
#[derive(Debug, Clone, Copy)]
pub struct FloatTexts<'a> {
    pub first: &'a BTreeMap<u32, String>,
    pub second: &'a BTreeMap<u32, String>,
}

impl<'a> FloatTexts<'a> {
    /// How a float reads. One that neither file knows of goes by its bit
    /// pattern.
    pub open spec fn reads(&self, bits: u32) -> Seq<char> {
        if self.first@.contains_key(bits) {
            self.first@[bits]@
        } else if self.second@.contains_key(bits) {
            self.second@[bits]@
        } else {
            hex8(bits)
        }
    }

    /// How a float reads.
    pub fn text(&self, bits: u32) -> (r: String)
        ensures
            r@ == self.reads(bits),
    {
        match self.first.get(&bits) {
            Some(s) => s.as_str().to_owned(),
            None => match self.second.get(&bits) {
                Some(s) => s.as_str().to_owned(),
                None => hex8_string(bits),
            },
        }
    }
}

/// The text by which a scalar is put in order: how it reads as JSON.
pub open spec fn order_text(v: Json, floats: FloatTexts<'_>) -> Seq<char> {
    match v {
        Json::Null => "null"@,
        Json::Bool(b) => if b {
            "true"@
        } else {
            "false"@
        },
        Json::Int(n) => decimal(n),
        Json::Float(b) => floats.reads(b),
        Json::Str(s) => json_quoted(s),
        _ => Seq::empty(),
    }
}

/// The text by which a scalar is put in order.
fn order_string(v: &Value, floats: FloatTexts<'_>) -> (r: String)
    ensures
        r@ == order_text(v@, floats),
{
    match v {
        Value::Null => "null".to_owned(),
        Value::Bool(b) => if *b {
            "true".to_owned()
        } else {
            "false".to_owned()
        },
        Value::Int(n) => decimal_string(*n),
        Value::Float(b) => floats.text(*b),
        Value::String(s) => quote(s),
        _ => String::new(),
    }
}

/// How often each value was gained, in order.
pub type Tally = Seq<(Json, int)>;

/// The position of `v` from `i` on, or the length.
pub open spec fn tally_find(t: Tally, v: Json, i: nat) -> int
    decreases t.len() - i,
{
    if i >= t.len() || t[i as int].0 == v {
        i as int
    } else {
        tally_find(t, v, i + 1)
    }
}

/// The position from `i` on before which `v` belongs.
pub open spec fn tally_place(t: Tally, v: Json, i: nat, floats: FloatTexts<'_>) -> int
    decreases t.len() - i,
{
    if i >= t.len() || text_lt(order_text(v, floats), order_text(t[i as int].0, floats)) {
        i as int
    } else {
        tally_place(t, v, i + 1, floats)
    }
}

/// The tally with `d` more of `v`.
pub open spec fn bump(t: Tally, v: Json, d: int, floats: FloatTexts<'_>) -> Tally {
    let i = tally_find(t, v, 0);
    if i < t.len() {
        t.update(i, (v, t[i].1 + d))
    } else {
        t.insert(tally_place(t, v, 0, floats), (v, d))
    }
}

/// The tally with `d` more of each of the first `n` items.
pub open spec fn bump_all(
    t: Tally,
    items: Seq<Json>,
    n: nat,
    d: int,
    floats: FloatTexts<'_>,
) -> Tally
    decreases n,
{
    if n == 0 || n > items.len() {
        t
    } else {
        bump(bump_all(t, items, (n - 1) as nat, d, floats), items[n - 1], d, floats)
    }
}

/// The tally of what was lost with `a` and gained with `b`.
pub open spec fn tally_of(a: Seq<Json>, b: Seq<Json>, floats: FloatTexts<'_>) -> Tally {
    bump_all(bump_all(Seq::empty(), a, a.len(), -1, floats), b, b.len(), 1, floats)
}

/// `n` times `v`.
pub open spec fn times(v: Json, n: int) -> Seq<Json> {
    Seq::new(
        if n > 0 {
            n as nat
        } else {
            0
        },
        |i: int| v,
    )
}

/// What the first `n` values of a tally gained, times `sign`.
pub open spec fn gained(t: Tally, n: nat, sign: int) -> Seq<Json>
    decreases n,
{
    if n == 0 || n > t.len() {
        Seq::empty()
    } else {
        gained(t, (n - 1) as nat, sign) + times(t[n - 1].0, sign * t[n - 1].1)
    }
}

/// The difference of two lists of scalars as multisets.
pub open spec fn multiset_diff(a: Seq<Json>, b: Seq<Json>, floats: FloatTexts<'_>) -> Json {
    let t = tally_of(a, b, floats);
    let added = gained(t, t.len(), 1);
    let removed = gained(t, t.len(), -1);
    if added.len() == 0 && removed.len() == 0 {
        no_diff()
    } else {
        envelope(
            put_list(
                put_list(counts("set"@, a.len() as int, b.len() as int), "added"@, added),
                "removed"@,
                removed,
            ),
        )
    }
}

/// A tally in memory as mathematics.
pub open spec fn tally_view(t: Seq<(Value, i128)>) -> Tally {
    t.map_values(|e: (Value, i128)| (e.0@, e.1 as int))
}

/// Whether every number of a tally lies within `n` of zero.
pub open spec fn tally_within(t: Seq<(Value, i128)>, n: int) -> bool {
    forall|i: int| 0 <= i < t.len() ==> -n <= (#[trigger] t[i]).1 <= n
}

/// Counts `d` more of `v`.
fn tally_bump(
    t: &mut Vec<(Value, i128)>,
    v: &Value,
    d: i128,
    Ghost(n): Ghost<int>,
    floats: FloatTexts<'_>,
)
    requires
        -1 <= d <= 1,
        tally_within(old(t)@, n),
        0 <= n < 0x4000_0000_0000_0000_0000,
    ensures
        tally_view(final(t)@) == bump(tally_view(old(t)@), v@, d as int, floats),
        tally_within(final(t)@, n + 1),
{
    let ghost tv = tally_view(t@);
    let ghost before = t@;
    let mut i: usize = 0;
    while i < t.len() && !t[i].0.identical(v)
        invariant
            i <= t.len(),
            t@ == before,
            tv == tally_view(t@),
            tally_find(tv, v@, 0) == tally_find(tv, v@, i as nat),
        decreases t.len() - i,
    {
        assert(tv[i as int].0 == t@[i as int].0@);
        i += 1;
    }
    if i < t.len() {
        assert(tv[i as int] == (t@[i as int].0@, t@[i as int].1 as int));
        assert(-n <= before[i as int].1 <= n);
        let sum: i128 = t[i].1 + d;
        let copy = v.copy();
        t[i] = (copy, sum);
        assert(tally_view(t@) =~= tv.update(i as int, (v@, tv[i as int].1 + d)));
        assert forall|j: int| 0 <= j < t@.len() implies -(n + 1) <= (#[trigger] t@[j]).1 <= n
            + 1 by {
            if j != i {
                assert(t@[j] == before[j]);
            }
        }
        return;
    }
    let key = order_string(v, floats);
    let mut j: usize = 0;
    while j < t.len() && !str_lt(&key, &order_string(&t[j].0, floats))
        invariant
            j <= t.len(),
            t@ == before,
            tv == tally_view(t@),
            key@ == order_text(v@, floats),
            tally_place(tv, v@, 0, floats) == tally_place(tv, v@, j as nat, floats),
        decreases t.len() - j,
    {
        assert(tv[j as int].0 == t@[j as int].0@);
        j += 1;
    }
    assert(j < t.len() ==> tv[j as int].0 == t@[j as int].0@);
    let copy = v.copy();
    t.insert(j, (copy, d));
    assert(tally_view(t@) =~= tv.insert(j as int, (v@, d as int)));
    assert forall|k: int| 0 <= k < t@.len() implies -(n + 1) <= (#[trigger] t@[k]).1 <= n + 1 by {
        if k < j {
            assert(t@[k] == before[k]);
        } else if k > j {
            assert(t@[k] == before[k - 1]);
        }
    }
}

/// Counts `d` more of each item.
fn tally_all(
    t: &mut Vec<(Value, i128)>,
    items: &Vec<Value>,
    d: i128,
    Ghost(n): Ghost<int>,
    floats: FloatTexts<'_>,
)
    requires
        -1 <= d <= 1,
        tally_within(old(t)@, n),
        0 <= n <= 0xFFFF_FFFF_FFFF_FFFF,
    ensures
        tally_view(final(t)@) == bump_all(
            tally_view(old(t)@),
            views(items@),
            items.len() as nat,
            d as int,
            floats,
        ),
        tally_within(final(t)@, n + items.len()),
{
    let mut i: usize = 0;
    while i < items.len()
        invariant
            i <= items.len(),
            -1 <= d <= 1,
            0 <= n <= 0xFFFF_FFFF_FFFF_FFFF,
            tally_view(t@) == bump_all(
                tally_view(old(t)@),
                views(items@),
                i as nat,
                d as int,
                floats,
            ),
            tally_within(t@, n + i),
        decreases items.len() - i,
    {
        assert(views(items@)[i as int] == items@[i as int]@);
        tally_bump(t, &items[i], d, Ghost(n + i), floats);
        i += 1;
    }
}

/// What the values of a tally gained, times `sign`.
fn collect_gained(t: &Vec<(Value, i128)>, sign: bool) -> (r: Vec<Value>)
    requires
        tally_within(t@, 0x1_FFFF_FFFF_FFFF_FFFF),
    ensures
        views(r@) == gained(
            tally_view(t@),
            t.len() as nat,
            if sign {
                1
            } else {
                -1
            },
        ),
{
    let ghost tv = tally_view(t@);
    let ghost s: int = if sign {
        1
    } else {
        -1
    };
    let mut r: Vec<Value> = Vec::new();
    let mut i: usize = 0;
    while i < t.len()
        invariant
            i <= t.len(),
            tv == tally_view(t@),
            tally_within(t@, 0x1_FFFF_FFFF_FFFF_FFFF),
            s == (if sign {
                1int
            } else {
                -1int
            }),
            views(r@) =~= gained(tv, i as nat, s),
        decreases t.len() - i,
    {
        assert(tv[i as int] == (t@[i as int].0@, t@[i as int].1 as int));
        let n: i128 = if sign {
            t[i].1
        } else {
            -t[i].1
        };
        let ghost prior = views(r@);
        let mut k: i128 = 0;
        while k < n
            invariant
                i < t.len(),
                0 <= k,
                k <= n || n < 0,
                k > n ==> k == 0,
                views(r@) =~= prior + times(t@[i as int].0@, k as int),
            decreases n - k,
        {
            let ghost sofar = views(r@);
            r.push(t[i].0.copy());
            k += 1;
            assert(views(r@) =~= sofar.push(t@[i as int].0@));
            assert(times(t@[i as int].0@, k as int) =~= times(t@[i as int].0@, k - 1).push(
                t@[i as int].0@,
            ));
        }
        assert(times(t@[i as int].0@, k as int) =~= times(t@[i as int].0@, n as int));
        assert(s * tv[i as int].1 == n) by (nonlinear_arith)
            requires
                s == 1 && n == tv[i as int].1 || s == -1 && n == -tv[i as int].1,
        ;
        i += 1;
    }
    r
}

/// The difference of two lists of scalars as multisets.
pub fn set_diff(a: &Vec<Value>, b: &Vec<Value>, floats: FloatTexts<'_>) -> (v: Value)
    ensures
        v@ == multiset_diff(views(a@), views(b@), floats),
{
    let mut t: Vec<(Value, i128)> = Vec::new();
    assert(tally_view(t@) =~= Seq::<(Json, int)>::empty());
    tally_all(&mut t, a, -1, Ghost(0), floats);
    tally_all(&mut t, b, 1, Ghost(a.len() as int), floats);
    assert(tally_within(t@, 0x1_FFFF_FFFF_FFFF_FFFF));
    assert(tally_view(t@).len() == t.len());
    let added = collect_gained(&t, true);
    let removed = collect_gained(&t, false);
    if added.len() == 0 && removed.len() == 0 {
        return Value::Object(Object::new());
    }
    let mut o = counts_object("set", a.len(), b.len());
    insert_list(&mut o, "added", added);
    insert_list(&mut o, "removed", removed);
    wrap_array_diff(o)
}

// ── Pairing by key ─────────────────────────────────────────────────────────
/// The first position from `j` on with the key `k` that is not used, or the
/// length.
pub open spec fn first_match(
    k: Seq<Json>,
    keys: Seq<Seq<Json>>,
    used: Seq<bool>,
    j: nat,
) -> int
    decreases keys.len() - j,
{
    if j >= keys.len() || (keys[j as int] == k && !used[j as int]) {
        j as int
    } else {
        first_match(k, keys, used, j + 1)
    }
}

/// The partners of the elements from `i` on, after `acc`: for each the
/// position of the first element with its key that is not used yet, or the
/// number of elements.
pub open spec fn partners(
    ak: Seq<Seq<Json>>,
    bk: Seq<Seq<Json>>,
    i: nat,
    used: Seq<bool>,
    acc: Seq<int>,
) -> Seq<int>
    decreases ak.len() - i,
{
    if i >= ak.len() {
        acc
    } else {
        let j = first_match(ak[i as int], bk, used, 0);
        partners(
            ak,
            bk,
            i + 1,
            if j < bk.len() {
                used.update(j, true)
            } else {
                used
            },
            acc.push(j),
        )
    }
}

/// Which of `n` elements are nobody's partner.
pub open spec fn is_partner(pairs: Seq<int>, j: int) -> bool {
    exists|i: int| 0 <= i < pairs.len() && #[trigger] pairs[i] == j
}

/// The elements among the first `n` of `b` that are nobody's partner.
pub open spec fn unmatched(b: Seq<Json>, pairs: Seq<int>, n: nat) -> Seq<Json>
    decreases n,
{
    if n == 0 || n > b.len() {
        Seq::empty()
    } else if is_partner(pairs, n - 1) {
        unmatched(b, pairs, (n - 1) as nat)
    } else {
        unmatched(b, pairs, (n - 1) as nat).push(b[n - 1])
    }
}

/// The elements among the first `n` of `a` that have no partner among `m`.
pub open spec fn alone(a: Seq<Json>, pairs: Seq<int>, m: int, n: nat) -> Seq<Json>
    decreases n,
{
    if n == 0 || n > a.len() {
        Seq::empty()
    } else if pairs[n - 1] < m {
        alone(a, pairs, m, (n - 1) as nat)
    } else {
        alone(a, pairs, m, (n - 1) as nat).push(a[n - 1])
    }
}

/// A changed element.
pub open spec fn changed_json(key: Json, i: int, j: int, changes: Json) -> Json {
    Json::Obj(
        obj4(
            "key"@,
            key,
            "index_from"@,
            Json::Int(i),
            "index_to"@,
            Json::Int(j),
            "changes"@,
            changes,
        ),
    )
}

/// A changed element.
fn changed_value(key: Value, i: usize, j: usize, changes: Value) -> (v: Value)
    ensures
        v@ == changed_json(key@, i as int, j as int, changes@),
{
    Value::Object(
        Object::new().with("key", key).with("index_from", Value::Int(i as i128)).with(
            "index_to",
            Value::Int(j as i128),
        ).with("changes", changes),
    )
}

// ── The difference ─────────────────────────────────────────────────────────
/// The difference of two values.
pub open spec fn diff(a: Json, b: Json, floats: FloatTexts<'_>) -> Json
    decreases a, 1nat, 0nat,
{
    match (a, b) {
        (Json::Obj(ao), Json::Obj(bo)) => Json::Obj(
            added_fields(changed_fields(ao, bo, ao.len(), floats), ao, bo, bo.len()),
        ),
        (Json::Arr(aa), Json::Arr(ba)) => list_diff(aa, ba, floats),
        _ => if same(a, b) {
            no_diff()
        } else {
            from_to(a, b)
        },
    }
}

/// The differences of the first `n` fields of `a` from those of `b`. A field
/// that is missing and one that is null are the same.
pub open spec fn changed_fields(a: Entries, b: Entries, n: nat, floats: FloatTexts<'_>) -> Entries
    decreases a, 0nat, n,
{
    if n == 0 || n > a.len() {
        nothing()
    } else {
        let o = changed_fields(a, b, (n - 1) as nat, floats);
        let (k, v) = a[n - 1];
        match get(b, k) {
            Some(w) => if same(v, w) || diff(v, w, floats) == no_diff() {
                o
            } else {
                put(o, k, diff(v, w, floats))
            },
            None => if v == Json::Null {
                o
            } else {
                put(o, k, from_to(v, Json::Null))
            },
        }
    }
}

/// `o` and those of the first `n` fields of `b` that `a` does not have.
pub open spec fn added_fields(o: Entries, a: Entries, b: Entries, n: nat) -> Entries
    decreases n,
{
    if n == 0 || n > b.len() {
        o
    } else {
        let p = added_fields(o, a, b, (n - 1) as nat);
        let (k, v) = b[n - 1];
        if get(a, k) is Some || v == Json::Null {
            p
        } else {
            put(p, k, from_to(Json::Null, v))
        }
    }
}

/// Whether every value is a scalar.
pub open spec fn all_scalars(a: Seq<Json>) -> bool {
    forall|i: int| 0 <= i < a.len() ==> !((#[trigger] a[i]) is Obj) && !(a[i] is Arr)
}

/// Whether every value is an array.
pub open spec fn all_arrays(a: Seq<Json>) -> bool {
    forall|i: int| 0 <= i < a.len() ==> (#[trigger] a[i]) is Arr
}

/// Whether every value is an object.
pub open spec fn all_objects(a: Seq<Json>) -> bool {
    forall|i: int| 0 <= i < a.len() ==> (#[trigger] a[i]) is Obj
}

/// The first element of two lists of objects.
pub open spec fn sample_of(a: Seq<Json>, b: Seq<Json>) -> Entries {
    let first = if a.len() > 0 {
        a[0]
    } else {
        b[0]
    };
    match first {
        Json::Obj(o) => o,
        _ => nothing(),
    }
}

/// The difference of two lists: as multisets for scalars, by position for
/// lists of the same length without a key, by key where a key tells the
/// elements apart, and else by alignment.
pub open spec fn list_diff(a: Seq<Json>, b: Seq<Json>, floats: FloatTexts<'_>) -> Json
    decreases a, 2nat, 0nat,
{
    if same_all(a, b) {
        no_diff()
    } else if all_scalars(a) && all_scalars(b) {
        multiset_diff(a, b, floats)
    } else if a.len() == b.len() && all_arrays(a) && all_arrays(b) {
        positional(a, b, floats)
    } else if !(all_objects(a) && all_objects(b)) {
        unkeyed_diff(a, b)
    } else {
        let sample = sample_of(a, b);
        match key_for(sample) {
            Some(k) => match widened(a, b, k, sample) {
                Some(w) => keyed(a, b, w, floats),
                None => unkeyed_diff(a, b),
            },
            None => if a.len() == b.len() {
                positional(a, b, floats)
            } else {
                unkeyed_diff(a, b)
            },
        }
    }
}

/// The differences of the first `n` elements by position.
pub open spec fn positional_changes(
    a: Seq<Json>,
    b: Seq<Json>,
    n: nat,
    floats: FloatTexts<'_>,
) -> Seq<Json>
    decreases a, 0nat, n,
{
    if n == 0 || n > a.len() {
        Seq::empty()
    } else {
        let list = positional_changes(a, b, (n - 1) as nat, floats);
        let d = diff(a[n - 1], b[n - 1], floats);
        if d == no_diff() {
            list
        } else {
            list.push(
                changed_json(Json::Obj(obj1("index"@, Json::Int(n - 1))), n - 1, n - 1, d),
            )
        }
    }
}

/// The difference of two lists by position.
pub open spec fn positional(a: Seq<Json>, b: Seq<Json>, floats: FloatTexts<'_>) -> Json
    decreases a, 1nat, 0nat,
{
    let changed = positional_changes(a, b, a.len(), floats);
    if changed.len() == 0 {
        no_diff()
    } else {
        envelope(
            put(
                counts("positional"@, a.len() as int, b.len() as int),
                "changed"@,
                Json::Arr(changed),
            ),
        )
    }
}

/// The differences of the first `n` elements from their partners.
pub open spec fn keyed_changes(
    a: Seq<Json>,
    b: Seq<Json>,
    k: Seq<Seq<Seq<char>>>,
    pairs: Seq<int>,
    n: nat,
    floats: FloatTexts<'_>,
) -> Seq<Json>
    decreases a, 0nat, n,
{
    if n == 0 || n > a.len() {
        Seq::empty()
    } else {
        let list = keyed_changes(a, b, k, pairs, (n - 1) as nat, floats);
        let j = pairs[n - 1];
        if 0 <= j < b.len() {
            let d = diff(a[n - 1], b[j], floats);
            if d == no_diff() {
                list
            } else {
                list.push(
                    changed_json(Json::Obj(shown_key(k, a[n - 1], b[j], k.len())), n - 1, j, d),
                )
            }
        } else {
            list
        }
    }
}

/// The first names of the components of a key.
pub open spec fn key_fields(k: Seq<Seq<Seq<char>>>) -> Seq<Json> {
    Seq::new(k.len(), |i: int| Json::Str(k[i][0]))
}

/// The pairs of elements with the same key.
pub open spec fn pairs_of(a: Seq<Json>, b: Seq<Json>, k: Seq<Seq<Seq<char>>>) -> Seq<int> {
    partners(
        all_keys(a, k),
        all_keys(b, k),
        0,
        Seq::new(b.len(), |j: int| false),
        Seq::empty(),
    )
}

/// The difference of two lists by key.
pub open spec fn keyed(
    a: Seq<Json>,
    b: Seq<Json>,
    k: Seq<Seq<Seq<char>>>,
    floats: FloatTexts<'_>,
) -> Json
    decreases a, 1nat, 0nat,
{
    let pairs = pairs_of(a, b, k);
    let changed = keyed_changes(a, b, k, pairs, a.len(), floats);
    let removed = alone(a, pairs, b.len() as int, a.len());
    let added = unmatched(b, pairs, b.len());
    if added.len() == 0 && removed.len() == 0 && changed.len() == 0 {
        no_diff()
    } else {
        let o = put(
            counts("keyed"@, a.len() as int, b.len() as int),
            "key_fields"@,
            Json::Arr(key_fields(k)),
        );
        envelope(
            put_list(
                put_list(put_list(o, "added"@, added), "removed"@, removed),
                "changed"@,
                changed,
            ),
        )
    }
}

/// Whether every value is a scalar.
fn only_scalars(a: &Vec<Value>) -> (b: bool)
    ensures
        b == all_scalars(views(a@)),
{
    let mut i: usize = 0;
    while i < a.len()
        invariant
            i <= a.len(),
            forall|j: int|
                0 <= j < i ==> !((#[trigger] views(a@)[j]) is Obj) && !(views(a@)[j] is Arr),
        decreases a.len() - i,
    {
        assert(views(a@)[i as int] == a@[i as int]@);
        match &a[i] {
            Value::Object(_) => {
                return false;
            },
            Value::Array(_) => {
                return false;
            },
            _ => {},
        }
        i += 1;
    }
    true
}

/// Whether every value is an array.
fn only_arrays(a: &Vec<Value>) -> (b: bool)
    ensures
        b == all_arrays(views(a@)),
{
    let mut i: usize = 0;
    while i < a.len()
        invariant
            i <= a.len(),
            forall|j: int| 0 <= j < i ==> (#[trigger] views(a@)[j]) is Arr,
        decreases a.len() - i,
    {
        assert(views(a@)[i as int] == a@[i as int]@);
        match &a[i] {
            Value::Array(_) => {},
            _ => {
                return false;
            },
        }
        i += 1;
    }
    true
}

/// Whether every value is an object.
fn only_objects(a: &Vec<Value>) -> (b: bool)
    ensures
        b == all_objects(views(a@)),
{
    let mut i: usize = 0;
    while i < a.len()
        invariant
            i <= a.len(),
            forall|j: int| 0 <= j < i ==> (#[trigger] views(a@)[j]) is Obj,
        decreases a.len() - i,
    {
        assert(views(a@)[i as int] == a@[i as int]@);
        match &a[i] {
            Value::Object(_) => {},
            _ => {
                return false;
            },
        }
        i += 1;
    }
    true
}

/// The difference of two values: an object that holds what changed.
pub fn json_diff(a: &Value, b: &Value, floats: FloatTexts<'_>) -> (v: Value)
    ensures
        v@ == diff(a@, b@, floats),
    decreases a, 1nat, 0nat,
{
    match (a, b) {
        (Value::Object(ao), Value::Object(bo)) => Value::Object(diff_objects(ao, bo, floats)),
        (Value::Array(aa), Value::Array(ba)) => array_diff(aa, ba, floats),
        _ => if a.equals(b) {
            Value::Object(Object::new())
        } else {
            from_to_value(a.copy(), b.copy())
        },
    }
}

/// The difference of two objects.
#[verifier::loop_isolation(false)]
fn diff_objects(a: &Object, b: &Object, floats: FloatTexts<'_>) -> (o: Object)
    ensures
        o@ == added_fields(changed_fields(a@, b@, a@.len(), floats), a@, b@, b@.len()),
    decreases a, 0nat, 0nat,
{
    let mut o = Object::new();
    let mut i: usize = 0;
    while i < a.entries.len()
        invariant
            i <= a.entries.len(),
            o@ == changed_fields(a@, b@, i as nat, floats),
        decreases a.entries.len() - i,
    {
        let k: &str = &a.entries[i].0;
        let v: &Value = &a.entries[i].1;
        assert(a@[i as int] == (k@, v@));
        match b.get(k) {
            Some(w) => {
                if !v.equals(w) {
                    let d = json_diff(v, w, floats);
                    if !is_empty_diff(&d) {
                        o.insert(k.to_owned(), d);
                    }
                }
            },
            None => {
                if !v.is_null() {
                    o.insert(k.to_owned(), from_to_value(v.copy(), Value::Null));
                }
            },
        }
        i += 1;
    }
    let ghost changed = o@;
    let mut j: usize = 0;
    while j < b.entries.len()
        invariant
            j <= b.entries.len(),
            o@ == added_fields(changed, a@, b@, j as nat),
        decreases b.entries.len() - j,
    {
        let k: &str = &b.entries[j].0;
        let v: &Value = &b.entries[j].1;
        assert(b@[j as int] == (k@, v@));
        if !a.contains_key(k) && !v.is_null() {
            o.insert(k.to_owned(), from_to_value(Value::Null, v.copy()));
        }
        j += 1;
    }
    o
}

/// The difference of two lists.
pub fn array_diff(a: &Vec<Value>, b: &Vec<Value>, floats: FloatTexts<'_>) -> (v: Value)
    ensures
        v@ == list_diff(views(a@), views(b@), floats),
    decreases a, 2nat, 0nat,
{
    if equals_all(a, b) {
        return Value::Object(Object::new());
    }
    if only_scalars(a) && only_scalars(b) {
        return set_diff(a, b, floats);
    }
    if a.len() == b.len() && only_arrays(a) && only_arrays(b) {
        return positional_diff(a, b, floats);
    }
    if !(only_objects(a) && only_objects(b)) {
        return unkeyed_array_diff(a, b);
    }
    assert(views(a@).len() == a.len() && views(b@).len() == b.len());
    let first: &Value = if a.len() > 0 {
        assert(views(a@)[0] == a@[0]@);
        &a[0]
    } else {
        assert(b.len() > 0);
        assert(views(b@)[0] == b@[0]@);
        &b[0]
    };
    let sample: &Object = match first {
        Value::Object(o) => o,
        _ => {
            return unkeyed_array_diff(a, b);
        },
    };
    match element_key_spec(sample) {
        Some(k) => {
            proof {
                lemma_key_for_ok(sample@);
            }
            match widen_key_spec_until_unique(a, b, &k, sample) {
                Some(w) => keyed_diff(a, b, &w, floats),
                None => unkeyed_array_diff(a, b),
            }
        },
        None => if a.len() == b.len() {
            positional_diff(a, b, floats)
        } else {
            unkeyed_array_diff(a, b)
        },
    }
}

/// The difference of two lists of the same length by position.
#[verifier::loop_isolation(false)]
pub fn positional_diff(a: &Vec<Value>, b: &Vec<Value>, floats: FloatTexts<'_>) -> (v: Value)
    requires
        a.len() == b.len(),
    ensures
        v@ == positional(views(a@), views(b@), floats),
    decreases a, 1nat, 0nat,
{
    let mut changed: Vec<Value> = Vec::new();
    let mut i: usize = 0;
    while i < a.len()
        invariant
            i <= a.len(),
            views(changed@) =~= positional_changes(views(a@), views(b@), i as nat, floats),
        decreases a.len() - i,
    {
        assert(views(a@)[i as int] == a@[i as int]@);
        assert(views(b@)[i as int] == b@[i as int]@);
        let d = json_diff(&a[i], &b[i], floats);
        if !is_empty_diff(&d) {
            let key = Value::Object(Object::new().with("index", Value::Int(i as i128)));
            let ghost prior = views(changed@);
            let item = changed_value(key, i, i, d);
            let ghost added = item@;
            changed.push(item);
            assert(views(changed@) =~= prior.push(added));
        }
        i += 1;
    }
    if changed.len() == 0 {
        return Value::Object(Object::new());
    }
    let mut o = counts_object("positional", a.len(), b.len());
    o.insert("changed".to_owned(), Value::Array(changed));
    wrap_array_diff(o)
}

/// The partners of the elements of `a`, as positions in `b`.
#[verifier::loop_isolation(false)]
fn find_partners(ak: &Vec<Vec<Value>>, bk: &Vec<Vec<Value>>) -> (r: (Vec<usize>, Vec<bool>))
    ensures
        r.0@.map_values(|j: usize| j as int) == partners(
            nested_views(ak@),
            nested_views(bk@),
            0,
            Seq::new(bk.len() as nat, |j: int| false),
            Seq::empty(),
        ),
        r.0.len() == ak.len(),
        r.1.len() == bk.len(),
        forall|i: int| 0 <= i < r.0.len() ==> #[trigger] r.0@[i] <= bk.len(),
        forall|j: int|
            0 <= j < bk.len() ==> #[trigger] r.1@[j] == is_partner(
                r.0@.map_values(|j: usize| j as int),
                j,
            ),
{
    let ghost av = nested_views(ak@);
    let ghost bv = nested_views(bk@);
    let mut used: Vec<bool> = Vec::new();
    let mut z: usize = 0;
    while z < bk.len()
        invariant
            z <= bk.len(),
            used.len() == z,
            forall|j: int| 0 <= j < z ==> !used@[j],
        decreases bk.len() - z,
    {
        used.push(false);
        z += 1;
    }
    let mut pairs: Vec<usize> = Vec::new();
    let ghost start = Seq::new(bk.len() as nat, |j: int| false);
    assert(used@ =~= start);
    assert(pairs@.map_values(|j: usize| j as int) =~= Seq::<int>::empty());
    let mut i: usize = 0;
    while i < ak.len()
        invariant
            i <= ak.len(),
            pairs.len() == i,
            used.len() == bk.len(),
            partners(av, bv, 0, start, Seq::empty()) == partners(
                av,
                bv,
                i as nat,
                used@,
                pairs@.map_values(|j: usize| j as int),
            ),
            forall|t: int| 0 <= t < pairs.len() ==> #[trigger] pairs@[t] <= bk.len(),
            forall|j: int|
                0 <= j < bk.len() ==> #[trigger] used@[j] == is_partner(
                    pairs@.map_values(|j: usize| j as int),
                    j,
                ),
        decreases ak.len() - i,
    {
        assert(av[i as int] == views(ak@[i as int]@));
        let mut j: usize = 0;
        while j < bk.len() && (used[j] || !identical_all(&bk[j], &ak[i]))
            invariant
                j <= bk.len(),
                first_match(av[i as int], bv, used@, 0) == first_match(
                    av[i as int],
                    bv,
                    used@,
                    j as nat,
                ),
            decreases bk.len() - j,
        {
            assert(bv[j as int] == views(bk@[j as int]@));
            j += 1;
        }
        assert(j < bk.len() ==> bv[j as int] == views(bk@[j as int]@));
        let ghost used0 = used@;
        let ghost pairs0 = pairs@.map_values(|j: usize| j as int);
        if j < bk.len() {
            used.set(j, true);
        }
        pairs.push(j);
        let ghost pairs1 = pairs@.map_values(|j: usize| j as int);
        assert(pairs1 =~= pairs0.push(j as int));
        assert forall|t: int| 0 <= t < bk.len() implies #[trigger] used@[t] == is_partner(
            pairs1,
            t,
        ) by {
            assert(used0[t] == is_partner(pairs0, t));
            if is_partner(pairs0, t) {
                let p = choose|p: int| 0 <= p < pairs0.len() && #[trigger] pairs0[p] == t;
                assert(pairs1[p] == t);
            }
            if t == j {
                assert(pairs1[i as int] == t);
            } else if is_partner(pairs1, t) {
                let p = choose|p: int| 0 <= p < pairs1.len() && #[trigger] pairs1[p] == t;
                assert(p < i);
                assert(pairs0[p] == t);
            }
        }
        i += 1;
    }
    (pairs, used)
}

/// The difference of two lists by key.
#[verifier::loop_isolation(false)]
pub fn keyed_diff(a: &Vec<Value>, b: &Vec<Value>, k: &KeySpec, floats: FloatTexts<'_>) -> (v: Value)
    requires
        key_ok(key_view(k@)),
    ensures
        v@ == keyed(views(a@), views(b@), key_view(k@), floats),
    decreases a, 1nat, 0nat,
{
    let ghost va = views(a@);
    let ghost vb = views(b@);
    let ghost kv = key_view(k@);
    let ak = compute_keys(a, k);
    let bk = compute_keys(b, k);
    assert(nested_views(ak@).len() == ak.len());
    assert(nested_views(bk@).len() == bk.len());
    let (partner, used) = find_partners(&ak, &bk);
    let ghost pairs = partner@.map_values(|j: usize| j as int);
    assert(Seq::new(bk.len() as nat, |j: int| false) =~= Seq::new(vb.len(), |j: int| false));
    assert(pairs == pairs_of(va, vb, kv));
    let mut removed: Vec<Value> = Vec::new();
    let mut changed: Vec<Value> = Vec::new();
    let mut i: usize = 0;
    while i < a.len()
        invariant
            i <= a.len(),
            views(removed@) =~= alone(va, pairs, vb.len() as int, i as nat),
            views(changed@) =~= keyed_changes(va, vb, kv, pairs, i as nat, floats),
        decreases a.len() - i,
    {
        assert(va[i as int] == a@[i as int]@);
        let j: usize = partner[i];
        assert(pairs[i as int] == j);
        if j < b.len() {
            assert(vb[j as int] == b@[j as int]@);
            let d = json_diff(&a[i], &b[j], floats);
            if !is_empty_diff(&d) {
                let key = Value::Object(display_key(k, &a[i], &b[j]));
                let ghost prior = views(changed@);
                let item = changed_value(key, i, j, d);
                let ghost added = item@;
                changed.push(item);
                assert(views(changed@) =~= prior.push(added));
            }
        } else {
            let ghost prior = views(removed@);
            removed.push(a[i].copy());
            assert(views(removed@) =~= prior.push(va[i as int]));
        }
        i += 1;
    }
    let mut added: Vec<Value> = Vec::new();
    let mut j: usize = 0;
    while j < b.len()
        invariant
            j <= b.len(),
            views(added@) =~= unmatched(vb, pairs, j as nat),
        decreases b.len() - j,
    {
        assert(vb[j as int] == b@[j as int]@);
        if !used[j] {
            let ghost prior = views(added@);
            added.push(b[j].copy());
            assert(views(added@) =~= prior.push(vb[j as int]));
        }
        j += 1;
    }
    if added.len() == 0 && removed.len() == 0 && changed.len() == 0 {
        return Value::Object(Object::new());
    }
    let mut names: Vec<Value> = Vec::new();
    let mut t: usize = 0;
    while t < k.len()
        invariant
            t <= k.len(),
            names.len() == t,
            forall|u: int| 0 <= u < t ==> (#[trigger] names@[u])@ == Json::Str(kv[u][0]),
        decreases k.len() - t,
    {
        assert(kv[t as int] == texts(k@[t as int]@));
        assert(kv[t as int].len() > 0);
        names.push(text(&k[t][0]));
        t += 1;
    }
    assert(views(names@) =~= key_fields(kv));
    let mut o = counts_object("keyed", a.len(), b.len()).with("key_fields", Value::Array(names));
    insert_list(&mut o, "added", added);
    insert_list(&mut o, "removed", removed);
    insert_list(&mut o, "changed", changed);
    wrap_array_diff(o)
}

} // verus!
