//! What holds of comparisons as a whole.
use crate::diff::align::{align_cap, aligned, common_end, common_start, lcs};
use crate::diff::array_diff::{
    added_fields, bump, bump_all, changed_fields, diff, first_match, from_to, gained, no_diff,
    order_text, partners, tally_find, tally_of, tally_place, times, FloatTexts, Tally,
};
use crate::diff::calibrate::{default_place, defaults_of, more_frequent, named_in, Stats};
use crate::diff::keys::{keys_unique, widen_from, widened};
use crate::diff::noise::{del_keys, noise_fields, unexplained, without_noise};
use crate::diff::report::{stubs_of_type, DefaultView, StubView};
use crate::diff::restamp::restamped_fields;
use crate::json::{get, key_index, lemma_key_index, nothing, same, Entries, Json};
use crate::order::{
    keys_increase, law_get_after_del, law_get_after_put, law_put_keeps_order,
    law_text_order_irreflexive, law_text_order_transitive,
};
use crate::schema::MemberDef;
use crate::text::text_lt;
use vstd::prelude::*;

verus! {

// ── Objects ────────────────────────────────────────────────────────────────
/// Where the keys increase, each entry is found under its key.
proof fn lemma_entry_found(o: Entries, i: int)
    requires
        keys_increase(o),
        0 <= i < o.len(),
    ensures
        get(o, o[i].0) == Some(o[i].1),
{
    lemma_key_index(o, o[i].0);
    let p = key_index(o, o[i].0);
    if p < i {
        law_text_order_irreflexive(o[i].0);
    }
}

/// Where an object has a key, one of its entries is that of the key.
proof fn lemma_entry_of(o: Entries, k: Seq<char>) -> (i: int)
    requires
        get(o, k) is Some,
    ensures
        0 <= i < o.len(),
        o[i].0 == k,
        get(o, k) == Some(o[i].1),
{
    lemma_key_index(o, k);
    key_index(o, k)
}

/// The difference of a field of two objects.
pub open spec fn field_diff(
    v: Option<Json>,
    w: Option<Json>,
    floats: FloatTexts<'_>,
) -> Option<Json> {
    match (v, w) {
        (Some(v), Some(w)) => if same(v, w) || diff(v, w, floats) == no_diff() {
            None
        } else {
            Some(diff(v, w, floats))
        },
        (Some(v), None) => if v == Json::Null {
            None
        } else {
            Some(from_to(v, Json::Null))
        },
        (None, Some(w)) => if w == Json::Null {
            None
        } else {
            Some(from_to(Json::Null, w))
        },
        (None, None) => None,
    }
}

/// Whether `k` is the key of one of the first `n` entries.
pub open spec fn among(o: Entries, k: Seq<char>, n: nat) -> bool {
    exists|i: int| 0 <= i < n && (#[trigger] o[i]).0 == k
}

proof fn lemma_changed_fields(a: Entries, b: Entries, n: nat, k: Seq<char>, floats: FloatTexts<'_>)
    requires
        keys_increase(a),
        n <= a.len(),
    ensures
        keys_increase(changed_fields(a, b, n, floats)),
        get(changed_fields(a, b, n, floats), k) == if among(a, k, n) {
            field_diff(get(a, k), get(b, k), floats)
        } else {
            None
        },
    decreases n,
{
    if n > 0 {
        lemma_changed_fields(a, b, (n - 1) as nat, k, floats);
        lemma_changed_fields(a, b, (n - 1) as nat, a[n - 1].0, floats);
        let o = changed_fields(a, b, (n - 1) as nat, floats);
        let (key, v) = a[n - 1];
        lemma_entry_found(a, n - 1);
        if among(a, key, (n - 1) as nat) {
            let i = choose|i: int| 0 <= i < n - 1 && (#[trigger] a[i]).0 == key;
            law_text_order_irreflexive(key);
        }
        let d = field_diff(Some(v), get(b, key), floats);
        if d is Some {
            law_put_keeps_order(o, key, d->0);
            law_get_after_put(o, key, d->0, k);
        }
        if k == key {
            assert(a[n - 1].0 == k);
            assert(among(a, k, n));
        } else if among(a, k, n) {
            let i = choose|i: int| 0 <= i < n && (#[trigger] a[i]).0 == k;
            assert(0 <= i < n - 1);
            assert(among(a, k, (n - 1) as nat));
        } else if among(a, k, (n - 1) as nat) {
            let i = choose|i: int| 0 <= i < n - 1 && (#[trigger] a[i]).0 == k;
            assert(0 <= i < n);
        }
    }
}

proof fn lemma_added_fields(o: Entries, a: Entries, b: Entries, n: nat, k: Seq<char>)
    requires
        keys_increase(o),
        keys_increase(b),
        n <= b.len(),
    ensures
        keys_increase(added_fields(o, a, b, n)),
        get(added_fields(o, a, b, n), k) == if among(b, k, n) && get(a, k) is None && get(b, k)
            != Some(Json::Null) {
            Some(from_to(Json::Null, get(b, k)->0))
        } else {
            get(o, k)
        },
    decreases n,
{
    if n > 0 {
        lemma_added_fields(o, a, b, (n - 1) as nat, k);
        let p = added_fields(o, a, b, (n - 1) as nat);
        let (key, v) = b[n - 1];
        lemma_entry_found(b, n - 1);
        if !(get(a, key) is Some || v == Json::Null) {
            law_put_keeps_order(p, key, from_to(Json::Null, v));
            law_get_after_put(p, key, from_to(Json::Null, v), k);
        }
        if among(b, k, n) {
            let i = choose|i: int| 0 <= i < n && (#[trigger] b[i]).0 == k;
            lemma_entry_found(b, i);
            if i < n - 1 {
                assert(among(b, k, (n - 1) as nat));
            }
        }
        if among(b, k, (n - 1) as nat) {
            let i = choose|i: int| 0 <= i < n - 1 && (#[trigger] b[i]).0 == k;
            assert(0 <= i < n);
            assert(among(b, k, n));
        }
    }
}

/// The difference of two objects holds, under each key, the difference of what
/// they hold under it, and nothing where that is the same. A field that is
/// missing and one that is null are the same.
pub proof fn law_difference_by_key(a: Entries, b: Entries, k: Seq<char>, floats: FloatTexts<'_>)
    requires
        keys_increase(a),
        keys_increase(b),
    ensures
        diff(Json::Obj(a), Json::Obj(b), floats) is Obj,
        get(diff(Json::Obj(a), Json::Obj(b), floats)->Obj_0, k) == field_diff(
            get(a, k),
            get(b, k),
            floats,
        ),
        keys_increase(diff(Json::Obj(a), Json::Obj(b), floats)->Obj_0),
{
    let changed = changed_fields(a, b, a.len(), floats);
    lemma_changed_fields(a, b, a.len(), k, floats);
    lemma_added_fields(changed, a, b, b.len(), k);
    if get(a, k) is Some {
        let i = lemma_entry_of(a, k);
        assert(among(a, k, a.len()));
    } else if among(a, k, a.len()) {
        let i = choose|i: int| 0 <= i < a.len() && (#[trigger] a[i]).0 == k;
        lemma_entry_found(a, i);
    }
    if get(b, k) is Some {
        let i = lemma_entry_of(b, k);
        assert(among(b, k, b.len()));
    } else if among(b, k, b.len()) {
        let i = choose|i: int| 0 <= i < b.len() && (#[trigger] b[i]).0 == k;
        lemma_entry_found(b, i);
    }
}

/// Equal values have no difference.
pub proof fn law_equal_values_do_not_differ(a: Json, b: Json, floats: FloatTexts<'_>)
    requires
        same(a, b),
        a matches Json::Obj(o) ==> keys_increase(o),
    ensures
        diff(a, b, floats) == no_diff(),
{
    match (a, b) {
        (Json::Obj(ao), Json::Obj(bo)) => {
            assert(keys_increase(bo)) by {
                assert forall|i: int, j: int| 0 <= i < j < bo.len() implies text_lt(
                    (#[trigger] bo[i]).0,
                    (#[trigger] bo[j]).0,
                ) by {
                    assert(ao[i].0 == bo[i].0 && ao[j].0 == bo[j].0);
                }
            }
            let d = diff(a, b, floats)->Obj_0;
            if d.len() > 0 {
                law_difference_by_key(ao, bo, d[0].0, floats);
                lemma_entry_found(d, 0);
                let k = d[0].0;
                if get(ao, k) is Some {
                    let i = lemma_entry_of(ao, k);
                    lemma_entry_found(ao, i);
                    assert(ao[i].0 == bo[i].0);
                    lemma_entry_found(bo, i);
                    assert(same(ao[i].1, bo[i].1));
                } else {
                    let i = lemma_entry_of(bo, k);
                    assert(ao[i].0 == bo[i].0);
                    lemma_entry_found(ao, i);
                }
            }
            assert(d =~= nothing());
        },
        (Json::Arr(aa), Json::Arr(ba)) => {
            assert(crate::json::same_all(aa, ba)) by {
                assert forall|i: int| 0 <= i < aa.len() implies same(#[trigger] aa[i], ba[i]) by {
                }
            }
        },
        _ => {},
    }
}

/// A value is equal to itself.
pub proof fn law_same_is_reflexive(a: Json)
    ensures
        same(a, a),
    decreases a,
{
    match a {
        Json::Arr(items) => {
            assert forall|i: int| 0 <= i < items.len() implies same(
                #[trigger] items[i],
                items[i],
            ) by {
                law_same_is_reflexive(items[i]);
            }
        },
        Json::Obj(o) => {
            assert forall|i: int| 0 <= i < o.len() implies (#[trigger] o[i]).0 == o[i].0 && same(
                o[i].1,
                o[i].1,
            ) by {
                law_same_is_reflexive(o[i].1);
            }
        },
        _ => {},
    }
}

/// Equality of values is symmetric.
pub proof fn law_same_is_symmetric(a: Json, b: Json)
    requires
        same(a, b),
    ensures
        same(b, a),
    decreases a,
{
    match (a, b) {
        (Json::Arr(x), Json::Arr(y)) => {
            assert forall|i: int| 0 <= i < y.len() implies same(#[trigger] y[i], x[i]) by {
                assert(same(x[i], y[i]));
                law_same_is_symmetric(x[i], y[i]);
            }
        },
        (Json::Obj(x), Json::Obj(y)) => {
            assert forall|i: int| 0 <= i < y.len() implies (#[trigger] y[i]).0 == x[i].0 && same(
                y[i].1,
                x[i].1,
            ) by {
                assert(x[i].0 == y[i].0);
                law_same_is_symmetric(x[i].1, y[i].1);
            }
        },
        _ => {},
    }
}

// ── Multisets ──────────────────────────────────────────────────────────────
/// How often `x` stands among the first `n` items.
pub open spec fn occurrences(items: Seq<Json>, x: Json, n: nat) -> int
    decreases n,
{
    if n == 0 || n > items.len() {
        0
    } else {
        occurrences(items, x, (n - 1) as nat) + if items[n - 1] == x {
            1int
        } else {
            0
        }
    }
}

/// The number that a tally gives to `x`.
spec fn score(t: Tally, x: Json) -> int {
    let i = tally_find(t, x, 0);
    if 0 <= i < t.len() {
        t[i].1
    } else {
        0
    }
}

/// Whether no value stands twice in a tally.
spec fn distinct(t: Tally) -> bool {
    forall|i: int, j: int| 0 <= i < j < t.len() ==> (#[trigger] t[i]).0 != (#[trigger] t[j]).0
}

proof fn lemma_tally_find(t: Tally, x: Json, i: nat)
    requires
        i <= t.len(),
    ensures
        i <= tally_find(t, x, i) <= t.len(),
        tally_find(t, x, i) < t.len() ==> t[tally_find(t, x, i)].0 == x,
        forall|j: int| i <= j < tally_find(t, x, i) ==> (#[trigger] t[j]).0 != x,
    decreases t.len() - i,
{
    if !(i >= t.len() || t[i as int].0 == x) {
        lemma_tally_find(t, x, i + 1);
    }
}

proof fn lemma_tally_place(t: Tally, x: Json, i: nat, floats: FloatTexts<'_>)
    requires
        i <= t.len(),
    ensures
        i <= tally_place(t, x, i, floats) <= t.len(),
    decreases t.len() - i,
{
    if !(i >= t.len() || text_lt(
        order_text(x, floats),
        order_text(t[i as int].0, floats),
    )) {
        lemma_tally_place(t, x, i + 1, floats);
    }
}

/// The score of a value is that of its one entry.
proof fn lemma_score(t: Tally, x: Json, i: int)
    requires
        distinct(t),
        0 <= i < t.len(),
        t[i].0 == x,
    ensures
        score(t, x) == t[i].1,
{
    lemma_tally_find(t, x, 0);
    let p = tally_find(t, x, 0);
    if p < i {
        assert(t[p].0 != t[i].0);
    }
}

proof fn lemma_bump(t: Tally, v: Json, d: int, x: Json, floats: FloatTexts<'_>)
    requires
        distinct(t),
    ensures
        distinct(bump(t, v, d, floats)),
        score(bump(t, v, d, floats), x) == score(t, x) + if x == v {
            d
        } else {
            0
        },
{
    let n = bump(t, v, d, floats);
    lemma_tally_find(t, v, 0);
    lemma_tally_find(t, x, 0);
    lemma_tally_find(n, x, 0);
    let i = tally_find(t, v, 0);
    let px = tally_find(t, x, 0);
    let qx = tally_find(n, x, 0);
    if i < t.len() {
        assert forall|a: int, b: int| 0 <= a < b < n.len() implies (#[trigger] n[a]).0 != (
        #[trigger] n[b]).0 by {
            assert(n[a].0 == t[a].0 && n[b].0 == t[b].0);
        }
        if px < t.len() {
            assert(n[px].0 == x);
            lemma_score(n, x, px);
        } else if qx < n.len() {
            assert(t[qx].0 == x);
        }
    } else {
        lemma_tally_place(t, v, 0, floats);
        let p = tally_place(t, v, 0, floats);
        assert forall|a: int, b: int| 0 <= a < b < n.len() implies (#[trigger] n[a]).0 != (
        #[trigger] n[b]).0 by {
            let ta = if a < p {
                a
            } else {
                a - 1
            };
            let tb = if b < p {
                b
            } else {
                b - 1
            };
            if a == p {
                assert(n[b] == t[tb]);
            } else if b == p {
                assert(n[a] == t[ta]);
            } else {
                assert(n[a] == t[ta] && n[b] == t[tb]);
            }
        }
        assert(n[p] == (v, d));
        if x == v {
            lemma_score(n, x, p);
        } else if px < t.len() {
            let q = if px < p {
                px
            } else {
                px + 1
            };
            assert(n[q] == t[px]);
            lemma_score(n, x, q);
        } else if qx < n.len() {
            let q = if qx < p {
                qx
            } else {
                qx - 1
            };
            assert(t[q].0 == x);
        }
    }
}

proof fn lemma_bump_all(t: Tally, items: Seq<Json>, n: nat, d: int, x: Json, floats: FloatTexts<'_>)
    requires
        distinct(t),
        n <= items.len(),
    ensures
        distinct(bump_all(t, items, n, d, floats)),
        score(bump_all(t, items, n, d, floats), x) == score(t, x) + d * occurrences(items, x, n),
    decreases n,
{
    if n > 0 {
        lemma_bump_all(t, items, (n - 1) as nat, d, x, floats);
        lemma_bump(bump_all(t, items, (n - 1) as nat, d, floats), items[n - 1], d, x, floats);
        let o = occurrences(items, x, (n - 1) as nat);
        assert(d * (o + 1) == d * o + d) by (nonlinear_arith);
        assert(d * (o + 0) == d * o) by (nonlinear_arith);
    } else {
        assert(d * 0 == 0) by (nonlinear_arith);
    }
}

proof fn lemma_occurrences_concat(a: Seq<Json>, b: Seq<Json>, x: Json, n: nat)
    requires
        a.len() <= n <= a.len() + b.len(),
    ensures
        occurrences(a + b, x, n) == occurrences(a, x, a.len()) + occurrences(
            b,
            x,
            (n - a.len()) as nat,
        ),
    decreases n,
{
    if n > a.len() {
        lemma_occurrences_concat(a, b, x, (n - 1) as nat);
        assert((a + b)[n - 1] == b[n - 1 - a.len()]);
    } else {
        lemma_occurrences_prefix(a, b, x, n);
    }
}

proof fn lemma_occurrences_prefix(a: Seq<Json>, b: Seq<Json>, x: Json, n: nat)
    requires
        n <= a.len(),
    ensures
        occurrences(a + b, x, n) == occurrences(a, x, n),
    decreases n,
{
    if n > 0 {
        lemma_occurrences_prefix(a, b, x, (n - 1) as nat);
        assert((a + b)[n - 1] == a[n - 1]);
    }
}

proof fn lemma_occurrences_times(v: Json, k: int, x: Json, n: nat)
    requires
        n <= times(v, k).len(),
    ensures
        occurrences(times(v, k), x, n) == if v == x {
            n as int
        } else {
            0
        },
    decreases n,
{
    if n > 0 {
        lemma_occurrences_times(v, k, x, (n - 1) as nat);
    }
}

/// How often a value of a tally was gained.
spec fn gain(t: Tally, x: Json, n: nat, sign: int) -> int {
    let i = tally_find(t, x, 0);
    if 0 <= i < n && sign * t[i].1 > 0 {
        sign * t[i].1
    } else {
        0
    }
}

proof fn lemma_gained(t: Tally, n: nat, sign: int, x: Json)
    requires
        distinct(t),
        n <= t.len(),
    ensures
        occurrences(gained(t, n, sign), x, gained(t, n, sign).len()) == gain(t, x, n, sign),
    decreases n,
{
    lemma_tally_find(t, x, 0);
    if n > 0 {
        lemma_gained(t, (n - 1) as nat, sign, x);
        let before = gained(t, (n - 1) as nat, sign);
        let k = sign * t[n - 1].1;
        let more = times(t[n - 1].0, k);
        lemma_occurrences_concat(before, more, x, (before.len() + more.len()) as nat);
        lemma_occurrences_times(t[n - 1].0, k, x, more.len());
        assert(gained(t, n, sign) =~= before + more);
        let i = tally_find(t, x, 0);
        if t[n - 1].0 == x {
            if i < n - 1 {
                assert(t[i].0 != t[n - 1].0);
            }
            assert(i == n - 1);
        }
    }
}

/// What a comparison of two lists of scalars reports as added and removed
/// accounts for how often each value stands in them, and no value is reported
/// as both.
pub proof fn law_multiset_balance(a: Seq<Json>, b: Seq<Json>, x: Json, floats: FloatTexts<'_>)
    ensures
        ({
            let t = tally_of(a, b, floats);
            let added = gained(t, t.len(), 1);
            let removed = gained(t, t.len(), -1);
            let plus = occurrences(added, x, added.len());
            let minus = occurrences(removed, x, removed.len());
            &&& occurrences(a, x, a.len()) + plus == occurrences(b, x, b.len()) + minus
            &&& plus == 0 || minus == 0
        }),
{
    let t = tally_of(a, b, floats);
    let first = bump_all(Seq::empty(), a, a.len(), -1, floats);
    assert(distinct(Seq::empty()));
    lemma_bump_all(Seq::empty(), a, a.len(), -1, x, floats);
    lemma_bump_all(first, b, b.len(), 1, x, floats);
    lemma_gained(t, t.len(), 1, x);
    lemma_gained(t, t.len(), -1, x);
    lemma_tally_find(t, x, 0);
    assert(score(Seq::empty(), x) == 0);
    let oa = occurrences(a, x, a.len());
    let ob = occurrences(b, x, b.len());
    assert(-1 * oa == -oa && 1 * ob == ob);
}

/// Whether scalars come in the order of how they read as JSON.
pub open spec fn read_in_order(list: Seq<Json>, floats: FloatTexts<'_>) -> bool {
    forall|i: int, j: int|
        0 <= i < j < list.len() ==> !text_lt(
            order_text(#[trigger] list[j], floats),
            order_text(#[trigger] list[i], floats),
        )
}

/// The values of a tally.
spec fn tallied(t: Tally) -> Seq<Json> {
    t.map_values(|e: (Json, int)| e.0)
}

proof fn lemma_place_in_order(t: Tally, v: Json, i: nat, floats: FloatTexts<'_>)
    requires
        i <= t.len(),
    ensures
        i <= tally_place(t, v, i, floats) <= t.len(),
        forall|j: int|
            i <= j < tally_place(t, v, i, floats) ==> !text_lt(
                order_text(v, floats),
                order_text((#[trigger] t[j]).0, floats),
            ),
        tally_place(t, v, i, floats) < t.len() ==> text_lt(
            order_text(v, floats),
            order_text(t[tally_place(t, v, i, floats)].0, floats),
        ),
    decreases t.len() - i,
{
    if !(i >= t.len() || text_lt(order_text(v, floats), order_text(t[i as int].0, floats))) {
        lemma_place_in_order(t, v, i + 1, floats);
    }
}

proof fn lemma_bump_order(t: Tally, v: Json, d: int, floats: FloatTexts<'_>)
    requires
        read_in_order(tallied(t), floats),
    ensures
        read_in_order(tallied(bump(t, v, d, floats)), floats),
{
    let n = bump(t, v, d, floats);
    let tv = tallied(t);
    let nv = tallied(n);
    lemma_tally_find(t, v, 0);
    if tally_find(t, v, 0) < t.len() {
        assert(nv =~= tv);
    } else {
        lemma_place_in_order(t, v, 0, floats);
        let p = tally_place(t, v, 0, floats);
        assert forall|i: int, j: int| 0 <= i < j < nv.len() implies !text_lt(
            order_text(#[trigger] nv[j], floats),
            order_text(#[trigger] nv[i], floats),
        ) by {
            if j < p {
                assert(nv[i] == tv[i] && nv[j] == tv[j]);
            } else if j == p {
                assert(nv[i] == tv[i] && nv[j] == v);
                assert(tv[i] == t[i].0);
            } else if i > p {
                assert(nv[i] == tv[i - 1] && nv[j] == tv[j - 1]);
            } else if i < p {
                assert(nv[i] == tv[i] && nv[j] == tv[j - 1]);
            } else {
                assert(nv[i] == v && nv[j] == tv[j - 1]);
                assert(tv[p] == t[p].0);
                if text_lt(order_text(nv[j], floats), order_text(v, floats)) {
                    law_text_order_transitive(
                        order_text(nv[j], floats),
                        order_text(v, floats),
                        order_text(t[p].0, floats),
                    );
                    if j - 1 == p {
                        law_text_order_irreflexive(order_text(t[p].0, floats));
                    }
                }
            }
        }
    }
}

proof fn lemma_bump_all_order(
    t: Tally,
    items: Seq<Json>,
    n: nat,
    d: int,
    floats: FloatTexts<'_>,
)
    requires
        read_in_order(tallied(t), floats),
    ensures
        read_in_order(tallied(bump_all(t, items, n, d, floats)), floats),
    decreases n,
{
    if 0 < n <= items.len() {
        lemma_bump_all_order(t, items, (n - 1) as nat, d, floats);
        lemma_bump_order(
            bump_all(t, items, (n - 1) as nat, d, floats),
            items[n - 1],
            d,
            floats,
        );
    }
}

proof fn lemma_gained_order(t: Tally, n: nat, sign: int, floats: FloatTexts<'_>)
    requires
        read_in_order(tallied(t), floats),
        n <= t.len(),
    ensures
        read_in_order(gained(t, n, sign), floats),
        forall|i: int|
            0 <= i < gained(t, n, sign).len() ==> exists|k: int|
                0 <= k < n && (#[trigger] gained(t, n, sign)[i]) == (#[trigger] t[k]).0,
    decreases n,
{
    if n > 0 {
        lemma_gained_order(t, (n - 1) as nat, sign, floats);
        let before = gained(t, (n - 1) as nat, sign);
        let more = times(t[n - 1].0, sign * t[n - 1].1);
        let all = gained(t, n, sign);
        assert(all =~= before + more);
        assert forall|i: int| 0 <= i < all.len() implies exists|k: int|
            0 <= k < n && (#[trigger] all[i]) == (#[trigger] t[k]).0 by {
            if i < before.len() {
                assert(all[i] == before[i]);
                let k = choose|k: int| 0 <= k < n - 1 && before[i] == (#[trigger] t[k]).0;
                assert(all[i] == t[k].0);
            } else {
                assert(all[i] == t[n - 1].0);
            }
        }
        assert forall|i: int, j: int| 0 <= i < j < all.len() implies !text_lt(
            order_text(#[trigger] all[j], floats),
            order_text(#[trigger] all[i], floats),
        ) by {
            if j < before.len() {
                assert(all[i] == before[i] && all[j] == before[j]);
            } else {
                assert(all[j] == t[n - 1].0);
                if i < before.len() {
                    assert(all[i] == before[i]);
                    let k = choose|k: int| 0 <= k < n - 1 && before[i] == (#[trigger] t[k]).0;
                    assert(tallied(t)[k] == t[k].0 && tallied(t)[n - 1] == t[n - 1].0);
                } else {
                    assert(all[i] == t[n - 1].0);
                    law_text_order_irreflexive(order_text(all[i], floats));
                }
            }
        }
    }
}

/// What a comparison of two lists of scalars reports as added and as removed
/// comes in the order of how it reads as JSON.
pub proof fn law_multiset_is_ordered(a: Seq<Json>, b: Seq<Json>, floats: FloatTexts<'_>)
    ensures
        ({
            let t = tally_of(a, b, floats);
            &&& read_in_order(gained(t, t.len(), 1), floats)
            &&& read_in_order(gained(t, t.len(), -1), floats)
        }),
{
    let t = tally_of(a, b, floats);
    let first = bump_all(Seq::empty(), a, a.len(), -1, floats);
    lemma_bump_all_order(Seq::empty(), a, a.len(), -1, floats);
    lemma_bump_all_order(first, b, b.len(), 1, floats);
    lemma_gained_order(t, t.len(), 1, floats);
    lemma_gained_order(t, t.len(), -1, floats);
}

// ── Pairing by key ─────────────────────────────────────────────────────────
/// A key by which elements are paired tells those of each list apart.
pub proof fn law_widened_key_is_unique(
    a: Seq<Json>,
    b: Seq<Json>,
    k: Seq<Seq<Seq<char>>>,
    sample: Entries,
)
    requires
        widened(a, b, k, sample) is Some,
    ensures
        keys_unique(a, widened(a, b, k, sample)->0),
        keys_unique(b, widened(a, b, k, sample)->0),
{
    if !(keys_unique(a, k) && keys_unique(b, k)) {
        lemma_widen_from(
            a,
            b,
            k,
            k,
            crate::diff::keys::leaf_paths(
                Seq::empty(),
                crate::diff::keys::body_of(sample),
                0,
                2,
                Seq::empty(),
            ),
            0,
        );
    }
}

proof fn lemma_widen_from(
    a: Seq<Json>,
    b: Seq<Json>,
    used: Seq<Seq<Seq<char>>>,
    wide: Seq<Seq<Seq<char>>>,
    paths: Seq<Seq<char>>,
    i: nat,
)
    requires
        widen_from(a, b, used, wide, paths, i) is Some,
    ensures
        keys_unique(a, widen_from(a, b, used, wide, paths, i)->0),
        keys_unique(b, widen_from(a, b, used, wide, paths, i)->0),
    decreases paths.len() - i,
{
    if i < paths.len() {
        if crate::diff::keys::names_path(used, paths[i as int]) {
            lemma_widen_from(a, b, used, wide, paths, i + 1);
        } else {
            let wider = wide.push(seq![paths[i as int]]);
            if !(keys_unique(a, wider) && keys_unique(b, wider)) {
                lemma_widen_from(a, b, used, wider, paths, i + 1);
            }
        }
    }
}

proof fn lemma_first_match(k: Seq<Json>, keys: Seq<Seq<Json>>, used: Seq<bool>, j: nat)
    requires
        j <= keys.len(),
    ensures
        j <= first_match(k, keys, used, j) <= keys.len(),
        first_match(k, keys, used, j) < keys.len() ==> keys[first_match(k, keys, used, j)] == k
            && !used[first_match(k, keys, used, j)],
    decreases keys.len() - j,
{
    if !(j >= keys.len() || (keys[j as int] == k && !used[j as int])) {
        lemma_first_match(k, keys, used, j + 1);
    }
}

/// Whether pairs are what pairing may give so far.
spec fn paired(
    ak: Seq<Seq<Json>>,
    bk: Seq<Seq<Json>>,
    used: Seq<bool>,
    acc: Seq<int>,
) -> bool {
    &&& used.len() == bk.len()
    &&& acc.len() <= ak.len()
    &&& forall|i: int| 0 <= i < acc.len() ==> 0 <= #[trigger] acc[i] <= bk.len()
    &&& forall|i: int|
        0 <= i < acc.len() && #[trigger] acc[i] < bk.len() ==> bk[acc[i]] == ak[i] && used[acc[i]]
    &&& forall|i: int, j: int|
        0 <= i < j < acc.len() && #[trigger] acc[i] < bk.len() ==> acc[i] != #[trigger] acc[j]
}

proof fn lemma_partners(
    ak: Seq<Seq<Json>>,
    bk: Seq<Seq<Json>>,
    i: nat,
    used: Seq<bool>,
    acc: Seq<int>,
)
    requires
        acc.len() == i,
        i <= ak.len(),
        paired(ak, bk, used, acc),
    ensures
        ({
            let r = partners(ak, bk, i, used, acc);
            &&& r.len() == ak.len()
            &&& forall|p: int|
                0 <= p < r.len() && #[trigger] r[p] < bk.len() ==> 0 <= r[p] && bk[r[p]] == ak[p]
            &&& forall|p: int, q: int|
                0 <= p < q < r.len() && #[trigger] r[p] < bk.len() ==> r[p] != #[trigger] r[q]
        }),
    decreases ak.len() - i,
{
    if i < ak.len() {
        lemma_first_match(ak[i as int], bk, used, 0);
        let j = first_match(ak[i as int], bk, used, 0);
        let next = if j < bk.len() {
            used.update(j, true)
        } else {
            used
        };
        lemma_partners(ak, bk, i + 1, next, acc.push(j));
    }
}

/// Elements are paired only with elements of the same key, and no element is
/// the partner of two.
pub proof fn law_partners_are_distinct(ak: Seq<Seq<Json>>, bk: Seq<Seq<Json>>)
    ensures
        ({
            let r = partners(
                ak,
                bk,
                0,
                Seq::new(bk.len(), |i: int| false),
                Seq::empty(),
            );
            &&& r.len() == ak.len()
            &&& forall|p: int|
                0 <= p < r.len() && #[trigger] r[p] < bk.len() ==> 0 <= r[p] && bk[r[p]] == ak[p]
            &&& forall|p: int, q: int|
                0 <= p < q < r.len() && #[trigger] r[p] < bk.len() ==> r[p] != #[trigger] r[q]
        }),
{
    lemma_partners(ak, bk, 0, Seq::new(bk.len(), |i: int| false), Seq::empty());
}

// ── Alignment ──────────────────────────────────────────────────────────────
/// Whether `p` pairs equal elements of `a` from `i` on and `b` from `j` on, in
/// the order of both.
pub open spec fn common_subsequence(
    a: Seq<Json>,
    b: Seq<Json>,
    p: Seq<(int, int)>,
    i: int,
    j: int,
) -> bool {
    &&& forall|k: int|
        0 <= k < p.len() ==> i <= (#[trigger] p[k]).0 < a.len() && j <= p[k].1 < b.len() && same(
            a[p[k].0],
            b[p[k].1],
        )
    &&& forall|k: int, m: int|
        0 <= k < m < p.len() ==> (#[trigger] p[k]).0 < (#[trigger] p[m]).0 && p[k].1 < p[m].1
}

/// No common subsequence of two lists, from given positions on, is longer than
/// the one by which they are aligned.
pub proof fn law_alignment_is_longest(
    a: Seq<Json>,
    b: Seq<Json>,
    p: Seq<(int, int)>,
    i: int,
    j: int,
)
    requires
        0 <= i <= a.len(),
        0 <= j <= b.len(),
        common_subsequence(a, b, p, i, j),
    ensures
        p.len() <= lcs(a, b, i, j),
    decreases a.len() - i + b.len() - j,
{
    if p.len() > 0 {
        assert(i <= p[0].0 < a.len() && j <= p[0].1 < b.len());
        if same(a[i], b[j]) {
            let rest = p.drop_first();
            assert(common_subsequence(a, b, rest, i + 1, j + 1)) by {
                assert forall|k: int| 0 <= k < rest.len() implies i + 1 <= (#[trigger] rest[k]).0
                    < a.len() && j + 1 <= rest[k].1 < b.len() && same(
                    a[rest[k].0],
                    b[rest[k].1],
                ) by {
                    assert(rest[k] == p[k + 1]);
                    assert(p[0].0 < p[k + 1].0 && p[0].1 < p[k + 1].1);
                }
                assert forall|k: int, m: int| 0 <= k < m < rest.len() implies (
                #[trigger] rest[k]).0 < (#[trigger] rest[m]).0 && rest[k].1 < rest[m].1 by {
                    assert(rest[k] == p[k + 1] && rest[m] == p[m + 1]);
                }
            }
            law_alignment_is_longest(a, b, rest, i + 1, j + 1);
        } else if p[0].0 > i {
            assert forall|k: int| 0 <= k < p.len() implies i + 1 <= (#[trigger] p[k]).0 by {
                if k > 0 {
                    assert(p[0].0 < p[k].0);
                }
            }
            law_alignment_is_longest(a, b, p, i + 1, j);
        } else {
            assert(p[0].1 > j);
            assert forall|k: int| 0 <= k < p.len() implies j + 1 <= (#[trigger] p[k]).1 by {
                if k > 0 {
                    assert(p[0].1 < p[k].1);
                }
            }
            law_alignment_is_longest(a, b, p, i, j + 1);
        }
    } else {
        lemma_lcs_positive(a, b, i, j);
    }
}

proof fn lemma_lcs_positive(a: Seq<Json>, b: Seq<Json>, i: int, j: int)
    ensures
        lcs(a, b, i, j) >= 0,
    decreases a.len() - i + b.len() - j,
{
    if !(i < 0 || j < 0 || i >= a.len() || j >= b.len()) {
        lemma_lcs_positive(a, b, i + 1, j + 1);
        lemma_lcs_positive(a, b, i + 1, j);
        lemma_lcs_positive(a, b, i, j + 1);
    }
}

/// There is a common subsequence of two lists, from given positions on, of the
/// length by which they are aligned.
pub proof fn law_alignment_is_common(a: Seq<Json>, b: Seq<Json>, i: int, j: int) -> (p: Seq<
    (int, int),
>)
    requires
        0 <= i <= a.len(),
        0 <= j <= b.len(),
    ensures
        common_subsequence(a, b, p, i, j),
        p.len() == lcs(a, b, i, j),
    decreases a.len() - i + b.len() - j,
{
    if i >= a.len() || j >= b.len() {
        Seq::empty()
    } else if same(a[i], b[j]) {
        let rest = law_alignment_is_common(a, b, i + 1, j + 1);
        let p = seq![(i, j)] + rest;
        assert forall|k: int| 0 <= k < p.len() implies i <= (#[trigger] p[k]).0 < a.len() && j
            <= p[k].1 < b.len() && same(a[p[k].0], b[p[k].1]) by {
            if k > 0 {
                assert(p[k] == rest[k - 1]);
            }
        }
        assert forall|k: int, m: int| 0 <= k < m < p.len() implies (#[trigger] p[k]).0 < (
        #[trigger] p[m]).0 && p[k].1 < p[m].1 by {
            assert(p[m] == rest[m - 1]);
            if k > 0 {
                assert(p[k] == rest[k - 1]);
            }
        }
        p
    } else if lcs(a, b, i + 1, j) >= lcs(a, b, i, j + 1) {
        law_alignment_is_common(a, b, i + 1, j)
    } else {
        law_alignment_is_common(a, b, i, j + 1)
    }
}

proof fn lemma_start_same(a: Seq<Json>, b: Seq<Json>, i: int)
    requires
        0 <= i <= a.len(),
        i <= b.len(),
    ensures
        i <= common_start(a, b, i) <= a.len(),
        common_start(a, b, i) <= b.len(),
        forall|k: int| i <= k < common_start(a, b, i) ==> same(#[trigger] a[k], b[k]),
    decreases a.len() - i,
{
    if i < a.len() && i < b.len() && same(a[i], b[i]) {
        lemma_start_same(a, b, i + 1);
    }
}

proof fn lemma_end_same(a: Seq<Json>, b: Seq<Json>, start: int, k: int)
    requires
        0 <= start,
        0 <= k <= a.len() - start,
        k <= b.len() - start,
    ensures
        k <= common_end(a, b, start, k) <= a.len() - start,
        common_end(a, b, start, k) <= b.len() - start,
        forall|t: int|
            a.len() - common_end(a, b, start, k) <= t < a.len() - k ==> same(
                #[trigger] a[t],
                b[t - a.len() + b.len()],
            ),
    decreases a.len() - k,
{
    if a.len() - k > start && b.len() - k > start && same(
        a[a.len() - k - 1],
        b[b.len() - k - 1],
    ) {
        lemma_end_same(a, b, start, k + 1);
    }
}

proof fn lemma_peel_start(a: Seq<Json>, b: Seq<Json>, p: Seq<(int, int)>, i: int) -> (q: Seq<
    (int, int),
>)
    requires
        0 <= i <= a.len(),
        i <= b.len(),
        common_subsequence(a, b, p, i, i),
    ensures
        common_subsequence(a, b, q, common_start(a, b, i), common_start(a, b, i)),
        q.len() >= p.len() - (common_start(a, b, i) - i),
    decreases a.len() - i,
{
    lemma_start_same(a, b, i);
    if i < a.len() && i < b.len() && same(a[i], b[i]) {
        lemma_start_same(a, b, i + 1);
        if p.len() == 0 {
            lemma_peel_start(a, b, p, i + 1)
        } else {
            let rest = p.drop_first();
            assert forall|k: int| 0 <= k < rest.len() implies i + 1 <= (#[trigger] rest[k]).0
                < a.len() && i + 1 <= rest[k].1 < b.len() && same(a[rest[k].0], b[rest[k].1]) by {
                assert(rest[k] == p[k + 1]);
                assert(i <= p[0].0 && i <= p[0].1);
                assert(p[0].0 < p[k + 1].0 && p[0].1 < p[k + 1].1);
            }
            assert forall|k: int, m: int| 0 <= k < m < rest.len() implies (#[trigger] rest[k]).0 < (
            #[trigger] rest[m]).0 && rest[k].1 < rest[m].1 by {
                assert(rest[k] == p[k + 1] && rest[m] == p[m + 1]);
            }
            lemma_peel_start(a, b, rest, i + 1)
        }
    } else {
        p
    }
}

/// Whether `p` is a common subsequence of `a` and `b` between the first
/// `start` and the last `k` elements of each.
spec fn common_between(a: Seq<Json>, b: Seq<Json>, p: Seq<(int, int)>, start: int, k: int) -> bool {
    &&& common_subsequence(a, b, p, start, start)
    &&& forall|m: int|
        0 <= m < p.len() ==> (#[trigger] p[m]).0 < a.len() - k && p[m].1 < b.len() - k
}

proof fn lemma_peel_end(
    a: Seq<Json>,
    b: Seq<Json>,
    p: Seq<(int, int)>,
    start: int,
    k: int,
) -> (q: Seq<(int, int)>)
    requires
        0 <= start,
        0 <= k <= a.len() - start,
        k <= b.len() - start,
        common_between(a, b, p, start, k),
    ensures
        common_between(a, b, q, start, common_end(a, b, start, k)),
        q.len() >= p.len() - (common_end(a, b, start, k) - k),
    decreases a.len() - k,
{
    lemma_end_same(a, b, start, k);
    if a.len() - k > start && b.len() - k > start && same(
        a[a.len() - k - 1],
        b[b.len() - k - 1],
    ) {
        lemma_end_same(a, b, start, k + 1);
        if p.len() == 0 {
            lemma_peel_end(a, b, p, start, k + 1)
        } else {
            let rest = p.drop_last();
            let last = p[p.len() - 1];
            assert(last.0 < a.len() - k && last.1 < b.len() - k);
            assert forall|m: int| 0 <= m < rest.len() implies (#[trigger] rest[m]).0 < a.len() - (k
                + 1) && rest[m].1 < b.len() - (k + 1) by {
                assert(rest[m] == p[m]);
                assert(p[m].0 < p[p.len() - 1].0 && p[m].1 < p[p.len() - 1].1);
            }
            assert forall|m: int| 0 <= m < rest.len() implies start <= (#[trigger] rest[m]).0
                < a.len() && start <= rest[m].1 < b.len() && same(
                a[rest[m].0],
                b[rest[m].1],
            ) by {
                assert(rest[m] == p[m]);
            }
            assert forall|m: int, n: int| 0 <= m < n < rest.len() implies (#[trigger] rest[m]).0 < (
            #[trigger] rest[n]).0 && rest[m].1 < rest[n].1 by {
                assert(rest[m] == p[m] && rest[n] == p[n]);
            }
            lemma_peel_end(a, b, rest, start, k + 1)
        }
    } else {
        p
    }
}

/// Whether what is left of two lists between their common starts and ends is
/// small enough to be aligned.
pub open spec fn can_align(a: Seq<Json>, b: Seq<Json>) -> bool {
    let start = common_start(a, b, 0);
    let end = common_end(a, b, start, 0);
    (a.len() - end - start) * (b.len() - end - start) <= align_cap()
}

/// No two lists have more elements in common, in the order of both, than are
/// reported as unchanged, unless what differs between them is too large.
pub proof fn law_unchanged_is_longest(a: Seq<Json>, b: Seq<Json>, p: Seq<(int, int)>)
    requires
        can_align(a, b),
        common_subsequence(a, b, p, 0, 0),
    ensures
        p.len() <= aligned(a, b).unchanged,
{
    let start = common_start(a, b, 0);
    let end = common_end(a, b, start, 0);
    lemma_start_same(a, b, 0);
    lemma_end_same(a, b, start, 0);
    let ma = a.subrange(start, a.len() - end);
    let mb = b.subrange(start, b.len() - end);
    let q = lemma_peel_start(a, b, p, 0);
    assert(common_between(a, b, q, start, 0));
    let r = lemma_peel_end(a, b, q, start, 0);
    let s = Seq::new(r.len(), |k: int| (r[k].0 - start, r[k].1 - start));
    assert forall|k: int| 0 <= k < s.len() implies 0 <= (#[trigger] s[k]).0 < ma.len() && 0
        <= s[k].1 < mb.len() && same(ma[s[k].0], mb[s[k].1]) by {
        assert(start <= r[k].0 < a.len() - end && start <= r[k].1 < b.len() - end);
        assert(ma[s[k].0] == a[r[k].0] && mb[s[k].1] == b[r[k].1]);
    }
    assert forall|k: int, m: int| 0 <= k < m < s.len() implies (#[trigger] s[k]).0 < (
    #[trigger] s[m]).0 && s[k].1 < s[m].1 by {
        assert(r[k].0 < r[m].0 && r[k].1 < r[m].1);
    }
    law_alignment_is_longest(ma, mb, s, 0, 0);
}

/// Two lists have as many elements in common, in the order of both, as are
/// reported as unchanged.
pub proof fn law_unchanged_is_common(a: Seq<Json>, b: Seq<Json>) -> (p: Seq<(int, int)>)
    ensures
        common_subsequence(a, b, p, 0, 0),
        p.len() == aligned(a, b).unchanged,
{
    let start = common_start(a, b, 0);
    let end = common_end(a, b, start, 0);
    lemma_start_same(a, b, 0);
    lemma_end_same(a, b, start, 0);
    let ma = a.subrange(start, a.len() - end);
    let mb = b.subrange(start, b.len() - end);
    let mid = if can_align(a, b) {
        law_alignment_is_common(ma, mb, 0, 0)
    } else {
        Seq::empty()
    };
    let n = mid.len() as int;
    let p = Seq::new(
        (start + n + end) as nat,
        |k: int|
            if k < start {
                (k, k)
            } else if k < start + n {
                (mid[k - start].0 + start, mid[k - start].1 + start)
            } else {
                (a.len() - end + (k - start - n), b.len() - end + (k - start - n))
            },
    );
    assert forall|k: int| 0 <= k < p.len() implies 0 <= (#[trigger] p[k]).0 < a.len() && 0
        <= p[k].1 < b.len() && same(a[p[k].0], b[p[k].1]) by {
        if k < start {
            assert(same(a[k], b[k]));
        } else if k < start + n {
            let e = mid[k - start];
            assert(0 <= e.0 < ma.len() && 0 <= e.1 < mb.len() && same(ma[e.0], mb[e.1]));
            assert(ma[e.0] == a[e.0 + start] && mb[e.1] == b[e.1 + start]);
        } else {
            let t = a.len() - end + (k - start - n);
            assert(same(a[t], b[t - a.len() + b.len()]));
        }
    }
    assert forall|k: int, m: int| 0 <= k < m < p.len() implies (#[trigger] p[k]).0 < (
    #[trigger] p[m]).0 && p[k].1 < p[m].1 by {
        if start <= k < start + n {
            let e = mid[k - start];
            assert(e.0 < ma.len() && e.1 < mb.len());
            if m < start + n {
                let f = mid[m - start];
                assert(e.0 < f.0 && e.1 < f.1);
            }
        } else if k < start && start <= m < start + n {
            let f = mid[m - start];
            assert(0 <= f.0 && 0 <= f.1);
        }
    }
    p
}

// ── Noise ──────────────────────────────────────────────────────────────────
/// The fields that are always noise are taken out, and no other field is
/// touched.
pub proof fn law_noise_fields_go(o: Entries, sig: Seq<char>, k: Seq<char>)
    requires
        keys_increase(o),
    ensures
        ({
            let rest = without_noise(Json::Obj(o), sig)->Obj_0;
            &&& keys_increase(rest)
            &&& get(rest, k) == if noise_fields(sig).contains(k) {
                None
            } else {
                get(o, k)
            }
        }),
{
    let keys = noise_fields(sig);
    lemma_del_keys(o, keys, keys.len(), k);
    assert(keys.take(keys.len() as int) =~= keys);
}

proof fn lemma_del_keys(o: Entries, keys: Seq<Seq<char>>, n: nat, k: Seq<char>)
    requires
        keys_increase(o),
        n <= keys.len(),
    ensures
        keys_increase(del_keys(o, keys, n)),
        get(del_keys(o, keys, n), k) == if keys.take(n as int).contains(k) {
            None
        } else {
            get(o, k)
        },
    decreases n,
{
    if n == 0 {
        assert(keys.take(0).len() == 0);
    } else {
        lemma_del_keys(o, keys, (n - 1) as nat, k);
        law_get_after_del(del_keys(o, keys, (n - 1) as nat), keys[n - 1], k);
        let was = keys.take(n - 1);
        let now = keys.take(n as int);
        assert(now =~= was.push(keys[n - 1]));
        if was.contains(k) {
            let i = choose|i: int| 0 <= i < was.len() && was[i] == k;
            assert(now[i] == k);
        }
        if k == keys[n - 1] {
            assert(now[n - 1] == k);
        }
        if now.contains(k) && k != keys[n - 1] {
            let i = choose|i: int| 0 <= i < now.len() && now[i] == k;
            assert(was[i] == k);
        }
    }
}

/// Taking out the fields that are always noise a second time changes nothing.
pub proof fn law_noise_stripping_is_idempotent(o: Entries, sig: Seq<char>)
    requires
        keys_increase(o),
    ensures
        without_noise(without_noise(Json::Obj(o), sig), sig) == without_noise(Json::Obj(o), sig),
{
    let keys = noise_fields(sig);
    let once = del_keys(o, keys, keys.len());
    assert forall|i: int| 0 <= i < keys.len() implies get(once, #[trigger] keys[i]) is None by {
        law_noise_fields_go(o, sig, keys[i]);
        assert(keys.contains(keys[i]));
    }
    lemma_del_keys_absent(once, keys, keys.len());
}

proof fn lemma_del_keys_absent(o: Entries, keys: Seq<Seq<char>>, n: nat)
    requires
        n <= keys.len(),
        forall|i: int| 0 <= i < keys.len() ==> get(o, #[trigger] keys[i]) is None,
    ensures
        del_keys(o, keys, n) == o,
    decreases n,
{
    if n > 0 {
        lemma_del_keys_absent(o, keys, (n - 1) as nat);
        assert(get(o, keys[n - 1]) is None);
        lemma_key_index(o, keys[n - 1]);
        crate::json::lemma_del_absent(o, keys[n - 1]);
    }
}

/// What the schema explains is taken out; every field that stays is as it was,
/// and they stay in order.
pub proof fn law_gated_fields_only_go(
    o: Entries,
    members: Seq<MemberDef>,
    a: u16,
    b: u16,
    n: nat,
)
    requires
        n <= o.len(),
    ensures
        unexplained(o, members, a, b, n).len() <= n,
        forall|i: int|
            0 <= i < unexplained(o, members, a, b, n).len() ==> o.take(n as int).contains(
                #[trigger] unexplained(o, members, a, b, n)[i],
            ),
    decreases n,
{
    if n > 0 {
        law_gated_fields_only_go(o, members, a, b, (n - 1) as nat);
        let before = unexplained(o, members, a, b, (n - 1) as nat);
        let after = unexplained(o, members, a, b, n);
        let was = o.take(n - 1);
        let now = o.take(n as int);
        assert forall|i: int| 0 <= i < after.len() implies now.contains(#[trigger] after[i]) by {
            if i < before.len() {
                assert(after[i] == before[i]);
                assert(was.contains(before[i]));
                let j = choose|j: int| 0 <= j < was.len() && was[j] == before[i];
                assert(now[j] == after[i]);
            } else {
                assert(now[n - 1] == after[i]);
            }
        }
    }
}

/// Taking out what re-saving wrote brings no field that was not there.
pub proof fn law_restamp_fields_only_go(o: Entries, sig: Seq<char>, n: nat)
    requires
        n <= o.len(),
    ensures
        restamped_fields(o, sig, n).len() <= n,
        forall|i: int|
            0 <= i < restamped_fields(o, sig, n).len() ==> among(
                o,
                (#[trigger] restamped_fields(o, sig, n)[i]).0,
                n,
            ),
    decreases n,
{
    if n > 0 {
        law_restamp_fields_only_go(o, sig, (n - 1) as nat);
        let before = restamped_fields(o, sig, (n - 1) as nat);
        let after = restamped_fields(o, sig, n);
        assert forall|i: int| 0 <= i < after.len() implies among(o, (#[trigger] after[i]).0, n) by {
            if i < before.len() {
                assert(after[i] == before[i]);
                assert(among(o, before[i].0, (n - 1) as nat));
                let j = choose|j: int| 0 <= j < n - 1 && (#[trigger] o[j]).0 == before[i].0;
                assert(0 <= j < n && o[j].0 == after[i].0);
            } else {
                assert(o[n - 1].0 == after[i].0);
            }
        }
    }
}

// ── Defaults ───────────────────────────────────────────────────────────────
/// Whether defaults are in the order in which they are reported.
pub open spec fn defaults_ordered(list: Seq<DefaultView>) -> bool {
    forall|i: int, j: int|
        0 <= i < j < list.len() ==> (#[trigger] list[i]).count >= (#[trigger] list[j]).count
}

proof fn lemma_default_place(list: Seq<DefaultView>, d: DefaultView, i: nat)
    requires
        i <= list.len(),
    ensures
        i <= default_place(list, d, i) <= list.len(),
        default_place(list, d, i) < list.len() ==> more_frequent(
            d,
            list[default_place(list, d, i)],
        ),
        forall|j: int|
            i <= j < default_place(list, d, i) ==> !more_frequent(d, #[trigger] list[j]),
    decreases list.len() - i,
{
    if !(i >= list.len() || more_frequent(d, list[i as int])) {
        lemma_default_place(list, d, i + 1);
    }
}

/// A value counts as a default only where it appeared often enough and no edit
/// wrote it, and the defaults come by how often they appeared.
pub proof fn law_defaults(s: Stats, min: int, n: nat)
    requires
        n <= s.seen.len(),
    ensures
        defaults_ordered(defaults_of(s, min, n)),
        forall|i: int|
            0 <= i < defaults_of(s, min, n).len() ==> (#[trigger] defaults_of(s, min, n)[i]).count
                >= min && !named_in(
                s.edits,
                defaults_of(s, min, n)[i].name,
                defaults_of(s, min, n)[i].value,
            ),
    decreases n,
{
    if n > 0 {
        law_defaults(s, min, (n - 1) as nat);
        let before = defaults_of(s, min, (n - 1) as nat);
        let after = defaults_of(s, min, n);
        let d = s.seen[n - 1];
        if d.count >= min && !named_in(s.edits, d.name, d.value) {
            lemma_default_place(before, d, 0);
            let p = default_place(before, d, 0);
            assert forall|i: int, j: int| 0 <= i < j < after.len() implies (
            #[trigger] after[i]).count >= (#[trigger] after[j]).count by {
                if i == p {
                    assert(after[j] == before[j - 1]);
                    assert(before[p].count >= before[j - 1].count || j - 1 == p);
                } else if j == p {
                    assert(after[i] == before[i]);
                } else {
                    let x = if i < p {
                        i
                    } else {
                        i - 1
                    };
                    let y = if j < p {
                        j
                    } else {
                        j - 1
                    };
                    assert(after[i] == before[x] && after[j] == before[y]);
                }
            }
            assert forall|i: int| 0 <= i < after.len() implies (#[trigger] after[i]).count >= min
                && !named_in(s.edits, after[i].name, after[i].value) by {
                if i < p {
                    assert(after[i] == before[i]);
                } else if i > p {
                    assert(after[i] == before[i - 1]);
                }
            }
        }
    }
}

// ── The type filter ────────────────────────────────────────────────────────
/// Restricting a report to a type keeps the records of that type and no
/// others, in order, and doing it again changes nothing.
pub proof fn law_type_filter(list: Seq<StubView>, sig: Seq<char>, n: nat)
    requires
        n <= list.len(),
    ensures
        ({
            let kept = stubs_of_type(list, sig, n);
            &&& forall|i: int| 0 <= i < kept.len() ==> (#[trigger] kept[i]).record_type == sig
            &&& forall|i: int|
                0 <= i < n && (#[trigger] list[i]).record_type == sig ==> kept.contains(list[i])
            &&& stubs_of_type(kept, sig, kept.len()) == kept
        }),
    decreases n,
{
    let kept = stubs_of_type(list, sig, n);
    if n > 0 {
        law_type_filter(list, sig, (n - 1) as nat);
        let before = stubs_of_type(list, sig, (n - 1) as nat);
        assert forall|i: int| 0 <= i < n && (#[trigger] list[i]).record_type == sig implies kept.contains(
            list[i],
        ) by {
            if i < n - 1 {
                assert(before.contains(list[i]));
                let j = choose|j: int| 0 <= j < before.len() && before[j] == list[i];
                assert(kept[j] == list[i]);
            } else {
                assert(kept[kept.len() - 1] == list[i]);
            }
        }
    }
    lemma_all_of_type(kept, sig, kept.len());
}

proof fn lemma_all_of_type(list: Seq<StubView>, sig: Seq<char>, n: nat)
    requires
        n <= list.len(),
        forall|i: int| 0 <= i < list.len() ==> (#[trigger] list[i]).record_type == sig,
    ensures
        stubs_of_type(list, sig, n) == list.take(n as int),
    decreases n,
{
    if n > 0 {
        lemma_all_of_type(list, sig, (n - 1) as nat);
        assert(list.take(n as int) =~= list.take(n - 1).push(list[n - 1]));
    } else {
        assert(list.take(0) =~= Seq::<StubView>::empty());
    }
    assert(n == list.len() ==> list.take(n as int) =~= list);
}

} // verus!
