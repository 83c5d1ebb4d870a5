//! Edits survive: what an author changed is never taken for noise.
use crate::diff::calibrate::{
    child_path, undefaulted, undefaulted_array, undefaulted_elements, undefaulted_fields,
    without_defaults,
};
use crate::diff::laws::among;
use crate::diff::noise::{
    explained, hidden, is_leaf, pure_elements, pure_fields, pure_transition, unexplained,
};
use crate::diff::restamp::{
    restamped, restamped_array, restamped_elements, restamped_fields, says_nothing, with_changed,
    with_value, without_restamp,
};
use crate::json::{get, has_key, key_index, lemma_key_index, Entries, Json};
use crate::schema::MemberDef;
use vstd::prelude::*;

verus! {

/// Whether an object is neither a replaced value nor an array difference.
pub open spec fn plain(o: Entries) -> bool {
    !has_key(o, "from"@) && !has_key(o, "_array_diff"@)
}

/// Whether a change holds an edit: a value that was there was replaced by
/// another.
pub open spec fn has_edit(v: Json) -> bool
    decreases v, 1nat, 0nat,
{
    match v {
        Json::Obj(o) => {
            let i = key_index(o, "_array_diff"@);
            if is_leaf(o) {
                !has_key(o, "_array_diff"@) && get(o, "from"@) != Some(Json::Null) && get(o, "to"@)
                    != Some(Json::Null)
            } else if 0 <= i < o.len() && o[i].1 is Obj {
                !has_key(o, "from"@) && array_has_edit(o[i].1->Obj_0)
            } else {
                plain(o) && some_edit(o, o.len())
            }
        },
        _ => false,
    }
}

/// Whether one of the first `n` fields holds an edit. Fields with an
/// underscore before their names are not an author's.
pub open spec fn some_edit(o: Entries, n: nat) -> bool
    decreases o, 0nat, n,
{
    0 < n <= o.len() && ((!hidden(o[n - 1].0) && has_edit(o[n - 1].1)) || some_edit(
        o,
        (n - 1) as nat,
    ))
}

/// Whether a changed element of an array difference holds an edit.
pub open spec fn array_has_edit(ad: Entries) -> bool
    decreases ad, 2nat, 0nat,
{
    let c = key_index(ad, "changed"@);
    0 <= c < ad.len() && ad[c].1 is Arr && some_element(ad[c].1->Arr_0, ad[c].1->Arr_0.len())
}

/// Whether one of the first `n` changed elements holds an edit.
pub open spec fn some_element(list: Seq<Json>, n: nat) -> bool
    decreases list, 0nat, n,
{
    0 < n <= list.len() && (match list[n - 1] {
        Json::Obj(e) => {
            let j = key_index(e, "changes"@);
            0 <= j < e.len() && e[j].1 is Obj && plain(e[j].1->Obj_0) && some_edit(
                e[j].1->Obj_0,
                e[j].1->Obj_0.len(),
            )
        },
        _ => false,
    } || some_element(list, (n - 1) as nat))
}

// ── Plumbing ───────────────────────────────────────────────────────────────
proof fn lemma_same_keys(o: Entries, p: Entries, k: Seq<char>)
    requires
        o.len() == p.len(),
        forall|i: int| 0 <= i < o.len() ==> (#[trigger] o[i]).0 == p[i].0,
    ensures
        key_index(p, k) == key_index(o, k),
    decreases o.len(),
{
    if o.len() > 0 {
        assert(o[0].0 == p[0].0);
        if o[0].0 != k {
            let a = o.drop_first();
            let b = p.drop_first();
            assert forall|i: int| 0 <= i < a.len() implies (#[trigger] a[i]).0 == b[i].0 by {
                assert(a[i] == o[i + 1] && b[i] == p[i + 1]);
                assert(o[i + 1].0 == p[i + 1].0);
            }
            lemma_same_keys(a, b, k);
        }
    }
}

proof fn lemma_with_value(o: Entries, i: int, v: Json, k: Seq<char>)
    requires
        0 <= i < o.len(),
    ensures
        key_index(with_value(o, i, v), k) == key_index(o, k),
        has_key(with_value(o, i, v), k) == has_key(o, k),
{
    let p = with_value(o, i, v);
    assert forall|j: int| 0 <= j < o.len() implies (#[trigger] o[j]).0 == p[j].0 by {
    }
    lemma_same_keys(o, p, k);
    lemma_key_index(o, k);
    lemma_key_index(p, k);
}

proof fn lemma_some_edit_push(o: Entries, x: (Seq<char>, Json), n: nat)
    requires
        n <= o.len(),
    ensures
        some_edit(o.push(x), n) == some_edit(o, n),
    decreases n,
{
    if n > 0 {
        lemma_some_edit_push(o, x, (n - 1) as nat);
        assert(o.push(x)[n - 1] == o[n - 1]);
    }
}

proof fn lemma_some_element_push(list: Seq<Json>, x: Json, n: nat)
    requires
        n <= list.len(),
    ensures
        some_element(list.push(x), n) == some_element(list, n),
    decreases n,
{
    if n > 0 {
        lemma_some_element_push(list, x, (n - 1) as nat);
        assert(list.push(x)[n - 1] == list[n - 1]);
    }
}

/// Whether every key of `p` is a key of `o`.
spec fn fewer_keys(p: Entries, o: Entries) -> bool {
    forall|i: int| 0 <= i < p.len() ==> among(o, (#[trigger] p[i]).0, o.len())
}

proof fn lemma_plain(p: Entries, o: Entries)
    requires
        plain(o),
        fewer_keys(p, o),
    ensures
        plain(p),
{
    lemma_absent(p, o, "from"@);
    lemma_absent(p, o, "_array_diff"@);
}

proof fn lemma_absent(p: Entries, o: Entries, k: Seq<char>)
    requires
        !has_key(o, k),
        fewer_keys(p, o),
    ensures
        !has_key(p, k),
{
    lemma_key_index(p, k);
    lemma_key_index(o, k);
    let i = key_index(p, k);
    if i < p.len() {
        assert(among(o, p[i].0, o.len()));
        let j = choose|j: int| 0 <= j < o.len() && (#[trigger] o[j]).0 == k;
        assert(j >= key_index(o, k));
    }
}

proof fn lemma_plain_is_plain(o: Entries)
    requires
        plain(o),
    ensures
        !is_leaf(o),
        key_index(o, "_array_diff"@) == o.len(),
{
    lemma_key_index(o, "_array_diff"@);
}

// ── Re-saving ──────────────────────────────────────────────────────────────
proof fn lemma_restamped(v: Json, sig: Seq<char>, key: Seq<char>)
    requires
        has_edit(v),
    ensures
        !restamped(v, sig, key).1,
        has_edit(restamped(v, sig, key).0),
    decreases v, 1nat, 0nat,
{
    if let Json::Obj(o) = v {
        let i = key_index(o, "_array_diff"@);
        lemma_key_index(o, "_array_diff"@);
        if is_leaf(o) {
            lemma_key_index(o, "from"@);
            lemma_key_index(o, "to"@);
        } else if 0 <= i < o.len() && o[i].1 is Obj {
            let ad = o[i].1->Obj_0;
            lemma_restamped_array(ad, sig);
            let now = restamped_array(ad, sig);
            let w = with_value(o, i, Json::Obj(now));
            lemma_with_value(o, i, Json::Obj(now), "_array_diff"@);
            lemma_with_value(o, i, Json::Obj(now), "from"@);
            lemma_with_value(o, i, Json::Obj(now), "to"@);
            assert(w[i].1 == Json::Obj(now));
            assert(restamped(v, sig, key) == (Json::Obj(w), says_nothing(now)));
        } else {
            lemma_plain_is_plain(o);
            lemma_restamped_fields(o, sig, o.len());
            let rest = restamped_fields(o, sig, o.len());
            lemma_restamp_keys(o, sig, o.len());
            lemma_plain(rest, o);
            lemma_plain_is_plain(rest);
            assert(restamped(v, sig, key) == (Json::Obj(rest), rest.len() == 0));
        }
    }
}

proof fn lemma_restamp_keys(o: Entries, sig: Seq<char>, n: nat)
    requires
        n <= o.len(),
    ensures
        fewer_keys(restamped_fields(o, sig, n), o),
    decreases n,
{
    if n > 0 {
        lemma_restamp_keys(o, sig, (n - 1) as nat);
        let before = restamped_fields(o, sig, (n - 1) as nat);
        let after = restamped_fields(o, sig, n);
        assert forall|i: int| 0 <= i < after.len() implies among(
            o,
            (#[trigger] after[i]).0,
            o.len(),
        ) by {
            if i < before.len() {
                assert(after[i] == before[i]);
            } else {
                assert(o[n - 1].0 == after[i].0);
            }
        }
    }
}

proof fn lemma_restamped_fields(o: Entries, sig: Seq<char>, n: nat)
    requires
        n <= o.len(),
        some_edit(o, n),
    ensures
        some_edit(restamped_fields(o, sig, n), restamped_fields(o, sig, n).len()),
    decreases o, 0nat, n,
{
    let before = restamped_fields(o, sig, (n - 1) as nat);
    let (v, gone) = restamped(o[n - 1].1, sig, o[n - 1].0);
    let x = (o[n - 1].0, v);
    lemma_some_edit_push(before, x, before.len());
    assert(before.push(x)[before.len() as int] == x);
    if !hidden(o[n - 1].0) && has_edit(o[n - 1].1) {
        lemma_restamped(o[n - 1].1, sig, o[n - 1].0);
    } else {
        lemma_restamped_fields(o, sig, (n - 1) as nat);
    }
}

proof fn lemma_restamped_array(ad: Entries, sig: Seq<char>)
    requires
        array_has_edit(ad),
    ensures
        array_has_edit(restamped_array(ad, sig)),
        !says_nothing(restamped_array(ad, sig)),
    decreases ad, 2nat, 0nat,
{
    let c = key_index(ad, "changed"@);
    let list = ad[c].1->Arr_0;
    lemma_restamped_elements(list, sig, list.len());
    let kept = restamped_elements(list, sig, list.len());
    let now = with_changed(ad, c, kept);
    assert(now == with_value(ad, c, Json::Arr(kept)));
    lemma_with_value(ad, c, Json::Arr(kept), "changed"@);
    lemma_key_index(now, "changed"@);
}

proof fn lemma_restamped_elements(list: Seq<Json>, sig: Seq<char>, n: nat)
    requires
        n <= list.len(),
        some_element(list, n),
    ensures
        some_element(restamped_elements(list, sig, n), restamped_elements(list, sig, n).len()),
    decreases list, 0nat, n,
{
    let before = restamped_elements(list, sig, (n - 1) as nat);
    if some_element(list, (n - 1) as nat) {
        lemma_restamped_elements(list, sig, (n - 1) as nat);
    }
    match list[n - 1] {
        Json::Obj(e) => {
            let j = key_index(e, "changes"@);
            lemma_some_element_push(before, list[n - 1], before.len());
            if 0 <= j < e.len() && e[j].1 is Obj {
                let inner = e[j].1->Obj_0;
                let rest = restamped_fields(inner, sig, inner.len());
                let x = Json::Obj(with_value(e, j, Json::Obj(rest)));
                lemma_some_element_push(before, x, before.len());
                assert(before.push(x)[before.len() as int] == x);
                if plain(inner) && some_edit(inner, inner.len()) {
                    lemma_restamped_fields(inner, sig, inner.len());
                    lemma_restamp_keys(inner, sig, inner.len());
                    lemma_plain(rest, inner);
                    lemma_with_value(e, j, Json::Obj(rest), "changes"@);
                    assert(with_value(e, j, Json::Obj(rest))[j].1 == Json::Obj(rest));
                }
            }
        },
        _ => lemma_some_element_push(before, list[n - 1], before.len()),
    }
}

/// An edit is not taken for what re-saving wrote: changes that hold one still
/// do when that is taken out.
pub proof fn law_edits_survive_restamp(o: Entries, sig: Seq<char>)
    requires
        some_edit(o, o.len()),
    ensures
        without_restamp(Json::Obj(o), sig) matches Json::Obj(rest) && some_edit(rest, rest.len()),
{
    lemma_restamped_fields(o, sig, o.len());
}

// ── Defaults ───────────────────────────────────────────────────────────────
proof fn lemma_undefaulted(v: Json, path: Seq<char>, set: Seq<(Seq<char>, Json)>)
    requires
        has_edit(v),
    ensures
        !undefaulted(v, path, set).1,
        has_edit(undefaulted(v, path, set).0),
    decreases v, 1nat, 0nat,
{
    if let Json::Obj(o) = v {
        let i = key_index(o, "_array_diff"@);
        lemma_key_index(o, "_array_diff"@);
        if is_leaf(o) {
        } else if 0 <= i < o.len() && o[i].1 is Obj {
            let ad = o[i].1->Obj_0;
            lemma_undefaulted_array(ad, path, set);
            let now = undefaulted_array(ad, path, set);
            let w = with_value(o, i, Json::Obj(now));
            lemma_with_value(o, i, Json::Obj(now), "_array_diff"@);
            lemma_with_value(o, i, Json::Obj(now), "from"@);
            lemma_with_value(o, i, Json::Obj(now), "to"@);
            assert(w[i].1 == Json::Obj(now));
            assert(undefaulted(v, path, set) == (Json::Obj(w), says_nothing(now)));
        } else {
            lemma_plain_is_plain(o);
            lemma_undefaulted_fields(o, path, set, o.len());
            let rest = undefaulted_fields(o, path, set, o.len());
            lemma_default_keys(o, path, set, o.len());
            lemma_plain(rest, o);
            lemma_plain_is_plain(rest);
            assert(undefaulted(v, path, set) == (Json::Obj(rest), rest.len() == 0));
        }
    }
}

proof fn lemma_default_keys(o: Entries, path: Seq<char>, set: Seq<(Seq<char>, Json)>, n: nat)
    requires
        n <= o.len(),
    ensures
        fewer_keys(undefaulted_fields(o, path, set, n), o),
    decreases n,
{
    if n > 0 {
        lemma_default_keys(o, path, set, (n - 1) as nat);
        let before = undefaulted_fields(o, path, set, (n - 1) as nat);
        let after = undefaulted_fields(o, path, set, n);
        assert forall|i: int| 0 <= i < after.len() implies among(
            o,
            (#[trigger] after[i]).0,
            o.len(),
        ) by {
            if i < before.len() {
                assert(after[i] == before[i]);
            } else {
                assert(o[n - 1].0 == after[i].0);
            }
        }
    }
}

proof fn lemma_undefaulted_fields(
    o: Entries,
    path: Seq<char>,
    set: Seq<(Seq<char>, Json)>,
    n: nat,
)
    requires
        n <= o.len(),
        some_edit(o, n),
    ensures
        some_edit(
            undefaulted_fields(o, path, set, n),
            undefaulted_fields(o, path, set, n).len(),
        ),
    decreases o, 0nat, n,
{
    let before = undefaulted_fields(o, path, set, (n - 1) as nat);
    let (k, w) = o[n - 1];
    let (v, gone) = undefaulted(w, child_path(path, k, w), set);
    let x = (k, v);
    lemma_some_edit_push(before, x, before.len());
    assert(before.push(x)[before.len() as int] == x);
    if !hidden(k) && has_edit(w) {
        lemma_undefaulted(w, child_path(path, k, w), set);
    } else {
        lemma_undefaulted_fields(o, path, set, (n - 1) as nat);
    }
}

proof fn lemma_undefaulted_array(ad: Entries, path: Seq<char>, set: Seq<(Seq<char>, Json)>)
    requires
        array_has_edit(ad),
    ensures
        array_has_edit(undefaulted_array(ad, path, set)),
        !says_nothing(undefaulted_array(ad, path, set)),
    decreases ad, 2nat, 0nat,
{
    let c = key_index(ad, "changed"@);
    let list = ad[c].1->Arr_0;
    lemma_undefaulted_elements(list, path, set, list.len());
    let kept = undefaulted_elements(list, path, set, list.len());
    let now = with_changed(ad, c, kept);
    assert(now == with_value(ad, c, Json::Arr(kept)));
    lemma_with_value(ad, c, Json::Arr(kept), "changed"@);
    lemma_key_index(now, "changed"@);
}

proof fn lemma_undefaulted_elements(
    list: Seq<Json>,
    path: Seq<char>,
    set: Seq<(Seq<char>, Json)>,
    n: nat,
)
    requires
        n <= list.len(),
        some_element(list, n),
    ensures
        some_element(
            undefaulted_elements(list, path, set, n),
            undefaulted_elements(list, path, set, n).len(),
        ),
    decreases list, 0nat, n,
{
    let before = undefaulted_elements(list, path, set, (n - 1) as nat);
    if some_element(list, (n - 1) as nat) {
        lemma_undefaulted_elements(list, path, set, (n - 1) as nat);
    }
    match list[n - 1] {
        Json::Obj(e) => {
            let j = key_index(e, "changes"@);
            lemma_some_element_push(before, list[n - 1], before.len());
            if 0 <= j < e.len() && e[j].1 is Obj {
                let inner = e[j].1->Obj_0;
                let rest = undefaulted_fields(inner, path, set, inner.len());
                let x = Json::Obj(with_value(e, j, Json::Obj(rest)));
                lemma_some_element_push(before, x, before.len());
                assert(before.push(x)[before.len() as int] == x);
                if plain(inner) && some_edit(inner, inner.len()) {
                    lemma_undefaulted_fields(inner, path, set, inner.len());
                    lemma_default_keys(inner, path, set, inner.len());
                    lemma_plain(rest, inner);
                    lemma_with_value(e, j, Json::Obj(rest), "changes"@);
                    assert(with_value(e, j, Json::Obj(rest))[j].1 == Json::Obj(rest));
                }
            }
        },
        _ => lemma_some_element_push(before, list[n - 1], before.len()),
    }
}

/// An edit is not taken for a default: changes that hold one still do when
/// defaults are taken out.
pub proof fn law_edits_survive_defaults(o: Entries, set: Seq<(Seq<char>, Json)>)
    requires
        some_edit(o, o.len()),
    ensures
        without_defaults(Json::Obj(o), set) matches Json::Obj(rest) && some_edit(rest, rest.len()),
{
    lemma_undefaulted_fields(o, Seq::empty(), set, o.len());
}

// ── The schema ─────────────────────────────────────────────────────────────
proof fn lemma_edit_is_no_transition(v: Json, side: Seq<char>)
    requires
        has_edit(v),
        side == "from"@ || side == "to"@,
    ensures
        !pure_transition(v, side),
    decreases v, 1nat, 0nat,
{
    if let Json::Obj(o) = v {
        let i = key_index(o, "_array_diff"@);
        if is_leaf(o) {
        } else if 0 <= i < o.len() && o[i].1 is Obj {
            let ad = o[i].1->Obj_0;
            let c = key_index(ad, "changed"@);
            let list = ad[c].1->Arr_0;
            lemma_edited_elements(list, side, 0, list.len());
        } else {
            lemma_edited_fields(o, side, 0, o.len(), false);
        }
    }
}

proof fn lemma_edited_elements(list: Seq<Json>, side: Seq<char>, i: nat, n: nat)
    requires
        side == "from"@ || side == "to"@,
        i <= n <= list.len(),
        some_element(list, n),
        !some_element(list, i),
    ensures
        !pure_elements(list, side, i),
    decreases list, 0nat, n - i,
{
    if i < n {
        if some_element(list, (i + 1) as nat) {
            if let Json::Obj(e) = list[i as int] {
                let j = key_index(e, "changes"@);
                let inner = e[j].1->Obj_0;
                lemma_plain_is_plain(inner);
                lemma_edited_fields(inner, side, 0, inner.len(), false);
                assert(!pure_transition(e[j].1, side));
            }
        } else {
            lemma_edited_elements(list, side, i + 1, n);
        }
    }
}

proof fn lemma_edited_fields(o: Entries, side: Seq<char>, i: nat, n: nat, seen: bool)
    requires
        side == "from"@ || side == "to"@,
        i <= n <= o.len(),
        some_edit(o, n),
        !some_edit(o, i),
    ensures
        !pure_fields(o, side, i, seen),
    decreases o, 0nat, n - i,
{
    if i < n {
        if some_edit(o, (i + 1) as nat) {
            lemma_edit_is_no_transition(o[i as int].1, side);
        } else {
            lemma_edited_fields(o, side, i + 1, n, seen);
            lemma_edited_fields(o, side, i + 1, n, true);
        }
    }
}

/// An edit is not taken for a field that the schema switches on or off:
/// changes that hold one still do when those are taken out.
pub proof fn law_edits_survive_gates(
    o: Entries,
    members: Seq<MemberDef>,
    a: u16,
    b: u16,
    n: nat,
)
    requires
        n <= o.len(),
        some_edit(o, n),
    ensures
        some_edit(unexplained(o, members, a, b, n), unexplained(o, members, a, b, n).len()),
    decreases n,
{
    let before = unexplained(o, members, a, b, (n - 1) as nat);
    let x = o[n - 1];
    lemma_some_edit_push(before, x, before.len());
    assert(before.push(x)[before.len() as int] == x);
    if !hidden(x.0) && has_edit(x.1) {
        lemma_edit_is_no_transition(x.1, "from"@);
        lemma_edit_is_no_transition(x.1, "to"@);
        assert(!explained(members, x.0, x.1, a, b));
    } else {
        law_edits_survive_gates(o, members, a, b, (n - 1) as nat);
    }
}

} // verus!
