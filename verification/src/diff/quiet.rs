//! What counts as noise in the differences of a record, and what stays.
use crate::decode::scalars::{version_bounds, version_ok};
use crate::diff::calibrate::{
    child_path, defaults_of, element_leaves, field_leaves, leaf_of, leaves, named_in, note_all,
    seen_index, seen_more, undefaulted, undefaulted_elements, undefaulted_fields, Leaf, Stats,
};
use crate::diff::laws::law_noise_fields_go;
use crate::diff::noise::{
    crosses, hidden, is_leaf, name_of, named_crosses, noise_fields, pure_transition, unexplained,
    without_noise,
};
use crate::diff::report::DefaultView;
use crate::diff::restamp::{restamped, restamped_elements, restamped_fields, with_value};
use crate::json::{get, has_key, key_index, lemma_key_index, Entries, Json};
use crate::order::keys_increase;
use crate::picks::{holds_picks, lemma_picked, picked};
use crate::schema::MemberDef;
use vstd::prelude::*;

verus! {

// ── Fields that are always noise ───────────────────────────────────────────
/// The bounds of an object are noise everywhere; so is where a placed record
/// stands, and what of a cell is computed from what stands in it. Every other
/// field stays as it was.
pub proof fn law_which_fields_are_noise(o: Entries, sig: Seq<char>, k: Seq<char>)
    requires
        keys_increase(o),
    ensures
        ({
            let rest = without_noise(Json::Obj(o), sig);
            let placed = sig == "REFR"@ || sig == "ACHR"@ || sig == "PGRE"@ || sig == "PHZD"@;
            let of_placed = k == "Position/Rotation"@ || k == "Bound Half Extents"@ || k
                == "Scale"@ || k == "Radius"@ || k == "Distant LOD Data"@;
            let of_cell = k == "PreVis File Hash"@ || k == "In PreVis File Of"@ || k
                == "PreCombined Files Timestamp"@ || k == "Combined References"@ || k
                == "Physics References"@ || k == "Combined Physics"@ || k
                == "Precombined Object Level XY"@ || k == "Precombined Object Level Z"@ || k
                == "Max Height Data"@;
            &&& rest is Obj
            &&& get(rest->Obj_0, k) == if k == "Object Bounds"@ || placed && of_placed || sig
                == "CELL"@ && of_cell {
                None
            } else {
                get(o, k)
            }
        }),
{
    law_noise_fields_go(o, sig, k);
    reveal_strlit("REFR");
    reveal_strlit("ACHR");
    reveal_strlit("PGRE");
    reveal_strlit("PHZD");
    reveal_strlit("CELL");
    assert("CELL"@[0] == 'C');
    assert("REFR"@[0] == 'R' && "ACHR"@[0] == 'A' && "PGRE"@[0] == 'P' && "PHZD"@[0] == 'P');
    let keys = noise_fields(sig);
    if keys.contains(k) {
        let i = choose|i: int| 0 <= i < keys.len() && keys[i] == k;
    }
    assert(keys[0] == "Object Bounds"@);
    if sig == "CELL"@ {
        assert(keys[1] == "PreVis File Hash"@ && keys[2] == "In PreVis File Of"@);
        assert(keys[3] == "PreCombined Files Timestamp"@ && keys[4] == "Combined References"@);
        assert(keys[5] == "Physics References"@ && keys[6] == "Combined Physics"@);
        assert(keys[7] == "Precombined Object Level XY"@);
        assert(keys[8] == "Precombined Object Level Z"@ && keys[9] == "Max Height Data"@);
    }
    if sig == "REFR"@ || sig == "ACHR"@ || sig == "PGRE"@ || sig == "PHZD"@ {
        assert(keys[1] == "Position/Rotation"@ && keys[2] == "Bound Half Extents"@);
        assert(keys[3] == "Scale"@ && keys[4] == "Radius"@ && keys[5] == "Distant LOD Data"@);
    }
}

// ── What re-saving writes ──────────────────────────────────────────────────
/// Whether a value stands for undecoded bytes that are all zero.
pub open spec fn zeros(v: Json) -> bool {
    v matches Json::Obj(o) && get(o, "_raw"@) == Some(Json::Bool(true)) && (get(o, "hex"@) matches Some(
        Json::Str(s),
    ) && s.len() % 2 == 0 && forall|i: int| 0 <= i < s.len() ==> #[trigger] s[i] == '0')
}

/// A replaced value is what re-saving writes exactly where zero bytes come or
/// go, or where the previous topic of a response appears; any other replaced
/// value stays as it is.
pub proof fn law_restamped_leaf(o: Entries, sig: Seq<char>, key: Seq<char>)
    requires
        is_leaf(o),
        get(o, "from"@) is Some,
        get(o, "to"@) is Some,
    ensures
        ({
            let from = get(o, "from"@)->Some_0;
            let to = get(o, "to"@)->Some_0;
            let (rest, gone) = restamped(Json::Obj(o), sig, key);
            &&& rest == Json::Obj(o)
            &&& gone <==> from == Json::Null && zeros(to) || to == Json::Null && zeros(from)
                || from == Json::Null && to != Json::Null && sig == "INFO"@ && key
                == "Previous INFO"@
        }),
{
    lemma_leaf_has_no_envelope(o);
}

/// A replaced value has no array difference in it.
proof fn lemma_leaf_has_no_envelope(o: Entries)
    requires
        is_leaf(o),
    ensures
        !has_key(o, "_array_diff"@),
        !(0 <= key_index(o, "_array_diff"@) < o.len()),
{
    reveal_strlit("from");
    reveal_strlit("to");
    reveal_strlit("_array_diff");
    assert("from"@.len() == 4 && "to"@.len() == 2 && "_array_diff"@.len() == 11);
    lemma_key_index(o, "from"@);
    lemma_key_index(o, "to"@);
    lemma_key_index(o, "_array_diff"@);
    let i = key_index(o, "from"@);
    let j = key_index(o, "to"@);
    let k = key_index(o, "_array_diff"@);
    if has_key(o, "_array_diff"@) {
        assert(o[i].0 == "from"@ && o[j].0 == "to"@ && o[k].0 == "_array_diff"@);
        assert(i != j && j != k && i != k);
    }
}

/// A field with what re-saving wrote taken out, unless nothing is left of it.
pub open spec fn kept_after_resave(o: Entries, sig: Seq<char>) -> spec_fn(int) -> Option<
    (Seq<char>, Json),
> {
    |i: int|
        if restamped(o[i].1, sig, o[i].0).1 {
            None
        } else {
            Some((o[i].0, restamped(o[i].1, sig, o[i].0).0))
        }
}

proof fn lemma_restamped_fields(o: Entries, sig: Seq<char>, n: nat)
    requires
        n <= o.len(),
    ensures
        restamped_fields(o, sig, n) == picked(kept_after_resave(o, sig), n),
    decreases n,
{
    if n > 0 {
        lemma_restamped_fields(o, sig, (n - 1) as nat);
    }
}

/// Every field of which something is left stays, in order, and no other.
pub proof fn law_resaving_keeps_every_other_field(o: Entries, sig: Seq<char>)
    ensures
        holds_picks(restamped_fields(o, sig, o.len()), kept_after_resave(o, sig), o.len()),
{
    lemma_restamped_fields(o, sig, o.len());
    let _ = lemma_picked(kept_after_resave(o, sig), o.len());
}

/// A changed element with what re-saving wrote taken out of its changes,
/// unless nothing is left of them.
pub open spec fn element_after_resave(list: Seq<Json>, sig: Seq<char>) -> spec_fn(int) -> Option<
    Json,
> {
    |i: int|
        match list[i] {
            Json::Obj(e) => match get(e, "changes"@) {
                Some(Json::Obj(inner)) => {
                    let rest = restamped_fields(inner, sig, inner.len());
                    if rest.len() == 0 {
                        None
                    } else {
                        Some(Json::Obj(with_value(e, key_index(e, "changes"@), Json::Obj(rest))))
                    }
                },
                _ => Some(list[i]),
            },
            _ => Some(list[i]),
        }
}

proof fn lemma_restamped_elements(list: Seq<Json>, sig: Seq<char>, n: nat)
    requires
        n <= list.len(),
    ensures
        restamped_elements(list, sig, n) == picked(element_after_resave(list, sig), n),
    decreases n,
{
    if n > 0 {
        lemma_restamped_elements(list, sig, (n - 1) as nat);
        if let Json::Obj(e) = list[n - 1] {
            lemma_key_index(e, "changes"@);
        }
    }
}

/// Every changed element of which something is left stays, in order, and no
/// other.
pub proof fn law_resaving_keeps_every_other_element(list: Seq<Json>, sig: Seq<char>)
    ensures
        holds_picks(
            restamped_elements(list, sig, list.len()),
            element_after_resave(list, sig),
            list.len(),
        ),
{
    lemma_restamped_elements(list, sig, list.len());
    let _ = lemma_picked(element_after_resave(list, sig), list.len());
}

// ── What the schema explains ───────────────────────────────────────────────
/// Whether a member exists at a form version: from one on and below another.
pub proof fn law_member_exists_between_versions(m: MemberDef, v: u16)
    ensures
        version_ok(v, m) <==> ({
            let from = version_bounds(m).0;
            let below = version_bounds(m).1;
            (from is None || from->Some_0 <= v) && (below is None || v < below->Some_0)
        }),
{
}

/// The change of a field that the schema does not explain: it does explain one
/// that only appears where a member of its name comes to exist between the two
/// form versions, and one that only disappears where such a member ceases to.
pub open spec fn not_explained(o: Entries, members: Seq<MemberDef>, a: u16, b: u16) -> spec_fn(
    int,
) -> Option<(Seq<char>, Json)> {
    |i: int|
        {
            let (k, v) = o[i];
            let on = exists|j: int|
                0 <= j < members.len() && name_of(#[trigger] members[j]) == Some(k) && crosses(
                    members[j],
                    a,
                    b,
                    false,
                    true,
                );
            let off = exists|j: int|
                0 <= j < members.len() && name_of(#[trigger] members[j]) == Some(k) && crosses(
                    members[j],
                    a,
                    b,
                    true,
                    false,
                );
            let appears = pure_transition(v, "from"@);
            let disappears = pure_transition(v, "to"@) && !appears;
            if appears && on || disappears && off {
                None
            } else {
                Some((k, v))
            }
        }
}

proof fn lemma_named_crosses(
    members: Seq<MemberDef>,
    key: Seq<char>,
    i: nat,
    a: u16,
    b: u16,
    at_a: bool,
    at_b: bool,
)
    requires
        i <= members.len(),
    ensures
        named_crosses(members, key, i, a, b, at_a, at_b) <==> exists|j: int|
            i <= j < members.len() && name_of(#[trigger] members[j]) == Some(key) && crosses(
                members[j],
                a,
                b,
                at_a,
                at_b,
            ),
    decreases members.len() - i,
{
    if i < members.len() {
        lemma_named_crosses(members, key, i + 1, a, b, at_a, at_b);
        let m = members[i as int];
        if name_of(m) == Some(key) && crosses(m, a, b, at_a, at_b) {
            assert(name_of(members[i as int]) == Some(key));
        }
    }
}

proof fn lemma_unexplained(o: Entries, members: Seq<MemberDef>, a: u16, b: u16, n: nat)
    requires
        n <= o.len(),
    ensures
        unexplained(o, members, a, b, n) == picked(not_explained(o, members, a, b), n),
    decreases n,
{
    if n > 0 {
        lemma_unexplained(o, members, a, b, (n - 1) as nat);
        lemma_named_crosses(members, o[n - 1].0, 0, a, b, false, true);
        lemma_named_crosses(members, o[n - 1].0, 0, a, b, true, false);
        let f = not_explained(o, members, a, b);
        let x = f(n - 1);
    }
}

/// Every change that the schema does not explain stays, in order and as it
/// was, and no other.
pub proof fn law_schema_explains_version_changes(
    o: Entries,
    members: Seq<MemberDef>,
    a: u16,
    b: u16,
)
    ensures
        holds_picks(
            unexplained(o, members, a, b, o.len()),
            not_explained(o, members, a, b),
            o.len(),
        ),
{
    lemma_unexplained(o, members, a, b, o.len());
    let _ = lemma_picked(not_explained(o, members, a, b), o.len());
}

/// A member without parts comes to exist between two form versions where it
/// exists at the second and not at the first.
pub proof fn law_plain_member_crosses(m: MemberDef, a: u16, b: u16, at_a: bool, at_b: bool)
    requires
        !(m is Struct),
        !(m is RStruct),
        !(m is RArray),
        !(m is Array),
        !(m is Union),
    ensures
        crosses(m, a, b, at_a, at_b) <==> version_ok(a, m) == at_a && version_ok(b, m) == at_b,
{
}

// ── Defaults ───────────────────────────────────────────────────────────────
/// A replaced value is a default exactly where nothing becomes a value that is
/// a default for its field; any other replaced value stays as it is.
pub proof fn law_default_leaf(o: Entries, path: Seq<char>, set: Seq<(Seq<char>, Json)>)
    requires
        is_leaf(o),
        get(o, "from"@) is Some,
        get(o, "to"@) is Some,
    ensures
        ({
            let from = get(o, "from"@)->Some_0;
            let to = get(o, "to"@)->Some_0;
            let (rest, gone) = undefaulted(Json::Obj(o), path, set);
            &&& rest == Json::Obj(o)
            &&& gone <==> from == Json::Null && to != Json::Null && exists|i: int|
                0 <= i < set.len() && (#[trigger] set[i]).0 == leaf_of(path) && set[i].1 == to
        }),
{
    lemma_leaf_has_no_envelope(o);
}

/// A field with the defaults taken out, unless nothing is left of it.
pub open spec fn kept_of_defaults(
    o: Entries,
    path: Seq<char>,
    set: Seq<(Seq<char>, Json)>,
) -> spec_fn(int) -> Option<(Seq<char>, Json)> {
    |i: int|
        {
            let (rest, gone) = undefaulted(o[i].1, child_path(path, o[i].0, o[i].1), set);
            if gone {
                None
            } else {
                Some((o[i].0, rest))
            }
        }
}

proof fn lemma_undefaulted_fields(
    o: Entries,
    path: Seq<char>,
    set: Seq<(Seq<char>, Json)>,
    n: nat,
)
    requires
        n <= o.len(),
    ensures
        undefaulted_fields(o, path, set, n) == picked(kept_of_defaults(o, path, set), n),
    decreases n,
{
    if n > 0 {
        lemma_undefaulted_fields(o, path, set, (n - 1) as nat);
    }
}

/// Every field of which something is left without its defaults stays, in
/// order, and no other.
pub proof fn law_defaults_keep_every_other_field(
    o: Entries,
    path: Seq<char>,
    set: Seq<(Seq<char>, Json)>,
)
    ensures
        holds_picks(
            undefaulted_fields(o, path, set, o.len()),
            kept_of_defaults(o, path, set),
            o.len(),
        ),
{
    lemma_undefaulted_fields(o, path, set, o.len());
    let _ = lemma_picked(kept_of_defaults(o, path, set), o.len());
}

/// A changed element with the defaults taken out of its changes, unless
/// nothing is left of them.
pub open spec fn element_of_defaults(
    list: Seq<Json>,
    path: Seq<char>,
    set: Seq<(Seq<char>, Json)>,
) -> spec_fn(int) -> Option<Json> {
    |i: int|
        match list[i] {
            Json::Obj(e) => match get(e, "changes"@) {
                Some(Json::Obj(inner)) => {
                    let rest = undefaulted_fields(inner, path, set, inner.len());
                    if rest.len() == 0 {
                        None
                    } else {
                        Some(Json::Obj(with_value(e, key_index(e, "changes"@), Json::Obj(rest))))
                    }
                },
                _ => Some(list[i]),
            },
            _ => Some(list[i]),
        }
}

proof fn lemma_undefaulted_elements(
    list: Seq<Json>,
    path: Seq<char>,
    set: Seq<(Seq<char>, Json)>,
    n: nat,
)
    requires
        n <= list.len(),
    ensures
        undefaulted_elements(list, path, set, n) == picked(
            element_of_defaults(list, path, set),
            n,
        ),
    decreases n,
{
    if n > 0 {
        lemma_undefaulted_elements(list, path, set, (n - 1) as nat);
        if let Json::Obj(e) = list[n - 1] {
            lemma_key_index(e, "changes"@);
        }
    }
}

/// Every changed element of which something is left without its defaults
/// stays, in order, and no other.
pub proof fn law_defaults_keep_every_other_element(
    list: Seq<Json>,
    path: Seq<char>,
    set: Seq<(Seq<char>, Json)>,
)
    ensures
        holds_picks(
            undefaulted_elements(list, path, set, list.len()),
            element_of_defaults(list, path, set),
            list.len(),
        ),
{
    lemma_undefaulted_elements(list, path, set, list.len());
    let _ = lemma_picked(element_of_defaults(list, path, set), list.len());
}

/// How often nothing became a value in fields of a name, among the first `n`
/// replaced values.
pub open spec fn appearances(list: Seq<Leaf>, name: Seq<char>, v: Json, n: nat) -> int
    decreases n,
{
    if n == 0 || n > list.len() {
        0
    } else {
        let l = list[n - 1];
        appearances(list, name, v, (n - 1) as nat) + if leaf_of(l.path) == name && l.from
            == Json::Null && l.to == v && v != Json::Null {
            1int
        } else {
            0
        }
    }
}

/// How often a named value is said to have appeared.
pub open spec fn said(list: Seq<DefaultView>, name: Seq<char>, v: Json) -> int {
    let i = seen_index(list, name, v, 0);
    if i < list.len() {
        list[i].count as int
    } else {
        0
    }
}

/// The position of a named value is the first where it stands.
proof fn lemma_seen_index(list: Seq<DefaultView>, name: Seq<char>, v: Json, i: nat)
    requires
        i <= list.len(),
    ensures
        i <= seen_index(list, name, v, i) <= list.len(),
        seen_index(list, name, v, i) < list.len() ==> list[seen_index(list, name, v, i)].name
            == name && list[seen_index(list, name, v, i)].value == v,
        forall|j: int|
            i <= j < seen_index(list, name, v, i) ==> !((#[trigger] list[j]).name == name
                && list[j].value == v),
    decreases list.len() - i,
{
    if i < list.len() && !(list[i as int].name == name && list[i as int].value == v) {
        lemma_seen_index(list, name, v, i + 1);
    }
}

/// The first position where a named value stands is its position.
proof fn lemma_first_seen(list: Seq<DefaultView>, name: Seq<char>, v: Json, i: nat, at: int)
    requires
        i <= at <= list.len(),
        at < list.len() ==> list[at].name == name && list[at].value == v,
        forall|j: int|
            i <= j < at ==> !((#[trigger] list[j]).name == name && list[j].value == v),
    ensures
        seen_index(list, name, v, i) == at,
    decreases list.len() - i,
{
    if i < at {
        assert(!(list[i as int].name == name && list[i as int].value == v));
        lemma_first_seen(list, name, v, i + 1, at);
    }
}

proof fn lemma_said_more(
    list: Seq<DefaultView>,
    name: Seq<char>,
    v: Json,
    other: Seq<char>,
    w: Json,
)
    requires
        said(list, name, v) < usize::MAX,
    ensures
        said(seen_more(list, name, v), other, w) == said(list, other, w) + if other == name && w
            == v {
            1int
        } else {
            0
        },
{
    let more = seen_more(list, name, v);
    let i = seen_index(list, name, v, 0);
    let j = seen_index(list, other, w, 0);
    lemma_seen_index(list, name, v, 0);
    lemma_seen_index(list, other, w, 0);
    assert forall|k: int| 0 <= k < list.len() implies (#[trigger] more[k]).name == list[k].name
        && more[k].value == list[k].value by {}
    if j < list.len() {
        lemma_first_seen(more, other, w, 0, j);
    } else if other == name && w == v {
        lemma_first_seen(more, other, w, 0, j);
    } else {
        lemma_first_seen(more, other, w, 0, more.len() as int);
    }
}

/// What is counted of a value in fields of a name is how often nothing became
/// it there.
pub proof fn law_appearances_are_counted(
    list: Seq<Leaf>,
    name: Seq<char>,
    v: Json,
    n: nat,
)
    requires
        n <= list.len() < usize::MAX,
    ensures
        ({
            let s = note_all(
                Stats { seen: Seq::empty(), edits: Seq::empty() },
                list,
                n,
            );
            said(s.seen, name, v) == appearances(list, name, v, n)
        }),
        0 <= appearances(list, name, v, n) <= n,
    decreases n,
{
    if n > 0 {
        let m = (n - 1) as nat;
        let l = list[n - 1];
        let start = Stats { seen: Seq::empty(), edits: Seq::empty() };
        let s = note_all(start, list, m);
        law_appearances_are_counted(list, name, v, m);
        law_appearances_are_counted(list, leaf_of(l.path), l.to, m);
        if l.to != Json::Null && l.from == Json::Null {
            lemma_said_more(s.seen, leaf_of(l.path), l.to, name, v);
        }
    }
}

/// A value that replaced another, and is not padding set to zero, is noted as
/// written by an edit.
pub proof fn law_edits_are_noted(list: Seq<Leaf>, n: nat, k: int)
    requires
        0 <= k < n <= list.len(),
        list[k].from != Json::Null,
        list[k].to != Json::Null,
        leaf_of(list[k].path) != "hex"@,
    ensures
        named_in(
            note_all(Stats { seen: Seq::empty(), edits: Seq::empty() }, list, n).edits,
            leaf_of(list[k].path),
            list[k].to,
        ),
    decreases n,
{
    let start = Stats { seen: Seq::empty(), edits: Seq::empty() };
    let m = (n - 1) as nat;
    let s = note_all(start, list, m);
    let after = note_all(start, list, n);
    if k < n - 1 {
        law_edits_are_noted(list, m, k);
        let i = choose|i: int|
            0 <= i < s.edits.len() && (#[trigger] s.edits[i]).0 == leaf_of(list[k].path)
                && s.edits[i].1 == list[k].to;
        assert(after.edits[i] == s.edits[i]);
    } else {
        assert(after.edits[s.edits.len() as int] == (leaf_of(list[k].path), list[k].to));
    }
}

/// Every value that appeared often enough, and that no edit wrote, is a
/// default.
pub proof fn law_every_default_is_one(s: Stats, min: int, n: nat, k: int)
    requires
        0 <= k < n <= s.seen.len(),
        s.seen[k].count >= min,
        !named_in(s.edits, s.seen[k].name, s.seen[k].value),
    ensures
        defaults_of(s, min, n).contains(s.seen[k]),
    decreases n,
{
    let m = (n - 1) as nat;
    let before = defaults_of(s, min, m);
    let after = defaults_of(s, min, n);
    let d = s.seen[n - 1];
    let p = crate::diff::calibrate::default_place(before, d, 0);
    lemma_place(before, d, 0);
    if k < n - 1 {
        law_every_default_is_one(s, min, m, k);
        let i = choose|i: int| 0 <= i < before.len() && before[i] == s.seen[k];
        if d.count >= min && !named_in(s.edits, d.name, d.value) {
            if i < p {
                assert(after[i] == before[i]);
            } else {
                assert(after[i + 1] == before[i]);
            }
        }
    } else {
        assert(after[p] == d);
    }
}

proof fn lemma_place(list: Seq<DefaultView>, d: DefaultView, i: nat)
    requires
        i <= list.len(),
    ensures
        i <= crate::diff::calibrate::default_place(list, d, i) <= list.len(),
    decreases list.len() - i,
{
    if i < list.len() {
        lemma_place(list, d, i + 1);
    }
}

// ── Replaced values ────────────────────────────────────────────────────────
proof fn lemma_leaves_added(v: Json, path: Seq<char>, acc: Seq<Leaf>)
    ensures
        leaves(v, path, acc) == acc + leaves(v, path, Seq::empty()),
    decreases v, 1nat, 0nat,
{
    if let Json::Obj(o) = v {
        let i = key_index(o, "_array_diff"@);
        if is_leaf(o) {
            assert(leaves(v, path, acc) =~= acc + leaves(v, path, Seq::empty()));
        } else if 0 <= i < o.len() && o[i].1 is Obj {
            let ad = o[i].1->Obj_0;
            let c = key_index(ad, "changed"@);
            if 0 <= c < ad.len() && ad[c].1 is Arr {
                lemma_element_leaves_added(ad[c].1->Arr_0, path, 0, acc);
            } else {
                assert(acc + Seq::<Leaf>::empty() =~= acc);
            }
        } else {
            lemma_field_leaves_added(o, path, 0, acc);
        }
    } else {
        assert(acc + Seq::<Leaf>::empty() =~= acc);
    }
}

proof fn lemma_field_leaves_added(o: Entries, path: Seq<char>, i: nat, acc: Seq<Leaf>)
    ensures
        field_leaves(o, path, i, acc) == acc + field_leaves(o, path, i, Seq::empty()),
    decreases o, 0nat, o.len() - i,
{
    if i < o.len() {
        if hidden(o[i as int].0) {
            lemma_field_leaves_added(o, path, i + 1, acc);
        } else {
            let (k, v) = o[i as int];
            let p = child_path(path, k, v);
            let own = leaves(v, p, Seq::empty());
            lemma_leaves_added(v, p, acc);
            lemma_field_leaves_added(o, path, i + 1, acc + own);
            lemma_field_leaves_added(o, path, i + 1, own);
            assert((acc + own) + field_leaves(o, path, i + 1, Seq::empty()) =~= acc + (own
                + field_leaves(o, path, i + 1, Seq::empty())));
        }
    } else {
        assert(acc + Seq::<Leaf>::empty() =~= acc);
    }
}

proof fn lemma_element_leaves_added(list: Seq<Json>, path: Seq<char>, i: nat, acc: Seq<Leaf>)
    ensures
        element_leaves(list, path, i, acc) == acc + element_leaves(list, path, i, Seq::empty()),
    decreases list, 0nat, list.len() - i,
{
    if i < list.len() {
        let own = match list[i as int] {
            Json::Obj(e) => {
                let j = key_index(e, "changes"@);
                if 0 <= j < e.len() {
                    leaves(e[j].1, path, Seq::empty())
                } else {
                    Seq::empty()
                }
            },
            _ => Seq::empty(),
        };
        if let Json::Obj(e) = list[i as int] {
            let j = key_index(e, "changes"@);
            if 0 <= j < e.len() {
                lemma_leaves_added(e[j].1, path, acc);
            }
        }
        assert(acc + Seq::<Leaf>::empty() =~= acc);
        lemma_element_leaves_added(list, path, i + 1, acc + own);
        lemma_element_leaves_added(list, path, i + 1, own);
        assert((acc + own) + element_leaves(list, path, i + 1, Seq::empty()) =~= acc + (own
            + element_leaves(list, path, i + 1, Seq::empty())));
    } else {
        assert(acc + Seq::<Leaf>::empty() =~= acc);
    }
}

/// A replaced value is seen at its path with what it was and what it is.
pub proof fn law_replaced_value_is_seen(o: Entries, path: Seq<char>)
    requires
        is_leaf(o),
        get(o, "from"@) is Some,
        get(o, "to"@) is Some,
    ensures
        leaves(Json::Obj(o), path, Seq::empty()) == seq![
            Leaf { path, from: get(o, "from"@)->Some_0, to: get(o, "to"@)->Some_0 },
        ],
{
    assert(leaves(Json::Obj(o), path, Seq::empty()) =~= seq![
        Leaf { path, from: get(o, "from"@)->Some_0, to: get(o, "to"@)->Some_0 },
    ]);
}

/// Every replaced value in a field is seen, unless the field's name starts
/// with an underscore.
pub proof fn law_replaced_values_of_fields(o: Entries, path: Seq<char>, i: nat, n: int, l: Leaf)
    requires
        i <= n < o.len(),
        o[n].0.len() == 0 || o[n].0[0] != '_',
        leaves(o[n].1, child_path(path, o[n].0, o[n].1), Seq::empty()).contains(l),
    ensures
        field_leaves(o, path, i, Seq::empty()).contains(l),
    decreases n - i,
{
    let (k, v) = o[i as int];
    let own = if hidden(k) {
        Seq::empty()
    } else {
        leaves(v, child_path(path, k, v), Seq::empty())
    };
    lemma_field_leaves_added(o, path, i + 1, own);
    let rest = field_leaves(o, path, i + 1, Seq::empty());
    assert(Seq::<Leaf>::empty() + rest =~= rest);
    let all = field_leaves(o, path, i, Seq::empty());
    assert(all == own + rest);
    if i < n {
        law_replaced_values_of_fields(o, path, i + 1, n, l);
        let x = choose|x: int| 0 <= x < rest.len() && rest[x] == l;
        assert(all[own.len() + x] == l);
    } else {
        let x = choose|x: int| 0 <= x < own.len() && own[x] == l;
        assert(all[x] == l);
    }
}

/// Every replaced value in the changes of an element is seen.
pub proof fn law_replaced_values_of_elements(
    list: Seq<Json>,
    path: Seq<char>,
    i: nat,
    n: int,
    l: Leaf,
)
    requires
        i <= n < list.len(),
        list[n] is Obj,
        get(list[n]->Obj_0, "changes"@) is Some,
        leaves(get(list[n]->Obj_0, "changes"@)->Some_0, path, Seq::empty()).contains(l),
    ensures
        element_leaves(list, path, i, Seq::empty()).contains(l),
    decreases n - i,
{
    let own = match list[i as int] {
        Json::Obj(e) => match get(e, "changes"@) {
            Some(v) => leaves(v, path, Seq::empty()),
            None => Seq::empty(),
        },
        _ => Seq::empty(),
    };
    if let Json::Obj(e) = list[i as int] {
        lemma_key_index(e, "changes"@);
    }
    lemma_element_leaves_added(list, path, i + 1, own);
    let rest = element_leaves(list, path, i + 1, Seq::empty());
    assert(Seq::<Leaf>::empty() + rest =~= rest);
    let all = element_leaves(list, path, i, Seq::empty());
    assert(all == own + rest);
    if i < n {
        law_replaced_values_of_elements(list, path, i + 1, n, l);
        let x = choose|x: int| 0 <= x < rest.len() && rest[x] == l;
        assert(all[own.len() + x] == l);
    } else {
        let x = choose|x: int| 0 <= x < own.len() && own[x] == l;
        assert(all[x] == l);
    }
}

} // verus!
