//! Noise suppression: what a re-saved file changes without an author's edit.
//!
//! Four stages narrow the field changes of a record, in this order: fields
//! that are always noise, fields that the schema switches on or off between
//! the two form versions, values that a newer serializer writes out where an
//! older one did not, and values that appear so often in one comparison that
//! they are defaults.
use crate::decode::scalars::{member_version_ok, version_ok};
use crate::diff::restamp::lemma_entries_push;
use crate::json::{
    del, entries_of, get, has_key, key_index, nothing, text, views, Entries, Json, Object, Value,
};
use crate::schema::{lookup, MemberDef, Schema};
use crate::text::{chars_of, str_eq};
use vstd::prelude::*;

verus! {

// ── Fields that are always noise ───────────────────────────────────────────
/// The record types of placed objects.
pub open spec fn placement_type(sig: Seq<char>) -> bool {
    sig == "REFR"@ || sig == "ACHR"@ || sig == "PGRE"@ || sig == "PHZD"@
}

/// The fields of a record type that are always noise.
pub open spec fn noise_fields(sig: Seq<char>) -> Seq<Seq<char>> {
    if placement_type(sig) {
        seq![
            "Object Bounds"@,
            "Position/Rotation"@,
            "Bound Half Extents"@,
            "Scale"@,
            "Radius"@,
            "Distant LOD Data"@,
        ]
    } else if sig == "CELL"@ {
        seq![
            "Object Bounds"@,
            "PreVis File Hash"@,
            "In PreVis File Of"@,
            "PreCombined Files Timestamp"@,
            "Combined References"@,
            "Physics References"@,
            "Combined Physics"@,
            "Precombined Object Level XY"@,
            "Precombined Object Level Z"@,
            "Max Height Data"@,
        ]
    } else {
        seq!["Object Bounds"@]
    }
}

/// `o` without the first `n` keys.
pub open spec fn del_keys(o: Entries, keys: Seq<Seq<char>>, n: nat) -> Entries
    decreases n,
{
    if n == 0 || n > keys.len() {
        o
    } else {
        del(del_keys(o, keys, (n - 1) as nat), keys[n - 1])
    }
}

/// The field changes without the fields that are always noise.
pub open spec fn without_noise(v: Json, sig: Seq<char>) -> Json {
    match v {
        Json::Obj(o) => Json::Obj(del_keys(o, noise_fields(sig), noise_fields(sig).len())),
        _ => v,
    }
}

/// The fields of a record type that are always noise.
fn noise_field_list(sig: &str) -> (r: Vec<&'static str>)
    ensures
        r@.map_values(|s: &str| s@) == noise_fields(sig@),
{
    let mut r: Vec<&'static str> = Vec::new();
    proof {
        reveal_strlit("REFR");
        reveal_strlit("ACHR");
        reveal_strlit("PGRE");
        reveal_strlit("PHZD");
        reveal_strlit("CELL");
        assert("REFR"@[0] != "CELL"@[0] && "ACHR"@[0] != "CELL"@[0] && "PGRE"@[0] != "CELL"@[0]
            && "PHZD"@[0] != "CELL"@[0]);
    }
    r.push("Object Bounds");
    if str_eq(sig, "REFR") || str_eq(sig, "ACHR") || str_eq(sig, "PGRE") || str_eq(sig, "PHZD") {
        r.push("Position/Rotation");
        r.push("Bound Half Extents");
        r.push("Scale");
        r.push("Radius");
        r.push("Distant LOD Data");
    }
    if str_eq(sig, "CELL") {
        r.push("PreVis File Hash");
        r.push("In PreVis File Of");
        r.push("PreCombined Files Timestamp");
        r.push("Combined References");
        r.push("Physics References");
        r.push("Combined Physics");
        r.push("Precombined Object Level XY");
        r.push("Precombined Object Level Z");
        r.push("Max Height Data");
    }
    assert(r@.map_values(|s: &str| s@) =~= noise_fields(sig@));
    r
}

/// Takes the fields that are always noise out of the field changes.
pub fn strip_noise_fields(field_changes: &mut Value, sig: &str)
    ensures
        final(field_changes)@ == without_noise(old(field_changes)@, sig@),
{
    let keys = noise_field_list(sig);
    let ghost kv = keys@.map_values(|s: &str| s@);
    let mut o: Object = match field_changes {
        Value::Object(o) => o.copy(),
        _ => {
            return;
        },
    };
    let ghost start = o@;
    let mut i: usize = 0;
    while i < keys.len()
        invariant
            i <= keys.len(),
            kv == keys@.map_values(|s: &str| s@),
            o@ == del_keys(start, kv, i as nat),
        decreases keys.len() - i,
    {
        assert(kv[i as int] == keys@[i as int]@);
        let _gone = o.remove(keys[i]);
        i += 1;
    }
    *field_changes = Value::Object(o);
}

// ── Transitions that the schema explains ───────────────────────────────────
/// Whether an object is a replaced value.
pub open spec fn is_leaf(o: Entries) -> bool {
    o.len() == 2 && has_key(o, "from"@) && has_key(o, "to"@)
}

/// Whether an object is a replaced value.
pub fn is_from_to_leaf(o: &Object) -> (b: bool)
    ensures
        b == is_leaf(o@),
{
    o.len() == 2 && o.contains_key("from") && o.contains_key("to")
}

/// Whether a name starts with an underscore.
pub open spec fn hidden(k: Seq<char>) -> bool {
    k.len() > 0 && k[0] == '_'
}

/// Whether a name starts with an underscore.
fn is_hidden(k: &str) -> (b: bool)
    ensures
        b == hidden(k@),
{
    let v = chars_of(k);
    v.len() > 0 && v[0] == '_'
}

/// Whether every replaced value under `v` is null on the side `side`. Added
/// and removed elements are never such a transition.
pub open spec fn pure_transition(v: Json, side: Seq<char>) -> bool
    decreases v, 1nat, 0nat,
{
    match v {
        Json::Obj(o) => {
            let i = key_index(o, "_array_diff"@);
            if is_leaf(o) {
                get(o, side) == Some(Json::Null)
            } else if 0 <= i < o.len() && o[i].1 is Obj {
                let ad = o[i].1->Obj_0;
                let c = key_index(ad, "changed"@);
                !has_key(ad, "added"@) && !has_key(ad, "removed"@) && 0 <= c < ad.len()
                    && ad[c].1 is Arr && pure_elements(ad[c].1->Arr_0, side, 0)
            } else {
                pure_fields(o, side, 0, false)
            }
        },
        _ => false,
    }
}

/// Whether the changes of all elements from `i` on are such transitions.
pub open spec fn pure_elements(list: Seq<Json>, side: Seq<char>, i: nat) -> bool
    decreases list, 0nat, list.len() - i,
{
    if i >= list.len() {
        true
    } else {
        match list[i as int] {
            Json::Obj(e) => {
                let j = key_index(e, "changes"@);
                0 <= j < e.len() && pure_transition(e[j].1, side) && pure_elements(
                    list,
                    side,
                    i + 1,
                )
            },
            _ => false,
        }
    }
}

/// Whether all fields from `i` on are such transitions, and there is one.
pub open spec fn pure_fields(o: Entries, side: Seq<char>, i: nat, seen: bool) -> bool
    decreases o, 0nat, o.len() - i,
{
    if i >= o.len() {
        seen
    } else if hidden(o[i as int].0) {
        pure_fields(o, side, i + 1, seen)
    } else {
        pure_transition(o[i as int].1, side) && pure_fields(o, side, i + 1, true)
    }
}

/// Whether every replaced value under `v` is null on the side `side`.
#[verifier::loop_isolation(false)]
pub fn is_pure_transition(v: &Value, side: &str) -> (b: bool)
    ensures
        b == pure_transition(v@, side@),
    decreases v, 1nat, 0nat,
{
    let o: &Object = match v {
        Value::Object(o) => o,
        _ => {
            return false;
        },
    };
    if is_from_to_leaf(o) {
        return match o.get(side) {
            Some(x) => x.is_null(),
            None => false,
        };
    }
    let i: usize = o.find("_array_diff");
    if i < o.entries.len() {
        assert(o@[i as int].1 == o.entries@[i as int].1@);
        match &o.entries[i].1 {
            Value::Object(ad) => {
                if ad.contains_key("added") || ad.contains_key("removed") {
                    return false;
                }
                let c: usize = ad.find("changed");
                if c >= ad.entries.len() {
                    return false;
                }
                assert(ad@[c as int].1 == ad.entries@[c as int].1@);
                return match &ad.entries[c].1 {
                    Value::Array(list) => elements_pure(list, side),
                    _ => false,
                };
            },
            _ => {},
        }
    }
    let mut seen = false;
    let mut j: usize = 0;
    while j < o.entries.len()
        invariant
            j <= o.entries.len(),
            pure_fields(o@, side@, 0, false) == pure_fields(o@, side@, j as nat, seen),
        decreases o.entries.len() - j,
    {
        assert(o@[j as int] == (o.entries@[j as int].0@, o.entries@[j as int].1@));
        if !is_hidden(&o.entries[j].0) {
            if !is_pure_transition(&o.entries[j].1, side) {
                return false;
            }
            seen = true;
        }
        j += 1;
    }
    seen
}

/// Whether the changes of all elements are such transitions.
#[verifier::loop_isolation(false)]
fn elements_pure(list: &Vec<Value>, side: &str) -> (b: bool)
    ensures
        b == pure_elements(views(list@), side@, 0),
    decreases list, 0nat, 0nat,
{
    let mut i: usize = 0;
    while i < list.len()
        invariant
            i <= list.len(),
            pure_elements(views(list@), side@, 0) == pure_elements(
                views(list@),
                side@,
                i as nat,
            ),
        decreases list.len() - i,
    {
        assert(views(list@)[i as int] == list@[i as int]@);
        match &list[i] {
            Value::Object(e) => {
                let j: usize = e.find("changes");
                if j >= e.entries.len() {
                    return false;
                }
                assert(e@[j as int].1 == e.entries@[j as int].1@);
                if !is_pure_transition(&e.entries[j].1, side) {
                    return false;
                }
            },
            _ => {
                return false;
            },
        }
        i += 1;
    }
    true
}

/// Whether every replaced value under `v` was null before.
pub fn is_pure_appearance(v: &Value) -> (b: bool)
    ensures
        b == pure_transition(v@, "from"@),
{
    is_pure_transition(v, "from")
}

/// Whether every replaced value under `v` is null after.
pub fn is_pure_disappearance(v: &Value) -> (b: bool)
    ensures
        b == pure_transition(v@, "to"@),
{
    is_pure_transition(v, "to")
}

/// The name of a member; padding has none.
pub open spec fn name_of(m: MemberDef) -> Option<Seq<char>> {
    match m {
        MemberDef::Struct { name, .. } => Some(name@),
        MemberDef::RStruct { name, .. } => Some(name@),
        MemberDef::RArray { name, .. } => Some(name@),
        MemberDef::Array { name, .. } => Some(name@),
        MemberDef::Union { name, .. } => Some(name@),
        MemberDef::Integer { name, .. } => Some(name@),
        MemberDef::Float { name, .. } => Some(name@),
        MemberDef::String { name, .. } => Some(name@),
        MemberDef::LString { name, .. } => Some(name@),
        MemberDef::FormId { name, .. } => Some(name@),
        MemberDef::Bytes { name, .. } => Some(name@),
        MemberDef::ByteRgba { name, .. } => Some(name@),
        MemberDef::Vec3 { name, .. } => Some(name@),
        MemberDef::Empty { name, .. } => Some(name@),
        MemberDef::Unknown { name, .. } => Some(name@),
        MemberDef::RawFallback { name, .. } => Some(name@),
        MemberDef::Vmad { name, .. } => Some(name@),
        MemberDef::Ctda { name, .. } => Some(name@),
        MemberDef::ModelInfo { name, .. } => Some(name@),
        MemberDef::Unused { .. } => None,
    }
}

/// The name of a member; padding has none.
pub fn member_name(m: &MemberDef) -> (r: Option<&str>)
    ensures
        match r {
            Some(s) => name_of(*m) == Some(s@),
            None => name_of(*m) is None,
        },
{
    let name: &String = match m {
        MemberDef::Struct { name, .. } => name,
        MemberDef::RStruct { name, .. } => name,
        MemberDef::RArray { name, .. } => name,
        MemberDef::Array { name, .. } => name,
        MemberDef::Union { name, .. } => name,
        MemberDef::Integer { name, .. } => name,
        MemberDef::Float { name, .. } => name,
        MemberDef::String { name, .. } => name,
        MemberDef::LString { name, .. } => name,
        MemberDef::FormId { name, .. } => name,
        MemberDef::Bytes { name, .. } => name,
        MemberDef::ByteRgba { name, .. } => name,
        MemberDef::Vec3 { name, .. } => name,
        MemberDef::Empty { name, .. } => name,
        MemberDef::Unknown { name, .. } => name,
        MemberDef::RawFallback { name, .. } => name,
        MemberDef::Vmad { name, .. } => name,
        MemberDef::Ctda { name, .. } => name,
        MemberDef::ModelInfo { name, .. } => name,
        MemberDef::Unused { .. } => {
            return None;
        },
    };
    Some(name.as_str())
}

/// Whether a member, or one within it, exists at form version `a` as `at_a`
/// says and at form version `b` as `at_b` says.
pub open spec fn crosses(m: MemberDef, a: u16, b: u16, at_a: bool, at_b: bool) -> bool
    decreases m, 1nat, 0nat,
{
    (version_ok(a, m) == at_a && version_ok(b, m) == at_b) || match m {
        MemberDef::Struct { fields, .. } => any_crosses(fields, 0, a, b, at_a, at_b),
        MemberDef::RStruct { members, .. } => any_crosses(members, 0, a, b, at_a, at_b),
        MemberDef::RArray { element, .. } => crosses(*element, a, b, at_a, at_b),
        MemberDef::Array { element, .. } => crosses(*element, a, b, at_a, at_b),
        MemberDef::Union { variants, .. } => any_crosses(variants, 0, a, b, at_a, at_b),
        _ => false,
    }
}

/// Whether one of the members from `i` on crosses.
pub open spec fn any_crosses(
    list: Vec<MemberDef>,
    i: nat,
    a: u16,
    b: u16,
    at_a: bool,
    at_b: bool,
) -> bool
    decreases list, 0nat, list.len() - i,
{
    if i >= list.len() {
        false
    } else {
        crosses(list@[i as int], a, b, at_a, at_b) || any_crosses(list, i + 1, a, b, at_a, at_b)
    }
}

/// Whether a member, or one within it, crosses.
pub fn member_subtree_crosses_gate(
    m: &MemberDef,
    fv_a: u16,
    fv_b: u16,
    active_a: bool,
    active_b: bool,
) -> (r: bool)
    ensures
        r == crosses(*m, fv_a, fv_b, active_a, active_b),
    decreases m, 1nat, 0nat,
{
    if member_version_ok(fv_a, m) == active_a && member_version_ok(fv_b, m) == active_b {
        return true;
    }
    match m {
        MemberDef::Struct { fields, .. } => any_crosses_gate(
            fields,
            fv_a,
            fv_b,
            active_a,
            active_b,
        ),
        MemberDef::RStruct { members, .. } => any_crosses_gate(
            members,
            fv_a,
            fv_b,
            active_a,
            active_b,
        ),
        MemberDef::RArray { element, .. } => member_subtree_crosses_gate(
            element,
            fv_a,
            fv_b,
            active_a,
            active_b,
        ),
        MemberDef::Array { element, .. } => member_subtree_crosses_gate(
            element,
            fv_a,
            fv_b,
            active_a,
            active_b,
        ),
        MemberDef::Union { variants, .. } => any_crosses_gate(
            variants,
            fv_a,
            fv_b,
            active_a,
            active_b,
        ),
        _ => false,
    }
}

/// Whether one of the members crosses.
#[verifier::loop_isolation(false)]
fn any_crosses_gate(
    list: &Vec<MemberDef>,
    fv_a: u16,
    fv_b: u16,
    active_a: bool,
    active_b: bool,
) -> (r: bool)
    ensures
        r == any_crosses(*list, 0, fv_a, fv_b, active_a, active_b),
    decreases list, 0nat, list.len() + 1,
{
    let mut i: usize = 0;
    while i < list.len()
        invariant
            i <= list.len(),
            any_crosses(*list, 0, fv_a, fv_b, active_a, active_b) == any_crosses(
                *list,
                i as nat,
                fv_a,
                fv_b,
                active_a,
                active_b,
            ),
        decreases list.len() - i,
    {
        if member_subtree_crosses_gate(&list[i], fv_a, fv_b, active_a, active_b) {
            return true;
        }
        i += 1;
    }
    false
}

/// Whether one of the members from `i` on has the name `key` and crosses.
pub open spec fn named_crosses(
    members: Seq<MemberDef>,
    key: Seq<char>,
    i: nat,
    a: u16,
    b: u16,
    at_a: bool,
    at_b: bool,
) -> bool
    decreases members.len() - i,
{
    if i >= members.len() {
        false
    } else {
        (name_of(members[i as int]) == Some(key) && crosses(members[i as int], a, b, at_a, at_b))
            || named_crosses(members, key, i + 1, a, b, at_a, at_b)
    }
}

/// Whether the schema explains the change of a field: it appears where the
/// schema switches it on, or disappears where the schema switches it off.
pub open spec fn explained(
    members: Seq<MemberDef>,
    key: Seq<char>,
    v: Json,
    a: u16,
    b: u16,
) -> bool {
    if pure_transition(v, "from"@) {
        named_crosses(members, key, 0, a, b, false, true)
    } else if pure_transition(v, "to"@) {
        named_crosses(members, key, 0, a, b, true, false)
    } else {
        false
    }
}

/// The first `n` fields without those that the schema explains.
pub open spec fn unexplained(
    o: Entries,
    members: Seq<MemberDef>,
    a: u16,
    b: u16,
    n: nat,
) -> Entries
    decreases n,
{
    if n == 0 || n > o.len() {
        nothing()
    } else {
        let kept = unexplained(o, members, a, b, (n - 1) as nat);
        let (k, v) = o[n - 1];
        if explained(members, k, v, a, b) {
            kept
        } else {
            kept.push((k, v))
        }
    }
}

/// The field changes without those that the schema explains.
pub open spec fn without_gated(v: Json, schema: Schema, sig: Seq<char>, a: u16, b: u16) -> Json {
    match (v, lookup(schema.records@, sig)) {
        (Json::Obj(o), Some(def)) => Json::Obj(unexplained(o, def.members@, a, b, o.len())),
        _ => v,
    }
}

/// Whether a member has the name `key` and crosses.
fn any_named_crosses(
    members: &Vec<MemberDef>,
    key: &str,
    fv_a: u16,
    fv_b: u16,
    active_a: bool,
    active_b: bool,
) -> (r: bool)
    ensures
        r == named_crosses(members@, key@, 0, fv_a, fv_b, active_a, active_b),
{
    let mut i: usize = 0;
    while i < members.len()
        invariant
            i <= members.len(),
            named_crosses(members@, key@, 0, fv_a, fv_b, active_a, active_b) == named_crosses(
                members@,
                key@,
                i as nat,
                fv_a,
                fv_b,
                active_a,
                active_b,
            ),
        decreases members.len() - i,
    {
        if let Some(name) = member_name(&members[i]) {
            if str_eq(name, key) && member_subtree_crosses_gate(
                &members[i],
                fv_a,
                fv_b,
                active_a,
                active_b,
            ) {
                return true;
            }
        }
        i += 1;
    }
    false
}

/// Takes the fields that the schema explains out of the field changes.
pub fn strip_version_gated_transitions(
    field_changes: &mut Value,
    schema: &Schema,
    sig: &str,
    fv_a: u16,
    fv_b: u16,
)
    ensures
        final(field_changes)@ == without_gated(
            old(field_changes)@,
            *schema,
            sig@,
            fv_a,
            fv_b,
        ),
{
    let members: &Vec<MemberDef> = match schema.record(sig) {
        Some(def) => &def.members,
        None => {
            return;
        },
    };
    let kept = {
        let o: &Object = match field_changes {
            Value::Object(o) => o,
            _ => {
                return;
            },
        };
        let mut kept: Vec<(String, Value)> = Vec::new();
        assert(entries_of(kept@) =~= nothing());
        let mut i: usize = 0;
        while i < o.entries.len()
            invariant
                i <= o.entries.len(),
                entries_of(kept@) == unexplained(o@, members@, fv_a, fv_b, i as nat),
            decreases o.entries.len() - i,
        {
            let k: &str = &o.entries[i].0;
            let v: &Value = &o.entries[i].1;
            assert(o@[i as int] == (k@, v@));
            let gone = if is_pure_appearance(v) {
                any_named_crosses(members, k, fv_a, fv_b, false, true)
            } else if is_pure_disappearance(v) {
                any_named_crosses(members, k, fv_a, fv_b, true, false)
            } else {
                false
            };
            if !gone {
                let e = (k.to_owned(), v.copy());
                proof {
                    lemma_entries_push(kept@, e);
                }
                kept.push(e);
            }
            i += 1;
        }
        kept
    };
    *field_changes = Value::Object(Object { entries: kept });
}

} // verus!
