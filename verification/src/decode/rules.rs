//! Values that follow from decoded fields: crafting quantities and the bash
//! damage of weapons. Where one takes the evaluation of a curve, the query
//! stands in its place.
use crate::curves::{float_json, json_f32};
use crate::decode::scalars::{field_int_value, field_uint};
use crate::json::{
    as_text, field, get, obj1, obj2, opt_view, put, text, views, zero_bits, Entries, Json, Object,
    Value,
};
use crate::text::str_eq;
use vstd::prelude::*;

verus! {

/// Whether `v` is a number.
pub open spec fn is_number(v: Option<Json>) -> bool {
    match v {
        Some(Json::Int(_)) => true,
        Some(Json::Float(_)) => true,
        _ => false,
    }
}

/// Whether `v` is a number.
fn number_value(v: Option<&Value>) -> (b: bool)
    ensures
        b == is_number(opt_view(v)),
{
    match v {
        Some(v) => match v {
            Value::Int(_) => true,
            Value::Float(_) => true,
            _ => false,
        },
        None => false,
    }
}

/// The points with two numbers among the first `n` of `pts`.
pub open spec fn numeric_points(pts: Seq<Json>, n: int) -> Seq<Json>
    decreases n,
{
    if n <= 0 {
        Seq::empty()
    } else if is_number(field(pts[n - 1], "x"@)) && is_number(field(pts[n - 1], "y"@)) {
        numeric_points(pts, n - 1).push(pts[n - 1])
    } else {
        numeric_points(pts, n - 1)
    }
}

/// The points with two numbers.
fn collect_points(pts: &Vec<Value>) -> (r: Vec<Value>)
    ensures
        views(r@) == numeric_points(views(pts@), pts.len() as int),
{
    let mut r: Vec<Value> = Vec::new();
    let mut i: usize = 0;
    while i < pts.len()
        invariant
            i <= pts.len(),
            views(r@) =~= numeric_points(views(pts@), i as int),
        decreases pts.len() - i,
    {
        assert(views(pts@)[i as int] == pts@[i as int]@);
        if number_value(pts[i].get("x")) && number_value(pts[i].get("y")) {
            r.push(pts[i].copy());
        }
        i += 1;
    }
    r
}

/// The points of the curve that stands in `v`, where there are any.
pub open spec fn inlined_points(v: Json) -> Option<Seq<Json>> {
    match field(v, "curve"@) {
        Some(Json::Arr(pts)) => if pts.len() > 0 {
            Some(numeric_points(pts, pts.len() as int))
        } else {
            None
        },
        _ => None,
    }
}

/// The points of the curve that stands in `v`, where there are any.
fn get_points(v: &Value) -> (r: Option<Vec<Value>>)
    ensures
        match r {
            Some(p) => inlined_points(v@) == Some(views(p@)),
            None => inlined_points(v@) is None,
        },
{
    match v.get("curve") {
        Some(c) => match c {
            Value::Array(pts) => {
                assert(c@ == Json::Arr(views(pts@)));
                assert(views(pts@).len() == pts.len());
                if pts.len() > 0 {
                    Some(collect_points(pts))
                } else {
                    None
                }
            },
            _ => None,
        },
        None => None,
    }
}

/// The count of a component.
pub open spec fn component_count(o: Entries) -> Option<int> {
    if field_uint(o, "Count"@) is Some {
        field_uint(o, "Count"@)
    } else {
        field_uint(o, "Scrap Component Count"@)
    }
}

/// A component struct with its effective quantity: the value of the curve at
/// the count where the curve is known, else the count itself. A struct
/// without a count or a curve reference stays as it is.
pub open spec fn crafting_quantity(o: Entries) -> Entries {
    match (get(o, "Curve Table"@), component_count(o)) {
        (Some(table), Some(count)) => {
            let points = inlined_points(table);
            let (quantity, source) = if points is Some && points->0.len() > 0 {
                (Json::Quantity(points->0, count), "curve"@)
            } else if table is Str {
                (Json::Int(count), "count_unresolved_curve"@)
            } else {
                (Json::Int(count), "count"@)
            };
            put(put(o, "Quantity"@, quantity), "Quantity Source"@, Json::Str(source))
        },
        _ => o,
    }
}

/// Adds the effective quantity to a component struct.
pub fn apply_crafting_quantity(out: &mut Object)
    ensures
        final(out)@ == crafting_quantity(old(out)@),
{
    let mut count = field_int_value(out, "Count");
    if count.is_none() {
        count = field_int_value(out, "Scrap Component Count");
    }
    let count: u64 = match count {
        Some(n) => n,
        None => {
            return;
        },
    };
    let (quantity, source) = match out.get("Curve Table") {
        None => {
            return;
        },
        Some(table) => {
            let points = match get_points(table) {
                Some(p) => p,
                None => Vec::new(),
            };
            if points.len() > 0 {
                (Value::Quantity { points, count }, "curve")
            } else {
                match table {
                    Value::String(_) => (Value::Int(count as i128), "count_unresolved_curve"),
                    _ => (Value::Int(count as i128), "count"),
                }
            }
        },
    };
    out.insert("Quantity".to_owned(), quantity);
    out.insert("Quantity Source".to_owned(), text(source));
}

/// Whether `kw` is the keyword of automatic melee weapons.
pub open spec fn is_melee_keyword(kw: Json) -> bool {
    match kw {
        Json::Str(s) => s == "0x006D5081"@,
        Json::Obj(o) => match get(o, "formid"@) {
            Some(f) => as_text(f) == Some("0x006D5081"@),
            None => false,
        },
        _ => false,
    }
}

/// Whether the keyword of automatic melee weapons is among the keywords.
pub open spec fn melee_keyword_present(out: Entries) -> bool {
    match get(out, "Keywords"@) {
        Some(k) => match field(k, "Keywords"@) {
            Some(Json::Arr(list)) => exists|i: int|
                0 <= i < list.len() && is_melee_keyword(#[trigger] list[i]),
            _ => false,
        },
        None => false,
    }
}

/// Whether the keyword of automatic melee weapons is among the keywords.
pub fn automatic_melee_keyword_present(out: &Object) -> (b: bool)
    ensures
        b == melee_keyword_present(out@),
{
    let list: &Vec<Value> = match out.get("Keywords") {
        Some(k) => match k.get("Keywords") {
            Some(l) => match l {
                Value::Array(list) => list,
                _ => {
                    return false;
                },
            },
            None => {
                return false;
            },
        },
        None => {
            return false;
        },
    };
    let mut i: usize = 0;
    while i < list.len()
        invariant
            i <= list.len(),
            forall|j: int| 0 <= j < i ==> !is_melee_keyword(#[trigger] views(list@)[j]),
            melee_keyword_present(out@) == (exists|j: int|
                0 <= j < views(list@).len() && is_melee_keyword(#[trigger] views(list@)[j])),
        decreases list.len() - i,
    {
        let hit = match &list[i] {
            Value::String(s) => str_eq(s, "0x006D5081"),
            Value::Object(o) => match o.get("formid") {
                Some(f) => match f.as_str() {
                    Some(s) => str_eq(s, "0x006D5081"),
                    None => false,
                },
                None => false,
            },
            _ => false,
        };
        assert(views(list@)[i as int] == list@[i as int]@);
        if hit {
            return true;
        }
        i += 1;
    }
    false
}

/// Whether a weapon's bash damage follows its damage curve: guns, and
/// automatic melee weapons.
pub open spec fn bash_eligible(out: Entries, data: Entries) -> bool {
    let gun = match get(data, "Weapon Type"@) {
        Some(t) => match field(t, "name"@) {
            Some(n) => as_text(n) == Some("Gun"@),
            None => false,
        },
        None => false,
    };
    gun || melee_keyword_present(out)
}

/// Whether a weapon's bash damage follows its damage curve.
pub fn weapon_bash_eligible(out: &Object, data: &Object) -> (b: bool)
    ensures
        b == bash_eligible(out@, data@),
{
    if let Some(t) = data.get("Weapon Type") {
        if let Some(n) = t.get("name") {
            if let Some(s) = n.as_str() {
                if str_eq(s, "Gun") {
                    return true;
                }
            }
        }
    }
    automatic_melee_keyword_present(out)
}

/// Whether `v` is a number other than zero.
pub open spec fn nonzero(v: Json) -> bool {
    match v {
        Json::Int(n) => n != 0,
        Json::Float(b) => !zero_bits(b),
        _ => false,
    }
}

/// What says only where a damage came from.
pub open spec fn source_json(source: Seq<char>) -> Json {
    Json::Obj(obj1("source"@, Json::Str(source)))
}

/// What says only where a damage came from.
fn source_value(source: &str) -> (v: Value)
    ensures
        v@ == source_json(source@),
{
    Value::Object(Object::new().with("source", text(source)))
}

/// What a weapon with secondary damage gets as its bash damage.
pub open spec fn bash_of(out: Entries, data: Entries, secondary: Json) -> Option<Json> {
    match get(out, "Damage Curve"@) {
        Some(curve) => match inlined_points(curve) {
            Some(points) => if points.len() == 0 {
                Some(source_json("curve_zero_reference"@))
            } else {
                Some(Json::Bash(points, Box::new(secondary), bash_eligible(out, data)))
            },
            None => if curve is Str {
                Some(source_json("unresolved_curve"@))
            } else {
                None
            },
        },
        None => None,
    }
}

/// A weapon with its bash damage, where it has secondary damage and a damage
/// curve.
pub open spec fn weapon_bash(out: Entries) -> Entries {
    match get(out, "Data"@) {
        Some(Json::Obj(data)) => match get(data, "Secondary Damage"@) {
            Some(secondary) => if nonzero(secondary) {
                match bash_of(out, data, secondary) {
                    Some(bash) => put(out, "Bash Damage"@, bash),
                    None => out,
                }
            } else {
                out
            },
            None => out,
        },
        _ => out,
    }
}

/// Adds the bash damage to a weapon.
pub fn apply_weapon_bash_curve(out: &mut Object)
    ensures
        final(out)@ == weapon_bash(old(out)@),
{
    let bash = {
        let data: &Object = match out.get("Data") {
            Some(d) => match d {
                Value::Object(data) => data,
                _ => {
                    return;
                },
            },
            None => {
                return;
            },
        };
        let secondary: &Value = match data.get("Secondary Damage") {
            Some(s) => s,
            None => {
                return;
            },
        };
        let zero = match secondary {
            Value::Int(n) => *n == 0,
            Value::Float(b) => *b == 0 || *b == 0x8000_0000,
            _ => true,
        };
        if zero {
            return;
        }
        match out.get("Damage Curve") {
            None => {
                return;
            },
            Some(curve) => match get_points(curve) {
                Some(points) => if points.len() == 0 {
                    source_value("curve_zero_reference")
                } else {
                    Value::Bash {
                        points,
                        secondary: Box::new(secondary.copy()),
                        eligible: weapon_bash_eligible(out, data),
                    }
                },
                None => match curve {
                    Value::String(_) => source_value("unresolved_curve"),
                    _ => {
                        return;
                    },
                },
            },
        }
    };
    out.insert("Bash Damage".to_owned(), bash);
}

/// A row of a bash damage table.
pub open spec fn bash_row(row: (u32, u32)) -> Json {
    Json::Obj(obj2("level"@, float_json(row.0), "damage"@, float_json(row.1)))
}

/// The bash damage of a weapon: whether the curve is positive at level one,
/// whether the weapon is eligible, and the damage at each level.
pub open spec fn bash_table(positive: bool, eligible: bool, rows: Seq<(u32, u32)>) -> Json {
    if !positive {
        source_json("curve_zero_reference"@)
    } else if !eligible {
        source_json("ineligible"@)
    } else {
        Json::Obj(
            obj2(
                "source"@,
                Json::Str("curve"@),
                "curve"@,
                Json::Arr(rows.map_values(|r: (u32, u32)| bash_row(r))),
            ),
        )
    }
}

/// The bash damage of a weapon, from the evaluation of its curve.
pub fn bash_damage(positive: bool, eligible: bool, rows: &Vec<(u32, u32)>) -> (v: Value)
    ensures
        v@ == bash_table(positive, eligible, rows@),
{
    if !positive {
        return source_value("curve_zero_reference");
    }
    if !eligible {
        return source_value("ineligible");
    }
    let mut items: Vec<Value> = Vec::new();
    let mut i: usize = 0;
    while i < rows.len()
        invariant
            i <= rows.len(),
            items@.len() == i,
            forall|j: int| 0 <= j < i ==> (#[trigger] items@[j])@ == bash_row(rows@[j]),
        decreases rows.len() - i,
    {
        let row = rows[i];
        items.push(
            Value::Object(
                Object::new().with("level", json_f32(row.0)).with("damage", json_f32(row.1)),
            ),
        );
        i += 1;
    }
    assert(views(items@) =~= rows@.map_values(|r: (u32, u32)| bash_row(r)));
    Value::Object(
        Object::new().with("source", text("curve")).with("curve", Value::Array(items)),
    )
}

} // verus!
