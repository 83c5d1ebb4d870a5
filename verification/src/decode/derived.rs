//! What is added to decoded records, and what the file tables of models hold.
use crate::decode::model_info::model_info;
use crate::decode::rules::{
    bash_eligible, component_count, crafting_quantity, inlined_points, numeric_points, weapon_bash,
};
use crate::format::le4;
use crate::json::{field, get, obj1, obj3, put, Entries, Json};
use crate::order::law_get_after_put;
use crate::picks::{holds_picks, lemma_picked, picked};
use crate::text::{hex8, lossy, trim_nuls};
use vstd::prelude::*;

verus! {

// ── Curves ─────────────────────────────────────────────────────────────────
/// A point with two numbers.
pub open spec fn numeric_point(pts: Seq<Json>) -> spec_fn(int) -> Option<Json> {
    |i: int|
        {
            let x = field(pts[i], "x"@);
            let y = field(pts[i], "y"@);
            if x is Some && (x->Some_0 is Int || x->Some_0 is Float) && y is Some && (y->Some_0
                is Int || y->Some_0 is Float) {
                Some(pts[i])
            } else {
                None
            }
        }
}

proof fn lemma_numeric_points(pts: Seq<Json>, n: nat)
    requires
        n <= pts.len(),
    ensures
        numeric_points(pts, n as int) == picked(numeric_point(pts), n),
    decreases n,
{
    if n > 0 {
        lemma_numeric_points(pts, (n - 1) as nat);
    }
}

/// The points of a curve that stands in a value are all those of its points
/// that have two numbers, in order; a curve without points is none.
pub proof fn law_curve_has_every_numeric_point(v: Json)
    ensures
        match field(v, "curve"@) {
            Some(Json::Arr(pts)) => if pts.len() == 0 {
                inlined_points(v) is None
            } else {
                inlined_points(v) is Some && holds_picks(
                    inlined_points(v)->Some_0,
                    numeric_point(pts),
                    pts.len(),
                )
            },
            _ => inlined_points(v) is None,
        },
{
    if let Some(Json::Arr(pts)) = field(v, "curve"@) {
        lemma_numeric_points(pts, pts.len());
        let _ = lemma_picked(numeric_point(pts), pts.len());
    }
}

// ── Components ─────────────────────────────────────────────────────────────
/// A component with a count and a curve gets the quantity at that count where
/// the curve is known and has points, and else the count, and is told where
/// the quantity is from. Nothing else of it changes, and nothing at all of one
/// without a count or a curve.
pub proof fn law_component_quantity(o: Entries, k: Seq<char>)
    ensures
        ({
            let out = crafting_quantity(o);
            let table = get(o, "Curve Table"@);
            let count = component_count(o);
            let points = inlined_points(table->Some_0);
            let known = points is Some && points->Some_0.len() > 0;
            if table is None || count is None {
                out == o
            } else {
                &&& get(out, "Quantity"@) == Some(
                    if known {
                        Json::Quantity(points->Some_0, count->Some_0)
                    } else {
                        Json::Int(count->Some_0)
                    },
                )
                &&& get(out, "Quantity Source"@) == Some(
                    Json::Str(
                        if known {
                            "curve"@
                        } else if table->Some_0 is Str {
                            "count_unresolved_curve"@
                        } else {
                            "count"@
                        },
                    ),
                )
                &&& k != "Quantity"@ && k != "Quantity Source"@ ==> get(out, k) == get(o, k)
            }
        }),
{
    if get(o, "Curve Table"@) is Some && component_count(o) is Some {
        let out = crafting_quantity(o);
        let points = inlined_points(get(o, "Curve Table"@)->Some_0);
        let known = points is Some && points->Some_0.len() > 0;
        let quantity = if known {
            Json::Quantity(points->Some_0, component_count(o)->Some_0)
        } else {
            Json::Int(component_count(o)->Some_0)
        };
        let source = if known {
            "curve"@
        } else if get(o, "Curve Table"@)->Some_0 is Str {
            "count_unresolved_curve"@
        } else {
            "count"@
        };
        let one = put(o, "Quantity"@, quantity);
        reveal_strlit("Quantity");
        reveal_strlit("Quantity Source");
        assert("Quantity"@.len() == 8 && "Quantity Source"@.len() == 15);
        assert(out == put(one, "Quantity Source"@, Json::Str(source)));
        law_get_after_put(o, "Quantity"@, quantity, "Quantity"@);
        law_get_after_put(o, "Quantity"@, quantity, k);
        law_get_after_put(one, "Quantity Source"@, Json::Str(source), "Quantity"@);
        law_get_after_put(one, "Quantity Source"@, Json::Str(source), "Quantity Source"@);
        law_get_after_put(one, "Quantity Source"@, Json::Str(source), k);
    }
}

// ── Weapons ────────────────────────────────────────────────────────────────
/// What a weapon gets as its bash damage: nothing without secondary damage or
/// without a curve; the curve with the secondary damage where the curve is
/// known and has points; and else why there is none.
pub open spec fn bash_entry(out: Entries) -> Option<Json> {
    let data = match get(out, "Data"@) {
        Some(Json::Obj(d)) => d,
        _ => Seq::empty(),
    };
    let secondary = get(data, "Secondary Damage"@);
    let harms = match secondary {
        Some(Json::Int(n)) => n != 0,
        Some(Json::Float(b)) => b != 0 && b != 0x8000_0000,
        _ => false,
    };
    let curve = get(out, "Damage Curve"@);
    let points = inlined_points(curve->Some_0);
    if !(get(out, "Data"@) is Some && get(out, "Data"@)->Some_0 is Obj) || !harms || curve is None {
        None
    } else if points is Some && points->Some_0.len() > 0 {
        Some(
            Json::Bash(points->Some_0, Box::new(secondary->Some_0), bash_eligible(out, data)),
        )
    } else if points is Some {
        Some(Json::Obj(obj1("source"@, Json::Str("curve_zero_reference"@))))
    } else if curve->Some_0 is Str {
        Some(Json::Obj(obj1("source"@, Json::Str("unresolved_curve"@))))
    } else {
        None
    }
}

/// A weapon gets its bash damage, and nothing else of it changes.
pub proof fn law_weapon_bash(out: Entries, k: Seq<char>)
    ensures
        bash_entry(out) is None ==> weapon_bash(out) == out,
        bash_entry(out) is Some ==> get(weapon_bash(out), "Bash Damage"@) == bash_entry(out),
        k != "Bash Damage"@ ==> get(weapon_bash(out), k) == get(out, k),
{
    if let Some(bash) = bash_entry(out) {
        law_get_after_put(out, "Bash Damage"@, bash, "Bash Damage"@);
        law_get_after_put(out, "Bash Damage"@, bash, k);
    }
}

/// The bash damage of a weapon follows its curve where it is a gun or an
/// automatic melee weapon.
pub proof fn law_bash_follows_the_curve(out: Entries, data: Entries)
    ensures
        bash_eligible(out, data) <==> (get(data, "Weapon Type"@) matches Some(t) && field(
            t,
            "name"@,
        ) == Some(Json::Str("Gun"@))) || (get(out, "Keywords"@) matches Some(w) && field(
            w,
            "Keywords"@,
        ) matches Some(Json::Arr(list)) && exists|i: int|
            0 <= i < list.len() && ((#[trigger] list[i]) == Json::Str("0x006D5081"@) || (list[i] matches Json::Obj(
                o,
            ) && get(o, "formid"@) == Some(Json::Str("0x006D5081"@))))),
{
    if let Some(w) = get(out, "Keywords"@) {
        if let Some(Json::Arr(list)) = field(w, "Keywords"@) {
            assert forall|i: int| 0 <= i < list.len() implies (
            crate::decode::rules::is_melee_keyword(#[trigger] list[i]) <==> list[i] == Json::Str(
                "0x006D5081"@,
            ) || (list[i] matches Json::Obj(o) && get(o, "formid"@) == Some(
                Json::Str("0x006D5081"@),
            ))) by {}
        }
    }
}

// ── Models ─────────────────────────────────────────────────────────────────
/// A file of a model: the hash of its name, its extension, the hash of its
/// folder, four bytes each.
pub open spec fn model_file(data: Seq<u8>, at: int) -> Json {
    Json::Obj(
        obj3(
            "File Hash"@,
            Json::Str(hex8(le4(data, at) as u32)),
            "Extension"@,
            Json::Str(trim_nuls(lossy(data.subrange(at + 4, at + 8)))),
            "Folder Hash"@,
            Json::Str(hex8(le4(data, at + 8) as u32)),
        ),
    )
}

/// The file tables of a model with all counters: as many textures, addon nodes
/// and materials as they say, one behind the other, and no byte besides.
pub proof fn law_model_tables(data: Seq<u8>, n: int, t: int, a: int, m: int)
    requires
        4 <= n <= 8,
        data.len() >= 4 + 4 * n,
        le4(data, 0) == n,
        le4(data, 4) == t,
        le4(data, 8) == a,
        le4(data, 16) == m,
        t >= 0,
        a >= 0,
        m >= 0,
        data.len() == 4 + 4 * n + 12 * t + 4 * a + 12 * m,
    ensures
        model_info(data) is Obj,
        get(model_info(data)->Obj_0, "Textures"@) == Some(
            Json::Arr(Seq::new(t as nat, |i: int| model_file(data, 4 + 4 * n + 12 * i))),
        ),
        get(model_info(data)->Obj_0, "Addon Nodes"@) == Some(
            Json::Arr(
                Seq::new(a as nat, |i: int| Json::Int(le4(data, 4 + 4 * n + 12 * t + 4 * i))),
            ),
        ),
        get(model_info(data)->Obj_0, "Materials"@) == Some(
            Json::Arr(
                Seq::new(
                    m as nat,
                    |i: int| model_file(data, 4 + 4 * n + 12 * t + 4 * a + 12 * i),
                ),
            ),
        ),
{
    let base = 4 + 4 * n;
    let c = Json::Obj(crate::decode::model_info::counters(data, n));
    let tv = Json::Arr(crate::decode::model_info::file_entries(data, base, t));
    let av = Json::Arr(crate::decode::model_info::numbers(data, base + 12 * t, a));
    let mv = Json::Arr(crate::decode::model_info::file_entries(data, base + 12 * t + 4 * a, m));
    assert(tv->Arr_0 =~= Seq::new(t as nat, |i: int| model_file(data, 4 + 4 * n + 12 * i)));
    assert(av->Arr_0 =~= Seq::new(
        a as nat,
        |i: int| Json::Int(le4(data, 4 + 4 * n + 12 * t + 4 * i)),
    ));
    assert(mv->Arr_0 =~= Seq::new(
        m as nat,
        |i: int| model_file(data, 4 + 4 * n + 12 * t + 4 * a + 12 * i),
    ));
    reveal_strlit("Counters");
    reveal_strlit("Textures");
    reveal_strlit("Addon Nodes");
    reveal_strlit("Materials");
    assert("Textures"@.len() == 8 && "Addon Nodes"@.len() == 11 && "Materials"@.len() == 9);
    let o1 = put(Seq::empty(), "Counters"@, c);
    let o2 = put(o1, "Textures"@, tv);
    let o3 = put(o2, "Addon Nodes"@, av);
    law_get_after_put(o1, "Textures"@, tv, "Textures"@);
    law_get_after_put(o2, "Addon Nodes"@, av, "Textures"@);
    law_get_after_put(o3, "Materials"@, mv, "Textures"@);
    law_get_after_put(o2, "Addon Nodes"@, av, "Addon Nodes"@);
    law_get_after_put(o3, "Materials"@, mv, "Addon Nodes"@);
    law_get_after_put(o3, "Materials"@, mv, "Materials"@);
}

} // verus!
