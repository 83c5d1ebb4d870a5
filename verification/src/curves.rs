//! Curve tables. Coordinates are single-precision numbers, carried as bit
//! patterns; evaluating a curve takes floating point and is left to callers.
use crate::formid::FormId;
use crate::json::{obj2, views, Json, Object, Value};
use std::collections::BTreeMap;
use vstd::prelude::*;
use vstd::std_specs::btree::*;

verus! {

/// A point of a curve, each coordinate by its bit pattern.
#[derive(Debug, Clone, Copy)]
pub struct CurvePoint {
    pub x: u32,
    pub y: u32,
}

/// A curve with its EditorID and the path of its file.
#[derive(Debug)]
pub struct Curve {
    pub edid: Option<String>,
    pub path: String,
    pub points: Vec<CurvePoint>,
}

/// The curves by FormID.
#[derive(Debug)]
pub struct CurveIndex {
    pub curves: BTreeMap<u32, Curve>,
}

/// The curve with FormID `id`.
pub open spec fn curve_of(curves: Map<u32, Curve>, id: u32) -> Option<Curve> {
    if curves.contains_key(id) {
        Some(curves[id])
    } else {
        None
    }
}

impl CurveIndex {
    /// The index that holds `curves`.
    pub fn from_entries(curves: BTreeMap<u32, Curve>) -> (r: CurveIndex)
        ensures
            r.curves == curves,
    {
        CurveIndex { curves }
    }

    /// The curve with FormID `id`.
    pub fn get(&self, id: FormId) -> (r: Option<&Curve>)
        ensures
            match r {
                Some(c) => curve_of(self.curves@, id.0) == Some(*c),
                None => curve_of(self.curves@, id.0) is None,
            },
    {
        self.curves.get(&id.0)
    }
}

/// A single-precision number as JSON: infinities and NaNs are null.
pub open spec fn float_json(bits: u32) -> Json {
    if bits / 0x80_0000 % 256 == 255 {
        Json::Null
    } else {
        Json::Float(bits)
    }
}

/// A single-precision number as JSON: infinities and NaNs are null.
pub fn json_f32(bits: u32) -> (v: Value)
    ensures
        v@ == float_json(bits),
{
    if bits / 0x80_0000 % 256 == 255 {
        Value::Null
    } else {
        Value::Float(bits)
    }
}

/// A point as a JSON object.
pub open spec fn point_json(p: CurvePoint) -> Json {
    Json::Obj(obj2("x"@, float_json(p.x), "y"@, float_json(p.y)))
}

/// The points of a curve as JSON objects.
pub open spec fn points_json(points: Seq<CurvePoint>) -> Seq<Json> {
    points.map_values(|p: CurvePoint| point_json(p))
}

/// The points of a curve as a JSON array.
pub fn curve_points_value(curve: &Curve) -> (v: Value)
    ensures
        v@ == Json::Arr(points_json(curve.points@)),
{
    let mut items: Vec<Value> = Vec::new();
    let mut i: usize = 0;
    while i < curve.points.len()
        invariant
            i <= curve.points.len(),
            items@.len() == i,
            forall|j: int| 0 <= j < i ==> (#[trigger] items@[j])@ == point_json(curve.points@[j]),
        decreases curve.points.len() - i,
    {
        let p = curve.points[i];
        items.push(
            Value::Object(Object::new().with("x", json_f32(p.x)).with("y", json_f32(p.y))),
        );
        i += 1;
    }
    assert(views(items@) =~= points_json(curve.points@));
    Value::Array(items)
}

} // verus!
