//! The decoder on bytes.
use esm::curves::{Curve, CurveIndex, CurvePoint};
use esm::decode::context::{
    resolve_formid, DecodeContext, FormIdRefResolver, FormIdStub, NoResolver, ResolveDepth,
    Stub,
};
use esm::decode::rules::{apply_weapon_bash_curve, bash_damage};
use esm::decode::scope::Pool;
use esm::decode::vmad::{
    decode_vmad, decode_vmad_info, decode_vmad_pack, decode_vmad_perk, decode_vmad_qust,
    decode_vmad_scen,
};
use esm::decode::walk::{decode_member, decode_record, decode_struct_fields};
use esm::format::Signature;
use esm::formid::FormId;
use esm::json::{Json, Object, Value};
use esm::reader::OwnedSubrecord;
use esm::schema::{
    ArrayCount, IntegerWidth, LStringTable, MemberDef, RecordDef, Schema, UnionDecider,
};
use esm::settle::{collect_queries, settle};
use std::collections::BTreeMap;

/// A JSON text as a value of the library.
fn val(text: &str) -> Value {
    from_serde(&serde_json::from_str(text).unwrap())
}

fn from_serde(v: &serde_json::Value) -> Value {
    match v {
        serde_json::Value::Null => Value::Null,
        serde_json::Value::Bool(b) => Value::Bool(*b),
        serde_json::Value::Number(n) => {
            if let Some(i) = n.as_i64() {
                Value::Int(i as i128)
            } else if let Some(u) = n.as_u64() {
                Value::Int(u as i128)
            } else {
                Value::Float((n.as_f64().unwrap() as f32).to_bits())
            }
        }
        serde_json::Value::String(s) => Value::String(s.clone()),
        serde_json::Value::Array(a) => Value::Array(a.iter().map(from_serde).collect()),
        serde_json::Value::Object(o) => {
            let mut out = Object::new();
            for (k, w) in o {
                out.insert(k.clone(), from_serde(w));
            }
            Value::Object(out)
        }
    }
}

/// A value of the library as JSON.
fn js(v: &Value) -> serde_json::Value {
    match v {
        Value::Null => serde_json::Value::Null,
        Value::Bool(b) => serde_json::Value::Bool(*b),
        Value::Int(n) => {
            if *n >= 0 {
                serde_json::Value::from(*n as u64)
            } else {
                serde_json::Value::from(*n as i64)
            }
        }
        Value::Float(b) => {
            serde_json::Value::from(f32::from_bits(*b).to_string().parse::<f64>().unwrap())
        }
        Value::String(s) => serde_json::Value::from(s.clone()),
        Value::Array(a) => serde_json::Value::Array(a.iter().map(js).collect()),
        Value::Object(o) => js_object(o),
        other => panic!("a query without an answer: {:?}", other),
    }
}

fn js_object(o: &Object) -> serde_json::Value {
    let mut out = serde_json::Map::new();
    for (k, v) in &o.entries {
        out.insert(k.clone(), js(v));
    }
    serde_json::Value::Object(out)
}

fn bare_ctx<R>(schema: &Schema) -> DecodeContext<'_, R> {
    DecodeContext::for_record(schema, 208, false, None, None, ResolveDepth::Plain, None)
}

fn plain_ctx(schema: &Schema) -> DecodeContext<'_, NoResolver> {
    bare_ctx(schema)
}

fn empty_schema() -> Schema {
    Schema { records: vec![] }
}

fn int_field(name: &str, width: IntegerWidth) -> MemberDef {
    int_member(None, name, width)
}

fn sig_int_field(sig: &str, name: &str, width: IntegerWidth) -> MemberDef {
    int_member(Some(sig.to_string()), name, width)
}

fn int_member(sig: Option<String>, name: &str, width: IntegerWidth) -> MemberDef {
    MemberDef::Integer {
        sig,
        name: name.to_string(),
        width,
        signed: false,
        format: None,
        from_version: None,
        below_version: None,
        from_size: None,
        stop_before: vec![],
    }
}

fn prefix_array(name: &str, width: usize, elem: MemberDef) -> MemberDef {
    MemberDef::Array {
        sig: None,
        name: name.to_string(),
        element: Box::new(elem),
        count: Some(ArrayCount::CountPrefix(width)),
    }
}

fn subrecord(sig: &str, data: Vec<u8>, doc_index: usize) -> OwnedSubrecord {
    OwnedSubrecord { signature: Signature::from_slice(sig.as_bytes()), data, doc_index }
}

fn vmad_wstring(s: &str) -> Vec<u8> {
    let mut out = (s.len() as u16).to_le_bytes().to_vec();
    out.extend_from_slice(s.as_bytes());
    out
}

fn vmad_header(obj_format: u16, script_count: u16) -> Vec<u8> {
    let mut out = Vec::new();
    out.extend_from_slice(&2u16.to_le_bytes());
    out.extend_from_slice(&obj_format.to_le_bytes());
    out.extend_from_slice(&script_count.to_le_bytes());
    out
}

struct MapResolver {
    stubs: BTreeMap<u32, FormIdStub>,
}

impl FormIdRefResolver for MapResolver {
    fn stub_of(&self, _id: u32) -> Option<Stub> {
        unreachable!("only proofs speak of it")
    }

    fn full_of(&self, _id: u32) -> Option<Json> {
        unreachable!("only proofs speak of it")
    }

    fn stub(&self, id: FormId) -> Option<FormIdStub> {
        self.stubs.get(&id.raw()).cloned()
    }

    fn decode_full(&self, _id: FormId) -> Option<Value> {
        None
    }
}

#[test]
fn resolve_formid_curv_branch_includes_editor_id() {
    let curve = Curve {
        edid: Some("CT_Legendary_Weapon_Adrenal".to_string()),
        path: r"LegendaryMods\Weapon_DamagePerKill.json".to_string(),
        points: vec![CurvePoint { x: 0.0f32.to_bits(), y: 0.0f32.to_bits() }],
    };
    let curves = CurveIndex::from_entries(BTreeMap::from([(0x1, curve)]));
    let schema = empty_schema();
    let mut ctx = plain_ctx(&schema);
    ctx.curves = Some(&curves);

    let result = js(&resolve_formid(&ctx, &vec!["CURV".to_string()], FormId::new(0x1)));
    assert_eq!(result["editor_id"], "CT_Legendary_Weapon_Adrenal");
    assert_eq!(result["formid"], FormId::new(0x1).display());
    assert_eq!(result["curve"][0]["x"], 0.0);

    let curve_no_edid = Curve { edid: None, path: "Foo.json".to_string(), points: vec![] };
    let curves_no_edid = CurveIndex::from_entries(BTreeMap::from([(0x2, curve_no_edid)]));
    let mut ctx2 = plain_ctx(&schema);
    ctx2.curves = Some(&curves_no_edid);
    let result2 = js(&resolve_formid(&ctx2, &vec!["CURV".to_string()], FormId::new(0x2)));
    assert_eq!(result2["editor_id"], serde_json::Value::Null);
}

#[test]
fn vmad_object_format2_reads_eight_bytes() {
    let schema = empty_schema();
    let ctx = plain_ctx(&schema);
    let mut data = vmad_header(2, 1);
    data.extend(vmad_wstring("TestScript"));
    data.push(0);
    data.extend_from_slice(&2u16.to_le_bytes());
    data.extend(vmad_wstring("MyRef"));
    data.push(1);
    data.push(0);
    data.extend_from_slice(&0u16.to_le_bytes());
    data.extend_from_slice(&3i16.to_le_bytes());
    data.extend_from_slice(&0x00000042u32.to_le_bytes());
    data.extend(vmad_wstring("Count"));
    data.push(3);
    data.push(0);
    data.extend_from_slice(&7i32.to_le_bytes());

    let decoded = js(&decode_vmad(&ctx, &data));
    assert!(decoded.get("_raw").is_none(), "must not truncate: {decoded}");
    let props = decoded
        .pointer("/scripts/0/properties")
        .and_then(|v| v.as_array())
        .expect("properties");
    assert_eq!(props[0].pointer("/value").and_then(|v| v.as_str()), Some("0x00000042"));
    assert_eq!(props[1].pointer("/value").and_then(|v| v.as_i64()), Some(7));
}

/// A script attachment with one property of type `ty` whose value is `value`.
fn vmad_with_value(ty: u8, value: &[u8]) -> Vec<u8> {
    let mut data = vmad_header(2, 1);
    data.extend(vmad_wstring("S"));
    data.push(0);
    data.extend_from_slice(&1u16.to_le_bytes());
    data.extend(vmad_wstring("P"));
    data.push(ty);
    data.push(0);
    data.extend_from_slice(value);
    data
}

#[test]
fn vmad_with_a_truncated_value_is_shown_raw() {
    let schema = empty_schema();
    let ctx = plain_ctx(&schema);
    let data = [2, 0, 2, 0, 1, 0, 1, 0, 0x53, 0, 1, 0, 1, 0, 0x50, 3, 0];
    assert_eq!(vmad_with_value(3, &[]), data);
    let decoded = js(&decode_vmad(&ctx, &data));
    assert_eq!(decoded["_raw"], true);
    assert_eq!(decoded["reason"], "VMAD truncated");
    assert_eq!(decoded["hex"], "");
    let decoded = js(&decode_vmad(&ctx, &vmad_with_value(3, &[1, 2, 3])));
    assert_eq!(decoded["hex"], "010203", "what is left where the bytes ran out");

    let cut: [(u8, &[u8]); 14] = [
        (1, &[0; 7]),
        (2, &[2, 0, b'a']),
        (3, &[1, 2, 3]),
        (4, &[0; 3]),
        (5, &[]),
        (6, &[]),
        (6, &[3, 1]),
        (7, &[1, 0, 0]),
        (7, &[1, 0, 0, 0]),
        (7, &[1, 0, 0, 0, 1, 0, b'M']),
        (7, &[1, 0, 0, 0, 1, 0, b'M', 3]),
        (13, &[2, 0, 0, 0, 1, 0, 0, 0]),
        (16, &[1, 0, 0, 0]),
        (16, &[2, 0, 0, 0, 5, 1]),
    ];
    for (ty, value) in cut {
        let decoded = js(&decode_vmad(&ctx, &vmad_with_value(ty, value)));
        assert_eq!(decoded["_raw"], true, "type {ty}, value {value:?}: {decoded}");
    }
    let quest = js(&decode_vmad_qust(&ctx, &data));
    assert_eq!(quest["_raw"], true);

    let whole = js(&decode_vmad(&ctx, &vmad_with_value(16, &[2, 0, 0, 0, 5, 1, 3, 7, 0, 0, 0])));
    let value = whole.pointer("/scripts/0/properties/0/value/items").unwrap();
    assert_eq!(value[0], true);
    assert_eq!(value[1], 7);
    let none = js(&decode_vmad(&ctx, &vmad_with_value(0, &[])));
    assert!(none.pointer("/scripts/0/properties/0/value").unwrap().is_null());
    let unknown = js(&decode_vmad(&ctx, &vmad_with_value(99, &[])));
    assert_eq!(unknown.pointer("/scripts/0/properties/0/value/type").unwrap(), 99);
}

#[test]
fn vmad_object_format1_reads_eight_bytes() {
    let schema = empty_schema();
    let ctx = plain_ctx(&schema);
    let mut data = vmad_header(1, 1);
    data.extend(vmad_wstring("TestScript"));
    data.push(0);
    data.extend_from_slice(&1u16.to_le_bytes());
    data.extend(vmad_wstring("MyRef"));
    data.push(1);
    data.push(0);
    data.extend_from_slice(&0x00000099u32.to_le_bytes());
    data.extend_from_slice(&1i16.to_le_bytes());
    data.extend_from_slice(&0u16.to_le_bytes());

    let decoded = js(&decode_vmad(&ctx, &data));
    assert!(decoded.get("_raw").is_none(), "must not truncate: {decoded}");
    let value = decoded.pointer("/scripts/0/properties/0/value").and_then(|v| v.as_str());
    assert_eq!(value, Some("0x00000099"));
}

#[test]
fn vmad_object_array_decodes_without_truncation() {
    let schema = empty_schema();
    let ctx = plain_ctx(&schema);
    let mut data = vmad_header(2, 1);
    data.extend(vmad_wstring("TestScript"));
    data.push(0);
    data.extend_from_slice(&1u16.to_le_bytes());
    data.extend(vmad_wstring("Refs"));
    data.push(11);
    data.push(0);
    data.extend_from_slice(&2u32.to_le_bytes());
    for fid in [0x11u32, 0x22u32] {
        data.extend_from_slice(&0u16.to_le_bytes());
        data.extend_from_slice(&0i16.to_le_bytes());
        data.extend_from_slice(&fid.to_le_bytes());
    }

    let decoded = js(&decode_vmad(&ctx, &data));
    assert!(decoded.get("_raw").is_none(), "must not truncate: {decoded}");
    let arr = decoded
        .pointer("/scripts/0/properties/0/value")
        .and_then(|v| v.as_array())
        .expect("object array");
    assert_eq!(arr.len(), 2);
    assert_eq!(arr[0].as_str(), Some("0x00000011"));
    assert_eq!(arr[1].as_str(), Some("0x00000022"));
}

fn adrenal_bytes() -> Vec<u8> {
    let mut data = vmad_header(2, 1);
    data.extend(vmad_wstring("AddMutationOnEffectScript"));
    data.push(0);
    data.extend_from_slice(&1u16.to_le_bytes());
    data.extend(vmad_wstring("MutationSpell"));
    data.push(1);
    data.push(1);
    data.extend_from_slice(&[0x00, 0x00, 0xff, 0xff, 0x14, 0x1f, 0x4e, 0x00]);
    data
}

#[test]
fn vmad_object_property_decodes_real_serum_adrenal_reaction_bug_bytes() {
    let schema = empty_schema();
    let ctx = plain_ctx(&schema);
    let decoded = js(&decode_vmad(&ctx, &adrenal_bytes()));
    assert!(decoded.get("_raw").is_none(), "must not truncate: {decoded}");
    let value = decoded.pointer("/scripts/0/properties/0/value").and_then(|v| v.as_str());
    assert_eq!(value, Some("0x004E1F14"), "the FormID is in the last four bytes of the union");
}

#[test]
fn vmad_object_property_resolves_to_stub_with_resolver() {
    let schema = empty_schema();
    let target_id = FormId::new(0x004E_1F14);
    let resolver = MapResolver {
        stubs: BTreeMap::from([(
            target_id.raw(),
            FormIdStub {
                formid: target_id.display(),
                editor_id: Some("Mutation_AdrenalReaction".into()),
                record_type: "SPEL".into(),
            },
        )]),
    };
    let mut ctx = bare_ctx(&schema);
    ctx.resolve_depth = ResolveDepth::Stub;
    ctx.resolver = Some(&resolver);

    let decoded = js(&decode_vmad(&ctx, &adrenal_bytes()));
    let value = decoded.pointer("/scripts/0/properties/0/value").expect("value present");
    assert_eq!(value.get("editor_id").and_then(|v| v.as_str()), Some("Mutation_AdrenalReaction"));
    assert_eq!(value.get("record_type").and_then(|v| v.as_str()), Some("SPEL"));
    assert_eq!(value.get("formid").and_then(|v| v.as_str()), Some("0x004E1F14"));
}

#[test]
fn vmad_struct_property_decodes_without_truncation() {
    let schema = empty_schema();
    let ctx = plain_ctx(&schema);
    let mut data = vmad_header(2, 1);
    data.extend(vmad_wstring("TestScript"));
    data.push(0);
    data.extend_from_slice(&1u16.to_le_bytes());
    data.extend(vmad_wstring("Config"));
    data.push(7);
    data.push(0);
    data.extend_from_slice(&2u32.to_le_bytes());
    data.extend(vmad_wstring("Count"));
    data.push(3);
    data.push(0);
    data.extend_from_slice(&42i32.to_le_bytes());
    data.extend(vmad_wstring("Label"));
    data.push(2);
    data.push(0);
    data.extend(vmad_wstring("hello"));

    let decoded = js(&decode_vmad(&ctx, &data));
    assert!(decoded.get("_raw").is_none(), "must not truncate: {decoded}");
    let members = decoded
        .pointer("/scripts/0/properties/0/value")
        .and_then(|v| v.as_array())
        .expect("struct members");
    assert_eq!(members.len(), 2);
    assert_eq!(members[0].pointer("/value").and_then(|v| v.as_i64()), Some(42));
    assert_eq!(members[1].pointer("/value").and_then(|v| v.as_str()), Some("hello"));
}

#[test]
fn vmad_struct_array_decodes_without_truncation() {
    let schema = empty_schema();
    let ctx = plain_ctx(&schema);
    let mut data = vmad_header(2, 1);
    data.extend(vmad_wstring("TestScript"));
    data.push(0);
    data.extend_from_slice(&1u16.to_le_bytes());
    data.extend(vmad_wstring("Rows"));
    data.push(17);
    data.push(0);
    data.extend_from_slice(&2u32.to_le_bytes());
    for val in [1i32, 2i32] {
        data.extend_from_slice(&1u32.to_le_bytes());
        data.extend(vmad_wstring("X"));
        data.push(3);
        data.push(0);
        data.extend_from_slice(&val.to_le_bytes());
    }

    let decoded = js(&decode_vmad(&ctx, &data));
    assert!(decoded.get("_raw").is_none(), "must not truncate: {decoded}");
    let arr = decoded
        .pointer("/scripts/0/properties/0/value")
        .and_then(|v| v.as_array())
        .expect("struct array");
    assert_eq!(arr.len(), 2);
    assert_eq!(arr[0].pointer("/0/value").and_then(|v| v.as_i64()), Some(1));
    assert_eq!(arr[1].pointer("/0/value").and_then(|v| v.as_i64()), Some(2));
}

fn vmad_plain_header() -> Vec<u8> {
    let mut d = Vec::new();
    d.extend_from_slice(&5u16.to_le_bytes());
    d.extend_from_slice(&1u16.to_le_bytes());
    d.extend_from_slice(&0u16.to_le_bytes());
    d
}

#[test]
fn decode_vmad_info_no_fragments_tail_returns_success() {
    let schema = empty_schema();
    let ctx = plain_ctx(&schema);
    let v = decode_vmad_info(&ctx, &vmad_plain_header());
    let obj = v.as_object().expect("must return an object");
    assert!(obj.get("_raw").is_none(), "must not be a raw fallback");
    assert!(obj.get("version").is_some(), "version must be present");
    assert!(
        obj.get("script_fragments").is_none(),
        "script_fragments must be absent when tail is missing"
    );
}

#[test]
fn decode_vmad_pack_no_fragments_tail_returns_success() {
    let schema = empty_schema();
    let ctx = plain_ctx(&schema);
    let v = decode_vmad_pack(&ctx, &vmad_plain_header());
    let obj = v.as_object().expect("must return an object");
    assert!(obj.get("_raw").is_none(), "must not be a raw fallback");
    assert!(obj.get("version").is_some(), "version must be present");
}

#[test]
fn decode_vmad_perk_no_fragments_tail_returns_success() {
    let schema = empty_schema();
    let ctx = plain_ctx(&schema);
    let v = decode_vmad_perk(&ctx, &vmad_plain_header());
    let obj = v.as_object().expect("must return an object");
    assert!(obj.get("_raw").is_none(), "must not be a raw fallback");
    assert!(obj.get("version").is_some(), "version must be present");
}

#[test]
fn decode_vmad_scen_no_fragments_tail_returns_success() {
    let schema = empty_schema();
    let ctx = plain_ctx(&schema);
    let v = decode_vmad_scen(&ctx, &vmad_plain_header());
    let obj = v.as_object().expect("must return an object");
    assert!(obj.get("_raw").is_none(), "must not be a raw fallback");
    assert!(obj.get("version").is_some(), "version must be present");
}

#[test]
fn decode_vmad_qust_no_fragments_tail_returns_success() {
    let schema = empty_schema();
    let ctx = plain_ctx(&schema);
    let v = decode_vmad_qust(&ctx, &vmad_plain_header());
    let obj = v.as_object().expect("must return an object");
    assert!(obj.get("_raw").is_none(), "must not be a raw fallback");
    assert!(obj.get("version").is_some(), "version must be present");
}

// ── Bash damage ─────────────────────────────────────────────────────────────
const BASH_CURVE: &str = r#"{"formid": "0xDEADBEEF", "editor_id": "CT_Test",
    "curve_path": "test.json",
    "curve": [{"x": 1.0, "y": 10.0}, {"x": 50.0, "y": 50.0}]}"#;

fn weap_bash_fixture(
    weapon_type: &str,
    secondary: f32,
    damage_curve: &str,
    keywords: Option<&str>,
) -> Object {
    let mut data = Object::new();
    data.insert(
        "Weapon Type".to_string(),
        val(&format!(r#"{{"value": 0, "name": "{weapon_type}"}}"#)),
    );
    if secondary != 0.0 {
        data.insert("Secondary Damage".to_string(), Value::Float(secondary.to_bits()));
    }
    let mut out = Object::new();
    out.insert("Data".to_string(), Value::Object(data));
    out.insert("Damage Curve".to_string(), val(damage_curve));
    if let Some(kw) = keywords {
        out.insert("Keywords".to_string(), val(&format!(r#"{{"Keywords": {kw}}}"#)));
    }
    out
}

fn float_of(v: &Value) -> f32 {
    match v {
        Value::Float(b) => f32::from_bits(*b),
        Value::Int(n) => *n as f32,
        _ => panic!("not a number"),
    }
}

/// The answer to a bash query: the curve at level one is its first point here.
fn answer_bash(query: &Value) -> Value {
    match query {
        Value::Bash { points, secondary, eligible } => {
            let xy: Vec<(f32, f32)> = points
                .iter()
                .map(|p| (float_of(p.get("x").unwrap()), float_of(p.get("y").unwrap())))
                .collect();
            let reference = xy[0].1;
            let rows = xy
                .iter()
                .map(|(x, y)| (x.to_bits(), (float_of(secondary) * y / reference).to_bits()))
                .collect();
            bash_damage(reference > 0.0, *eligible, &rows)
        }
        other => panic!("not a bash query: {:?}", other),
    }
}

/// The fields with the bash damage worked out.
fn with_bash(mut out: Object) -> serde_json::Value {
    apply_weapon_bash_curve(&mut out);
    let whole = Value::Object(out);
    let mut queries = Vec::new();
    collect_queries(&whole, &mut queries);
    let answers = queries
        .iter()
        .map(|q| (q.copy(), answer_bash(q)))
        .collect::<Vec<_>>();
    js(&settle(&whole, &answers))
}

fn bash_damage_source(out: &serde_json::Value) -> Option<&str> {
    out.get("Bash Damage").and_then(|v| v.get("source")).and_then(|v| v.as_str())
}

#[test]
fn weapon_bash_curve_gun_computes_table() {
    let out = with_bash(weap_bash_fixture("Gun", 5.0, BASH_CURVE, None));
    assert_eq!(bash_damage_source(&out), Some("curve"));
    let curve = out.pointer("/Bash Damage/curve").and_then(|v| v.as_array()).expect("curve table");
    assert_eq!(curve.len(), 2);
    assert_eq!(curve[0].get("level").and_then(|v| v.as_f64()), Some(1.0));
    assert_eq!(curve[0].get("damage").and_then(|v| v.as_f64()), Some(5.0));
    assert_eq!(curve[1].get("level").and_then(|v| v.as_f64()), Some(50.0));
    assert_eq!(curve[1].get("damage").and_then(|v| v.as_f64()), Some(25.0));
}

#[test]
fn weapon_bash_curve_automatic_melee_keyword_computes_table() {
    let out = with_bash(weap_bash_fixture(
        "HandToHandMelee",
        8.0,
        BASH_CURVE,
        Some(r#"["0x006D5081"]"#),
    ));
    assert_eq!(bash_damage_source(&out), Some("curve"));
    let damage = out.pointer("/Bash Damage/curve/1/damage").and_then(|v| v.as_f64());
    assert_eq!(damage, Some(40.0));
}

#[test]
fn weapon_bash_curve_melee_without_keyword_is_ineligible() {
    let out = with_bash(weap_bash_fixture("TwoHandAxe", 5.0, BASH_CURVE, None));
    assert_eq!(bash_damage_source(&out), Some("ineligible"));
}

#[test]
fn weapon_bash_curve_grenade_is_ineligible() {
    let out = with_bash(weap_bash_fixture("Grenade", 3.0, BASH_CURVE, None));
    assert_eq!(bash_damage_source(&out), Some("ineligible"));
}

#[test]
fn weapon_bash_curve_zero_secondary_stays_silent() {
    let mut absent = weap_bash_fixture("Gun", 0.0, BASH_CURVE, None);
    assert!(absent.get("Data").unwrap().get("Secondary Damage").is_none());
    apply_weapon_bash_curve(&mut absent);
    assert!(!absent.contains_key("Bash Damage"));

    let mut zero = weap_bash_fixture("Gun", 0.0, BASH_CURVE, None);
    let mut data = zero.get("Data").unwrap().as_object().unwrap().copy();
    data.insert("Secondary Damage".to_string(), Value::Float(0.0f32.to_bits()));
    zero.insert("Data".to_string(), Value::Object(data));
    apply_weapon_bash_curve(&mut zero);
    assert!(!zero.contains_key("Bash Damage"));
}

#[test]
fn weapon_bash_curve_zero_reference_emits_marker_not_null_damage() {
    let curve = r#"{"formid": "0x1", "curve": [{"x": 1.0, "y": 0.0}, {"x": 50.0, "y": 20.0}]}"#;
    let out = with_bash(weap_bash_fixture("Gun", 5.0, curve, None));
    assert_eq!(bash_damage_source(&out), Some("curve_zero_reference"));
    assert!(out.get("Bash Damage").and_then(|v| v.get("curve")).is_none());
}

#[test]
fn weapon_bash_curve_unresolved_curve_marker() {
    let out = with_bash(weap_bash_fixture("Gun", 5.0, r#""0x0080F217""#, None));
    assert_eq!(bash_damage_source(&out), Some("unresolved_curve"));
}

#[test]
fn weapon_bash_curve_not_truncated_at_player_cap() {
    let curve = r#"{"formid": "0x1", "curve": [{"x": 1.0, "y": 10.0},
        {"x": 50.0, "y": 50.0}, {"x": 540.0, "y": 540.0}]}"#;
    let out = with_bash(weap_bash_fixture("Gun", 2.0, curve, None));
    let curve = out.pointer("/Bash Damage/curve").and_then(|v| v.as_array()).expect("curve table");
    assert_eq!(curve.len(), 3);
    assert_eq!(curve[2].get("level").and_then(|v| v.as_f64()), Some(540.0));
    assert_eq!(curve[2].get("damage").and_then(|v| v.as_f64()), Some(108.0));
    for point in curve {
        assert!(point.get("damage").map(|v| v.is_null()) != Some(true), "damage must never be null");
    }
}

// ── Members ─────────────────────────────────────────────────────────────────
fn struct_of<R: FormIdRefResolver>(
    ctx: &DecodeContext<'_, R>,
    name: &str,
    fields: &Vec<MemberDef>,
    data: &[u8],
) -> (serde_json::Value, usize) {
    let mut out = Object::new();
    let n = decode_struct_fields(ctx, name, fields, data, &mut out);
    let inner = match out.get(name) {
        Some(v) => js(v),
        None => serde_json::Value::Object(serde_json::Map::new()),
    };
    (inner, n)
}

#[test]
fn count_prefix_u32_consumes_four_bytes() {
    let schema = empty_schema();
    let ctx = plain_ctx(&schema);
    let fields = vec![
        prefix_array("Items", 4, int_field("item", IntegerWidth::U32)),
        int_field("Sentinel", IntegerWidth::U8),
    ];
    let (inner, n) = struct_of(&ctx, "Test", &fields, &[0x00, 0x00, 0x00, 0x00, 0x2A]);
    assert!(inner.get("Items").is_none(), "empty Items array should be absent");
    assert_eq!(inner.get("Sentinel").and_then(|v| v.as_u64()), Some(42));
    assert_eq!(n, 5);
}

#[test]
fn count_prefix_u8_consumes_one_byte() {
    let schema = empty_schema();
    let ctx = plain_ctx(&schema);
    let fields = vec![
        prefix_array("Keywords", 1, int_field("kwd", IntegerWidth::U32)),
        int_field("Sentinel", IntegerWidth::U8),
    ];
    let (inner, _) = struct_of(&ctx, "Test", &fields, &[0x01, 0x07, 0x00, 0x00, 0x00, 0xFF]);
    assert_eq!(inner.get("Keywords").and_then(|v| v.as_array()).map(|a| a.len()), Some(1));
    assert_eq!(inner.get("Sentinel").and_then(|v| v.as_u64()), Some(255));
}

fn morph_groups() -> MemberDef {
    MemberDef::RArray {
        name: "Morph Groups".into(),
        element: Box::new(MemberDef::RStruct {
            name: "Morph Group".into(),
            members: vec![
                sig_int_field("MPPC", "Count", IntegerWidth::U32),
                MemberDef::RArray {
                    name: "Morph Presets".into(),
                    element: Box::new(MemberDef::RStruct {
                        name: "Morph Preset".into(),
                        members: vec![sig_int_field("MPPI", "Index", IntegerWidth::U32)],
                    }),
                    count: Some(ArrayCount::CountPath("Count".into())),
                    stop_before: Vec::new(),
                },
                sig_int_field("MPPK", "Tail", IntegerWidth::U16),
            ],
        }),
        count: None,
        stop_before: Vec::new(),
    }
}

#[test]
fn rarray_count_path_bounds_repeated_subrecord_groups() {
    let schema = empty_schema();
    let ctx = plain_ctx(&schema);
    let subrecords = vec![
        subrecord("MPPC", 1u32.to_le_bytes().to_vec(), 0),
        subrecord("MPPI", 10u32.to_le_bytes().to_vec(), 1),
        subrecord("MPPK", 100u16.to_le_bytes().to_vec(), 2),
        subrecord("MPPC", 1u32.to_le_bytes().to_vec(), 3),
        subrecord("MPPI", 20u32.to_le_bytes().to_vec(), 4),
        subrecord("MPPK", 200u16.to_le_bytes().to_vec(), 5),
    ];
    let mut pool = Pool::new(&subrecords);
    let mut out = Object::new();
    decode_member(&ctx, &morph_groups(), &mut out, &mut pool, None);
    let out = js_object(&out);
    let groups = out.get("Morph Groups").and_then(|v| v.as_array()).expect("morph groups");

    assert_eq!(groups.len(), 2);
    for (idx, expected_index) in [10u64, 20u64].into_iter().enumerate() {
        let presets = groups[idx]
            .pointer("/Morph Group/Morph Presets")
            .and_then(|v| v.as_array())
            .expect("presets");
        assert_eq!(presets.len(), 1, "group {idx} should consume one preset");
        assert_eq!(
            presets[0].pointer("/Morph Preset/Index").and_then(|v| v.as_u64()),
            Some(expected_index)
        );
    }
    assert_eq!(pool.len(), 0);
}

fn form_id_field(name: &str, refs: &[&str]) -> MemberDef {
    MemberDef::FormId {
        sig: None,
        name: name.into(),
        valid_refs: refs.iter().map(|s| s.to_string()).collect(),
        from_version: None,
        below_version: None,
        from_size: None,
    }
}

#[test]
fn coed_owner_decider_selects_variant_by_target_signature() {
    let owner_id = FormId::new(0x0000_1234);
    let glob_id = FormId::new(0x0000_00AB);
    let resolver = MapResolver {
        stubs: BTreeMap::from([(
            owner_id.raw(),
            FormIdStub {
                formid: owner_id.display(),
                editor_id: Some("TestNPC".into()),
                record_type: "NPC_".into(),
            },
        )]),
    };
    let fields = vec![
        form_id_field("Owner", &["NPC_", "FACT", "NULL"]),
        MemberDef::Union {
            sig: None,
            name: "union".into(),
            decider: UnionDecider::FormIdTargetType {
                form_id_target_type: "Owner".into(),
                map: vec![("NPC_".into(), 1), ("FACT".into(), 2)],
                default_variant: Some(0),
            },
            variants: vec![
                MemberDef::Unused { bytes: 4, sig: None, from_version: None, below_version: None },
                form_id_field("Global Variable", &["GLOB", "NULL"]),
                MemberDef::Integer {
                    sig: None,
                    name: "Required Rank".into(),
                    width: IntegerWidth::S32,
                    signed: true,
                    format: None,
                    from_version: None,
                    below_version: None,
                    from_size: None,
                    stop_before: vec![],
                },
            ],
        },
    ];
    let mut payload = vec![0u8; 8];
    payload[0..4].copy_from_slice(&owner_id.raw().to_le_bytes());
    payload[4..8].copy_from_slice(&glob_id.raw().to_le_bytes());

    let schema = empty_schema();
    let mut ctx = bare_ctx(&schema);
    ctx.resolve_depth = ResolveDepth::Stub;
    ctx.resolver = Some(&resolver);
    let (inner, _) = struct_of(&ctx, "Extra Data", &fields, &payload);
    assert_eq!(
        inner.get("Global Variable").and_then(|v| v.as_str()),
        Some(glob_id.display().as_str())
    );

    let (inner2, _) = struct_of(&plain_ctx(&schema), "Extra Data", &fields, &payload);
    assert!(inner2.get("Owner").is_some());
    assert!(inner2.get("Global Variable").is_none());
}

fn efit_fields() -> Vec<MemberDef> {
    let bytes = |len: usize, from: u16, below: u16| MemberDef::Bytes {
        sig: None,
        name: "_unknown".into(),
        len: Some(len),
        from_version: Some(from),
        below_version: Some(below),
        from_size: None,
    };
    vec![
        MemberDef::Integer {
            sig: None,
            name: "Effect ID".into(),
            width: IntegerWidth::U32,
            signed: false,
            format: None,
            from_version: Some(166),
            below_version: None,
            from_size: None,
            stop_before: vec![],
        },
        MemberDef::Float {
            sig: None,
            name: "Magnitude".into(),
            from_version: None,
            below_version: None,
            from_size: None,
        },
        int_field("Area", IntegerWidth::U32),
        int_field("Duration", IntegerWidth::U32),
        bytes(12, 154, 166),
        bytes(8, 166, 183),
    ]
}

fn efit(form_version: u16, data: &[u8]) -> serde_json::Value {
    let schema = empty_schema();
    let mut ctx = plain_ctx(&schema);
    ctx.form_version = form_version;
    struct_of(&ctx, "Effect Item Data", &efit_fields(), data).0
}

#[test]
fn efit_fv197_endangerol_bytes() {
    let data: [u8; 16] = [
        0x00, 0x00, 0x00, 0x00, 0x00, 0x00, 0x80, 0x3e, 0x00, 0x00, 0x00, 0x00, 0x78, 0x00, 0x00,
        0x00,
    ];
    let obj = efit(197, &data);
    assert_eq!(obj.get("Effect ID").and_then(|v| v.as_u64()), Some(0));
    let mag = obj.get("Magnitude").and_then(|v| v.as_f64()).unwrap();
    assert!((mag - 0.25).abs() < 1e-6);
    assert_eq!(obj.get("Area").and_then(|v| v.as_u64()), Some(0));
    assert_eq!(obj.get("Duration").and_then(|v| v.as_u64()), Some(120));
    assert!(obj.get("_unknown").is_none());
}

#[test]
fn efit_fv170_effect_id_and_trailing_unknown() {
    let mut data = [0u8; 24];
    data[0..4].copy_from_slice(&1u32.to_le_bytes());
    data[4..8].copy_from_slice(&2.5f32.to_le_bytes());
    data[8..12].copy_from_slice(&3u32.to_le_bytes());
    data[12..16].copy_from_slice(&4u32.to_le_bytes());
    data[16..24].fill(0xAB);
    let obj = efit(170, &data);
    assert_eq!(obj.get("Effect ID").and_then(|v| v.as_u64()), Some(1));
    let unk = obj.get("_unknown").and_then(|v| v.as_object()).unwrap();
    assert_eq!(unk.get("hex").and_then(|v| v.as_str()), Some("abababababababab"));
}

#[test]
fn efit_fv160_no_effect_id_trailing_unknown() {
    let mut data = [0u8; 24];
    data[0..4].copy_from_slice(&1.5f32.to_le_bytes());
    data[4..8].copy_from_slice(&5u32.to_le_bytes());
    data[8..12].copy_from_slice(&10u32.to_le_bytes());
    data[12..24].fill(0xCC);
    let obj = efit(160, &data);
    assert!(obj.get("Effect ID").is_none());
    let unk = obj.get("_unknown").and_then(|v| v.as_object()).unwrap();
    assert_eq!(unk.get("hex").and_then(|v| v.as_str()), Some("cccccccccccccccccccccccc"));
}

#[test]
fn efit_fv150_classic_layout() {
    let mut data = [0u8; 12];
    data[0..4].copy_from_slice(&3.0f32.to_le_bytes());
    data[4..8].copy_from_slice(&0u32.to_le_bytes());
    data[8..12].copy_from_slice(&30u32.to_le_bytes());
    let obj = efit(150, &data);
    assert!(obj.get("Effect ID").is_none());
    assert!(obj.get("_unknown").is_none());
    assert_eq!(obj.get("Duration").and_then(|v| v.as_u64()), Some(30));
}

#[test]
fn vmad_term_dispatches_to_perk_fragment_decoder_and_decodes_tail_formid() {
    let schema = empty_schema();
    let mut ctx = plain_ctx(&schema);
    ctx.record_signature = Some("TERM");

    let mut data = vmad_header(2, 0);
    data.push(4);
    data.extend(vmad_wstring("Arcade_PrizeTerminal_Tier02"));
    data.push(0);
    data.extend_from_slice(&1u16.to_le_bytes());
    data.extend(vmad_wstring("Form_NWOTShirt"));
    data.push(1);
    data.push(1);
    data.extend_from_slice(&[0x00, 0x00, 0xff, 0xff, 0xe5, 0x77, 0x66, 0x00]);
    data.extend_from_slice(&0u16.to_le_bytes());

    let subrecords = vec![subrecord("VMAD", data, 0)];
    let mut pool = Pool::new(&subrecords);
    let member = MemberDef::Vmad {
        sig: Some("VMAD".into()),
        name: "Virtual Machine Adapter".into(),
    };
    let mut out = Object::new();
    decode_member(&ctx, &member, &mut out, &mut pool, None);

    let decoded = js(out.get("Virtual Machine Adapter").expect("VMAD member must be decoded"));
    assert!(decoded.get("_raw").is_none(), "must not truncate: {decoded}");
    let value = decoded
        .pointer("/script_fragments/script_entry/properties/0/value")
        .and_then(|v| v.as_str());
    assert_eq!(value, Some("0x006677E5"));
}

fn decode_lstring(ctx: &DecodeContext<'_, NoResolver>, sr: OwnedSubrecord) -> serde_json::Value {
    let member = MemberDef::LString {
        sig: Some("DESC".into()),
        name: "Description".into(),
        table: LStringTable::Dlstrings,
    };
    let list = vec![sr];
    let mut pool = Pool::new(&list);
    let mut out = Object::new();
    decode_member(ctx, &member, &mut out, &mut pool, None);
    js_object(&out)
}

#[test]
fn empty_lstring_decodes_to_null_in_both_localization_modes() {
    let schema = empty_schema();
    let null = serde_json::Value::Null;

    let non_loc = plain_ctx(&schema);
    let out = decode_lstring(&non_loc, subrecord("DESC", vec![0x00], 0));
    assert_eq!(out.get("Description"), Some(&null), "empty inline text must decode to null");

    let mut loc = plain_ctx(&schema);
    loc.is_localized = true;
    let out = decode_lstring(&loc, subrecord("DESC", vec![0, 0, 0, 0], 0));
    assert_eq!(out.get("Description"), Some(&null));

    let out = decode_lstring(&loc, subrecord("DESC", vec![0x01], 0));
    assert_eq!(out.get("Description"), Some(&null), "a short id must give an explicit null");
}

#[test]
fn non_empty_inline_lstring_still_decodes_to_text() {
    let schema = empty_schema();
    let ctx = plain_ctx(&schema);

    let mut data = b"Vote Counter".to_vec();
    data.push(0);
    let out = decode_lstring(&ctx, subrecord("DESC", data, 0));
    assert_eq!(out["Description"], "Vote Counter");

    let mut data = b"<ID=0001A2B3>Vote Counter".to_vec();
    data.push(0);
    let out = decode_lstring(&ctx, subrecord("DESC", data, 0));
    assert_eq!(out["Description"], "Vote Counter");

    let mut data = b"<ID=0001A2B3>".to_vec();
    data.push(0);
    let out = decode_lstring(&ctx, subrecord("DESC", data, 0));
    assert_eq!(out.get("Description"), Some(&serde_json::Value::Null));
}

#[test]
fn unused_with_sig_consumes_subrecord_and_emits_nothing() {
    let schema = empty_schema();
    let ctx = plain_ctx(&schema);
    let member = MemberDef::Unused {
        bytes: 0,
        sig: Some("INDX".into()),
        from_version: None,
        below_version: None,
    };
    let subrecords = vec![subrecord("INDX", vec![0x01, 0x02, 0x03, 0x04], 0)];
    let mut pool = Pool::new(&subrecords);
    let mut out = Object::new();
    decode_member(&ctx, &member, &mut out, &mut pool, None);
    assert!(out.is_empty(), "no field must come of it, got {out:?}");
    assert_eq!(pool.len(), 0, "the subrecord must be taken");
}

#[test]
fn unused_without_sig_still_skips_payload_bytes_only() {
    let schema = empty_schema();
    let ctx = plain_ctx(&schema);
    let fields = vec![
        MemberDef::Unused { bytes: 3, sig: None, from_version: None, below_version: None },
        int_field("Sentinel", IntegerWidth::U8),
    ];
    let (inner, _) = struct_of(&ctx, "Test", &fields, &[0xAA, 0xBB, 0xCC, 0x2A]);
    assert_eq!(inner.get("Sentinel").and_then(|v| v.as_u64()), Some(42));
}

// ── Whole records ───────────────────────────────────────────────────────────
fn weapon_schema() -> Schema {
    Schema {
        records: vec![(
            "WEAP".to_string(),
            RecordDef {
                name: "Weapon".to_string(),
                members: vec![
                    MemberDef::String {
                        sig: Some("EDID".into()),
                        name: "EditorID".into(),
                        sized: None,
                    },
                    sig_int_field("DATA", "Value", IntegerWidth::U16),
                ],
            },
        )],
    }
}

/// Every subrecord is either decoded or listed, and the fields come in the
/// order of their names.
#[test]
fn what_no_member_takes_is_listed() {
    let schema = weapon_schema();
    let ctx = plain_ctx(&schema);
    let list = vec![
        subrecord("ZZZZ", vec![0xDE, 0xAD], 0),
        subrecord("EDID", b"Gun\0".to_vec(), 1),
        subrecord("DATA", vec![7, 0], 2),
        subrecord("ZZZZ", vec![0xBE], 3),
    ];
    let out = decode_record(&ctx, "WEAP", &list);
    let keys: Vec<&str> =
        out.as_object().unwrap().entries.iter().map(|e| e.0.as_str()).collect();
    assert_eq!(keys, vec!["EditorID", "Value", "_record_type", "_unmapped"]);
    let out = js(&out);
    assert_eq!(out["EditorID"], "Gun");
    assert_eq!(out["Value"], 7);
    assert_eq!(out["_record_type"], "Weapon");
    assert_eq!(out["_unmapped"]["ZZZZ"][0]["hex"], "dead");
    assert_eq!(out["_unmapped"]["ZZZZ"][1]["hex"], "be");
}

#[test]
fn a_record_without_a_description_is_marked() {
    let schema = empty_schema();
    let ctx = plain_ctx(&schema);
    let list = vec![subrecord("DATA", vec![1], 0)];
    let out = js(&decode_record(&ctx, "ABCD", &list));
    assert_eq!(out["_record_type"], "ABCD");
    assert_eq!(out["_unknown_record"], true);
    assert_eq!(out["_unmapped"]["DATA"][0]["signature"], "DATA");
}

/// A struct never reads past its bytes.
#[test]
fn a_struct_stops_where_its_bytes_stop() {
    let schema = empty_schema();
    let ctx = plain_ctx(&schema);
    let fields = vec![int_field("A", IntegerWidth::U32), int_field("B", IntegerWidth::U32)];
    let (inner, n) = struct_of(&ctx, "Test", &fields, &[1, 0, 0, 0, 2, 0]);
    assert_eq!(inner["A"], 1);
    assert!(inner.get("B").is_none());
    assert_eq!(n, 4);
}

/// A second value of the same name goes under a numbered name.
#[test]
fn union_values_do_not_overwrite_each_other() {
    let schema = empty_schema();
    let ctx = plain_ctx(&schema);
    let union = || MemberDef::Union {
        sig: None,
        name: "u".into(),
        decider: UnionDecider::FromVersion { from_version: 1 },
        variants: vec![int_field("N", IntegerWidth::U8), int_field("N", IntegerWidth::U8)],
    };
    let fields = vec![union(), union(), union()];
    let (inner, _) = struct_of(&ctx, "Test", &fields, &[1, 2, 3]);
    assert_eq!(inner["N"], 1);
    assert_eq!(inner["N 2"], 2);
    assert_eq!(inner["N 3"], 3);
}

#[test]
fn an_unanswered_query_stays_and_an_answered_one_goes() {
    let mut out = weap_bash_fixture("Gun", 5.0, BASH_CURVE, None);
    apply_weapon_bash_curve(&mut out);
    let whole = Value::Object(out);
    assert!(settle(&whole, &vec![]).identical(&whole));
    let mut queries = Vec::new();
    collect_queries(&whole, &mut queries);
    assert_eq!(queries.len(), 1);
    let done = settle(&whole, &vec![(queries[0].copy(), Value::Null)]);
    assert!(done.get("Bash Damage").unwrap().is_null());
}
