//! Comparison of values, and the noise that is taken out of it.
use esm::decode::scalars::member_version_bounds;
use esm::diff::align::lcs_align;
use esm::diff::array_diff::{array_diff, is_empty_diff, json_diff, set_diff, FloatTexts};
use esm::diff::calibrate::{
    apply_restamp_calibrated_suppression, leaf_name, strip_calibrated_array_diff,
};
use esm::diff::noise::{
    is_pure_appearance, is_pure_disappearance, member_name, strip_noise_fields,
    strip_version_gated_transitions,
};
use esm::diff::report::{apply_type_filter, BodyDetail, DiffOptions, DiffResult, RecordDiff, RecordStub};
use esm::diff::restamp::{is_padding_zeroed_value, strip_padding_zeroed, strip_restamp_appearances};
use esm::decode::context::ResolveDepth;
use esm::json::{Object, Value};
use esm::schema::{IntegerWidth, MemberDef, RecordDef, Schema};
use std::collections::BTreeMap;

/// A JSON text as a value of the library.
fn val(text: &str) -> Value {
    from_serde(&serde_json::from_str(text).unwrap())
}

fn from_serde(v: &serde_json::Value) -> Value {
    match v {
        serde_json::Value::Null => Value::Null,
        serde_json::Value::Bool(b) => Value::Bool(*b),
        serde_json::Value::Number(n) => {
            if let Some(i) = n.as_i64() {
                Value::Int(i as i128)
            } else if let Some(u) = n.as_u64() {
                Value::Int(u as i128)
            } else {
                Value::Float((n.as_f64().unwrap() as f32).to_bits())
            }
        }
        serde_json::Value::String(s) => Value::String(s.clone()),
        serde_json::Value::Array(a) => Value::Array(a.iter().map(from_serde).collect()),
        serde_json::Value::Object(o) => {
            let mut out = Object::new();
            for (k, w) in o {
                out.insert(k.clone(), from_serde(w));
            }
            Value::Object(out)
        }
    }
}

/// A value of the library as JSON.
fn js(v: &Value) -> serde_json::Value {
    match v {
        Value::Null => serde_json::Value::Null,
        Value::Bool(b) => serde_json::Value::Bool(*b),
        Value::Int(n) => {
            if *n >= 0 {
                serde_json::Value::from(*n as u64)
            } else {
                serde_json::Value::from(*n as i64)
            }
        }
        Value::Float(b) => {
            serde_json::Value::from(f32::from_bits(*b).to_string().parse::<f64>().unwrap())
        }
        Value::String(s) => serde_json::Value::from(s.clone()),
        Value::Array(a) => serde_json::Value::Array(a.iter().map(js).collect()),
        Value::Object(o) => js_object(o),
        other => panic!("a query without an answer: {:?}", other),
    }
}

fn js_object(o: &Object) -> serde_json::Value {
    let mut out = serde_json::Map::new();
    for (k, v) in &o.entries {
        out.insert(k.clone(), js(v));
    }
    serde_json::Value::Object(out)
}

fn version(v: &serde_json::Value, key: &str) -> Option<u16> {
    v.get(key).and_then(|n| n.as_u64()).map(|n| n as u16)
}

/// A member from its description.
fn member(v: &serde_json::Value) -> MemberDef {
    let name = v["name"].as_str().unwrap().to_string();
    let from_version = version(v, "from_version");
    let below_version = version(v, "below_version");
    match v["kind"].as_str().unwrap() {
        "integer" => MemberDef::Integer {
            sig: None,
            name,
            width: if v["width"] == "u8" { IntegerWidth::U8 } else { IntegerWidth::U16 },
            signed: false,
            format: None,
            from_version,
            below_version,
            from_size: None,
            stop_before: vec![],
        },
        "formid" => MemberDef::FormId {
            sig: None,
            name,
            valid_refs: vec![],
            from_version,
            below_version,
            from_size: None,
        },
        "float" => {
            MemberDef::Float { sig: None, name, from_version, below_version, from_size: None }
        }
        "bytes" => MemberDef::Bytes {
            sig: None,
            name,
            len: None,
            from_version,
            below_version,
            from_size: None,
        },
        "struct" => MemberDef::Struct {
            sig: None,
            name,
            fields: v["fields"].as_array().unwrap().iter().map(member).collect(),
            from_version,
            below_version,
        },
        other => panic!("no such kind: {other}"),
    }
}

fn test_schema(members: Value) -> Schema {
    let members = js(&members).as_array().unwrap().iter().map(member).collect();
    Schema { records: vec![("TEST".to_string(), RecordDef { name: "Test".to_string(), members })] }
}

#[test]
fn appearance_detects_null_to_value() {
    assert!(is_pure_appearance(&val(r#"{"from": null, "to": "0x0000000F"}"#)));
    assert!(is_pure_appearance(&val(r#"{"Enlighten Auto UV": {"from": null, "to": {"Unknown": 1}}, "Unknown CTRN": {"from": null, "to": {"hex": "00"}}}"#)));
}

#[test]
fn appearance_rejects_authored_edits() {
    assert!(!is_pure_appearance(&val(r#"{"from": 5.0, "to": 20.0}"#)));
    assert!(!is_pure_appearance(&val(r#"{"from": "0x0F", "to": null}"#)));
    assert!(!is_pure_appearance(&val(r#"{"Unknown CTRN": {"from": null, "to": {"hex": "00"}}, "Attack Damage": {"from": 30, "to": 45}}"#)));
}

#[test]
fn appearance_rejects_structural_array_changes() {
    assert!(!is_pure_appearance(&val(r#"{"_array_diff": {"strategy": "keyed", "added": [{"x": 1}]}}"#)));
    assert!(!is_pure_appearance(&val(r#"{"_array_diff": {"strategy": "keyed", "removed": [{"x": 1}]}}"#)));
    assert!(is_pure_appearance(&val(r#"{"_array_diff": {"strategy": "keyed", "changed": [{"key": {"name": "a"}, "changes": {"Unknown": {"from": null, "to": 1}}}]}}"#)));
    assert!(!is_pure_appearance(&val(r#"{"_array_diff": {"strategy": "keyed", "changed": [{"key": {"name": "a"}, "changes": {"Magnitude": {"from": 10, "to": 20}}}]}}"#)));
}

#[test]
fn appearance_rejects_unkeyed_structural_array_changes() {
    assert!(!is_pure_appearance(&val(r#"{"_array_diff": {"strategy": "unkeyed", "count_from": 2, "count_to": 1, "removed": [{"Condition": {"Function": "A"}}, {"Condition": {"Function": "B"}}], "added": [{"Condition": {"Function": "C"}}]}}"#)));
    assert!(!is_pure_disappearance(&val(r#"{"_array_diff": {"strategy": "unkeyed", "count_from": 1, "count_to": 0, "removed": [{"Condition": {"Function": "A"}}]}}"#)));
}

#[test]
fn restamp_leaves_unkeyed_array_diff_untouched() {
    let mut fc = val(r#"{"Conditions": {"_array_diff": {"strategy": "unkeyed", "count_from": 2, "count_to": 1, "removed": [{"Condition": {"Function": "GetGlobalValue", "Comparison Value": 10.0}}, {"Condition": {"Function": "GetGlobalValue", "Comparison Value": 7.0}}], "added": [{"Condition": {"Function": "GetGlobalValue", "Comparison Value": 0.0}}]}}}"#);
    let before = fc.copy();
    strip_restamp_appearances(&mut fc, "INFO");
    assert_eq!(js(&fc), js(&before));
}

#[test]
fn padding_zeroed_leaves_unkeyed_array_diff_untouched() {
    let mut fc = val(r#"{"Conditions": {"_array_diff": {"strategy": "unkeyed", "count_from": 1, "count_to": 2, "removed": [{"Condition": {"Function": "A"}}], "added": [{"Condition": {"Function": "B"}}, {"Condition": {"Function": "C"}}]}}}"#);
    let before = fc.copy();
    let stripped = strip_padding_zeroed(&mut fc);
    assert_eq!(stripped, 0);
    assert_eq!(js(&fc), js(&before));
}

#[test]
fn calibrated_leaves_unkeyed_array_diff_untouched() {
    let whole = val(r#"{"strategy": "unkeyed", "count_from": 1, "count_to": 2, "removed": [{"Condition": {"Function": "A"}}], "added": [{"Condition": {"Function": "B"}}, {"Condition": {"Function": "C"}}]}"#);
    let ad = whole.as_object().unwrap();
    let (rest, dropped) = strip_calibrated_array_diff(ad, "Conditions", &vec![]);
    assert!(!dropped, "added/removed present, so the envelope still says something");
    assert_eq!(js_object(&rest), js_object(ad));
}

#[test]
fn strip_keeps_authored_edits_and_drops_appearances() {
    let schema = test_schema(val(r#"[{"kind": "integer", "name": "Enlighten Auto UV", "width": "u8", "from_version": 200}, {"kind": "formid", "name": "Previous INFO", "from_version": 200}, {"kind": "integer", "name": "Attack Damage", "width": "u16"}]"#));
    let mut fc = val(r#"{"Enlighten Auto UV": {"from": null, "to": {"Unknown": 1}}, "Previous INFO": {"from": null, "to": "0x0031E5CD"}, "Attack Damage": {"from": 30, "to": 45}}"#);
    strip_version_gated_transitions(&mut fc, &schema, "TEST", 199, 200);
    assert_eq!(js(&fc), js(&val(r#"{"Attack Damage": {"from": 30, "to": 45}}"#)));
}

#[test]
fn strip_is_a_no_op_on_non_objects() {
    let schema = test_schema(val(r#"[]"#));
    let mut v = val(r#""not an object""#);
    strip_version_gated_transitions(&mut v, &schema, "TEST", 199, 200);
    assert_eq!(js(&v), js(&val(r#""not an object""#)));
}

#[test]
fn strip_keeps_ungated_appearance() {
    let schema = test_schema(val(r#"[{"kind": "float", "name": "Sneak Attack Multiplier"}]"#));
    let mut fc = val(r#"{"Sneak Attack Multiplier": {"from": null, "to": 2.0}}"#);

    strip_version_gated_transitions(&mut fc, &schema, "TEST", 201, 209);

    assert_eq!(js(&fc), js(&val(r#"{"Sneak Attack Multiplier": {"from": null, "to": 2.0}}"#)));
}

#[test]
fn strip_drops_appearance_when_from_version_is_crossed() {
    let schema = test_schema(val(r#"[{"kind": "struct", "name": "Data", "fields": [{"kind": "bytes", "name": "New Bytes", "from_version": 205}]}]"#));
    let mut fc = val(r#"{"Data": {"New Bytes": {"from": null, "to": {"hex": "00"}}}}"#);

    strip_version_gated_transitions(&mut fc, &schema, "TEST", 201, 209);

    assert_eq!(js(&fc), js(&val(r#"{}"#)));
}

#[test]
fn strip_keeps_appearance_when_gate_is_active_at_both_versions() {
    let schema = test_schema(val(r#"[{"kind": "integer", "name": "Already Active", "width": "u8", "from_version": 200}]"#));
    let mut fc = val(r#"{"Already Active": {"from": null, "to": 1}}"#);

    strip_version_gated_transitions(&mut fc, &schema, "TEST", 201, 209);

    assert_eq!(js(&fc), js(&val(r#"{"Already Active": {"from": null, "to": 1}}"#)));
}

#[test]
fn strip_drops_disappearance_when_below_version_is_crossed() {
    let schema = test_schema(val(r#"[{"kind": "formid", "name": "Value Currency", "below_version": 205}]"#));
    let mut fc = val(r#"{"Value Currency": {"from": "0x0000000F", "to": null}}"#);

    strip_version_gated_transitions(&mut fc, &schema, "TEST", 201, 209);

    assert_eq!(js(&fc), js(&val(r#"{}"#)));
}

#[test]
fn strip_keeps_ungated_disappearance() {
    let schema = test_schema(val(r#"[{"kind": "formid", "name": "Value Currency"}]"#));
    let mut fc = val(r#"{"Value Currency": {"from": "0x0000000F", "to": null}}"#);

    strip_version_gated_transitions(&mut fc, &schema, "TEST", 201, 209);

    assert_eq!(js(&fc), js(&val(r#"{"Value Currency": {"from": "0x0000000F", "to": null}}"#)));
}

#[test]
fn restamp_suppresses_null_to_zero_raw_leaf() {
    let mut fc = val(r#"{"Unknown": {"from": null, "to": {"hex": "0000000000000000", "_raw": true}}}"#);
    strip_restamp_appearances(&mut fc, "STAT");
    assert_eq!(js(&fc), js(&val(r#"{}"#)));
}

#[test]
fn restamp_suppresses_zero_raw_to_null_disappearance() {
    let mut fc = val(r#"{"Unknown": {"from": {"hex": "0000000000000000", "_raw": true}, "to": null}}"#);
    strip_restamp_appearances(&mut fc, "STAT");
    assert_eq!(js(&fc), js(&val(r#"{}"#)));
}

#[test]
fn restamp_keeps_null_to_nonzero_raw_leaf() {
    let fc = val(r#"{"Unknown": {"from": null, "to": {"hex": "0000000100000000", "_raw": true}}}"#);
    let mut got = fc.copy();
    strip_restamp_appearances(&mut got, "STAT");
    assert_eq!(js(&got), js(&fc));
}

#[test]
fn restamp_strips_nested_array_element_leaf_and_drops_whole_key() {
    let mut fc = val(r#"{"Responses": {"_array_diff": {"strategy": "keyed", "count_from": 1, "count_to": 1, "changed": [{"key": {"index": 0}, "index_from": 0, "index_to": 0, "changes": {"Response": {"Unknown": {"from": null, "to": {"hex": "00", "_raw": true}}}}}]}}}"#);
    strip_restamp_appearances(&mut fc, "INFO");
    assert_eq!(js(&fc), js(&val(r#"{}"#)));
}

#[test]
fn restamp_keeps_mixed_array_element_real_edit() {
    let mut fc = val(r#"{"Responses": {"_array_diff": {"strategy": "keyed", "count_from": 1, "count_to": 1, "changed": [{"key": {"index": 0}, "index_from": 0, "index_to": 0, "changes": {"Response": {"Unknown": {"from": null, "to": {"hex": "00", "_raw": true}}}, "Response Text": {"from": "Old line", "to": "New line"}}}]}}}"#);
    strip_restamp_appearances(&mut fc, "INFO");
    assert_eq!(js(&fc), js(&val(r#"{"Responses": {"_array_diff": {"strategy": "keyed", "count_from": 1, "count_to": 1, "changed": [{"key": {"index": 0}, "index_from": 0, "index_to": 0, "changes": {"Response Text": {"from": "Old line", "to": "New line"}}}]}}}"#)));
}

#[test]
fn restamp_drops_only_fully_noisy_elements_keeps_others() {
    let mut fc = val(r#"{"Responses": {"_array_diff": {"strategy": "keyed", "count_from": 2, "count_to": 2, "changed": [{"key": {"index": 0}, "index_from": 0, "index_to": 0, "changes": {"Response": {"Unknown": {"from": null, "to": {"hex": "00", "_raw": true}}}}}, {"key": {"index": 1}, "index_from": 1, "index_to": 1, "changes": {"Response Text": {"from": "Old", "to": "New"}}}]}}}"#);
    strip_restamp_appearances(&mut fc, "INFO");
    assert_eq!(js(&fc), js(&val(r#"{"Responses": {"_array_diff": {"strategy": "keyed", "count_from": 2, "count_to": 2, "changed": [{"key": {"index": 1}, "index_from": 1, "index_to": 1, "changes": {"Response Text": {"from": "Old", "to": "New"}}}]}}}"#)));
}

#[test]
fn restamp_suppresses_materialized_on_resave_pnam() {
    let mut fc = val(r#"{"Previous INFO": {"from": null, "to": "0x0031E5CD"}}"#);
    strip_restamp_appearances(&mut fc, "INFO");
    assert_eq!(js(&fc), js(&val(r#"{}"#)));
}

#[test]
fn restamp_keeps_materialized_member_disappearance() {
    let fc = val(r#"{"Previous INFO": {"from": "0x0031E5CD", "to": null}}"#);
    let mut got = fc.copy();
    strip_restamp_appearances(&mut got, "INFO");
    assert_eq!(js(&got), js(&fc));
}

#[test]
fn restamp_keeps_materialized_field_on_wrong_signature_or_member() {
    let wrong_sig = val(r#"{"Previous INFO": {"from": null, "to": "0x0031E5CD"}}"#);
    let mut got_wrong_sig = wrong_sig.copy();
    strip_restamp_appearances(&mut got_wrong_sig, "STAT");
    assert_eq!(js(&got_wrong_sig), js(&wrong_sig));

    let wrong_member = val(r#"{"Next INFO": {"from": null, "to": "0x0031E5CD"}}"#);
    let mut got_wrong_member = wrong_member.copy();
    strip_restamp_appearances(&mut got_wrong_member, "INFO");
    assert_eq!(js(&got_wrong_member), js(&wrong_member));
}

#[test]
fn restamp_keeps_null_to_formid_when_not_in_table() {
    let fc = val(r#"{"Base Object": {"from": null, "to": "0x0001234A"}}"#);
    let mut got = fc.copy();
    strip_restamp_appearances(&mut got, "REFR");
    assert_eq!(js(&got), js(&fc));
}

#[test]
fn materialized_members_escape_the_schema_gate() {
    let schema = test_schema(val(r#"[{"kind": "formid", "name": "Previous INFO"}]"#));
    let member = &schema.record("TEST").unwrap().members[0];
    assert_eq!(member_name(member), Some("Previous INFO"));
    assert_eq!(member_version_bounds(member), (None, None));
    let mut fc = val(r#"{"Previous INFO": {"from": null, "to": "0x0031E5CD"}}"#);
    let before = fc.copy();
    strip_version_gated_transitions(&mut fc, &schema, "TEST", 199, 200);
    assert_eq!(js(&fc), js(&before));
    strip_restamp_appearances(&mut fc, "INFO");
    assert!(is_empty_diff(&fc));
}

fn stub_diff(form_id: &str, record_type: &str, field_changes: Value) -> RecordDiff {
    RecordDiff {
        stub: RecordStub {
            form_id: form_id.to_owned(),
            editor_id: None,
            record_type: record_type.to_owned(),
            offset: 0,
            name: None,
            description: None,
            fields: None,
        },
        field_changes,
        prev_editor_id: None,
    }
}

fn count_of(counts: &Vec<(String, u64)>, k: &str) -> Option<u64> {
    counts.iter().find(|e| e.0 == k).map(|e| e.1)
}

#[test]
fn leaf_name_strips_array_index_suffix() {
    assert_eq!(
        leaf_name("Effects[].Effect.Cooldown Duration"),
        "Cooldown Duration"
    );
    assert_eq!(leaf_name("Model.Enlighten Auto UV"), "Enlighten Auto UV");
    assert_eq!(
        leaf_name("Female.World Model.Enlighten Auto UV"),
        "Enlighten Auto UV"
    );
    assert_eq!(leaf_name("Unknown[0]"), "Unknown");
}

#[test]
fn padding_zeroed_detects_garbage_to_zeros_hex_leaf() {
    assert!(is_padding_zeroed_value(&val(r#"{"hex": {"from": "3809c7", "to": "000000"}}"#)));
    assert!(!is_padding_zeroed_value(&val(r#"{"hex": {"from": "3809c7", "to": "000001"}}"#)));
    assert!(!is_padding_zeroed_value(&val(r#"{"from": null, "to": {"hex": "000000", "_raw": true}}"#)));
}

#[test]
fn padding_zeroed_strips_leaf_and_counts() {
    let mut fc = val(r#"{"Unknown": {"hex": {"from": "3809c7", "to": "000000"}}, "Attack Damage": {"from": 30, "to": 45}}"#);
    assert_eq!(strip_padding_zeroed(&mut fc), 1);
    assert_eq!(js(&fc), js(&val(r#"{"Attack Damage": {"from": 30, "to": 45}}"#)));
}

#[test]
fn calibrated_collapses_leaf_name_across_paths() {
    let default = r#"{"Unknown": 1, "Max Distance": 50.0}"#;
    let mut changed = vec![
        stub_diff(
            "0x00000001",
            "STAT",
            val(&format!(r#"{{"Model": {{"Enlighten Auto UV": {{"from": null, "to": {default}}}}}}}"#)),
        ),
        stub_diff(
            "0x00000002",
            "NPC_",
            val(&format!(r#"{{"Female": {{"World Model": {{"Enlighten Auto UV": {{"from": null, "to": {default}}}}}}}}}"#)),
        ),
        stub_diff(
            "0x00000003",
            "NPC_",
            val(&format!(r#"{{"Male": {{"World Model": {{"Enlighten Auto UV": {{"from": null, "to": {default}}}}}}}}}"#)),
        ),
    ];
    let restamp = vec![true, true, true];
    let mut counts: Vec<(String, u64)> = Vec::new();
    let auto = apply_restamp_calibrated_suppression(&mut changed, &restamp, &mut counts, 3);
    assert_eq!(auto.len(), 1);
    assert_eq!(auto[0].leaf_name, "Enlighten Auto UV");
    assert_eq!(auto[0].count, 3);
    assert!(
        changed.is_empty(),
        "all three records were appearance-only noise: {changed:?}"
    );
    assert_eq!(count_of(&counts, "STAT"), Some(1));
    assert_eq!(count_of(&counts, "NPC_"), Some(2));
}

#[test]
fn calibrated_preserves_appearance_that_collides_with_real_edit() {
    let shared = r#"2.0"#;
    let mut changed = vec![
        stub_diff(
            "0x00000001",
            "WEAP",
            val(&format!(r#"{{"Sneak Attack Multiplier": {{"from": null, "to": {shared}}}}}"#)),
        ),
        stub_diff(
            "0x00000002",
            "WEAP",
            val(&format!(r#"{{"Sneak Attack Multiplier": {{"from": null, "to": {shared}}}}}"#)),
        ),
        stub_diff(
            "0x00000003",
            "WEAP",
            val(&format!(r#"{{"Sneak Attack Multiplier": {{"from": 1.5, "to": {shared}}}}}"#)),
        ),
    ];
    let restamp = vec![true, true, true];
    let mut counts: Vec<(String, u64)> = Vec::new();
    let auto = apply_restamp_calibrated_suppression(&mut changed, &restamp, &mut counts, 2);
    assert!(
        auto.is_empty(),
        "rule must not fire when the value is also a real edit: {auto:?}"
    );
    assert_eq!(changed.len(), 3, "nothing stripped: {changed:?}");
}

#[test]
fn calibrated_disappearance_does_not_poison_appearance_default() {
    let default = r#""0x0000000F""#;
    let mut changed = vec![
        stub_diff(
            "0x00000001",
            "WEAP",
            val(&format!(r#"{{"Value Currency": {{"from": null, "to": {default}}}}}"#)),
        ),
        stub_diff(
            "0x00000002",
            "WEAP",
            val(&format!(r#"{{"Value Currency": {{"from": null, "to": {default}}}}}"#)),
        ),
        stub_diff(
            "0x00000003",
            "WEAP",
            val(&format!(r#"{{"Value Currency": {{"from": {default}, "to": null}}}}"#)),
        ),
    ];
    let restamp = vec![true, true, true];
    let mut counts: Vec<(String, u64)> = Vec::new();
    let auto = apply_restamp_calibrated_suppression(&mut changed, &restamp, &mut counts, 2);
    assert_eq!(auto.len(), 1);
    assert_eq!(auto[0].leaf_name, "Value Currency");
    assert_eq!(changed.len(), 1);
    assert_eq!(changed[0].stub.form_id, "0x00000003");
}

#[test]
fn calibrated_drops_noise_only_record_keeps_mixed() {
    let default = r#"0"#;
    let mut changed = vec![
        stub_diff(
            "0x00000001",
            "OMOD",
            val(&format!(r#"{{"Required Count": {{"from": null, "to": {default}}}}}"#)),
        ),
        stub_diff(
            "0x00000002",
            "OMOD",
            val(&format!(r#"{{"Required Count": {{"from": null, "to": {default}}}, "Attack Damage": {{"from": 10, "to": 20}}}}"#)),
        ),
        stub_diff(
            "0x00000003",
            "OMOD",
            val(&format!(r#"{{"Required Count": {{"from": null, "to": {default}}}}}"#)),
        ),
    ];
    let restamp = vec![true, true, true];
    let mut counts: Vec<(String, u64)> = Vec::new();
    let auto = apply_restamp_calibrated_suppression(&mut changed, &restamp, &mut counts, 3);
    assert_eq!(auto.len(), 1);
    assert_eq!(auto[0].leaf_name, "Required Count");
    assert_eq!(changed.len(), 1);
    assert_eq!(changed[0].stub.form_id, "0x00000002");
    assert_eq!(js(&changed[0].field_changes), js(&val(r#"{"Attack Damage": {"from": 10, "to": 20}}"#)));
    assert_eq!(count_of(&counts, "OMOD"), Some(2));
}

#[test]
fn calibrated_skips_non_restamp_records() {
    let default = r#"false"#;
    let mut changed = vec![
        stub_diff(
            "0x00000001",
            "ACTI",
            val(&format!(r#"{{"Activator Can Be Instanced": {{"from": null, "to": {default}}}}}"#)),
        ),
        stub_diff(
            "0x00000002",
            "ACTI",
            val(&format!(r#"{{"Activator Can Be Instanced": {{"from": null, "to": {default}}}}}"#)),
        ),
    ];
    let restamp = vec![false, false];
    let mut counts: Vec<(String, u64)> = Vec::new();
    let auto = apply_restamp_calibrated_suppression(&mut changed, &restamp, &mut counts, 2);
    assert_eq!(auto.len(), 1, "rule is classified from global count");
    assert_eq!(
        changed.len(),
        2,
        "non-restamp records must survive: {changed:?}"
    );
    assert!(counts.is_empty());
}

// ── Alignment ───────────────────────────────────────────────────────────────
fn numbered(i: usize) -> Value {
    val(&format!(r#"{{"N": {i}}}"#))
}

#[test]
fn lcs_align_common_prefix_suffix_trim_shrinks_the_dp_below_its_safety_cap() {
    let mut a: Vec<Value> = (0..2000).map(numbered).collect();
    let mut b: Vec<Value> = (0..2000).map(numbered).collect();
    b.insert(1000, val(r#"{"N": "inserted"}"#));
    a.push(val(r#"{"N": "tail"}"#));
    b.push(val(r#"{"N": "tail"}"#));

    let m = lcs_align(&a, &b);
    assert!(m.removed.is_empty());
    assert_eq!(m.added.iter().map(js).collect::<Vec<_>>(), vec![js(&val(r#"{"N": "inserted"}"#))]);
    assert_eq!(m.unchanged, a.len());
}

#[test]
fn lcs_align_over_the_safety_cap_reports_the_untrimmed_middle() {
    let side = |s: &str| -> Vec<Value> {
        (0..600).map(|i| val(&format!(r#"{{"N": {i}, "side": "{s}"}}"#))).collect()
    };
    let m = lcs_align(&side("a"), &side("b"));
    assert_eq!(m.unchanged, 0);
    assert_eq!(m.removed.len(), 600);
    assert_eq!(m.added.len(), 600);
}

/// The alignment is a longest common subsequence, and accounts for all.
#[test]
fn alignment_is_longest() {
    let list = |s: &str| -> Vec<Value> { s.chars().map(|c| Value::String(c.to_string())).collect() };
    let m = lcs_align(&list("abcbdab"), &list("bdcaba"));
    assert_eq!(m.unchanged, 4);
    assert_eq!(m.removed.len(), 3);
    assert_eq!(m.added.len(), 2);
    let m = lcs_align(&list("xxabcbdabyy"), &list("xxbdcabayy"));
    assert_eq!(m.unchanged, 8, "common starts and ends count too");
}

// ── Differences ─────────────────────────────────────────────────────────────
/// How some floats read as JSON.
fn float_table(list: &[f32]) -> BTreeMap<u32, String> {
    list.iter().map(|x| (x.to_bits(), serde_json::Value::from(*x).to_string())).collect()
}

fn compare(a: &Value, b: &Value) -> Value {
    let none = float_table(&[]);
    json_diff(a, b, FloatTexts { first: &none, second: &none })
}

fn diff_of(a: &str, b: &str) -> serde_json::Value {
    js(&compare(&val(a), &val(b)))
}

fn json(text: &str) -> serde_json::Value {
    serde_json::from_str(text).unwrap()
}

#[test]
fn equal_values_do_not_differ() {
    assert_eq!(diff_of(r#"{"a": [1, {"b": 2.5}]}"#, r#"{"a": [1, {"b": 2.5}]}"#), json("{}"));
    assert_eq!(diff_of("[1, 2]", "[1, 2]"), json("{}"));
    assert_eq!(diff_of("7", "7"), json("{}"));
    assert_eq!(
        js(&compare(&Value::Float(0), &Value::Float(0x8000_0000))),
        json("{}"),
        "the two zeros are the same number"
    );
}

#[test]
fn a_difference_holds_what_changed_and_nothing_else() {
    assert_eq!(
        diff_of(
            r#"{"keep": 1, "edit": 2, "gone": 3, "deep": {"x": 1, "y": 2}}"#,
            r#"{"keep": 1, "edit": 5, "new": 4, "deep": {"x": 1, "y": 9}}"#
        ),
        json(
            r#"{"edit": {"from": 2, "to": 5}, "gone": {"from": 3, "to": null},
                "new": {"from": null, "to": 4}, "deep": {"y": {"from": 2, "to": 9}}}"#
        )
    );
}

#[test]
fn a_missing_field_and_a_null_field_are_the_same() {
    assert_eq!(diff_of(r#"{"a": null}"#, "{}"), json("{}"));
    assert_eq!(diff_of("{}", r#"{"a": null}"#), json("{}"));
}

#[test]
fn lists_of_scalars_are_compared_as_multisets() {
    let a = vec![Value::Int(1), Value::Int(1), Value::Int(2)];
    let b = vec![Value::Int(2), Value::Int(1), Value::Int(3)];
    let none = float_table(&[]);
    let floats = FloatTexts { first: &none, second: &none };
    assert_eq!(
        js(&set_diff(&a, &b, floats)),
        json(
            r#"{"_array_diff": {"strategy": "set", "count_from": 3, "count_to": 3,
                "added": [3], "removed": [1]}}"#
        )
    );
    let again = vec![Value::Int(2), Value::Int(1), Value::Int(1)];
    assert_eq!(js(&array_diff(&a, &again, floats)), json("{}"));
}

/// Texts come in the order of their JSON form, in quotes.
#[test]
fn added_scalars_come_in_the_order_of_their_texts() {
    let a: Vec<Value> = vec![];
    let b = vec![
        Value::String("b".into()),
        Value::String("a".into()),
        Value::Int(5),
        Value::Null,
        Value::Bool(true),
    ];
    let none = float_table(&[]);
    let floats = FloatTexts { first: &none, second: &none };
    assert_eq!(
        js(&set_diff(&a, &b, floats)).pointer("/_array_diff/added"),
        Some(&json(r#"["a", "b", 5, null, true]"#))
    );
}

/// Fractions come in the order of how they read, whichever file they are from.
#[test]
fn fractions_come_in_the_order_of_their_texts() {
    let list = |items: &[f32]| -> Vec<Value> {
        items.iter().map(|x| Value::Float(x.to_bits())).collect()
    };
    let (gone, new) = ([-1.5, 0.25], [2.5, 10.5, -3.5, 0.125]);
    let (first, second) = (float_table(&gone), float_table(&new));
    let floats = FloatTexts { first: &first, second: &second };
    let d = js(&set_diff(&list(&gone), &list(&new), floats));
    assert_eq!(d.pointer("/_array_diff/added"), Some(&json("[-3.5, 0.125, 10.5, 2.5]")));
    assert_eq!(d.pointer("/_array_diff/removed"), Some(&json("[-1.5, 0.25]")));
    let swapped = FloatTexts { first: &second, second: &first };
    assert_eq!(js(&set_diff(&list(&gone), &list(&new), swapped)), d);
}

#[test]
fn elements_are_paired_by_key() {
    let d = diff_of(
        r#"[{"Index": 0, "v": 1}, {"Index": 1, "v": 2}]"#,
        r#"[{"Index": 1, "v": 3}, {"Index": 2, "v": 4}]"#,
    );
    let ad = &d["_array_diff"];
    assert_eq!(ad["strategy"], "keyed");
    assert_eq!(ad["changed"][0]["changes"], json(r#"{"v": {"from": 2, "to": 3}}"#));
    assert_eq!(ad["changed"][0]["index_from"], 1);
    assert_eq!(ad["changed"][0]["index_to"], 0);
    assert_eq!(ad["added"], json(r#"[{"Index": 2, "v": 4}]"#));
    assert_eq!(ad["removed"], json(r#"[{"Index": 0, "v": 1}]"#));
}

// ── Noise ───────────────────────────────────────────────────────────────────
#[test]
fn placement_is_noise_on_placed_objects_only() {
    let text = r#"{"Position/Rotation": {"from": 1, "to": 2}, "Base": {"from": 3, "to": 4}}"#;
    let mut placed = val(text);
    strip_noise_fields(&mut placed, "REFR");
    assert_eq!(js(&placed), json(r#"{"Base": {"from": 3, "to": 4}}"#));
    let once = placed.copy();
    strip_noise_fields(&mut placed, "REFR");
    assert_eq!(js(&placed), js(&once));
    let mut other = val(text);
    strip_noise_fields(&mut other, "WEAP");
    assert_eq!(js(&other), json(text));
}

#[test]
fn defaults_come_by_how_often_they_appeared() {
    let change = |leaf: &str, v: u32| val(&format!(r#"{{"{leaf}": {{"from": null, "to": {v}}}}}"#));
    let mut changed = vec![
        stub_diff("0x00000001", "A", change("x", 1)),
        stub_diff("0x00000002", "A", change("y", 2)),
        stub_diff("0x00000003", "A", change("y", 2)),
    ];
    let mut counts: Vec<(String, u64)> = Vec::new();
    let restamp = vec![true, true, true];
    let auto = apply_restamp_calibrated_suppression(&mut changed, &restamp, &mut counts, 1);
    let names: Vec<(&str, usize)> = auto.iter().map(|d| (d.leaf_name.as_str(), d.count)).collect();
    assert_eq!(names, vec![("y", 2), ("x", 1)]);
    assert!(changed.is_empty());
    assert_eq!(count_of(&counts, "A"), Some(3));
}

// ── Reports ─────────────────────────────────────────────────────────────────
#[test]
fn bodies_are_decoded_as_deep_as_they_are_asked_for() {
    assert_eq!(BodyDetail::Omit.resolve_depth(), None);
    assert_eq!(BodyDetail::Stub.resolve_depth(), Some(ResolveDepth::Stub));
    assert_eq!(BodyDetail::Full.resolve_depth(), Some(ResolveDepth::Full));
    let opts = DiffOptions::default();
    assert_eq!(opts.bodies, BodyDetail::Full);
    assert!(opts.suppress_noise);
    assert!(opts.exclude_types.is_empty());
    assert_eq!(opts.restamp_default_min_count, 100);
}

#[test]
fn a_type_filter_keeps_one_type_in_whatever_case() {
    let stub = |id: &str, ty: &str| stub_diff(id, ty, Value::Null).stub;
    let mut result = DiffResult {
        added: vec![stub("0x1", "WEAP"), stub("0x2", "ARMO")],
        removed: vec![stub("0x3", "ARMO")],
        changed: vec![stub_diff("0x4", "WEAP", Value::Null), stub_diff("0x5", "NPC_", Value::Null)],
        ref_names: vec![],
        suppressed_counts: vec![("X".to_string(), 1)],
        auto_suppressed_defaults: vec![],
    };
    apply_type_filter(&mut result, &None);
    assert_eq!(result.added.len(), 2);
    apply_type_filter(&mut result, &Some("weap".to_string()));
    assert_eq!(result.added.len(), 1);
    assert_eq!(result.added[0].form_id, "0x1");
    assert!(result.removed.is_empty());
    assert_eq!(result.changed.len(), 1);
    assert_eq!(result.changed[0].stub.form_id, "0x4");
    assert_eq!(result.suppressed_counts.len(), 1);
}

/// A value that was replaced by another is never taken for noise, wherever it
/// stands.
#[test]
fn edits_survive_every_stage() {
    let text = r#"{
        "Noise": {"from": null, "to": {"hex": "00", "_raw": true}},
        "Deep": {"x": {"from": 1, "to": 2}, "y": {"from": null, "to": {"hex": "00", "_raw": true}}},
        "List": {"_array_diff": {"strategy": "keyed", "changed": [
            {"key": {"i": 0}, "changes": {"z": {"from": null, "to": {"hex": "00", "_raw": true}}}},
            {"key": {"i": 1}, "changes": {"z": {"from": "a", "to": "b"}}}]}}
    }"#;
    let mut fc = val(text);
    strip_restamp_appearances(&mut fc, "STAT");
    let left = json(
        r#"{"Deep": {"x": {"from": 1, "to": 2}},
            "List": {"_array_diff": {"strategy": "keyed", "changed": [
                {"key": {"i": 1}, "changes": {"z": {"from": "a", "to": "b"}}}]}}}"#,
    );
    assert_eq!(js(&fc), left);
    let mut changed = vec![stub_diff("0x00000001", "STAT", fc)];
    let mut counts: Vec<(String, u64)> = Vec::new();
    apply_restamp_calibrated_suppression(&mut changed, &vec![true], &mut counts, 1);
    assert_eq!(changed.len(), 1);
    assert_eq!(js(&changed[0].field_changes), left);
}
