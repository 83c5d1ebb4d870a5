//! Filters on decoded records.
use esm::filter::{
    collect_all_formid_values, collect_field_paths, collect_formid_paths, collect_scalars,
    effective_take, looks_like_decoded_formid, predicate_matches, FilterOp, Numbers,
};
use esm::json::{Object, Value};
use std::collections::BTreeMap;

/// A JSON text as a value of the library.
fn val(text: &str) -> Value {
    from_serde(&serde_json::from_str(text).unwrap())
}

fn from_serde(v: &serde_json::Value) -> Value {
    match v {
        serde_json::Value::Null => Value::Null,
        serde_json::Value::Bool(b) => Value::Bool(*b),
        serde_json::Value::Number(n) => {
            if let Some(i) = n.as_i64() {
                Value::Int(i as i128)
            } else if let Some(u) = n.as_u64() {
                Value::Int(u as i128)
            } else {
                Value::Float((n.as_f64().unwrap() as f32).to_bits())
            }
        }
        serde_json::Value::String(s) => Value::String(s.clone()),
        serde_json::Value::Array(a) => Value::Array(a.iter().map(from_serde).collect()),
        serde_json::Value::Object(o) => {
            let mut out = Object::new();
            for (k, w) in o {
                out.insert(k.clone(), from_serde(w));
            }
            Value::Object(out)
        }
    }
}


/// A key that orders numbers as their values do.
fn order_key(x: f64) -> i64 {
    let bits = x.to_bits() as i64;
    if bits >= 0 {
        bits
    } else {
        i64::MIN - bits
    }
}

/// What a filter needs to know of the numbers in a value and in its operand.
fn numbers(fields: &Value, operand: Option<&str>) -> Numbers {
    let mut nums = Numbers {
        shown: BTreeMap::new(),
        floats: BTreeMap::new(),
        integers: BTreeMap::new(),
        texts: vec![],
    };
    let mut list = Vec::new();
    collect_scalars(fields, &mut list);
    for v in &list {
        match v {
            Value::Int(n) => {
                nums.integers.insert(*n, order_key(*n as f64));
            }
            Value::Float(b) => {
                let x: f64 = f32::from_bits(*b).to_string().parse().unwrap();
                nums.shown.insert(*b, serde_json::Value::from(x).to_string());
                nums.floats.insert(*b, order_key(x));
            }
            Value::String(s) => {
                if let Ok(x) = s.parse::<f64>() {
                    nums.texts.push((s.clone(), order_key(x)));
                }
            }
            _ => {}
        }
    }
    if let Some(s) = operand {
        if let Ok(x) = s.parse::<f64>() {
            nums.texts.push((s.to_string(), order_key(x)));
        }
    }
    nums
}

fn matches(fields: &Value, path: Option<&str>, op: FilterOp, value: Option<&str>) -> bool {
    predicate_matches(fields, path, op, value, &numbers(fields, value))
}

#[test]
fn simple_top_level_eq() {
    let fields = val(r#"{"EditorID": "TestWeapon"}"#);
    assert!(matches(&fields, Some("EditorID"), FilterOp::Eq, Some("testweapon")));
    assert!(!matches(&fields, Some("EditorID"), FilterOp::Eq, Some("other")));
}

#[test]
fn numbers_are_equal_however_they_are_written() {
    let fields = val(r#"{"V": "50.0", "W": 0.1, "N": 50, "T": "5e1x"}"#);
    assert!(matches(&fields, Some("V"), FilterOp::Eq, Some("50")));
    assert!(matches(&fields, Some("V"), FilterOp::Eq, Some("5e1")));
    assert!(!matches(&fields, Some("V"), FilterOp::Eq, Some("50.5")));
    assert!(matches(&fields, Some("W"), FilterOp::Eq, Some("0.1")));
    assert!(matches(&fields, Some("N"), FilterOp::Eq, Some("50.0")));
    assert!(matches(&fields, Some("T"), FilterOp::Eq, Some("5E1X")));
    assert!(!matches(&fields, Some("T"), FilterOp::Eq, Some("50")));
}

#[test]
fn simple_top_level_contains() {
    let fields = val(r#"{"Name": "Combat Rifle"}"#);
    assert!(matches(&fields, Some("Name"), FilterOp::Contains, Some("rifle")));
    assert!(!matches(&fields, Some("Name"), FilterOp::Contains, Some("shotgun")));
}

#[test]
fn simple_top_level_gt() {
    let fields = val(r#"{"Value": 50}"#);
    assert!(matches(&fields, Some("Value"), FilterOp::Gt, Some("10")));
    assert!(!matches(&fields, Some("Value"), FilterOp::Gt, Some("100")));
}

#[test]
fn nested_dot_path_navigation() {
    let fields = val(r#"{"Data": {"Damage": 25, "Weight": 5.5}}"#);
    assert!(matches(&fields, Some("Data.Damage"), FilterOp::Eq, Some("25")));
    assert!(matches(&fields, Some("Data.Weight"), FilterOp::Lt, Some("10")));
    assert!(!matches(&fields, Some("Data.Missing"), FilterOp::Exists, None));
}

#[test]
fn array_wildcard_matches_any_element() {
    let fields = val(r#"{"Components": [{"Component": "Steel", "Count": 2}, {"Component": "Wood", "Count": 1}]}"#);
    assert!(matches(&fields, Some("Components.[].Component"), FilterOp::Eq, Some("Wood")));
    assert!(!matches(&fields, Some("Components.[].Component"), FilterOp::Eq, Some("Aluminum")));
}

#[test]
fn empty_path_deep_scan() {
    let fields = val(r#"{"Data": {"Damage": 25}, "Keywords": ["WeapTypeRifle", "Craftable"]}"#);
    assert!(matches(&fields, None, FilterOp::Eq, Some("25")));
    assert!(matches(&fields, Some(""), FilterOp::Contains, Some("rifle")));
    assert!(!matches(&fields, None, FilterOp::Eq, Some("nope")));
}

#[test]
fn exists_on_present_but_null_field() {
    let fields = val(r#"{"Optional": null}"#);
    assert!(matches(&fields, Some("Optional"), FilterOp::Exists, None));
}

#[test]
fn exists_on_genuinely_missing_field() {
    let fields = val(r#"{"Other": 1}"#);
    assert!(!matches(&fields, Some("Missing"), FilterOp::Exists, None));
}

#[test]
fn numeric_eq_matches_string_value_against_json_number() {
    let fields = val(r#"{"Value": 50.0}"#);
    assert!(matches(&fields, Some("Value"), FilterOp::Eq, Some("50")));
}

#[test]
fn contains_matches_substring_of_stringified_number() {
    let fields = val(r#"{"Code": 1234}"#);
    assert!(matches(&fields, Some("Code"), FilterOp::Contains, Some("23")));
}

#[test]
fn gt_wrong_type_does_not_match() {
    let fields = val(r#"{"Name": "not a number"}"#);
    assert!(!matches(&fields, Some("Name"), FilterOp::Gt, Some("10")));
}

#[test]
fn gt_unparseable_value_does_not_match() {
    let fields = val(r#"{"Value": 50}"#);
    assert!(!matches(&fields, Some("Value"), FilterOp::Gt, Some("not-a-number")));
}

#[test]
fn contains_on_object_deep_scans_nested_values() {
    let fields = val(r#"{"Data": {"Nested": {"Label": "SpecialSteel"}}}"#);
    assert!(matches(&fields, Some("Data"), FilterOp::Contains, Some("steel")));
    assert!(!matches(&fields, Some("Data"), FilterOp::Contains, Some("wood")));
}

#[test]
fn every_operator_compares_numbers() {
    let fields = val(r#"{"n": -3, "f": 2.5, "s": "7"}"#);
    assert!(matches(&fields, Some("n"), FilterOp::Lt, Some("-2.5")));
    assert!(matches(&fields, Some("n"), FilterOp::Lte, Some("-3")));
    assert!(matches(&fields, Some("n"), FilterOp::Gte, Some("-3.0")));
    assert!(!matches(&fields, Some("n"), FilterOp::Gt, Some("-3")));
    assert!(matches(&fields, Some("f"), FilterOp::Gt, Some("2")));
    assert!(matches(&fields, Some("s"), FilterOp::Gte, Some("7")));
    assert!(!matches(&fields, Some("s"), FilterOp::Gt, None));
}

#[test]
fn a_path_is_trimmed_and_needs_every_segment() {
    let fields = val(r#"{"a": {"b": [ {"c": true}, {"c": null} ]}}"#);
    assert!(matches(&fields, Some("  a.b.[].c "), FilterOp::Eq, Some("TRUE")));
    assert!(matches(&fields, Some("a.b.[].c"), FilterOp::Eq, Some("null")));
    assert!(!matches(&fields, Some("a.[].c"), FilterOp::Exists, None));
    assert!(!matches(&fields, Some("a.b.c"), FilterOp::Exists, None));
    assert!(matches(&fields, Some("   "), FilterOp::Eq, Some("true")));
}

#[test]
fn containers_match_only_by_what_they_hold() {
    let fields = val(r#"{"a": {"b": "Steel"}}"#);
    assert!(!matches(&fields, Some("a"), FilterOp::Eq, Some("Steel")));
    assert!(matches(&fields, Some("a"), FilterOp::Contains, Some("STEEL")));
    assert!(matches(&fields, Some("a"), FilterOp::Exists, None));
}

#[test]
fn no_limit_is_no_limit() {
    assert_eq!(effective_take(0), usize::MAX);
    assert_eq!(effective_take(7), 7);
}

#[test]
fn field_paths_are_sorted_and_share_array_levels() {
    let v = val(r#"{"b": 1, "a": [{"x": 1}, {"y": [2]}]}"#);
    let mut out = Vec::new();
    collect_field_paths(&v, "", &mut out, 100);
    assert_eq!(out, vec!["a", "a.[]", "a.[].x", "a.[].y", "a.[].y.[]", "b"]);
    let mut few = Vec::new();
    collect_field_paths(&v, "", &mut few, 2);
    assert_eq!(few, vec!["a", "a.[]"]);
}

#[test]
fn formid_paths_name_the_place() {
    let v = val(
        r#"{"Effects": [{"P": "0x0004FE3D"}, {"Q": {"R": ["x", "0x0004FE3D"]}}], "T": "0x00000001"}"#,
    );
    let mut out = Vec::new();
    collect_formid_paths(&v, "0x0004FE3D", "", &mut out);
    assert_eq!(out, vec!["Effects[0].P", "Effects[1].Q.R[1]"]);
    let mut all = Vec::new();
    collect_all_formid_values(&v, &mut all);
    assert_eq!(all, vec!["0x0004FE3D", "0x0004FE3D", "0x00000001"]);
}

#[test]
fn decoded_formids_have_one_shape() {
    assert!(looks_like_decoded_formid("0x0004FE3D"));
    assert!(looks_like_decoded_formid("0x0004fe3d"));
    assert!(!looks_like_decoded_formid("0X0004FE3D"));
    assert!(!looks_like_decoded_formid("0x4FE3D"));
    assert!(!looks_like_decoded_formid("0x0004FE3G"));
}
