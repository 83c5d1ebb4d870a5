//! Plugins in memory, and what can be asked of them.
use esm::coverage::{count_markers, coverage_report, Markers};
use esm::curves::{Curve, CurveIndex, CurvePoint};
use esm::database::Database;
use esm::decode::context::ResolveDepth;
use esm::diff::databases::{diff_databases, diff_databases_with};
use esm::diff::report::{BodyDetail, DiffOptions};
use esm::dispatch::{
    diff_locked, diff_pair, dispatch_op, search_types, walk_matches, KeyOrder, LockOrder, Op,
    Reply, Response,
};
use esm::error::Error;
use esm::filter::{FilterOp, Numbers, SearchField};
use esm::format::Signature;
use esm::formid::FormId;
use esm::hardcoded::{table, RawEntry};
use esm::ipc::{explain_hardcoded_miss, raw_record_view, resolve_sel, RecordSel, RefSort};
use esm::json::{Object, Value};
use esm::reader::{
    EsmFile, OwnedSubrecord, ParsedRecord, RecordHeaderInfo, RecordMeta, StoredRecord,
};
use esm::schema::{EnumFormat, IntegerWidth, MemberDef, RecordDef, Schema, ValueFormat};
use esm::selectors::{EntryPointSpec, OmodPropertySpec};
use esm::strings::Localization;
use esm::tree::{read_stub_at, ChildRef, GroupChild};
use std::collections::BTreeMap;

/// A JSON text as a value of the library.
fn val(text: &str) -> Value {
    from_serde(&serde_json::from_str(text).unwrap())
}

fn from_serde(v: &serde_json::Value) -> Value {
    match v {
        serde_json::Value::Null => Value::Null,
        serde_json::Value::Bool(b) => Value::Bool(*b),
        serde_json::Value::Number(n) => {
            if let Some(i) = n.as_i64() {
                Value::Int(i as i128)
            } else if let Some(u) = n.as_u64() {
                Value::Int(u as i128)
            } else {
                Value::Float((n.as_f64().unwrap() as f32).to_bits())
            }
        }
        serde_json::Value::String(s) => Value::String(s.clone()),
        serde_json::Value::Array(a) => Value::Array(a.iter().map(from_serde).collect()),
        serde_json::Value::Object(o) => {
            let mut out = Object::new();
            for (k, w) in o {
                out.insert(k.clone(), from_serde(w));
            }
            Value::Object(out)
        }
    }
}

/// A value of the library as JSON.
fn js(v: &Value) -> serde_json::Value {
    match v {
        Value::Null => serde_json::Value::Null,
        Value::Bool(b) => serde_json::Value::Bool(*b),
        Value::Int(n) => {
            if *n >= 0 {
                serde_json::Value::from(*n as u64)
            } else {
                serde_json::Value::from(*n as i64)
            }
        }
        Value::Float(b) => {
            serde_json::Value::from(f32::from_bits(*b).to_string().parse::<f64>().unwrap())
        }
        Value::String(s) => serde_json::Value::from(s.clone()),
        Value::Array(a) => serde_json::Value::Array(a.iter().map(js).collect()),
        Value::Object(o) => js_object(o),
        other => panic!("a query without an answer: {:?}", other),
    }
}

fn js_object(o: &Object) -> serde_json::Value {
    let mut out = serde_json::Map::new();
    for (k, v) in &o.entries {
        out.insert(k.clone(), js(v));
    }
    serde_json::Value::Object(out)
}

// ── A small plugin ──────────────────────────────────────────────────────────
struct Rec {
    id: u32,
    sig: &'static str,
    version: u16,
    subs: Vec<(&'static str, Vec<u8>)>,
}

fn rec(id: u32, sig: &'static str, subs: Vec<(&'static str, Vec<u8>)>) -> Rec {
    Rec { id, sig, version: 208, subs }
}

fn edid(s: &str) -> (&'static str, Vec<u8>) {
    ("EDID", zstring(s))
}

fn zstring(s: &str) -> Vec<u8> {
    let mut v = s.as_bytes().to_vec();
    v.push(0);
    v
}

fn le(n: u32) -> Vec<u8> {
    n.to_le_bytes().to_vec()
}

fn int_member(sig: &str, name: &str, width: IntegerWidth, format: Option<ValueFormat>) -> MemberDef {
    MemberDef::Integer {
        sig: Some(sig.to_string()),
        name: name.to_string(),
        width,
        signed: false,
        format,
        from_version: None,
        below_version: None,
        from_size: None,
        stop_before: vec![],
    }
}

fn text_member(sig: &str, name: &str) -> MemberDef {
    MemberDef::String { sig: Some(sig.to_string()), name: name.to_string(), sized: None }
}

fn ref_member(sig: &str, name: &str) -> MemberDef {
    MemberDef::FormId {
        sig: Some(sig.to_string()),
        name: name.to_string(),
        valid_refs: vec![],
        from_version: None,
        below_version: None,
        from_size: None,
    }
}

fn group(name: &str, members: Vec<MemberDef>) -> MemberDef {
    MemberDef::RStruct { name: name.to_string(), members }
}

fn named(values: &[&str]) -> Option<ValueFormat> {
    Some(ValueFormat::Enum {
        values: EnumFormat::Dense(values.iter().map(|s| s.to_string()).collect()),
    })
}

fn schema() -> Schema {
    let record = |sig: &str, name: &str, members: Vec<MemberDef>| {
        (sig.to_string(), RecordDef { name: name.to_string(), members })
    };
    Schema {
        records: vec![
            record(
                "WEAP",
                "Weapon",
                vec![
                    text_member("EDID", "EditorID"),
                    text_member("FULL", "Name"),
                    int_member("DATA", "Value", IntegerWidth::U32, None),
                    ref_member("KYWD", "Keyword"),
                ],
            ),
            record(
                "KYWD",
                "Keyword",
                vec![text_member("EDID", "EditorID"), ref_member("NEXT", "Next")],
            ),
            record(
                "CURV",
                "Curve Table",
                vec![text_member("EDID", "EditorID"), text_member("JASF", "Path")],
            ),
            record(
                "PERK",
                "Perk",
                vec![
                    text_member("EDID", "EditorID"),
                    MemberDef::RArray {
                        name: "Effects".to_string(),
                        element: Box::new(group(
                            "Effect",
                            vec![group(
                                "Entry Point",
                                vec![int_member(
                                    "EPFT",
                                    "Entry Point",
                                    IntegerWidth::U8,
                                    named(&["Mod A", "Mod B", "Mod C"]),
                                )],
                            )],
                        )),
                        count: None,
                        stop_before: vec![],
                    },
                ],
            ),
            record(
                "OMOD",
                "Object Modification",
                vec![
                    text_member("EDID", "EditorID"),
                    group(
                        "Data",
                        vec![
                            int_member(
                                "FTYP",
                                "Form Type",
                                IntegerWidth::U8,
                                named(&["Armor", "Weapon"]),
                            ),
                            MemberDef::RArray {
                                name: "Properties".to_string(),
                                element: Box::new(int_member(
                                    "PROP",
                                    "Property",
                                    IntegerWidth::U8,
                                    named(&["Speed", "Reach"]),
                                )),
                                count: None,
                                stop_before: vec![],
                            },
                        ],
                    ),
                ],
            ),
        ],
    }
}

fn meta_of(r: &Rec, offset: u64) -> RecordMeta {
    RecordMeta {
        offset,
        signature: Signature::from_slice(r.sig.as_bytes()),
        flags: 0,
        form_version: r.version,
    }
}

fn database(recs: Vec<Rec>) -> Database {
    let mut order = Vec::new();
    let mut records = BTreeMap::new();
    let mut list = Vec::new();
    for (i, r) in recs.into_iter().enumerate() {
        let offset = 24 + 100 * i as u64;
        let meta = meta_of(&r, offset);
        let mut payload = Vec::new();
        let mut subrecords = Vec::new();
        for (doc_index, (sig, data)) in r.subs.into_iter().enumerate() {
            payload.extend_from_slice(sig.as_bytes());
            payload.extend_from_slice(&data);
            subrecords.push(OwnedSubrecord {
                signature: Signature::from_slice(sig.as_bytes()),
                data,
                doc_index,
            });
        }
        let record = ParsedRecord {
            header: RecordHeaderInfo {
                signature: r.sig.to_string(),
                form_id: FormId::new(r.id),
                flags: 0,
                form_version: r.version,
            },
            subrecords,
        };
        order.push(offset);
        list.push((FormId::new(r.id), meta));
        records.insert(offset, StoredRecord { meta, payload, record: Some(record) });
    }
    let hardcoded = table(&vec![RawEntry {
        formid: "0x399".to_string(),
        record_type: "AVIF".to_string(),
        editor_id: Some("KillStreak".to_string()),
    }])
    .unwrap();
    let esm = EsmFile { path: "test.esm".to_string(), data: vec![], order, records };
    Database::new(
        esm,
        "test.esm".to_string(),
        &list,
        schema(),
        false,
        None,
        None,
        vec![],
        hardcoded,
    )
}

fn small() -> Database {
    database(vec![
        rec(
            0x20,
            "WEAP",
            vec![
                edid("GunB"),
                ("FULL", zstring("Combat Rifle")),
                ("DATA", le(50)),
                ("KYWD", le(0x30)),
            ],
        ),
        rec(
            0x10,
            "WEAP",
            vec![
                edid("GunA"),
                ("FULL", zstring("Shotgun")),
                ("DATA", le(7)),
                ("KYWD", le(0x399)),
            ],
        ),
        rec(0x30, "KYWD", vec![edid("WeaponTypeRifle"), ("NEXT", le(0x31))]),
        rec(0x31, "KYWD", vec![edid("Deeper"), ("NEXT", le(0x32))]),
        rec(0x32, "KYWD", vec![edid("Deepest"), ("NEXT", le(0x31))]),
    ])
}

fn no_numbers() -> Numbers {
    Numbers {
        shown: BTreeMap::new(),
        floats: BTreeMap::new(),
        integers: BTreeMap::new(),
        texts: vec![],
    }
}

/// What a filter needs to know of small whole numbers.
fn whole_numbers() -> Numbers {
    let mut n = no_numbers();
    for i in 0..100 {
        n.integers.insert(i, i as i64);
        n.texts.push((i.to_string(), i as i64));
    }
    n
}

/// The record at an offset made unreadable.
fn damaged(mut db: Database, offset: u64) -> Database {
    db.esm.records.get_mut(&offset).unwrap().record = None;
    db
}

// ── Records ─────────────────────────────────────────────────────────────────
#[test]
fn records_are_decoded_by_formid_and_by_editor_id() {
    let mut db = small();
    let r = db.record_by_formid(FormId::new(0x20)).unwrap();
    assert_eq!(r.header.signature, "WEAP");
    assert_eq!(r.editor_id.as_deref(), Some("GunB"));
    assert_eq!(js(&r.fields)["Value"], 50);
    assert_eq!(js(&r.fields)["Keyword"], "0x00000030");
    let by_edid = db.record_by_edid("GunB").unwrap();
    assert_eq!(js(&by_edid.fields), js(&r.fields));
    assert!(matches!(
        db.record_by_formid(FormId::new(0x99)),
        Err(Error::FormIdNotFound(id)) if id == FormId::new(0x99)
    ));
    assert!(matches!(db.record_by_edid("gunb"), Err(Error::EditorIdNotFound(s)) if s == "gunb"));
}

#[test]
fn references_are_followed_as_deep_as_asked() {
    let mut db = small();
    let stub = db.record_by_formid_resolved(FormId::new(0x20), ResolveDepth::Stub).unwrap();
    let stub = js(&stub.fields);
    assert_eq!(stub["Keyword"]["formid"], "0x00000030");
    assert_eq!(stub["Keyword"]["editor_id"], "WeaponTypeRifle");
    assert_eq!(stub["Keyword"]["record_type"], "KYWD");
    assert!(stub["Keyword"].get("fields").is_none());

    let full = db.record_by_edid_resolved("GunB", ResolveDepth::Full).unwrap();
    let full = js(&full.fields);
    let first = &full["Keyword"]["fields"];
    assert_eq!(first["EditorID"], "WeaponTypeRifle");
    let second = &first["Next"]["fields"];
    assert_eq!(second["EditorID"], "Deeper");
    assert_eq!(second["Next"]["editor_id"], "Deepest");
    assert!(second["Next"].get("fields").is_none(), "two steps and no more");
}

#[test]
fn forms_of_the_game_stand_in_where_there_is_no_record() {
    let db = small();
    let r = db.record_by_formid_resolved(FormId::new(0x10), ResolveDepth::Full).unwrap();
    assert_eq!(js(&r.fields)["Keyword"]["editor_id"], "KillStreak");
    assert_eq!(js(&r.fields)["Keyword"]["record_type"], "AVIF");
}

#[test]
fn a_curve_record_holds_its_points() {
    let mut db = database(vec![rec(
        0x40,
        "CURV",
        vec![edid("CT"), ("JASF", zstring("a.json"))],
    )]);
    assert!(!db.has_enrichment());
    let plain = db.record_by_formid(FormId::new(0x40)).unwrap();
    assert!(js(&plain.fields).get("Curve").is_none());
    let curve = Curve {
        edid: Some("CT".to_string()),
        path: "a.json".to_string(),
        points: vec![CurvePoint { x: 1.0f32.to_bits(), y: 2.5f32.to_bits() }],
    };
    db.set_curves(CurveIndex::from_entries(BTreeMap::from([(0x40, curve)])));
    assert!(db.has_enrichment());
    let r = db.record_by_formid(FormId::new(0x40)).unwrap();
    assert_eq!(js(&r.fields)["Curve"][0]["y"], 2.5);
}

#[test]
fn damaged_records_are_reported() {
    let mut db = damaged(small(), 24);
    assert!(matches!(db.record_by_formid(FormId::new(0x20)), Err(Error::Unreadable(24))));
    assert!(matches!(db.record_by_edid("GunA"), Err(Error::Unreadable(24))));
    assert!(matches!(db.record_raw(FormId::new(0x20)), Err(Error::Unreadable(24))));
    assert!(matches!(db.list_by_type("WEAP", 0), Err(Error::Unreadable(24))));
    assert_eq!(db.list_by_type("WEAP", 1).unwrap().len(), 1, "the first can be read");
    assert!(matches!(db.list_type_records("WEAP", 0, 0), Err(Error::Unreadable(24))));
    assert!(matches!(db.record_row_for(FormId::new(0x20)), Err(Error::Unreadable(24))));
    let nums = no_numbers();
    assert!(matches!(
        db.filter_type_records("WEAP", None, FilterOp::Exists, None, &nums, 0),
        Err(Error::Unreadable(24))
    ));
    assert!(matches!(db.list_type_field_paths("WEAP"), Err(Error::Unreadable(24))));
    assert!(db.formid_reference_paths(FormId::new(0x20), FormId::new(0x30)).is_empty());
    assert!(db.outgoing_formids(FormId::new(0x20)).is_empty());
}

#[test]
fn raw_records_are_shown_in_hexadecimal() {
    let db = small();
    let v = raw_record_view(db.record_raw(FormId::new(0x10)).unwrap());
    assert_eq!(v.header.form_id, FormId::new(0x10));
    assert_eq!(v.subrecords[2].signature, "DATA");
    assert_eq!(v.subrecords[2].size, 4);
    assert_eq!(v.subrecords[2].hex, "07000000");
    assert_eq!(db.parse_record_at(24).unwrap().header.form_id, FormId::new(0x20));
    assert!(db.parse_record_at(25).is_err());
}

// ── Lists ───────────────────────────────────────────────────────────────────
#[test]
fn records_of_a_type_are_listed_by_formid() {
    let db = small();
    let list = db.list_by_type("WEAP", 0).unwrap();
    let ids: Vec<&str> = list.iter().map(|e| e.form_id.as_str()).collect();
    assert_eq!(ids, vec!["0x00000010", "0x00000020"]);
    assert_eq!(list[0].editor_id.as_deref(), Some("GunA"));
    assert_eq!(db.list_by_type("WEAP", 1).unwrap().len(), 1);
    assert_eq!(db.list_by_type("NPC_", 0).unwrap().len(), 0);
    assert!(matches!(db.list_by_type("WEAPON", 0), Err(Error::BadRecordType)));
    assert!(matches!(db.list_type_records("X", 0, 0), Err(Error::BadRecordType)));
}

#[test]
fn pages_of_a_type() {
    let db = small();
    let ids = |offset: usize, limit: usize| -> Vec<String> {
        let rows = db.list_type_records("KYWD", offset, limit).unwrap();
        rows.into_iter().map(|r| r.form_id).collect()
    };
    assert_eq!(ids(0, 0).len(), 3);
    assert_eq!(ids(1, 1), vec!["0x00000031"]);
    assert_eq!(ids(2, 5), vec!["0x00000032"]);
    assert!(ids(7, 0).is_empty());
}

#[test]
fn names_come_from_the_string_tables() {
    let mut db = database(vec![rec(0x20, "WEAP", vec![edid("Gun"), ("FULL", le(7))])]);
    assert!(db.list_type_records("WEAP", 0, 0).unwrap()[0].name.is_none());
    db.is_localized = true;
    db.set_localization(Localization {
        strings: BTreeMap::from([(7, "Alien Blaster".to_string())]),
        dlstrings: BTreeMap::new(),
        ilstrings: BTreeMap::new(),
    });
    assert!(db.localization().is_some());
    let row = &db.list_type_records("WEAP", 0, 0).unwrap()[0];
    assert_eq!(row.name.as_deref(), Some("Alien Blaster"));
    assert_eq!(db.list_by_type("WEAP", 0).unwrap()[0].full_lstring_id.as_deref(), Some("0x00000007"));
    let found = db.search("alien", &vec![], SearchField::Name, 0);
    assert_eq!(found.len(), 1);
    assert_eq!(found[0].name.as_deref(), Some("Alien Blaster"));
}

#[test]
fn descriptions_are_found_in_their_own_table() {
    let mut db = database(vec![
        rec(0x20, "WEAP", vec![edid("Gun"), ("DESC", le(9))]),
        rec(0x21, "LSCR", vec![edid("Screen"), ("DESC", le(9))]),
    ]);
    db.is_localized = true;
    db.set_localization(Localization {
        strings: BTreeMap::from([(9, "Loading".to_string())]),
        dlstrings: BTreeMap::from([(9, "A fine blaster".to_string())]),
        ilstrings: BTreeMap::new(),
    });
    assert_eq!(found(&mut db, "blaster", &[], SearchField::Name, 0), vec!["Gun"]);
    assert_eq!(found(&mut db, "blaster", &[], SearchField::Both, 0), vec!["Gun"]);
    assert_eq!(found(&mut db, "loading", &[], SearchField::Name, 0), vec!["Screen"]);
    assert!(found(&mut db, "blaster", &[], SearchField::Edid, 0).is_empty());
}

#[test]
fn references_are_listed_both_ways() {
    let mut db = small();
    let rows = db.referenced_by(FormId::new(0x31)).unwrap();
    let ids: Vec<&str> = rows.iter().map(|r| r.form_id.as_str()).collect();
    assert_eq!(ids, vec!["0x00000030", "0x00000032"]);
    let rows = db.referenced_by(FormId::new(0x399)).unwrap();
    assert_eq!(rows[0].editor_id.as_deref(), Some("GunA"));
    assert!(db.referenced_by(FormId::new(0x10)).unwrap().is_empty());
    assert_eq!(db.outgoing_formids(FormId::new(0x20)), vec![FormId::new(0x30)]);
    assert_eq!(
        db.formid_reference_paths(FormId::new(0x20), FormId::new(0x30)),
        vec!["Keyword"]
    );
    assert!(db.record_row_for(FormId::new(0x77)).unwrap().is_none());
}

// ── Search ──────────────────────────────────────────────────────────────────
fn found(db: &mut Database, pattern: &str, types: &[&str], field: SearchField, limit: usize) -> Vec<String> {
    let types: Vec<String> = types.iter().map(|s| s.to_string()).collect();
    let rows = db.search(pattern, &types, field, limit);
    rows.into_iter().map(|r| r.editor_id.unwrap_or_default()).collect()
}

#[test]
fn search_looks_where_it_is_told() {
    let mut db = small();
    assert_eq!(found(&mut db, "gun", &[], SearchField::Both, 0), vec!["GunA", "GunB"]);
    assert_eq!(found(&mut db, "gun", &[], SearchField::Edid, 0), vec!["GunA", "GunB"]);
    assert_eq!(found(&mut db, "gun", &[], SearchField::Name, 0), vec!["GunA"]);
    assert_eq!(found(&mut db, "gun", &[], SearchField::Both, 1), vec!["GunA"]);
    assert_eq!(found(&mut db, "rifle", &["WEAP"], SearchField::Both, 0), vec!["GunB"]);
    assert_eq!(
        found(&mut db, "rifle", &["WEAP", "KYWD"], SearchField::Both, 0),
        vec!["GunB", "WeaponTypeRifle"]
    );
    assert_eq!(found(&mut db, "Gun*", &[], SearchField::Edid, 0).len(), 2);
    assert_eq!(found(&mut db, "*", &[], SearchField::Both, 0).len(), 5);
    assert!(found(&mut db, "nothing", &[], SearchField::Both, 0).is_empty());
    let rows = db.search("GunA", &vec![], SearchField::Edid, 0);
    assert!(rows[0].name.is_none(), "names are not looked up for EditorIDs alone");
    assert_eq!(rows[0].record_type.as_deref(), Some("WEAP"));
}

// ── Filters ─────────────────────────────────────────────────────────────────
#[test]
fn filters_count_what_they_looked_at() {
    let mut db = small();
    let nums = whole_numbers();
    let r = db.filter_type_records("weap", Some("Value"), FilterOp::Gt, Some("10"), &nums, 0).unwrap();
    assert_eq!(r.rows.len(), 1);
    assert_eq!(r.rows[0].editor_id.as_deref(), Some("GunB"));
    assert_eq!(r.rows[0].record_type.as_deref(), Some("WEAP"));
    assert_eq!((r.matched, r.scanned, r.total), (1, 2, 2));
    assert!(!r.capped && !r.scan_capped);
    let r = db.filter_type_records("WEAP", None, FilterOp::Exists, None, &nums, 1).unwrap();
    assert_eq!((r.rows.len(), r.matched), (1, 2));
    assert!(r.capped);
    assert_eq!(r.rows[0].form_id, "0x00000010");
}

#[test]
fn filters_look_at_a_limited_number_of_records() {
    let count = 20_005u32;
    let recs = (0..count).rev().map(|i| rec(i + 1, "KYWD", vec![])).collect();
    let mut db = database(recs);
    for _ in 0..2 {
        let r = db
            .filter_type_records("KYWD", None, FilterOp::Exists, None, &no_numbers(), 0)
            .unwrap();
        assert_eq!((r.matched, r.scanned, r.total), (r.rows.len(), 20_000, 20_005));
        assert!(r.scan_capped && !r.capped);
        assert!(r.rows.windows(2).all(|w| w[0].form_id < w[1].form_id));
    }
}

#[test]
fn filters_keep_what_they_have_decoded() {
    let mut db = small();
    let nums = whole_numbers();
    let first = db.filter_type_records("WEAP", None, FilterOp::Contains, Some("rifle"), &nums, 0).unwrap();
    db.esm.records.clear();
    let again = db.filter_type_records("WEAP", None, FilterOp::Contains, Some("rifle"), &nums, 0).unwrap();
    assert_eq!(first.matched, again.matched);
    assert_eq!(again.rows[0].editor_id.as_deref(), Some("GunB"));
}

#[test]
fn field_paths_of_a_type() {
    let mut db = small();
    assert_eq!(
        db.list_type_field_paths("weap").unwrap(),
        vec!["EditorID", "Keyword", "Name", "Value", "_record_type"]
    );
    assert!(db.list_type_field_paths("NPC_").unwrap().is_empty());
}

// ── Carriers ────────────────────────────────────────────────────────────────
fn perks() -> Database {
    database(vec![
        rec(0x50, "PERK", vec![edid("P50"), ("EPFT", vec![2]), ("EPFT", vec![1])]),
        rec(0x51, "PERK", vec![edid("P51"), ("EPFT", vec![0])]),
        rec(0x52, "PERK", vec![edid("P52"), ("EPFT", vec![1]), ("EPFT", vec![1])]),
        rec(0x53, "PERK", vec![edid("P53"), ("EPFT", vec![9])]),
    ])
}

#[test]
fn perks_carry_entry_points() {
    let mut db = perks();
    let (label, list) = db.perks_by_entry_point(&EntryPointSpec::Id(1)).unwrap();
    assert_eq!(label, "entry point 1 (Mod B)");
    let ids: Vec<u32> = list.iter().map(|c| c.0.raw()).collect();
    assert_eq!(ids, vec![0x50, 0x52]);
    assert_eq!(list[1].1.len(), 1, "a perk is tagged once for an entry point");

    let spec = EntryPointSpec::parse("mod*").unwrap();
    let (label, list) = db.perks_by_entry_point(&spec).unwrap();
    assert_eq!(label, "entry point 'mod*' (3 matched: 0 Mod A, 1 Mod B, 2 Mod C)");
    let ids: Vec<u32> = list.iter().map(|c| c.0.raw()).collect();
    assert_eq!(ids, vec![0x51, 0x50, 0x52], "by the smallest number, then by FormID");
    let tags: Vec<u16> = list[1].1.iter().map(|t| t.id).collect();
    assert_eq!(tags, vec![1, 2]);

    let (label, list) = db.perks_by_entry_point(&EntryPointSpec::Id(9)).unwrap();
    assert_eq!(label, "entry point 9 (unnamed)");
    assert!(list[0].1[0].name.is_none());
    let (label, list) = db.perks_by_entry_point(&EntryPointSpec::Id(77)).unwrap();
    assert_eq!(label, "entry point 77 (no match)");
    assert!(list.is_empty());
}

#[test]
fn omods_carry_properties() {
    let mut db = database(vec![
        rec(0x60, "OMOD", vec![edid("A"), ("FTYP", vec![0]), ("PROP", vec![0])]),
        rec(0x61, "OMOD", vec![edid("W"), ("FTYP", vec![1]), ("PROP", vec![1]), ("PROP", vec![0])]),
    ]);
    let (label, list) = db.omods_by_property(&OmodPropertySpec::parse("speed").unwrap()).unwrap();
    assert_eq!(label, "OMOD property 'speed' (2 matched: weap:0 Speed, armo:0 Speed)");
    assert_eq!(list.len(), 2);
    assert_eq!(list[0].1[0].scope.as_deref(), Some("armo"));
    let (label, list) = db.omods_by_property(&OmodPropertySpec::parse("weap:1").unwrap()).unwrap();
    assert_eq!(label, "OMOD property weap:1 (Reach)");
    assert_eq!(list.len(), 1);
    assert_eq!(list[0].0, FormId::new(0x61));
}

// ── Coverage ────────────────────────────────────────────────────────────────
#[test]
fn coverage_counts_markers_by_type() {
    let db = database(vec![
        rec(0x20, "WEAP", vec![edid("Gun"), ("ZZZZ", vec![1]), ("ZZZZ", vec![2])]),
        rec(0x21, "ABCD", vec![("DATA", vec![1])]),
        rec(0x22, "WEAP", vec![edid("Gun2")]),
    ]);
    let all = coverage_report(&db, None, 0).unwrap();
    let types: Vec<&str> = all.by_type.iter().map(|e| e.0.as_str()).collect();
    assert_eq!(types, vec!["ABCD", "WEAP"]);
    assert_eq!(all.by_type[1].1.unmapped, 2);
    assert_eq!(all.by_type[1].1.records, 2);
    assert_eq!(all.by_type[0].1.unknown_record, 1);
    assert_eq!(all.totals.unmapped, 3);
    assert_eq!(all.totals.total(), 4);
    let one = coverage_report(&db, Some("weap"), 1).unwrap();
    assert_eq!(one.by_type.len(), 1);
    assert_eq!(one.totals.records, 1);
    assert!(matches!(coverage_report(&db, Some("npc_"), 0), Err(Error::NoRecordsOfType(t)) if t == "npc_"));
}

#[test]
fn markers_are_counted_in_a_value() {
    let v = val(
        r#"{"a": {"_raw": true, "reason": "x"}, "b": [{"_raw": true}, {"_unresolved": true}],
            "_unmapped": {"ZZZZ": [{"_raw": true, "reason": "y"}]}}"#,
    );
    let mut m = Markers::default();
    count_markers(&v, &mut m);
    assert_eq!((m.raw_fallback, m.unresolved, m.unmapped, m.unknown_record), (1, 1, 1, 0));
    let mut sum = m;
    sum.add(&m);
    assert_eq!(sum.total(), 6);
    sum.records = u64::MAX;
    sum.add(&Markers { records: 1, ..m });
    assert_eq!(sum.records, u64::MAX);
}

// ── Requests ────────────────────────────────────────────────────────────────
#[test]
fn selectors_lead_to_records() {
    let mut db = small();
    let mut find = |sel: RecordSel| resolve_sel(&mut db, &sel);
    assert_eq!(find(RecordSel::FormId(FormId::new(0x77))).unwrap().raw(), 0x77);
    assert_eq!(find(RecordSel::Edid("GunA".into())).unwrap().raw(), 0x10);
    assert_eq!(find(RecordSel::Edid("KillStreak".into())).unwrap().raw(), 0x399);
    assert!(matches!(find(RecordSel::Edid("x".into())), Err(Error::EditorIdNotFound(_))));
    assert_eq!(find(RecordSel::Auto("16".into())).unwrap().raw(), 0x10);
    assert!(matches!(
        find(RecordSel::Auto("cafe".into())),
        Err(Error::TokenNotFound { form_id: FormId(0xCAFE), .. })
    ));
    assert!(matches!(find(RecordSel::EntryPoint("1".into())), Err(Error::EntryPointSelector(_))));
    assert!(matches!(find(RecordSel::OmodProperty("1".into())), Err(Error::OmodPropertySelector(_))));
}

#[test]
fn a_token_is_a_formid_before_it_is_an_editor_id() {
    let mut db = database(vec![
        rec(0xCAFE, "WEAP", vec![edid("First")]),
        rec(0x10, "WEAP", vec![edid("cafe")]),
        rec(0x11, "WEAP", vec![edid("beef")]),
        rec(0x12, "WEAP", vec![edid("KillStreak")]),
    ]);
    assert_eq!(resolve_sel(&mut db, &RecordSel::Auto("cafe".into())).unwrap().raw(), 0xCAFE);
    assert_eq!(resolve_sel(&mut db, &RecordSel::Auto("beef".into())).unwrap().raw(), 0x11);
    assert_eq!(
        resolve_sel(&mut db, &RecordSel::Edid("KillStreak".into())).unwrap().raw(),
        0x12,
        "a record goes before a form of the game"
    );
}

#[test]
fn a_form_of_the_game_is_explained() {
    let db = small();
    let e = explain_hardcoded_miss(&db.hardcoded, FormId::new(0x399), Error::Unreadable(1));
    assert!(matches!(e, Error::Hardcoded { .. }));
    let e = explain_hardcoded_miss(&db.hardcoded, FormId::new(0x398), Error::Unreadable(1));
    assert!(matches!(e, Error::Unreadable(1)));
}

fn ask(db: &mut Database, op: Op) -> Result<Reply, Error> {
    dispatch_op(db, &op, &whole_numbers())
}

#[test]
fn an_operation_leaves_the_answers_to_others_as_they_were() {
    let edid = |s: &str| RecordSel::Edid(s.to_string());
    let ops = || {
        let mut list = Vec::new();
        for depth in [ResolveDepth::Plain, ResolveDepth::Stub, ResolveDepth::Full] {
            list.push(Op::Record { sel: edid("GunA"), depth });
            list.push(Op::RecordBulk { sels: vec![edid("GunB"), edid("None")], depth });
        }
        list.push(Op::RecordRaw { sel: edid("GunA") });
        list.push(Op::ListTypeFieldPaths { sig: "WEAP".to_string() });
        list.push(Op::FilterTypeRecords {
            sig: "WEAP".to_string(),
            path: Some("Value".to_string()),
            filter_op: FilterOp::Gt,
            value: Some("10".to_string()),
            limit: 0,
        });
        list.push(Op::Search {
            pattern: "gun".to_string(),
            types: vec![],
            field: SearchField::Both,
            limit: 0,
        });
        list.push(Op::Coverage { record_type: None, sample: 0 });
        list
    };
    let alone: Vec<String> =
        ops().into_iter().map(|op| format!("{:?}", ask(&mut small(), op))).collect();
    let mut db = small();
    for _ in 0..2 {
        for (op, want) in ops().into_iter().zip(&alone) {
            assert_eq!(&format!("{:?}", ask(&mut db, op)), want);
        }
        for (op, want) in ops().into_iter().zip(&alone).rev() {
            assert_eq!(&format!("{:?}", ask(&mut db, op)), want);
        }
    }
}

#[test]
fn a_walk_that_finds_no_target_shows_what_matches_it() {
    let mut db = small();
    let names: Vec<String> =
        walk_matches(&mut db, "gun").into_iter().filter_map(|r| r.editor_id).collect();
    assert_eq!(names, vec!["GunA", "GunB"]);
    let many = (0..15).map(|i| rec(i + 1, "KYWD", vec![edid("Same")])).collect();
    let rows = walk_matches(&mut database(many), "same");
    assert_eq!(rows.len(), 10);
    assert_eq!(rows[9].form_id, "0x0000000A");
}

#[test]
fn operations_are_carried_out() {
    let mut db = small();
    let sel = || RecordSel::Edid("GunA".to_string());
    match ask(&mut db, Op::Record { sel: sel(), depth: ResolveDepth::Plain }) {
        Ok(Reply::Record(r)) => assert_eq!(js(&r.fields)["Value"], 7),
        other => panic!("{other:?}"),
    }
    let killed = RecordSel::Edid("KillStreak".to_string());
    assert!(matches!(
        ask(&mut db, Op::Record { sel: killed.clone(), depth: ResolveDepth::Plain }),
        Err(Error::Hardcoded { .. })
    ));
    assert!(matches!(ask(&mut db, Op::RecordRaw { sel: killed }), Err(Error::Hardcoded { .. })));
    match ask(&mut db, Op::RecordRaw { sel: sel() }) {
        Ok(Reply::Raw(v)) => assert_eq!(v.subrecords.len(), 4),
        other => panic!("{other:?}"),
    }
    match ask(&mut db, Op::ListByType { sig: "WEAP".into(), limit: 1 }) {
        Ok(Reply::List(list)) => assert_eq!(list.len(), 1),
        other => panic!("{other:?}"),
    }
    match ask(&mut db, Op::ListTypeRecords { sig: "KYWD".into(), offset: 1, limit: 0 }) {
        Ok(Reply::Rows(rows)) => assert_eq!(rows.len(), 2),
        other => panic!("{other:?}"),
    }
    let filter = Op::FilterTypeRecords {
        sig: "WEAP".into(),
        path: Some("Value".into()),
        filter_op: FilterOp::Eq,
        value: Some("7".into()),
        limit: 0,
    };
    match ask(&mut db, filter) {
        Ok(Reply::Filter(f)) => assert_eq!(f.rows[0].editor_id.as_deref(), Some("GunA")),
        other => panic!("{other:?}"),
    }
    match ask(&mut db, Op::ListTypeFieldPaths { sig: "KYWD".into() }) {
        Ok(Reply::Paths(list)) => assert_eq!(list, vec!["EditorID", "Next", "_record_type"]),
        other => panic!("{other:?}"),
    }
    match ask(&mut db, Op::Coverage { record_type: None, sample: 0 }) {
        Ok(Reply::Coverage(c)) => assert_eq!(c.totals.records, 5),
        other => panic!("{other:?}"),
    }
    assert!(matches!(ask(&mut db, Op::Shutdown), Ok(Reply::Nothing)));
    assert!(matches!(ask(&mut db, Op::ListGroups), Ok(Reply::Elsewhere)));
    let walk = Op::ReferencedBy {
        sel: sel(),
        limit: 0,
        depth: 1,
        type_filter: None,
        paths: false,
        sort: RefSort::default(),
    };
    assert!(matches!(ask(&mut db, walk), Ok(Reply::Elsewhere)));
    let diff = Op::Diff { b: "x".into(), record_type: None, options: DiffOptions::default() };
    assert!(matches!(ask(&mut db, diff), Err(Error::NeedsTwoFiles)));
    assert!(matches!(ask(&mut db, Op::RecordStubAt { offset: 0 }), Err(Error::OffsetOutOfRange(0))));
}

#[test]
fn several_records_fail_one_by_one() {
    let mut db = small();
    let sels = vec![RecordSel::Edid("GunA".into()), RecordSel::Edid("Nothing".into())];
    match ask(&mut db, Op::RecordBulk { sels, depth: ResolveDepth::Plain }) {
        Ok(Reply::Bulk(list)) => {
            assert_eq!(list.len(), 2);
            assert_eq!(list[0].sel, "GunA");
            assert_eq!(js(list[0].fields.as_ref().unwrap())["Value"], 7);
            assert!(list[0].error.is_none());
            assert_eq!(list[1].sel, "Nothing");
            assert!(list[1].header.is_none());
            assert_eq!(list[1].error.as_deref(), Some("EditorID 'Nothing' not found"));
        }
        other => panic!("{other:?}"),
    }
}

#[test]
fn search_requests_are_checked() {
    let mut db = small();
    let search = |pattern: &str, types: &[&str]| Op::Search {
        pattern: pattern.to_string(),
        types: types.iter().map(|s| s.to_string()).collect(),
        field: SearchField::Both,
        limit: 0,
    };
    assert!(matches!(ask(&mut db, search("", &[])), Err(Error::EmptyPattern)));
    assert!(matches!(
        ask(&mut db, search("gun", &["weap", "toolong"])),
        Err(Error::BadSearchType(t)) if t == "toolong"
    ));
    match ask(&mut db, search("gun", &["weap"])) {
        Ok(Reply::Rows(rows)) => assert_eq!(rows.len(), 2),
        other => panic!("{other:?}"),
    }
    assert_eq!(search_types(&vec!["weap".to_string()]).unwrap(), vec!["WEAP"]);
}

#[test]
fn drop_tables_and_paths_start_from_records() {
    let mut db = small();
    let table = Op::DropTable {
        sel: RecordSel::Edid("GunA".into()),
        level: 0,
        max_depth: 1,
        strict: false,
    };
    match ask(&mut db, table) {
        Err(Error::NotALeveledItem { selector, record_type }) => {
            assert_eq!(selector, "GunA");
            assert_eq!(record_type, "WEAP");
        }
        other => panic!("{other:?}"),
    }
    let path = |to: &str| Op::RefPath {
        from: RecordSel::Edid("GunA".into()),
        to: RecordSel::Edid(to.into()),
        max_hops: 0,
        paths: false,
    };
    assert!(matches!(
        ask(&mut db, path("GunB")),
        Ok(Reply::PathEnds(FormId(0x10), FormId(0x20)))
    ));
    assert!(matches!(ask(&mut db, path("none")), Err(Error::EditorIdNotFound(_))));
}

#[test]
fn answers_hold_data_or_a_reason() {
    assert!(matches!(Response::from_result(Ok(Reply::Nothing)), Response::Data { .. }));
    match Response::from_result(Err(Error::NoSelector)) {
        Response::Failure { error } => {
            assert_eq!(error, "specify a FormID/EditorID, or --formid/--edid")
        }
        other => panic!("{other:?}"),
    }
}

// ── Comparison ──────────────────────────────────────────────────────────────
fn weapon(id: u32, name: &str, value: u32) -> Rec {
    rec(id, "WEAP", vec![edid(name), ("FULL", zstring("Gun")), ("DATA", le(value))])
}

#[test]
fn a_plugin_does_not_differ_from_itself() {
    let a = small();
    let d = diff_databases(&a, &small()).unwrap();
    assert!(d.added.is_empty() && d.removed.is_empty() && d.changed.is_empty());
    assert!(d.ref_names.is_empty() && d.suppressed_counts.is_empty());
}

#[test]
fn plugins_are_compared_by_formid() {
    let a = database(vec![weapon(1, "One", 5), weapon(2, "Two", 5), weapon(4, "Four", 1)]);
    let b = database(vec![weapon(2, "TwoNew", 9), weapon(3, "Three", 1), weapon(4, "Four", 1)]);
    let opts = DiffOptions { bodies: BodyDetail::Stub, ..DiffOptions::default() };
    let d = diff_databases_with(&a, &b, &opts).unwrap();
    assert_eq!(d.added.len(), 1);
    assert_eq!(d.added[0].form_id, "0x00000003");
    assert_eq!(d.added[0].name.as_deref(), Some("Gun"));
    assert_eq!(js(d.added[0].fields.as_ref().unwrap())["Value"], 1);
    assert_eq!(d.removed.len(), 1);
    assert_eq!(d.removed[0].editor_id.as_deref(), Some("One"));
    assert_eq!(d.changed.len(), 1);
    assert_eq!(d.changed[0].prev_editor_id.as_deref(), Some("Two"));
    assert_eq!(d.changed[0].stub.editor_id.as_deref(), Some("TwoNew"));
    let changes = js(&d.changed[0].field_changes);
    assert_eq!(changes["Value"]["from"], 5);
    assert_eq!(changes["Value"]["to"], 9);

    let back = diff_databases_with(&b, &a, &opts).unwrap();
    assert_eq!(back.added[0].form_id, d.removed[0].form_id);
    assert_eq!(back.removed[0].form_id, d.added[0].form_id);
}

#[test]
fn types_and_bodies_are_left_out_on_request() {
    let a = database(vec![]);
    let b = database(vec![weapon(1, "One", 5), rec(9, "KYWD", vec![edid("K")])]);
    let opts = DiffOptions {
        bodies: BodyDetail::Omit,
        exclude_types: vec!["kywd".to_string()],
        ..DiffOptions::default()
    };
    let d = diff_databases_with(&a, &b, &opts).unwrap();
    assert_eq!(d.added.len(), 1);
    assert!(d.added[0].fields.is_none());
    let only = diff_locked(&a, &b, &DiffOptions::default(), &Some("kywd".to_string())).unwrap();
    assert_eq!(only.added.len(), 1);
    assert_eq!(only.added[0].record_type, "KYWD");
}

#[test]
fn references_in_a_report_are_named() {
    let a = database(vec![rec(0x30, "KYWD", vec![edid("Old")])]);
    let b = database(vec![
        rec(0x30, "KYWD", vec![edid("Old")]),
        rec(0x20, "WEAP", vec![edid("Gun"), ("KYWD", le(0x30))]),
    ]);
    let opts = DiffOptions { bodies: BodyDetail::Stub, ..DiffOptions::default() };
    let d = diff_databases_with(&a, &b, &opts).unwrap();
    assert_eq!(d.ref_names.len(), 1);
    assert_eq!(d.ref_names[0].0, "0x00000030");
    assert_eq!(d.ref_names[0].1.editor_id.as_deref(), Some("Old"));
    assert_eq!(d.ref_names[0].1.record_type, "KYWD");
}

#[test]
fn noise_is_counted_and_left_out() {
    let zeros = |version: u16, subs: Vec<(&'static str, Vec<u8>)>| Rec {
        id: 1,
        sig: "STAT",
        version,
        subs,
    };
    let schema = || Schema {
        records: vec![(
            "STAT".to_string(),
            RecordDef {
                name: "Static".to_string(),
                members: vec![MemberDef::Unknown {
                    sig: Some("XXXX".to_string()),
                    name: "Unknown".to_string(),
                }],
            },
        )],
    };
    let mut a = database(vec![zeros(200, vec![])]);
    let mut b = database(vec![zeros(208, vec![("XXXX", vec![0, 0])])]);
    a.schema = schema();
    b.schema = schema();
    let d = diff_databases(&a, &b).unwrap();
    assert!(d.changed.is_empty());
    assert_eq!(d.suppressed_counts, vec![("STAT".to_string(), 1)]);
    let loud = DiffOptions { suppress_noise: false, ..DiffOptions::default() };
    let d = diff_databases_with(&a, &b, &loud).unwrap();
    assert_eq!(d.changed.len(), 1);
    assert_ne!(js(&d.changed[0].field_changes), js(&Value::Object(Object::new())));
}

#[test]
fn damaged_data_does_not_stop_a_comparison() {
    let a = database(vec![weapon(1, "One", 5), weapon(2, "Two", 5)]);
    let b = damaged(database(vec![weapon(1, "One", 6), weapon(2, "Two", 6)]), 24);
    let d = diff_databases(&a, &b).unwrap();
    assert!(d.added.is_empty() && d.removed.is_empty());
    assert_eq!(d.changed.len(), 1);
    assert_eq!(d.changed[0].stub.form_id, "0x00000002");

    let none = database(vec![]);
    let d = diff_databases(&none, &b).unwrap();
    assert_eq!(d.added.len(), 2);
    assert_eq!(d.added[0].form_id, "0x00000001");
    assert_eq!(d.added[0].record_type, "WEAP");
    assert_eq!(d.added[0].offset, 24);
    assert!(d.added[0].editor_id.is_none() && d.added[0].name.is_none());
    assert!(d.added[0].description.is_none() && d.added[0].fields.is_none());
    assert!(d.added[1].fields.is_some());
    let d = diff_databases(&b, &none).unwrap();
    assert_eq!(d.removed.len(), 2);
    assert!(d.removed[0].fields.is_none());

    let mut gone = database(vec![weapon(1, "One", 6), weapon(2, "Two", 6)]);
    gone.esm.records.remove(&24);
    assert_eq!(diff_databases(&a, &gone).unwrap().changed.len(), 1);
    assert_eq!(diff_databases(&gone, &a).unwrap().changed.len(), 1);
    assert!(diff_databases(&gone, &gone).unwrap().changed.is_empty());
}

#[test]
fn a_record_of_a_left_out_type_is_never_reported() {
    let a = database(vec![weapon(1, "One", 5), rec(2, "LAND", vec![edid("Two")])]);
    let b = database(vec![rec(1, "LAND", vec![edid("One")]), weapon(2, "Two", 5)]);
    let opts = DiffOptions { suppress_noise: false, ..DiffOptions::default() };
    assert_eq!(diff_databases_with(&a, &b, &opts).unwrap().changed.len(), 2);
    let opts = DiffOptions { exclude_types: vec!["land".to_string()], ..opts };
    let d = diff_databases_with(&a, &b, &opts).unwrap();
    assert!(d.added.is_empty() && d.removed.is_empty() && d.changed.is_empty());
}

#[test]
fn two_plugins_are_always_locked_in_one_order() {
    assert_eq!(diff_pair(Some(KeyOrder::Before), false, false), LockOrder::FirstThenSecond);
    assert_eq!(diff_pair(Some(KeyOrder::After), false, true), LockOrder::SecondThenFirst);
    assert_eq!(diff_pair(Some(KeyOrder::Same), false, true), LockOrder::Once);
    assert_eq!(diff_pair(None, true, false), LockOrder::Once);
    assert_eq!(diff_pair(None, false, true), LockOrder::FirstThenSecond);
    assert_eq!(diff_pair(None, false, false), LockOrder::SecondThenFirst);
}

// ── Trees ───────────────────────────────────────────────────────────────────
fn record_bytes(flags: u32, first: &[u8]) -> Vec<u8> {
    let mut data = b"WEAP".to_vec();
    data.extend_from_slice(&(first.len() as u32).to_le_bytes());
    data.extend_from_slice(&flags.to_le_bytes());
    data.extend_from_slice(&0x463Fu32.to_le_bytes());
    data.extend_from_slice(&[0; 8]);
    data.extend_from_slice(first);
    data
}

#[test]
fn a_record_is_shown_without_decoding_it() {
    let data = record_bytes(0, b"EDID\x04\x00Gun\0rest");
    let s = read_stub_at(&data, 0).unwrap();
    assert_eq!(s.form_id, "0x0000463F");
    assert_eq!(s.record_type, "WEAP");
    assert_eq!(s.editor_id.as_deref(), Some("Gun"));
    assert_eq!(read_stub_at(&record_bytes(0x0004_0000, b"EDID\x04\x00Gun\0"), 0).unwrap().editor_id, None);
    assert_eq!(read_stub_at(&record_bytes(0, b"FULL\x04\x00Gun\0"), 0).unwrap().editor_id, None);
    assert_eq!(read_stub_at(&record_bytes(0, b"EDID\xFF\x00Gun"), 0).unwrap().editor_id.as_deref(), Some("Gun"));
    assert_eq!(read_stub_at(&record_bytes(0, b""), 0).unwrap().editor_id, None);
    assert!(matches!(read_stub_at(&data, u64::MAX), Err(Error::OffsetOutOfRange(u64::MAX))));
    assert!(read_stub_at(&data[..23], 0).is_err());
}

#[test]
fn children_of_a_group_are_shown() {
    let mut db = small();
    db.esm.data = record_bytes(0, b"EDID\x04\x00Gun\0");
    let list = db.group_children_at(&vec![
        ChildRef::Group(7),
        ChildRef::Record { form_id: 0x463F, offset: 0, sig: *b"WEAP" },
        ChildRef::Record { form_id: 1, offset: 999, sig: [b'A', b'B', 0xFF, 0] },
    ]);
    assert!(matches!(list[0], GroupChild::Group(7)));
    match (&list[1], &list[2]) {
        (GroupChild::Record(a), GroupChild::Record(b)) => {
            assert_eq!(a.editor_id.as_deref(), Some("Gun"));
            assert_eq!(a.record_type, "WEAP");
            assert_eq!(b.editor_id, None);
            assert_eq!(b.record_type, "AB\u{fffd}");
        }
        other => panic!("{other:?}"),
    }
}
