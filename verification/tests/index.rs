//! The indexes of a plugin.
use esm::format::Signature;
use esm::formid::FormId;
use esm::index::{
    build_forms, build_type_index, cache_inventory, full_name_for_record, BuildStage, EdidSection,
    Index, SearchMeta, SearchSection, XrefSection,
};
use esm::reader::{
    EsmFile, OwnedSubrecord, ParsedRecord, RecordHeaderInfo, RecordMeta, StoredRecord,
};
use std::collections::BTreeMap;

fn meta(sig: &str, offset: u64) -> RecordMeta {
    RecordMeta {
        offset,
        signature: Signature::from_slice(sig.as_bytes()),
        flags: 0,
        form_version: 155,
    }
}

fn three_records() -> Index {
    Index::build(
        "test.esm".to_string(),
        &vec![
            (FormId::new(0x10), meta("WEAP", 0)),
            (FormId::new(0x05), meta("WEAP", 100)),
            (FormId::new(0x20), meta("NPC_", 200)),
        ],
    )
}

fn raw(list: &[FormId]) -> Vec<u32> {
    list.iter().map(|id| id.raw()).collect()
}

#[test]
fn records_by_type_sorted_and_stable() {
    let weap1 = FormId::new(0x0000_0010);
    let weap2 = FormId::new(0x0000_0005);
    let index = three_records();
    let first = index.records_by_type("WEAP");
    let second = index.records_by_type("WEAP");
    assert_eq!(first.len(), 2);
    assert_eq!(second.len(), 2);
    assert_eq!(first[0].0, weap2);
    assert_eq!(first[1].0, weap1);
    assert_eq!(first[0].1.offset, 100);
    for (a, b) in first.iter().zip(&second) {
        assert_eq!(a.0, b.0);
    }
    assert_eq!(index.count_by_type("WEAP"), 2);
    assert_eq!(raw(&index.form_ids_by_type("WEAP")), vec![0x05, 0x10]);
    let npc_records = index.records_by_type("NPC_");
    assert_eq!(npc_records.len(), 1);
    assert_eq!(npc_records[0].0, FormId::new(0x0000_0020));
    assert_eq!(index.count_by_type("NPC_"), 1);
    assert_eq!(index.records_by_type("XXXX").len(), 0);
    assert_eq!(index.count_by_type("XXXX"), 0);
    let mut sigs: Vec<String> =
        index.signatures().iter().map(|s| s.as_str().to_string()).collect();
    sigs.sort();
    assert_eq!(sigs, vec!["NPC_", "WEAP"]);
    assert_eq!(index.count_by_type("ARMO"), 0);
}

#[test]
fn each_type_has_its_own_records_and_an_unknown_type_none() {
    let index = three_records();
    let npcs = index.records_by_type("NPC_");
    assert_eq!(npcs.len(), 1);
    assert_eq!(npcs[0].0, FormId::new(0x20));
    assert_eq!(npcs[0].1.offset, 200);
    assert_eq!(index.count_by_type("NPC_"), 1);
    assert_eq!(raw(&index.form_ids_by_type("NPC_")), vec![0x20]);
    assert!(index.records_by_type("XXXX").is_empty());
    assert_eq!(index.count_by_type("XXXX"), 0);
    assert!(index.form_ids_by_type("XXXX").is_empty());
}

#[test]
fn forms_absent_state_never_panics() {
    let index = Index::empty("/tmp/fo76_forms_absent_test.esm".to_string());
    assert!(index.get_by_formid(FormId::new(1)).is_none());
    assert!(index.signature_of(FormId::new(1)).is_none());
    assert!(!index.contains(FormId::new(1)));
    assert_eq!(index.len(), 0);
    assert!(index.is_empty());
    assert_eq!(index.iter_form_ids().len(), 0);
    assert_eq!(index.iter_all().len(), 0);
    assert_eq!(index.signatures().len(), 0);
    assert_eq!(index.count_by_type("WEAP"), 0);
    assert_eq!(index.form_ids_by_type("WEAP").len(), 0);
    assert_eq!(index.records_by_type("WEAP").len(), 0);
}

#[test]
fn edid_absent_state_never_panics() {
    let index = Index::empty("/tmp/fo76_edid_absent_test.esm".to_string());
    assert!(index.get_by_edid("Anything").is_none());
}

#[test]
fn search_absent_state_never_panics() {
    let index = Index::empty("/tmp/fo76_search_absent_test.esm".to_string());
    assert!(index.search.is_none());
    assert_eq!(index.iter_search().len(), 0);
}

#[test]
fn xref_absent_state_never_panics() {
    let index = Index::empty("/tmp/fo76_xref_absent_test.esm".to_string());
    assert!(index.get_xref(FormId::new(1)).is_empty());
}

#[test]
fn records_are_found_by_formid() {
    let index = three_records();
    assert_eq!(index.len(), 3);
    assert_eq!(index.get_by_formid(FormId::new(0x20)).unwrap().offset, 200);
    assert_eq!(index.signature_of(FormId::new(0x20)).unwrap().as_str(), "NPC_");
    assert!(!index.contains(FormId::new(0x21)));
    assert_eq!(raw(&index.iter_form_ids()), vec![0x05, 0x10, 0x20]);
    assert_eq!(index.iter_all()[0].1.offset, 100);
}

#[test]
fn the_last_record_with_a_formid_counts() {
    let forms = build_forms(&vec![
        (FormId::new(1), meta("WEAP", 0)),
        (FormId::new(1), meta("ARMO", 50)),
    ]);
    assert_eq!(forms.records.len(), 1);
    assert_eq!(forms.records[0].1.offset, 50);
    let types = build_type_index(&forms.records);
    assert_eq!(types.len(), 1);
    assert_eq!(types[0].0.as_str(), "ARMO");
    assert_eq!(types[0].1, vec![1]);
}

#[test]
fn editor_ids_lead_to_formids() {
    let mut index = three_records();
    index.edid = Some(EdidSection {
        entries: vec![
            ("WeapAssaultRifle".to_string(), 0x10),
            ("Twice".to_string(), 0x05),
            ("Twice".to_string(), 0x20),
        ],
    });
    assert_eq!(index.get_by_edid("WeapAssaultRifle"), Some(FormId::new(0x10)));
    assert_eq!(index.get_by_edid("Twice"), Some(FormId::new(0x20)));
    assert_eq!(index.get_by_edid("DoesNotExist"), None);
}

#[test]
fn search_entries_are_borrowed() {
    let mut index = three_records();
    index.search = Some(SearchSection {
        entries: vec![(
            0x10,
            SearchMeta {
                editor_id: Some("WeapAssaultRifle".to_string()),
                full_id: Some(7),
                desc_id: None,
                full_text: None,
                desc_text: Some("Old".to_string()),
            },
        )],
    });
    let list = index.iter_search();
    assert_eq!(list.len(), 1);
    assert_eq!(list[0].0, FormId::new(0x10));
    assert_eq!(list[0].1.editor_id, Some("WeapAssaultRifle"));
    assert_eq!(list[0].1.full_id, Some(7));
    assert_eq!(list[0].1.desc_text, Some("Old"));
}

#[test]
fn references_are_found() {
    let mut index = three_records();
    index.xref = Some(XrefSection {
        refs: BTreeMap::from([(0x10, vec![0x20, 0x30]), (0x40, vec![0x50])]),
    });
    assert_eq!(raw(&index.get_xref(FormId::new(0x10))), vec![0x20, 0x30]);
    assert_eq!(raw(&index.get_xref(FormId::new(0x40))), vec![0x50]);
    assert!(index.get_xref(FormId::new(0xDEAD_BEEF)).is_empty());
}

#[test]
fn the_inventory_tells_what_is_there() {
    let none = cache_inventory(false, false, false, false, false);
    assert!(none.is_empty());
    assert!(!none.is_complete());
    let all = cache_inventory(true, true, true, true, true);
    assert!(all.is_complete());
    assert!(!all.is_empty());
    let some = cache_inventory(true, false, true, false, false);
    assert_eq!(some.present, vec![BuildStage::Forms, BuildStage::Edid]);
    assert_eq!(some.missing, vec![BuildStage::Tree, BuildStage::Search, BuildStage::Xref]);
}

#[test]
fn a_display_name_is_the_id_of_a_string() {
    let record = ParsedRecord {
        header: RecordHeaderInfo {
            signature: "WEAP".to_string(),
            form_id: FormId::new(0x10),
            flags: 0,
            form_version: 155,
        },
        subrecords: vec![OwnedSubrecord {
            signature: Signature::from_slice(b"FULL"),
            data: vec![0x2A, 0, 0, 0],
            doc_index: 0,
        }],
    };
    let stored = StoredRecord { meta: meta("WEAP", 0), payload: vec![], record: Some(record) };
    let esm = EsmFile {
        path: String::new(),
        data: vec![],
        order: vec![0],
        records: BTreeMap::from([(0, stored)]),
    };
    assert_eq!(full_name_for_record(&esm, &meta("WEAP", 0)).unwrap(), Some(42));
    assert!(full_name_for_record(&esm, &meta("WEAP", 9)).is_err());
}
