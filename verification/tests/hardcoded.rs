//! The forms that the game itself defines.
use esm::formid::FormId;
use esm::hardcoded::{lookup, lookup_by_editor_id, table, HardcodedTable, RawEntry};

fn entry(formid: &str, record_type: &str, editor_id: Option<&str>) -> RawEntry {
    RawEntry {
        formid: formid.to_string(),
        record_type: record_type.to_string(),
        editor_id: editor_id.map(|s| s.to_string()),
    }
}

/// A part of the game's own forms, out of order.
fn forms() -> HardcodedTable {
    table(&vec![
        entry("0x0000039A", "AVIF", Some("Fishing_MaxBobModifier")),
        entry("0x00000396", "AVIF", Some("ActionPointsMax")),
        entry("0x00000399", "AVIF", Some("KillStreak")),
        entry("0x00000014", "ACHR", None),
        entry("0X000002DA", "AVIF", Some("DamageRecieved")),
    ])
    .expect("every FormID is hexadecimal")
}

#[test]
fn kill_streak_avif_resolves() {
    let t = forms();
    let form = lookup(&t, FormId::new(0x0000_0399)).expect("0x399 should resolve");
    assert_eq!(form.record_type, "AVIF");
    assert_eq!(form.editor_id.as_deref(), Some("KillStreak"));
}

#[test]
fn neighbouring_avifs_resolve() {
    let t = forms();
    let action_points_max = lookup(&t, FormId::new(0x0000_0396)).expect("0x396 should resolve");
    assert_eq!(action_points_max.editor_id.as_deref(), Some("ActionPointsMax"));

    let fishing_bob = lookup(&t, FormId::new(0x0000_039A)).expect("0x39A should resolve");
    assert_eq!(fishing_bob.editor_id.as_deref(), Some("Fishing_MaxBobModifier"));
}

#[test]
fn missing_ids_return_none() {
    let t = forms();
    assert!(lookup(&t, FormId::new(0x0092_4E31)).is_none());
    assert!(lookup(&t, FormId::new(0xFFFF_FFFF)).is_none());
}

#[test]
fn lookup_by_editor_id_resolves_kill_streak() {
    let fid = lookup_by_editor_id(&forms(), "KillStreak").expect("KillStreak should resolve");
    assert_eq!(fid.raw(), 0x0000_0399);
}

#[test]
fn lookup_by_editor_id_is_case_sensitive() {
    assert!(lookup_by_editor_id(&forms(), "killstreak").is_none());
    assert!(lookup_by_editor_id(&forms(), "KILLSTREAK").is_none());
}

#[test]
fn lookup_by_editor_id_unknown_returns_none() {
    assert!(lookup_by_editor_id(&forms(), "NotARealHardcodedForm").is_none());
}

#[test]
fn lookup_and_lookup_by_editor_id_agree() {
    let t = forms();
    let fid = lookup_by_editor_id(&t, "DamageRecieved").expect("DamageRecieved should resolve");
    let form = lookup(&t, fid).expect("its FormID should look back up");
    assert_eq!(form.editor_id.as_deref(), Some("DamageRecieved"));
    assert_eq!(form.record_type, "AVIF");
}

#[test]
fn lookups_undo_each_other() {
    let t = forms();
    for (id, form) in &t.entries {
        assert_eq!(lookup(&t, FormId::new(*id)).unwrap().editor_id, form.editor_id);
        if let Some(edid) = &form.editor_id {
            assert_eq!(lookup_by_editor_id(&t, edid), Some(FormId::new(*id)));
        }
    }
}

#[test]
fn an_editor_id_that_occurs_twice_names_the_lowest_form() {
    let t = table(&vec![entry("0x20", "AVIF", Some("Twice")), entry("0x10", "AVIF", Some("Twice"))])
        .unwrap();
    assert_eq!(lookup_by_editor_id(&t, "Twice").map(|id| id.raw()), Some(0x10));
}

#[test]
fn an_entry_that_is_not_hexadecimal_is_refused() {
    assert!(table(&vec![entry("0xZZ", "AVIF", None)]).is_none());
    assert!(table(&vec![]).is_some());
}
