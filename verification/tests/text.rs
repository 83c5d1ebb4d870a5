//! Texts, identifiers, headers, selectors and sources.
use esm::discover::{
    file_stem, find_ba2_containing, find_curves, find_single_esm, find_strings, resolve_sources,
    CurvesSrc, Listing, StringsSrc,
};
use esm::error::Error;
use esm::format::{
    GroupHeader, RecordHeader, Signature, SubrecordHeader, COMPRESSED_FLAG, GRUP_SIG, TES4_SIG,
};
use esm::formid::{looks_like_formid, parse_form_id_input, parse_formid, FormId};
use esm::ipc::RecordSel;
use esm::json::{Object, Value};
use esm::selectors::{
    entry_point_name_matches, enum_id_name, omod_property_name_matches, EntryPointSpec,
    OmodPropertySel, OmodPropertySpec, PropScope,
};
use esm::text::{decimal_string, encode, hex8_string, str_eq_nocase, str_lt};
use esm::wildcard::wildcard_match;

// ── Identifiers ─────────────────────────────────────────────────────────────
#[test]
fn formids_read_back_as_they_are_shown() {
    for raw in [0, 1, 0x463F, 0x00AB_CDEF, u32::MAX] {
        let id = FormId::new(raw);
        assert_eq!(parse_formid(&id.display()).unwrap(), id);
    }
    assert_eq!(FormId::new(0x463F).display(), "0x0000463F");
}

#[test]
fn formids_are_in_the_order_of_how_they_are_shown() {
    let ids = [0, 9, 10, 0xF, 0x10, 0x9FFF, 0xA000, 0x00AB_CDEF, 0x9000_0000, u32::MAX];
    for a in ids {
        for b in ids {
            let (x, y) = (FormId::new(a).display(), FormId::new(b).display());
            assert_eq!(str_lt(&x, &y), a < b, "{x} {y}");
        }
    }
}

#[test]
fn formids_are_hexadecimal_where_they_must_be() {
    assert_eq!(parse_formid(" 0X1f ").unwrap().raw(), 0x1F);
    assert_eq!(parse_formid("cafe").unwrap().raw(), 0xCAFE);
    assert_eq!(parse_formid("18000").unwrap().raw(), 18000);
    assert_eq!(parse_formid("4294967295").unwrap().raw(), u32::MAX);
    for bad in ["", "0x", "4294967296", "0x100000000", "Gun", "-1"] {
        assert!(matches!(parse_form_id_input(bad), Err(Error::NotAFormId)), "{bad}");
    }
}

#[test]
fn the_parts_of_a_formid() {
    let id = FormId::new(0x0B00_0123);
    assert_eq!(id.master_index(), 0x0B);
    assert_eq!(id.object_id(), 0x123);
    assert!(!id.is_hardcoded());
    assert!(FormId::new(0x399).is_hardcoded());
}

#[test]
fn formid_tokens_are_recognised() {
    for s in ["0x1", "18000", "cafe", " 0XFF ", "12345678"] {
        assert!(looks_like_formid(s), "{s}");
        assert!(parse_formid(s).is_ok(), "{s}");
    }
    for s in ["", "0x", "123456789", "Gun", "0x12345678A"] {
        assert!(!looks_like_formid(s), "{s}");
    }
}

// ── Headers ─────────────────────────────────────────────────────────────────
#[test]
fn a_record_header_is_read() {
    let mut data = b"WEAP".to_vec();
    data.extend_from_slice(&100u32.to_le_bytes());
    data.extend_from_slice(&COMPRESSED_FLAG.to_le_bytes());
    data.extend_from_slice(&0x463Fu32.to_le_bytes());
    data.extend_from_slice(&1u32.to_le_bytes());
    data.extend_from_slice(&208u16.to_le_bytes());
    data.extend_from_slice(&2u16.to_le_bytes());
    let h = RecordHeader::parse(&data).unwrap();
    assert_eq!(h.signature.as_str(), "WEAP");
    assert_eq!(h.form_id, 0x463F);
    assert_eq!(h.form_version, 208);
    assert!(h.is_compressed());
    assert_eq!(h.total_size(), 124);
    assert!(matches!(RecordHeader::parse(&data[..23]), Err(Error::ShortHeader)));
}

#[test]
fn a_group_header_names_its_type() {
    let mut data = GRUP_SIG.to_vec();
    data.extend_from_slice(&24u32.to_le_bytes());
    data.extend_from_slice(b"WEAP");
    data.extend_from_slice(&0i32.to_le_bytes());
    data.extend_from_slice(&[0; 8]);
    let h = GroupHeader::parse(&data).unwrap();
    assert_eq!(h.record_signature().unwrap().as_str(), "WEAP");
    data[12..16].copy_from_slice(&(-1i32).to_le_bytes());
    let h = GroupHeader::parse(&data).unwrap();
    assert_eq!(h.group_type, -1);
    assert!(h.record_signature().is_none());
    assert!(GroupHeader::parse(&[]).is_err());
}

#[test]
fn a_subrecord_header_is_read() {
    let h = SubrecordHeader::parse(b"EDID\x05\x01").unwrap();
    assert_eq!(h.signature.as_str(), "EDID");
    assert_eq!(h.size, 0x0105);
    assert!(SubrecordHeader::parse(b"EDID\x05").is_err());
}

#[test]
fn tags_are_four_bytes() {
    assert_eq!(Signature::from_slice(b"AB").0, [b'A', b'B', 0, 0]);
    assert_eq!(Signature::from_slice(b"ABCDE").as_str(), "ABCD");
    assert_eq!(Signature([0xFF, 0xFE, 0, 0]).as_str(), "");
    assert_eq!(Signature(TES4_SIG).as_str(), "TES4");
}

// ── Texts ───────────────────────────────────────────────────────────────────
#[test]
fn numbers_read_as_usual() {
    assert_eq!(decimal_string(0), "0");
    assert_eq!(decimal_string(-120), "-120");
    assert_eq!(decimal_string(i64::MIN as i128), i64::MIN.to_string());
    assert_eq!(decimal_string(u64::MAX as i128), u64::MAX.to_string());
    assert_eq!(hex8_string(0xBEEF), "0x0000BEEF");
    assert_eq!(encode(&[0, 0x1F, 0xAB]), "001fab");
}

#[test]
fn texts_are_ordered_as_std_orders_them() {
    let words = ["", "A", "Z", "a", "aa", "ab", "\u{e9}", "\u{4e2d}", "\u{1f600}"];
    for a in words {
        for b in words {
            assert_eq!(str_lt(a, b), a < b, "{a} {b}");
        }
    }
    assert!(str_eq_nocase("GuN", "gUn"));
    assert!(!str_eq_nocase("\u{c9}", "\u{e9}"), "only ASCII letters are folded");
}

#[test]
fn objects_keep_their_keys_in_order() {
    let mut o = Object::new();
    for k in ["b", "a", "\u{e9}", "c", "a"] {
        o.insert(k.to_string(), Value::String(k.to_string()));
    }
    o.insert("a".to_string(), Value::Int(1));
    let keys: Vec<&str> = o.entries.iter().map(|e| e.0.as_str()).collect();
    assert_eq!(keys, vec!["a", "b", "c", "\u{e9}"]);
    assert_eq!(o.get("a").unwrap().as_u64(), Some(1));
    assert!(o.remove("b").is_some());
    assert!(!o.contains_key("b"));
    assert_eq!(o.len(), 3);
}

// ── Patterns ────────────────────────────────────────────────────────────────
#[test]
fn patterns_match_whatever_the_case() {
    assert!(wildcard_match("", "anything"));
    assert!(wildcard_match("*", ""));
    assert!(wildcard_match("rifle", "Combat RIFLE"));
    assert!(!wildcard_match("rifle", "shotgun"));
    assert!(wildcard_match("COMBAT*", "combat rifle"));
    assert!(!wildcard_match("combat*", "a combat rifle"));
    assert!(wildcard_match("*bat*ri*", "combat rifle"));
    assert!(wildcard_match("*\u{c9}*", "caf\u{e9}"));
    assert!(!wildcard_match("a*c", "abd"));
}

// ── Selectors ───────────────────────────────────────────────────────────────
#[test]
fn entry_points_are_selected_by_number_or_name() {
    assert!(matches!(EntryPointSpec::parse(" 39 ").unwrap(), EntryPointSpec::Id(39)));
    match EntryPointSpec::parse("65536").unwrap() {
        EntryPointSpec::Name(n) => assert_eq!(n, "65536"),
        other => panic!("{other:?}"),
    }
    match EntryPointSpec::parse("Mod VATS*").unwrap() {
        EntryPointSpec::Name(n) => assert_eq!(n, "Mod VATS*"),
        other => panic!("{other:?}"),
    }
    match EntryPointSpec::parse("0x39") {
        Err(Error::FormIdAsEntryPoint(t)) => assert_eq!(t, "0x39"),
        other => panic!("{other:?}"),
    }
    assert_eq!(EntryPointSpec::Id(39).display(), "39");
    assert_eq!(EntryPointSpec::Name("x".into()).display(), "'x'");
}

#[test]
fn omod_properties_need_a_scope_for_a_number() {
    let spec = OmodPropertySpec::parse("Weapon:65").unwrap();
    assert_eq!(spec.scope, Some(PropScope::Weap));
    assert!(matches!(spec.sel, OmodPropertySel::Id(65)));
    assert_eq!(spec.display(), "weap:65");
    let spec = OmodPropertySpec::parse("npc_:Health").unwrap();
    assert_eq!(spec.display(), "npc:'Health'");
    let spec = OmodPropertySpec::parse("other:thing").unwrap();
    assert_eq!(spec.scope, None);
    assert_eq!(spec.display(), "'other:thing'");
    assert!(matches!(OmodPropertySpec::parse("65"), Err(Error::UnscopedPropertyId)));
    assert!(matches!(OmodPropertySpec::parse("0X65"), Err(Error::FormIdAsOmodProperty(_))));
}

#[test]
fn scopes_have_names() {
    for scope in [PropScope::Weap, PropScope::Armo, PropScope::Npc] {
        assert_eq!(PropScope::from_prefix(scope.tag_str()), Some(scope));
        assert_eq!(PropScope::from_form_type_name(scope.form_type_name()), Some(scope));
    }
    assert_eq!(PropScope::from_prefix("ARMOR"), Some(PropScope::Armo));
    assert_eq!(PropScope::from_form_type_name("weapon"), None);
}

#[test]
fn names_match_whole_unless_the_pattern_has_a_star() {
    assert!(entry_point_name_matches("mod damage", "Mod Damage"));
    assert!(!entry_point_name_matches("Mod", "Mod Damage"));
    assert!(entry_point_name_matches("Mod*", "Mod Damage"));
    assert!(omod_property_name_matches("Sneak Attack", "sneakattack"));
    assert!(!omod_property_name_matches("Sneak", "Sneak Attack"));
    assert!(omod_property_name_matches("sneak *", "Sneak\tAttack"));
}

#[test]
fn enum_values_have_a_number_and_perhaps_a_name() {
    let mut o = Object::new();
    o.insert("value".to_string(), Value::Int(7));
    o.insert("name".to_string(), Value::String("Seven".to_string()));
    let v = Value::Object(o);
    assert_eq!(enum_id_name(&v), Some((7, Some("Seven"))));
    assert_eq!(enum_id_name(&Value::Int(65535)), Some((65535, None)));
    assert_eq!(enum_id_name(&Value::Int(65536)), None);
    assert_eq!(enum_id_name(&Value::Int(-1)), None);
    assert_eq!(enum_id_name(&Value::Null), None);
}

#[test]
fn record_selectors_are_read_from_tokens() {
    assert!(matches!(RecordSel::from_input("0x10"), Ok(RecordSel::FormId(FormId(0x10)))));
    assert!(matches!(RecordSel::from_input("18000"), Ok(RecordSel::Auto(_))));
    assert!(matches!(RecordSel::from_input("cafe"), Ok(RecordSel::Auto(_))));
    assert!(matches!(RecordSel::from_input("KillStreak"), Ok(RecordSel::Edid(_))));
    assert!(matches!(RecordSel::from_input("0x123456789"), Ok(RecordSel::Edid(_))));
}

#[test]
fn record_selectors_are_read_from_parts() {
    let sel = RecordSel::from_parts(Some("10"), Some("X"), Some("Y")).unwrap();
    assert_eq!(sel.display(), "0x0000000A");
    let sel = RecordSel::from_parts(None, Some("0x10"), Some("Y")).unwrap();
    assert_eq!(sel.display(), "0x10");
    assert!(matches!(sel, RecordSel::Edid(_)));
    let sel = RecordSel::from_parts(None, None, Some("cafe")).unwrap();
    assert_eq!(sel.display(), "cafe");
    assert!(matches!(RecordSel::from_parts(None, None, None), Err(Error::NoSelector)));
    assert!(matches!(RecordSel::from_parts(Some("Gun"), None, None), Err(Error::NotAFormId)));
    assert_eq!(RecordSel::EntryPoint("e".into()).display(), "e");
    assert_eq!(RecordSel::OmodProperty("p".into()).display(), "p");
}

// ── Messages ────────────────────────────────────────────────────────────────
#[test]
fn failures_are_told_in_words() {
    let cases = vec![
        (Error::ShortHeader, "failed to fill whole buffer"),
        (Error::NotAFormId, "not a FormID"),
        (Error::FormIdNotFound(FormId::new(0x10)), "FormID 0x00000010 not found"),
        (Error::EditorIdNotFound("X".into()), "EditorID 'X' not found"),
        (
            Error::TokenNotFound { token: "cafe".into(), form_id: FormId::new(0xCAFE) },
            "'cafe' did not resolve as FormID 0x0000CAFE (not found) or as EditorID 'cafe' (not found)",
        ),
        (
            Error::EntryPointSelector("e".into()),
            "entry-point selector 'e' is only valid for refs (Op::ReferencedBy) \u{2014} it doesn't resolve to a single record",
        ),
        (
            Error::OmodPropertySelector("p".into()),
            "OMOD-property selector 'p' is only valid for refs (Op::ReferencedBy) \u{2014} it doesn't resolve to a single record",
        ),
        (
            Error::FormIdAsEntryPoint("0x1".into()),
            "'0x1' looks like a FormID, not a PERK entry-point name or numeric id; use the positional target or --formid for a FormID lookup",
        ),
        (
            Error::FormIdAsOmodProperty("0x1".into()),
            "'0x1' looks like a FormID, not an OMOD property name or numeric id; use the positional target or --formid for a FormID lookup",
        ),
        (
            Error::UnscopedPropertyId,
            "property ids are per-form-type; use weap:<id>, armo:<id>, or npc:<id>",
        ),
        (Error::NoSelector, "specify a FormID/EditorID, or --formid/--edid"),
        (Error::BadRecordType, "record type must be a 4-character signature"),
        (Error::BadSearchType("x".into()), "record type 'x' must be a 4-character signature"),
        (
            Error::EmptyPattern,
            "search pattern must not be empty (use \"*\" to match all records)",
        ),
        (Error::NoRecordsOfType("x".into()), "no records of type 'x' found"),
        (Error::Unreadable(9), "record at offset 9 cannot be read"),
        (Error::OffsetOutOfRange(9), "record offset 9 out of range"),
        (
            Error::Hardcoded {
                form_id: FormId::new(0x399),
                record_type: "AVIF".into(),
                editor_id: Some("KillStreak".into()),
            },
            "0x00000399 (AVIF 'KillStreak') is an engine-hardcoded form: it is defined by the game executable, not by a record in this ESM, so it has no fields to decode. Use `esm refs 0x00000399` to list the records that reference it.",
        ),
        (
            Error::Hardcoded { form_id: FormId::new(0x14), record_type: "ACHR".into(), editor_id: None },
            "0x00000014 (ACHR) is an engine-hardcoded form: it is defined by the game executable, not by a record in this ESM, so it has no fields to decode. Use `esm refs 0x00000014` to list the records that reference it.",
        ),
        (Error::NoPlugin("/d".into()), "scanning folder /d: no .esm file found in /d"),
        (
            Error::SeveralPlugins { folder: "/d".into(), names: vec!["a".into(), "b".into()] },
            "scanning folder /d: multiple .esm files in /d; pass the file path directly:\n  a\n  b",
        ),
        (Error::NeedsTwoFiles, "Diff must be dispatched via registry with two ESM paths"),
        (
            Error::NotALeveledItem { selector: "a\"b".into(), record_type: "WEAP".into() },
            "\"a\\\"b\" resolves to a \"WEAP\" record \u{2014} drop-table only supports LVLI selectors",
        ),
    ];
    for (e, want) in cases {
        assert_eq!(e.message(), want);
    }
}

// ── Sources ─────────────────────────────────────────────────────────────────
fn strings(list: &[&str]) -> Vec<String> {
    list.iter().map(|s| s.to_string()).collect()
}

fn listing(names: &[&str], files: &[&str], folders: &[&str]) -> Listing {
    Listing {
        folder: "/data".to_string(),
        names: strings(names),
        files: strings(files),
        folders: strings(folders),
    }
}

#[test]
fn a_folder_holds_one_plugin() {
    let dir = listing(&["readme.txt", "Game.ESM", ".esm"], &[], &[]);
    assert_eq!(find_single_esm(&dir).unwrap(), "/data/Game.ESM");
    let none = listing(&["readme.txt"], &[], &[]);
    assert!(matches!(find_single_esm(&none), Err(Error::NoPlugin(f)) if f == "/data"));
    let two = listing(&["b.esm", "a.esm"], &[], &[]);
    match find_single_esm(&two) {
        Err(Error::SeveralPlugins { folder, names }) => {
            assert_eq!(folder, "/data");
            assert_eq!(names, strings(&["a.esm", "b.esm"]));
        }
        other => panic!("{other:?}"),
    }
}

#[test]
fn string_tables_are_looked_for_in_order() {
    let all = ["Game - Localization.ba2", "another LOCALIZATION.BA2", "x.ba2"];
    let dir = listing(&all, &["strings/Game_en.strings", "Game_en.strings"], &[]);
    assert!(matches!(find_strings(&dir, "Game", "en"), Some(StringsSrc::Loose(p)) if p == "/data/strings"));
    let dir = listing(&all, &["Game_en.strings"], &[]);
    assert!(matches!(find_strings(&dir, "Game", "en"), Some(StringsSrc::Loose(p)) if p == "/data"));
    let dir = listing(&all, &[], &[]);
    assert!(
        matches!(find_strings(&dir, "Game", "de"), Some(StringsSrc::Ba2(p)) if p == "/data/Game - Localization.ba2")
    );
    assert!(find_strings(&listing(&["x.ba2"], &[], &[]), "Game", "en").is_none());
}

#[test]
fn curves_are_looked_for_in_order() {
    let names = ["Startup.ba2"];
    let dir = listing(&names, &[], &["misc/curvetables/json", "curvetables/json"]);
    assert!(matches!(find_curves(&dir), Some(CurvesSrc::LooseBase(p)) if p == "/data/misc"));
    let dir = listing(&names, &[], &["curvetables/json"]);
    assert!(matches!(find_curves(&dir), Some(CurvesSrc::LooseBase(p)) if p == "/data"));
    let dir = listing(&names, &[], &[]);
    assert!(matches!(find_curves(&dir), Some(CurvesSrc::Ba2(p)) if p == "/data/Startup.ba2"));
    assert!(find_curves(&listing(&[], &[], &[])).is_none());
    assert_eq!(find_ba2_containing(&dir, "startup"), Some("/data/Startup.ba2".to_string()));
}

#[test]
fn sources_of_a_file_and_of_a_folder() {
    let dir = listing(&["Game.esm", "Other.esm"], &["Other_en.strings"], &[]);
    let s = resolve_sources("/data/Other.esm", false, &dir, "en").unwrap();
    assert_eq!(s.esm, "/data/Other.esm");
    assert_eq!(s.loose_prefix, "Other");
    assert_eq!(s.locale, "en");
    assert!(matches!(s.strings, Some(StringsSrc::Loose(_))));
    assert!(s.curves.is_none());
    assert!(resolve_sources("/data", true, &dir, "en").is_err());
    let one = listing(&["Game.esm"], &[], &[]);
    assert_eq!(resolve_sources("/data", true, &one, "en").unwrap().esm, "/data/Game.esm");
}

#[test]
fn stems_are_names_without_an_extension() {
    assert_eq!(file_stem("/a.b/Game.v2.esm"), "Game.v2");
    assert_eq!(file_stem("Game"), "Game");
    assert_eq!(file_stem("/x/.esm"), ".esm");
    assert_eq!(file_stem(""), "game");
    assert_eq!(file_stem("/x/.."), "game");
    assert_eq!(file_stem("Game.esm/"), "Game");
    assert_eq!(file_stem("foo/Game.esm//"), "Game");
    assert_eq!(file_stem("foo/."), "foo");
    assert_eq!(file_stem("foo/bar.d/././"), "bar");
    assert_eq!(file_stem("foo/..."), "..");
    assert_eq!(file_stem("."), "game");
    assert_eq!(file_stem("./"), "game");
    assert_eq!(file_stem("/."), "game");
    assert_eq!(file_stem("/"), "game");
}
