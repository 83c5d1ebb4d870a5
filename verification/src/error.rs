//! What can go wrong.
use crate::formid::FormId;
use crate::text::{
    concat, debug_form, debug_string, decimal, decimal_string, hex8, texts,
};
use vstd::prelude::*;

verus! {

/// Why a request was refused.
#[derive(Debug)]
pub enum Error {
    /// The bytes end before the header does.
    ShortHeader,
    /// The text is not a FormID.
    NotAFormId,
    /// No record has this FormID.
    FormIdNotFound(FormId),
    /// No record has this EditorID.
    EditorIdNotFound(String),
    /// Neither reading of the token names a record.
    TokenNotFound { token: String, form_id: FormId },
    /// The selector names an entry point, which is not a single record.
    EntryPointSelector(String),
    /// The selector names an OMOD property, which is not a single record.
    OmodPropertySelector(String),
    /// A FormID was given where a PERK entry point is expected.
    FormIdAsEntryPoint(String),
    /// A FormID was given where an OMOD property is expected.
    FormIdAsOmodProperty(String),
    /// A property id was given without the form type it belongs to.
    UnscopedPropertyId,
    /// No selector was given.
    NoSelector,
    /// A record type must be a 4-character signature.
    BadRecordType,
    /// One of the record types of a search is not a 4-character signature.
    BadSearchType(String),
    /// The search pattern is empty.
    EmptyPattern,
    /// No record has this type.
    NoRecordsOfType(String),
    /// The record at this offset cannot be read.
    Unreadable(u64),
    /// The offset lies outside the file.
    OffsetOutOfRange(u64),
    /// The form is defined by the game itself and has no record.
    Hardcoded { form_id: FormId, record_type: String, editor_id: Option<String> },
    /// A folder holds no plugin file.
    NoPlugin(String),
    /// A folder holds several plugin files.
    SeveralPlugins { folder: String, names: Vec<String> },
    /// The two-file comparison needs two files.
    NeedsTwoFiles,
    /// Only leveled items have a drop table.
    NotALeveledItem { selector: String, record_type: String },
}

/// The texts of a list, each after `sep` but the first.
pub open spec fn joined_by(list: Seq<Seq<char>>, sep: Seq<char>, n: nat) -> Seq<char>
    decreases n,
{
    if n == 0 || n > list.len() {
        Seq::empty()
    } else if n == 1 {
        list[0]
    } else {
        joined_by(list, sep, (n - 1) as nat) + sep + list[n - 1]
    }
}

/// The texts of a list, each after `sep` but the first.
pub fn join_by(list: &Vec<String>, sep: &str) -> (r: String)
    ensures
        r@ == joined_by(texts(list@), sep@, list@.len()),
{
    if list.len() == 0 {
        let r = String::new();
        assert(r@ =~= Seq::<char>::empty());
        return r;
    }
    assert(texts(list@)[0] == list@[0]@);
    let mut r = list[0].as_str().to_owned();
    let mut i: usize = 1;
    while i < list.len()
        invariant
            1 <= i <= list.len(),
            r@ == joined_by(texts(list@), sep@, i as nat),
        decreases list.len() - i,
    {
        assert(texts(list@)[i as int] == list@[i as int]@);
        r = concat(&concat(&r, sep), &list[i]);
        i += 1;
    }
    r
}

impl Error {
    /// The reason in words.
    pub open spec fn says(&self) -> Seq<char> {
        match self {
            Error::ShortHeader => "failed to fill whole buffer"@,
            Error::NotAFormId => "not a FormID"@,
            Error::FormIdNotFound(id) => "FormID "@ + hex8(id.0) + " not found"@,
            Error::EditorIdNotFound(e) => "EditorID '"@ + e@ + "' not found"@,
            Error::TokenNotFound { token, form_id } => "'"@ + token@
                + "' did not resolve as FormID "@ + hex8(form_id.0)
                + " (not found) or as EditorID '"@ + token@ + "' (not found)"@,
            Error::EntryPointSelector(t) => "entry-point selector '"@ + t@
                + "' is only valid for refs (Op::ReferencedBy) — it doesn't resolve to a single record"@,
            Error::OmodPropertySelector(t) => "OMOD-property selector '"@ + t@
                + "' is only valid for refs (Op::ReferencedBy) — it doesn't resolve to a single record"@,
            Error::FormIdAsEntryPoint(t) => "'"@ + t@
                + "' looks like a FormID, not a PERK entry-point name or numeric id; use the positional target or --formid for a FormID lookup"@,
            Error::FormIdAsOmodProperty(t) => "'"@ + t@
                + "' looks like a FormID, not an OMOD property name or numeric id; use the positional target or --formid for a FormID lookup"@,
            Error::UnscopedPropertyId => "property ids are per-form-type; use weap:<id>, armo:<id>, or npc:<id>"@,
            Error::NoSelector => "specify a FormID/EditorID, or --formid/--edid"@,
            Error::BadRecordType => "record type must be a 4-character signature"@,
            Error::BadSearchType(t) => "record type '"@ + t@
                + "' must be a 4-character signature"@,
            Error::EmptyPattern => "search pattern must not be empty (use \"*\" to match all records)"@,
            Error::NoRecordsOfType(t) => "no records of type '"@ + t@ + "' found"@,
            Error::Unreadable(n) => "record at offset "@ + decimal(*n as int)
                + " cannot be read"@,
            Error::OffsetOutOfRange(n) => "record offset "@ + decimal(*n as int)
                + " out of range"@,
            Error::Hardcoded { form_id, record_type, editor_id } => hex8(form_id.0) + " ("@
                + record_type@ + (match editor_id {
                Some(e) => " '"@ + e@ + "'"@,
                None => ""@,
            })
                + ") is an engine-hardcoded form: it is defined by the game executable, not by a record in this ESM, so it has no fields to decode. Use `esm refs "@
                + hex8(form_id.0) + "` to list the records that reference it."@,
            Error::NoPlugin(folder) => "scanning folder "@ + folder@ + ": no .esm file found in "@
                + folder@,
            Error::SeveralPlugins { folder, names } => "scanning folder "@ + folder@
                + ": multiple .esm files in "@ + folder@ + "; pass the file path directly:\n  "@
                + joined_by(texts(names@), "\n  "@, names@.len()),
            Error::NeedsTwoFiles => "Diff must be dispatched via registry with two ESM paths"@,
            Error::NotALeveledItem { selector, record_type } => debug_form(selector@)
                + " resolves to a "@ + debug_form(record_type@)
                + " record — drop-table only supports LVLI selectors"@,
        }
    }

    /// The reason in words.
    pub fn message(&self) -> (r: String)
        ensures
            r@ == self.says(),
    {
        match self {
            Error::ShortHeader => "failed to fill whole buffer".to_owned(),
            Error::NotAFormId => "not a FormID".to_owned(),
            Error::FormIdNotFound(id) => concat(&concat("FormID ", &id.display()), " not found"),
            Error::EditorIdNotFound(e) => concat(&concat("EditorID '", e), "' not found"),
            Error::TokenNotFound { token, form_id } => {
                let head = concat(&concat("'", token), "' did not resolve as FormID ");
                let mid = concat(
                    &concat(&head, &form_id.display()),
                    " (not found) or as EditorID '",
                );
                concat(&concat(&mid, token), "' (not found)")
            },
            Error::EntryPointSelector(t) => concat(
                &concat("entry-point selector '", t),
                "' is only valid for refs (Op::ReferencedBy) — it doesn't resolve to a single record",
            ),
            Error::OmodPropertySelector(t) => concat(
                &concat("OMOD-property selector '", t),
                "' is only valid for refs (Op::ReferencedBy) — it doesn't resolve to a single record",
            ),
            Error::FormIdAsEntryPoint(t) => concat(
                &concat("'", t),
                "' looks like a FormID, not a PERK entry-point name or numeric id; use the positional target or --formid for a FormID lookup",
            ),
            Error::FormIdAsOmodProperty(t) => concat(
                &concat("'", t),
                "' looks like a FormID, not an OMOD property name or numeric id; use the positional target or --formid for a FormID lookup",
            ),
            Error::UnscopedPropertyId => "property ids are per-form-type; use weap:<id>, armo:<id>, or npc:<id>".to_owned(),
            Error::NoSelector => "specify a FormID/EditorID, or --formid/--edid".to_owned(),
            Error::BadRecordType => "record type must be a 4-character signature".to_owned(),
            Error::BadSearchType(t) => concat(
                &concat("record type '", t),
                "' must be a 4-character signature",
            ),
            Error::EmptyPattern => "search pattern must not be empty (use \"*\" to match all records)".to_owned(),
            Error::NoRecordsOfType(t) => concat(&concat("no records of type '", t), "' found"),
            Error::Unreadable(n) => concat(
                &concat("record at offset ", &decimal_string(*n as i128)),
                " cannot be read",
            ),
            Error::OffsetOutOfRange(n) => concat(
                &concat("record offset ", &decimal_string(*n as i128)),
                " out of range",
            ),
            Error::Hardcoded { form_id, record_type, editor_id } => {
                let id = form_id.display();
                let named = concat(&concat(&id, " ("), record_type);
                let quoted = match editor_id {
                    Some(e) => concat(&concat(" '", e), "'"),
                    None => "".to_owned(),
                };
                let head = concat(
                    &concat(&named, &quoted),
                    ") is an engine-hardcoded form: it is defined by the game executable, not by a record in this ESM, so it has no fields to decode. Use `esm refs ",
                );
                concat(&concat(&head, &id), "` to list the records that reference it.")
            },
            Error::NoPlugin(folder) => concat(
                &concat(&concat("scanning folder ", folder), ": no .esm file found in "),
                folder,
            ),
            Error::SeveralPlugins { folder, names } => {
                let head = concat(
                    &concat(&concat("scanning folder ", folder), ": multiple .esm files in "),
                    folder,
                );
                concat(
                    &concat(&head, "; pass the file path directly:\n  "),
                    &join_by(names, "\n  "),
                )
            },
            Error::NeedsTwoFiles => "Diff must be dispatched via registry with two ESM paths".to_owned(),
            Error::NotALeveledItem { selector, record_type } => {
                let head = concat(&debug_string(selector), " resolves to a ");
                concat(
                    &concat(&head, &debug_string(record_type)),
                    " record — drop-table only supports LVLI selectors",
                )
            },
        }
    }
}

} // verus!
