//! Requests and their answers.
use crate::carriers::CarrierTag;
use crate::database::{copy_header, Database, RecordResult};
use crate::decode::context::ResolveDepth;
use crate::error::Error;
use crate::formid::{
    form_id_of, formid_like, hex_prefixed, law_formid_like_parses, looks_like_formid,
    parse_form_id_input, FormId,
};
use crate::hardcoded::{form_of, id_of, lookup, lookup_by_editor_id, Form, HardcodedTable};
use crate::index::meta_of;
use crate::json::Value;
use crate::reader::{ParsedRecord, RecordHeaderInfo};
use crate::schema::opt_text;
use crate::text::{encode, hex8, hex_of, trim_chars, trimmed};
use vstd::prelude::*;

verus! {

/// How deep a walk over references goes at most, unless it is told otherwise.
pub const DEFAULT_MAX_DEPTH: usize = 8;

// ── Selectors ──────────────────────────────────────────────────────────────
/// What names a record in a request.
#[derive(Debug, Clone)]
pub enum RecordSel {
    FormId(FormId),
    Edid(String),
    /// A token that may be a FormID or an EditorID: it is tried as the one,
    /// then as the other.
    Auto(String),
    /// A PERK entry point, which stands for all PERKs that carry it.
    EntryPoint(String),
    /// An OMOD property, which stands for all OMODs that declare it.
    OmodProperty(String),
}

/// A selector as mathematics.
#[verifier::ext_equal]
pub ghost enum SelView {
    FormId(FormId),
    Edid(Seq<char>),
    Auto(Seq<char>),
    EntryPoint(Seq<char>),
    OmodProperty(Seq<char>),
}

impl View for RecordSel {
    type V = SelView;

    open spec fn view(&self) -> SelView {
        match self {
            RecordSel::FormId(id) => SelView::FormId(*id),
            RecordSel::Edid(s) => SelView::Edid(s@),
            RecordSel::Auto(s) => SelView::Auto(s@),
            RecordSel::EntryPoint(s) => SelView::EntryPoint(s@),
            RecordSel::OmodProperty(s) => SelView::OmodProperty(s@),
        }
    }
}

/// The selector that a token is: a FormID where it is written in hexadecimal,
/// an EditorID where it cannot be a FormID, and open where it can be both.
pub open spec fn selected(s: Seq<char>) -> SelView {
    if formid_like(s) {
        if hex_prefixed(trimmed(s)) {
            SelView::FormId(form_id_of(s)->0)
        } else {
            SelView::Auto(s)
        }
    } else {
        SelView::Edid(s)
    }
}

/// How a selector reads.
pub open spec fn sel_text(sel: SelView) -> Seq<char> {
    match sel {
        SelView::FormId(id) => hex8(id.0),
        SelView::Edid(s) => s,
        SelView::Auto(s) => s,
        SelView::EntryPoint(s) => s,
        SelView::OmodProperty(s) => s,
    }
}

impl RecordSel {
    /// The selector that a token is.
    pub fn from_input(s: &str) -> (r: Result<RecordSel, Error>)
        ensures
            r matches Ok(sel) && sel@ == selected(s@),
    {
        let t = trim_chars(s);
        let prefixed = t.len() >= 2 && t[0] == '0' && (t[1] == 'x' || t[1] == 'X');
        if looks_like_formid(s) {
            if prefixed {
                proof {
                    law_formid_like_parses(s@);
                }
                match parse_form_id_input(s) {
                    Ok(id) => Ok(RecordSel::FormId(id)),
                    Err(e) => Err(e),
                }
            } else {
                Ok(RecordSel::Auto(s.to_owned()))
            }
        } else {
            Ok(RecordSel::Edid(s.to_owned()))
        }
    }

    /// The selector that a FormID, an EditorID or else a token gives.
    pub fn from_parts(formid: Option<&str>, edid: Option<&str>, target: Option<&str>) -> (r: Result<
        RecordSel,
        Error,
    >)
        ensures
            match (formid, edid, target) {
                (Some(f), _, _) => match form_id_of(f@) {
                    Some(id) => r matches Ok(sel) && sel@ == SelView::FormId(id),
                    None => r matches Err(e) && e == Error::NotAFormId,
                },
                (None, Some(e), _) => r matches Ok(sel) && sel@ == SelView::Edid(e@),
                (None, None, Some(t)) => r matches Ok(sel) && sel@ == selected(t@),
                (None, None, None) => r matches Err(e) && e == Error::NoSelector,
            },
    {
        if let Some(f) = formid {
            match parse_form_id_input(f) {
                Ok(id) => Ok(RecordSel::FormId(id)),
                Err(e) => Err(e),
            }
        } else if let Some(e) = edid {
            Ok(RecordSel::Edid(e.to_owned()))
        } else if let Some(t) = target {
            RecordSel::from_input(t)
        } else {
            Err(Error::NoSelector)
        }
    }

    /// How the selector reads.
    pub fn display(&self) -> (r: String)
        ensures
            r@ == sel_text(self@),
    {
        match self {
            RecordSel::FormId(id) => id.display(),
            RecordSel::Edid(s) => s.as_str().to_owned(),
            RecordSel::Auto(s) => s.as_str().to_owned(),
            RecordSel::EntryPoint(s) => s.as_str().to_owned(),
            RecordSel::OmodProperty(s) => s.as_str().to_owned(),
        }
    }
}

/// Whether `r` is the FormID of an EditorID: that of a record, or else that of
/// a form of the game itself.
pub open spec fn edid_answer(db: Database, e: Seq<char>, r: Result<FormId, Error>) -> bool {
    match (db.named(e), id_of(db.hardcoded.forms(), e)) {
        (Some(id), _) => r matches Ok(found) && found == id,
        (None, Some(id)) => r matches Ok(found) && found == FormId(id),
        (None, None) => r matches Err(err) && (err matches Error::EditorIdNotFound(s) && s@ == e),
    }
}

/// Whether `r` is the FormID that a selector names, or the reason why it names
/// none. Records go before forms of the game itself, and a token is tried as
/// a FormID before it is tried as an EditorID.
pub open spec fn sel_answer(db: Database, sel: SelView, r: Result<FormId, Error>) -> bool {
    match sel {
        SelView::FormId(id) => r matches Ok(found) && found == id,
        SelView::Edid(e) => match db.edids() {
            Err(offset) => r matches Err(err) && err == Error::Unreadable(offset),
            Ok(_) => edid_answer(db, e, r),
        },
        SelView::Auto(t) => {
            let id = form_id_of(t);
            if id is Some && meta_of(db.index.metas(), id->Some_0.0) is Some {
                r matches Ok(found) && Some(found) == id
            } else {
                match db.edids() {
                    Err(offset) => r matches Err(err) && err == Error::Unreadable(offset),
                    Ok(_) => if db.named(t) is None && id_of(db.hardcoded.forms(), t) is None
                        && id is Some {
                        r matches Err(err) && (err matches Error::TokenNotFound { token, form_id }
                            && token@ == t && Some(form_id) == id)
                    } else {
                        edid_answer(db, t, r)
                    },
                }
            }
        },
        SelView::EntryPoint(t) => r matches Err(err) && (err matches Error::EntryPointSelector(s)
            && s@ == t),
        SelView::OmodProperty(t) => r matches Err(err) && (err matches Error::OmodPropertySelector(
            s,
        ) && s@ == t),
    }
}

/// The FormID of an EditorID among records, or else among the forms of the
/// game itself.
fn find_edid(db: &mut Database, edid: &str) -> (r: Result<Option<FormId>, Error>)
    requires
        old(db).wf(),
    ensures
        final(db).wf(),
        final(db).same_answers(*old(db)),
        match old(db).edids() {
            Err(offset) => r matches Err(e) && e == Error::Unreadable(offset),
            Ok(_) => r matches Ok(found) && found == match (
                old(db).named(edid@),
                id_of(old(db).hardcoded.forms(), edid@),
            ) {
                (Some(id), _) => Some(id),
                (None, Some(id)) => Some(FormId(id)),
                (None, None) => None,
            },
        },
{
    match db.resolve_edid_indexed(edid) {
        Ok(Some(id)) => Ok(Some(id)),
        Ok(None) => Ok(lookup_by_editor_id(&db.hardcoded, edid)),
        Err(e) => Err(e),
    }
}

/// The FormID that a selector names.
pub fn resolve_sel(db: &mut Database, sel: &RecordSel) -> (r: Result<FormId, Error>)
    requires
        old(db).wf(),
    ensures
        final(db).wf(),
        final(db).same_answers(*old(db)),
        sel_answer(*old(db), sel@, r),
{
    match sel {
        RecordSel::FormId(id) => Ok(*id),
        RecordSel::Edid(e) => match find_edid(db, e) {
            Ok(Some(id)) => Ok(id),
            Ok(None) => Err(Error::EditorIdNotFound(e.as_str().to_owned())),
            Err(err) => Err(err),
        },
        RecordSel::Auto(t) => {
            let attempt: Option<FormId> = match parse_form_id_input(t) {
                Ok(id) => Some(id),
                Err(_) => None,
            };
            if let Some(id) = attempt {
                if db.index.contains(id) {
                    return Ok(id);
                }
            }
            match find_edid(db, t) {
                Ok(Some(id)) => Ok(id),
                Ok(None) => match attempt {
                    Some(id) => Err(
                        Error::TokenNotFound { token: t.as_str().to_owned(), form_id: id },
                    ),
                    None => Err(Error::EditorIdNotFound(t.as_str().to_owned())),
                },
                Err(err) => Err(err),
            }
        },
        RecordSel::EntryPoint(t) => Err(Error::EntryPointSelector(t.as_str().to_owned())),
        RecordSel::OmodProperty(t) => Err(Error::OmodPropertySelector(t.as_str().to_owned())),
    }
}

// ── Records ────────────────────────────────────────────────────────────────
/// Whether `r` is `e`, or the explanation that the form is one of the game
/// itself.
pub open spec fn explained(table: Seq<(u32, Form)>, id: FormId, e: Error, r: Error) -> bool {
    match form_of(table, id.0) {
        Some(f) => r matches Error::Hardcoded { form_id, record_type, editor_id } && form_id == id
            && record_type@ == f.record_type && opt_text(editor_id) == f.editor_id,
        None => r == e,
    }
}

/// Explains that a form which has no record is one of the game itself.
pub fn explain_hardcoded_miss(table: &HardcodedTable, form_id: FormId, err: Error) -> (r: Error)
    requires
        table.wf(),
    ensures
        explained(table.forms(), form_id, err, r),
{
    match lookup(table, form_id) {
        Some(form) => Error::Hardcoded {
            form_id,
            record_type: form.record_type.as_str().to_owned(),
            editor_id: crate::schema::copy_opt(&form.editor_id),
        },
        None => err,
    }
}

/// Whether `r` is the record that a selector names, or the reason why there is
/// none.
pub open spec fn record_answer(
    db: Database,
    sel: SelView,
    depth: ResolveDepth,
    r: Result<RecordResult, Error>,
) -> bool {
    exists|id: Result<FormId, Error>| #[trigger]
        sel_answer(db, sel, id) && match id {
            Err(e) => r matches Err(err) && err == e,
            Ok(id) => named_record(db, id, depth, r),
        }
}

/// Whether `r` is the record with a FormID, or the reason why there is none.
pub open spec fn named_record(
    db: Database,
    id: FormId,
    depth: ResolveDepth,
    r: Result<RecordResult, Error>,
) -> bool {
    match r {
        Ok(_) => db.answers_formid(id, depth, r),
        Err(err) => exists|e: Error| #[trigger]
            db.answers_formid(id, depth, Err(e)) && explained(db.hardcoded.forms(), id, e, err),
    }
}

/// The record that a selector names.
pub fn record_resolved(db: &mut Database, sel: &RecordSel, depth: ResolveDepth) -> (r: Result<
    RecordResult,
    Error,
>)
    requires
        old(db).wf(),
    ensures
        final(db).wf(),
        final(db).same_answers(*old(db)),
        record_answer(*old(db), sel@, depth, r),
{
    let ghost before = *db;
    let found = resolve_sel(db, sel);
    assert(sel_answer(before, sel@, found));
    match found {
        Err(e) => Err(e),
        Ok(id) => match db.record_by_formid_resolved(id, depth) {
            Ok(v) => Ok(v),
            Err(e) => {
                let why = explain_hardcoded_miss(&db.hardcoded, id, e);
                assert(before.answers_formid(id, depth, Err::<RecordResult, Error>(e)));
                assert(named_record(before, id, depth, Err::<RecordResult, Error>(why)));
                Err(why)
            },
        },
    }
}

/// One answer of a request for several records: the record, or the reason why
/// there is none.
#[derive(Debug)]
pub struct BulkRecordEntry {
    /// The selector, as it reads.
    pub sel: String,
    pub header: Option<RecordHeaderInfo>,
    pub editor_id: Option<String>,
    pub fields: Option<Value>,
    pub error: Option<String>,
}

impl BulkRecordEntry {
    /// Whether this is the answer `r` to a request for `sel`.
    pub open spec fn shows(&self, sel: SelView, r: Result<RecordResult, Error>) -> bool {
        &&& self.sel@ == sel_text(sel)
        &&& match r {
            Ok(v) => {
                &&& (self.header matches Some(h) && h@ == v@.header)
                &&& opt_text(self.editor_id) == v@.editor_id
                &&& (self.fields matches Some(f) && f@ == v@.fields)
                &&& self.error is None
            },
            Err(e) => {
                &&& self.header is None
                &&& self.editor_id is None
                &&& self.fields is None
                &&& (self.error matches Some(s) && s@ == e.says())
            },
        }
    }

    /// Whether this is an answer to a request for `sel`.
    pub open spec fn answers(&self, db: Database, sel: SelView, depth: ResolveDepth) -> bool {
        exists|r: Result<RecordResult, Error>| #[trigger]
            record_answer(db, sel, depth, r) && self.shows(sel, r)
    }
}

/// Answers one selector of a request for several records.
pub fn bulk_record_entry(db: &mut Database, sel: &RecordSel, depth: ResolveDepth) -> (r:
    BulkRecordEntry)
    requires
        old(db).wf(),
    ensures
        final(db).wf(),
        final(db).same_answers(*old(db)),
        r.answers(*old(db), sel@, depth),
{
    let display = sel.display();
    let found = record_resolved(db, sel, depth);
    let ghost whole = found;
    assert(record_answer(*old(db), sel@, depth, whole));
    let entry = match found {
        Ok(v) => BulkRecordEntry {
            sel: display,
            header: Some(v.header),
            editor_id: v.editor_id,
            fields: Some(v.fields),
            error: None,
        },
        Err(e) => BulkRecordEntry {
            sel: display,
            header: None,
            editor_id: None,
            fields: None,
            error: Some(e.message()),
        },
    };
    assert(entry.shows(sel@, whole));
    entry
}

/// A record with its data in hexadecimal.
#[derive(Debug)]
pub struct RawRecordView {
    pub header: RecordHeaderInfo,
    pub subrecords: Vec<RawSubrecordView>,
}

/// A subrecord with its data in hexadecimal.
#[derive(Debug)]
pub struct RawSubrecordView {
    pub signature: String,
    pub size: usize,
    pub hex: String,
}

/// Whether `v` shows the record `r`.
pub open spec fn shows_raw(v: RawRecordView, r: ParsedRecord) -> bool {
    &&& v.header@ == r.header@
    &&& v.subrecords@.len() == r.subrecords@.len()
    &&& forall|i: int|
        0 <= i < r.subrecords@.len() ==> {
            let s = #[trigger] v.subrecords@[i];
            let sub = r.subrecords@[i]@;
            s.signature@ == sub.sig && s.size == sub.data.len() && s.hex@ == hex_of(sub.data)
        }
}

/// Shows a record with its data in hexadecimal.
pub fn raw_record_view(rec: &ParsedRecord) -> (r: RawRecordView)
    ensures
        shows_raw(r, *rec),
{
    let mut subrecords: Vec<RawSubrecordView> = Vec::new();
    let mut i: usize = 0;
    while i < rec.subrecords.len()
        invariant
            i <= rec.subrecords.len(),
            subrecords.len() == i,
            forall|j: int|
                0 <= j < i ==> {
                    let s = #[trigger] subrecords@[j];
                    let sub = rec.subrecords@[j]@;
                    s.signature@ == sub.sig && s.size == sub.data.len() && s.hex@ == hex_of(
                        sub.data,
                    )
                },
        decreases rec.subrecords.len() - i,
    {
        let sr = &rec.subrecords[i];
        subrecords.push(
            RawSubrecordView {
                signature: sr.signature.as_str().to_owned(),
                size: sr.data.len(),
                hex: encode(sr.data.as_slice()),
            },
        );
        i += 1;
    }
    RawRecordView { header: copy_header(&rec.header), subrecords }
}

// ── Walks over references ──────────────────────────────────────────────────
/// The order of the rows of a walk over references.
#[derive(Debug, Clone, Copy, PartialEq, Eq, Structural)]
pub enum RefSort {
    Formid,
    /// By distance, then by FormID.
    Depth,
}

impl Default for RefSort {
    fn default() -> (r: RefSort)
        ensures
            r == RefSort::Formid,
    {
        RefSort::Formid
    }
}

/// A record on the way of a walk over references.
#[derive(Debug, Clone)]
pub struct RefPathNode {
    pub form_id: String,
    pub record_type: Option<String>,
    pub editor_id: Option<String>,
}

/// A record that a walk over references has reached.
#[derive(Debug, Clone)]
pub struct RefRow {
    pub form_id: String,
    pub record_type: Option<String>,
    pub editor_id: Option<String>,
    pub name: Option<String>,
    pub offset: u64,
    /// The distance from where the walk started.
    pub depth: usize,
    /// The records between there and here.
    pub path: Vec<RefPathNode>,
    /// Where in this record the one before it is referred to.
    pub field_paths: Option<Vec<String>>,
    /// What the carrier matched from which the walk started.
    pub tags: Vec<CarrierTag>,
}

/// What a walk over references has reached.
#[derive(Debug, Clone)]
pub struct RefList {
    pub target: String,
    pub rows: Vec<RefRow>,
    pub total: usize,
    pub capped: bool,
    pub carrier_total: Option<usize>,
    pub tag_total: Option<usize>,
    pub requested_depth: usize,
    pub effective_depth: Option<usize>,
    /// Whether records at the greatest distance were not followed further.
    pub depth_capped: bool,
    pub frontier_remaining: usize,
    pub per_depth_totals: Vec<usize>,
    pub shown_max_depth: usize,
}

} // verus!
