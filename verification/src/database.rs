//! A plugin with its indexes, and what can be asked of it.
use crate::curves::{curve_of, curve_points_value, points_json, CurveIndex};
use crate::decode::context::{
    opt_json, opt_ref, opt_value, stub_json, stub_value, DecodeContext, Env, FormIdRefResolver,
    FormIdStub, ResolveDepth, Stub,
};
use crate::decode::meaning::decoded;
use crate::decode::walk::decode_record;
use crate::error::Error;
use crate::formid::FormId;
use crate::hardcoded::{form_of, lookup as hardcoded_lookup, HardcodedTable};
use crate::index::{
    edid_entries, edid_views, latest, last_edid, map_meta, meta_of, raw_ids, ref_views, referrers,
    references, search_entries, search_views, Decoding, FormsSection, Index, Metas, SearchView,
};
use crate::json::{obj4, put, text, Json, Object, Value};
use crate::query::scanned;
use crate::reader::{
    edid_from_subrecords, edid_of, subs, EsmFile, ParsedRecord, RecordHeaderInfo, RecordMeta,
};
use crate::schema::{opt_text, Schema};
use crate::settle::{answer_views, settle, settled};
use crate::strings::Localization;
use crate::text::{hex8, str_eq};
use std::collections::BTreeMap;
use vstd::prelude::*;

verus! {

/// A plugin, its schema and its indexes.
#[derive(Debug)]
pub struct Database {
    pub esm: EsmFile,
    pub index: Index,
    pub schema: Schema,
    /// Whether text is stored as ids into string tables.
    pub is_localized: bool,
    pub localization: Option<Localization>,
    /// The curves that are put in place of references to them.
    pub curves: Option<CurveIndex>,
    /// Answers to the queries that decoded records hold.
    pub answers: Vec<(Value, Value)>,
    /// How the floats of this file read as JSON, by their bit patterns.
    pub floats: BTreeMap<u32, String>,
    /// The forms that the game itself defines.
    pub hardcoded: HardcodedTable,
    /// The records that filters have decoded, by type.
    pub filter_cache: Vec<(String, (usize, Vec<FilterCacheEntry>))>,
}

/// A record that has been decoded for filters.
#[derive(Debug)]
pub struct FilterCacheEntry {
    pub form_id: FormId,
    pub editor_id: Option<String>,
    pub offset: u64,
    pub fields: Value,
}

/// A record that has been decoded for filters, as mathematics.
#[verifier::ext_equal]
pub ghost struct EntryView {
    pub form_id: FormId,
    pub editor_id: Option<Seq<char>>,
    pub offset: u64,
    pub fields: Json,
}

impl View for FilterCacheEntry {
    type V = EntryView;

    open spec fn view(&self) -> EntryView {
        EntryView {
            form_id: self.form_id,
            editor_id: opt_text(self.editor_id),
            offset: self.offset,
            fields: self.fields@,
        }
    }
}

/// Records that have been decoded for filters, as mathematics.
pub open spec fn entry_views(list: Seq<FilterCacheEntry>) -> Seq<EntryView> {
    list.map_values(|e: FilterCacheEntry| e@)
}

/// Whether the FormIDs of decoded records increase.
pub open spec fn entries_increase(list: Seq<EntryView>) -> bool {
    forall|i: int, j: int|
        0 <= i < j < list.len() ==> (#[trigger] list[i]).form_id.0 < (#[trigger] list[j]).form_id.0
}

/// Whether the FormIDs of search entries increase.
pub open spec fn search_increases(list: Seq<(u32, SearchView)>) -> bool {
    forall|i: int, j: int| 0 <= i < j < list.len() ==> (#[trigger] list[i]).0 < (#[trigger] list[j]).0
}

/// A decoded record.
#[derive(Debug)]
pub struct RecordResult {
    pub header: RecordHeaderInfo,
    pub editor_id: Option<String>,
    pub fields: Value,
}

/// A decoded record as mathematics.
#[verifier::ext_equal]
pub ghost struct ResultView {
    pub header: HeaderView,
    pub editor_id: Option<Seq<char>>,
    pub fields: Json,
}

/// The header of a record as mathematics.
#[verifier::ext_equal]
pub ghost struct HeaderView {
    pub signature: Seq<char>,
    pub form_id: FormId,
    pub flags: u32,
    pub form_version: u16,
}

impl View for RecordHeaderInfo {
    type V = HeaderView;

    open spec fn view(&self) -> HeaderView {
        HeaderView {
            signature: self.signature@,
            form_id: self.form_id,
            flags: self.flags,
            form_version: self.form_version,
        }
    }
}

impl View for RecordResult {
    type V = ResultView;

    open spec fn view(&self) -> ResultView {
        ResultView {
            header: self.header@,
            editor_id: opt_text(self.editor_id),
            fields: self.fields@,
        }
    }
}

/// A copy of a header.
pub fn copy_header(h: &RecordHeaderInfo) -> (r: RecordHeaderInfo)
    ensures
        r@ == h@,
{
    RecordHeaderInfo {
        signature: h.signature.as_str().to_owned(),
        form_id: h.form_id,
        flags: h.flags,
        form_version: h.form_version,
    }
}

/// A value that may be absent, behind a reference.
pub open spec fn borrowed<T>(o: &Option<T>) -> Option<&T> {
    match o {
        Some(t) => Some(t),
        None => None,
    }
}

// ── References ─────────────────────────────────────────────────────────────
/// What references are followed in: the records of a file, and what decoding
/// them takes.
pub struct RefSource<'a> {
    pub esm: &'a EsmFile,
    pub forms: &'a Option<FormsSection>,
    pub schema: &'a Schema,
    pub is_localized: bool,
    pub localization: &'a Option<Localization>,
    pub curves: &'a Option<CurveIndex>,
    pub hardcoded: &'a HardcodedTable,
}

impl<'a> RefSource<'a> {
    /// The records.
    pub open spec fn metas(&self) -> Metas {
        match *self.forms {
            Some(f) => f.records@,
            None => Seq::empty(),
        }
    }

    /// Whether the records and the forms of the game itself are in order.
    pub open spec fn wf(&self) -> bool {
        &&& (*self.forms matches Some(f) ==> f.wf())
        &&& self.hardcoded.wf()
    }

    /// The same references once more.
    fn again(&self) -> (r: RefSource<'a>)
        ensures
            r == *self,
    {
        RefSource {
            esm: self.esm,
            forms: self.forms,
            schema: self.schema,
            is_localized: self.is_localized,
            localization: self.localization,
            curves: self.curves,
            hardcoded: self.hardcoded,
        }
    }

    /// Where the record with FormID `id` lies.
    fn find(&self, id: FormId) -> (r: Option<RecordMeta>)
        requires
            self.wf(),
        ensures
            r == meta_of(self.metas(), id.0),
    {
        match self.forms {
            Some(f) => f.get(id),
            None => None,
        }
    }
}

/// The identity of record `id`: that of the record, or of a form of the game
/// itself where there is no record.
pub open spec fn stub_in(db: RefSource<'_>, id: u32) -> Option<Stub> {
    match meta_of(db.metas(), id) {
        Some(m) => match db.esm.at(m.offset) {
            Some(r) => Some(
                Stub {
                    formid: hex8(id),
                    editor_id: edid_of(subs(r.subrecords@)),
                    record_type: r.header.signature@,
                },
            ),
            None => None,
        },
        None => match form_of(db.hardcoded.forms(), id) {
            Some(f) => Some(
                Stub { formid: hex8(id), editor_id: f.editor_id, record_type: f.record_type },
            ),
            None => None,
        },
    }
}

/// The identity of record `id` as a value.
pub open spec fn stub_json_in(db: RefSource<'_>, id: u32) -> Option<Json> {
    match stub_in(db, id) {
        Some(s) => Some(stub_json(s)),
        None => None,
    }
}

/// The context in which a record is decoded that follows its references by
/// way of `resolver`.
pub open spec fn env_in<R>(
    db: RefSource<'_>,
    form_version: u16,
    depth: ResolveDepth,
    resolver: Option<R>,
) -> Env<R> {
    Env {
        form_version,
        localized: db.is_localized,
        strings: *db.localization,
        curves: *db.curves,
        depth,
        resolver,
        outer: None,
        record: None,
        edid: None,
        lo: None,
        hi: None,
    }
}

/// Record `id` in full, its own references followed by way of `inner`. A form
/// of the game itself has no record to decode: its identity stands for it.
pub open spec fn full_in<R: FormIdRefResolver>(
    db: RefSource<'_>,
    id: u32,
    inner: R,
) -> Option<Json> {
    match meta_of(db.metas(), id) {
        Some(m) => match db.esm.at(m.offset) {
            Some(r) => Some(
                Json::Obj(
                    obj4(
                        "formid"@,
                        Json::Str(hex8(id)),
                        "editor_id"@,
                        opt_json(edid_of(subs(r.subrecords@))),
                        "record_type"@,
                        Json::Str(r.header.signature@),
                        "fields"@,
                        decoded(
                            env_in(db, r.header.form_version, ResolveDepth::Full, Some(inner)),
                            *db.schema,
                            r.header.signature@,
                            subs(r.subrecords@),
                        ),
                    ),
                ),
            ),
            None => None,
        },
        None => stub_json_in(db, id),
    }
}

/// Looks up the identity of a record.
fn find_stub(db: &RefSource<'_>, id: FormId) -> (r: Option<FormIdStub>)
    requires
        db.wf(),
    ensures
        match r {
            Some(s) => stub_in(*db, id.0) == Some(s@),
            None => stub_in(*db, id.0) is None,
        },
{
    match db.find(id) {
        Some(meta) => match db.esm.parse_record_at(meta.offset) {
            Ok(parsed) => Some(
                FormIdStub {
                    formid: id.display(),
                    editor_id: edid_from_subrecords(&parsed.subrecords),
                    record_type: parsed.header.signature.as_str().to_owned(),
                },
            ),
            Err(_) => None,
        },
        None => match hardcoded_lookup(db.hardcoded, id) {
            Some(form) => Some(
                FormIdStub {
                    formid: id.display(),
                    editor_id: crate::schema::copy_opt(&form.editor_id),
                    record_type: form.record_type.as_str().to_owned(),
                },
            ),
            None => None,
        },
    }
}

/// A resolver that follows no reference of what it decodes: it gives the
/// identity of a record in place of the record.
pub struct StubResolver<'a> {
    db: RefSource<'a>,
}

impl<'a> StubResolver<'a> {
    #[verifier::type_invariant]
    spec fn inv(self) -> bool {
        self.db.wf()
    }

    /// Where records are looked up.
    pub closed spec fn source(&self) -> RefSource<'a> {
        self.db
    }

    /// A resolver on `db`.
    pub fn new(db: RefSource<'a>) -> (r: StubResolver<'a>)
        requires
            db.wf(),
        ensures
            r.source() == db,
            r == stub_resolver(db),
    {
        StubResolver { db }
    }
}

/// The resolver on `db` that follows no reference.
pub closed spec fn stub_resolver<'a>(db: RefSource<'a>) -> StubResolver<'a> {
    StubResolver { db }
}

impl<'a> FormIdRefResolver for StubResolver<'a> {
    open spec fn stub_of(&self, id: u32) -> Option<Stub> {
        stub_in(self.source(), id)
    }

    open spec fn full_of(&self, id: u32) -> Option<Json> {
        stub_json_in(self.source(), id)
    }

    fn stub(&self, id: FormId) -> (r: Option<FormIdStub>) {
        proof {
            use_type_invariant(self);
        }
        find_stub(&self.db, id)
    }

    fn decode_full(&self, id: FormId) -> (r: Option<Value>) {
        proof {
            use_type_invariant(self);
        }
        match find_stub(&self.db, id) {
            Some(s) => Some(stub_value(&s)),
            None => None,
        }
    }
}

/// A resolver that decodes records in full, and follows their references by
/// way of another.
pub struct FullResolver<'a, R> {
    db: RefSource<'a>,
    inner: R,
}

impl<'a, R> FullResolver<'a, R> {
    #[verifier::type_invariant]
    spec fn inv(self) -> bool {
        self.db.wf()
    }

    /// Where records are looked up.
    pub closed spec fn source(&self) -> RefSource<'a> {
        self.db
    }

    /// What follows the references of the records that this resolver decodes.
    pub closed spec fn next(&self) -> R {
        self.inner
    }

    /// A resolver on `db` one step deeper than `inner`.
    pub fn new(db: RefSource<'a>, inner: R) -> (r: FullResolver<'a, R>)
        requires
            db.wf(),
        ensures
            r.source() == db,
            r.next() == inner,
            r == full_resolver(db, inner),
    {
        FullResolver { db, inner }
    }
}

/// The resolver on `db` one step deeper than `inner`.
pub closed spec fn full_resolver<'a, R>(db: RefSource<'a>, inner: R) -> FullResolver<'a, R> {
    FullResolver { db, inner }
}

impl<'a, R: FormIdRefResolver> FormIdRefResolver for FullResolver<'a, R> {
    open spec fn stub_of(&self, id: u32) -> Option<Stub> {
        stub_in(self.source(), id)
    }

    open spec fn full_of(&self, id: u32) -> Option<Json> {
        full_in(self.source(), id, self.next())
    }

    fn stub(&self, id: FormId) -> (r: Option<FormIdStub>) {
        proof {
            use_type_invariant(self);
        }
        find_stub(&self.db, id)
    }

    fn decode_full(&self, id: FormId) -> (r: Option<Value>) {
        proof {
            use_type_invariant(self);
        }
        let meta: RecordMeta = match self.db.find(id) {
            Some(meta) => meta,
            None => {
                return match find_stub(&self.db, id) {
                    Some(s) => Some(stub_value(&s)),
                    None => None,
                };
            },
        };
        let parsed = match self.db.esm.parse_record_at(meta.offset) {
            Ok(parsed) => parsed,
            Err(_) => {
                return None;
            },
        };
        let ctx: DecodeContext<'_, R> = DecodeContext::for_record(
            self.db.schema,
            parsed.header.form_version,
            self.db.is_localized,
            self.db.localization.as_ref(),
            self.db.curves.as_ref(),
            ResolveDepth::Full,
            Some(&self.inner),
        );
        let fields = decode_record(&ctx, &parsed.header.signature, &parsed.subrecords);
        Some(
            Value::Object(
                Object::new().with("formid", Value::String(id.display())).with(
                    "editor_id",
                    opt_value(&edid_from_subrecords(&parsed.subrecords)),
                ).with("record_type", text(&parsed.header.signature)).with("fields", fields),
            ),
        )
    }
}

/// The resolver that a database follows references with: two steps deep.
pub type DatabaseResolver<'a> = FullResolver<'a, FullResolver<'a, StubResolver<'a>>>;

/// The resolver that a database follows references with.
pub open spec fn resolver_of<'a>(db: RefSource<'a>) -> DatabaseResolver<'a> {
    full_resolver(db, full_resolver(db, stub_resolver(db)))
}

/// Whether what has been decoded of a type is in order: the number of its
/// records, and of these as many as filters look at, by increasing FormIDs.
pub open spec fn decoded_in_order(
    index: Index,
    e: (String, (usize, Vec<FilterCacheEntry>)),
) -> bool {
    let entries = entry_views(e.1.1@);
    &&& e.1.0 == index.by_type(e.0@).len()
    &&& entries.len() == scanned(e.1.0 as int)
    &&& entries_increase(entries)
}

impl Database {
    /// Whether the indexes are in order.
    pub open spec fn wf(&self) -> bool {
        &&& self.index.wf()
        &&& self.index.forms is Some
        &&& self.hardcoded.wf()
        &&& search_increases(self.index.search_list())
        &&& forall|i: int|
            0 <= i < self.filter_cache@.len() ==> decoded_in_order(
                self.index,
                #[trigger] self.filter_cache@[i],
            )
    }

    /// Whether another database has the same file, schema and tables as this.
    pub open spec fn same_source(&self, other: Database) -> bool {
        &&& self.esm == other.esm
        &&& self.index.path == other.index.path
        &&& self.index.forms == other.index.forms
        &&& self.schema == other.schema
        &&& self.is_localized == other.is_localized
        &&& self.localization == other.localization
        &&& self.curves == other.curves
        &&& self.answers == other.answers
        &&& self.floats == other.floats
        &&& self.hardcoded == other.hardcoded
    }

    /// What the references of this file are followed in.
    pub open spec fn lookups(&self) -> RefSource<'_> {
        RefSource {
            esm: &self.esm,
            forms: &self.index.forms,
            schema: &self.schema,
            is_localized: self.is_localized,
            localization: &self.localization,
            curves: &self.curves,
            hardcoded: &self.hardcoded,
        }
    }

    /// What decoding needs to know of this file.
    pub open spec fn how(&self) -> Decoding<'_> {
        Decoding {
            schema: &self.schema,
            is_localized: self.is_localized,
            localization: borrowed(&self.localization),
            curves: borrowed(&self.curves),
            answers: &self.answers,
        }
    }
}

// ── Opening ────────────────────────────────────────────────────────────────
impl Database {
    /// The database of a file whose records are given in its order.
    pub fn new(
        esm: EsmFile,
        path: String,
        list: &Vec<(FormId, RecordMeta)>,
        schema: Schema,
        is_localized: bool,
        localization: Option<Localization>,
        curves: Option<CurveIndex>,
        answers: Vec<(Value, Value)>,
        hardcoded: HardcodedTable,
    ) -> (r: Database)
        requires
            hardcoded.wf(),
        ensures
            r.wf(),
            r.esm == esm,
            r.index.path == path,
            r.schema == schema,
            r.is_localized == is_localized,
            r.localization == localization,
            r.curves == curves,
            r.answers == answers,
            r.floats@ == Map::<u32, String>::empty(),
            r.hardcoded == hardcoded,
            r.index.edid is None,
            r.index.search is None,
            r.index.xref is None,
            r.filter_cache@.len() == 0,
            forall|id: u32| #[trigger]
                meta_of(r.index.metas(), id) == map_meta(latest(list@, list@.len()), id),
    {
        Database {
            esm,
            index: Index::build(path, list),
            schema,
            is_localized,
            localization,
            curves,
            answers,
            floats: BTreeMap::new(),
            hardcoded,
            filter_cache: Vec::new(),
        }
    }

    /// Replaces the string tables.
    pub fn set_localization(&mut self, loc: Localization)
        ensures
            *final(self) == (Database { localization: Some(loc), ..*old(self) }),
    {
        self.localization = Some(loc);
    }

    /// Replaces the curves.
    pub fn set_curves(&mut self, curves: CurveIndex)
        ensures
            *final(self) == (Database { curves: Some(curves), ..*old(self) }),
    {
        self.curves = Some(curves);
    }

    /// The string tables.
    pub fn localization(&self) -> (r: Option<&Localization>)
        ensures
            opt_ref(r) == self.localization,
    {
        self.localization.as_ref()
    }

    /// Whether there are string tables or curves.
    pub fn has_enrichment(&self) -> (b: bool)
        ensures
            b == (self.localization is Some || self.curves is Some),
    {
        self.localization.is_some() || self.curves.is_some()
    }

    /// The record at `offset`.
    pub fn parse_record_at(&self, offset: u64) -> (r: Result<&ParsedRecord, Error>)
        ensures
            match r {
                Ok(p) => self.esm.at(offset) == Some(*p),
                Err(e) => self.esm.at(offset) is None && e == Error::Unreadable(offset),
            },
    {
        self.esm.parse_record_at(offset)
    }

    /// What the references of this file are followed in.
    fn ref_source(&self) -> (r: RefSource<'_>)
        ensures
            r == self.lookups(),
    {
        RefSource {
            esm: &self.esm,
            forms: &self.index.forms,
            schema: &self.schema,
            is_localized: self.is_localized,
            localization: &self.localization,
            curves: &self.curves,
            hardcoded: &self.hardcoded,
        }
    }

    /// What decoding needs to know of this file.
    pub fn decoding(&self) -> (r: Decoding<'_>)
        ensures
            r == self.how(),
    {
        Decoding {
            schema: &self.schema,
            is_localized: self.is_localized,
            localization: self.localization.as_ref(),
            curves: self.curves.as_ref(),
            answers: &self.answers,
        }
    }
}

// ── Indexes ────────────────────────────────────────────────────────────────
/// EditorIDs with their FormIDs.
pub type Edids = Seq<(Seq<char>, u32)>;

impl Database {
    /// The EditorIDs: those that have been indexed, or those of the file, or
    /// the offset of a record that keeps them from being read.
    pub open spec fn edids(&self) -> Result<Edids, u64> {
        match self.index.edid {
            Some(s) => Ok(edid_views(s.entries@)),
            None => edid_entries(self.index.metas(), self.esm.records@, 0, Seq::empty()),
        }
    }

    /// The search entries: those that have been indexed, or those of the file.
    pub open spec fn searched(&self) -> Seq<(u32, SearchView)> {
        match self.index.search {
            Some(s) => search_views(s.entries@),
            None => search_entries(
                self.index.metas(),
                self.esm.records@,
                self.is_localized,
                self.index.metas().len(),
            ),
        }
    }

    /// The references: those that have been indexed, or those of the file.
    pub open spec fn refs(&self) -> Map<u32, Seq<u32>> {
        match self.index.xref {
            Some(x) => ref_views(x.refs@),
            None => references(
                self.index.metas(),
                self.hardcoded.forms(),
                self.esm.order@,
                self.esm.records@,
                self.how(),
                self.esm.order@.len(),
            ),
        }
    }

    /// Whether another database gives the same answers as this one.
    pub open spec fn same_answers(&self, other: Database) -> bool {
        &&& self.same_source(other)
        &&& self.edids() == other.edids()
        &&& self.searched() == other.searched()
        &&& self.refs() == other.refs()
        &&& self.filter_cache == other.filter_cache
    }

    /// Builds the EditorIDs, unless they are there.
    pub fn ensure_edid_index(&mut self) -> (r: Result<(), Error>)
        requires
            old(self).wf(),
        ensures
            final(self).wf(),
            final(self).same_answers(*old(self)),
            final(self).index.search == old(self).index.search,
            final(self).index.xref == old(self).index.xref,
            match r {
                Ok(_) => final(self).index.edid is Some && old(self).edids() is Ok,
                Err(e) => final(self).index.edid is None && (old(self).edids() matches Err(offset)
                    && e == Error::Unreadable(offset)),
            },
    {
        if self.index.edid.is_some() {
            return Ok(());
        }
        if let Some(forms) = &self.index.forms {
            match crate::index::build_edid_section(forms, &self.esm) {
                Ok(s) => {
                    self.index.edid = Some(s);
                },
                Err(e) => {
                    return Err(e);
                },
            }
        }
        Ok(())
    }

    /// Builds the search entries, unless they are there.
    pub fn ensure_search_index(&mut self)
        requires
            old(self).wf(),
        ensures
            final(self).wf(),
            final(self).same_answers(*old(self)),
            final(self).index.edid == old(self).index.edid,
            final(self).index.xref == old(self).index.xref,
            final(self).index.search is Some,
    {
        if self.index.search.is_some() {
            return;
        }
        if let Some(forms) = &self.index.forms {
            let s = crate::index::build_search_section(forms, &self.esm, self.is_localized);
            proof {
                lemma_search_increases(
                    forms.records@,
                    self.esm.records@,
                    self.is_localized,
                    forms.records@.len(),
                );
            }
            self.index.search = Some(s);
        }
    }

    /// Builds the references, unless they are there.
    pub fn ensure_xref_index(&mut self)
        requires
            old(self).wf(),
        ensures
            final(self).wf(),
            final(self).same_answers(*old(self)),
            final(self).index.edid == old(self).index.edid,
            final(self).index.search == old(self).index.search,
            final(self).index.xref is Some,
    {
        if self.index.xref.is_some() {
            return;
        }
        if let Some(forms) = &self.index.forms {
            let x = crate::index::build_xref_section(
                forms,
                &self.hardcoded,
                &self.esm,
                &self.decoding(),
            );
            self.index.xref = Some(x);
        }
    }

    /// What refers to `form_id`.
    pub fn xref_lookup(&mut self, form_id: FormId) -> (r: Vec<FormId>)
        requires
            old(self).wf(),
        ensures
            final(self).wf(),
            final(self).same_answers(*old(self)),
            raw_ids(r@) == referrers(old(self).refs(), form_id.0),
    {
        self.ensure_xref_index();
        self.index.get_xref(form_id)
    }

    /// The FormID of the record with an EditorID: `None` where no record has
    /// it.
    pub fn resolve_edid_indexed(&mut self, edid: &str) -> (r: Result<Option<FormId>, Error>)
        requires
            old(self).wf(),
        ensures
            final(self).wf(),
            final(self).same_answers(*old(self)),
            match r {
                Ok(id) => id == old(self).named(edid@) && old(self).edids() is Ok,
                Err(e) => old(self).edids() matches Err(offset) && e == Error::Unreadable(offset),
            },
    {
        match self.ensure_edid_index() {
            Ok(_) => Ok(self.index.get_by_edid(edid)),
            Err(e) => Err(e),
        }
    }

    /// The FormID of the record with EditorID `edid`; of several the last.
    pub open spec fn named(&self, edid: Seq<char>) -> Option<FormId> {
        match self.edids() {
            Ok(list) => match last_edid(list, edid, list.len()) {
                Some(id) => Some(FormId(id)),
                None => None,
            },
            Err(_) => None,
        }
    }
}

/// Search entries come in the order of the records.
proof fn lemma_search_increases(
    t: crate::index::Metas,
    recs: Map<u64, crate::reader::StoredRecord>,
    localized: bool,
    n: nat,
)
    requires
        crate::index::increasing(t),
        n <= t.len(),
    ensures
        search_increases(search_entries(t, recs, localized, n)),
        forall|i: int|
            0 <= i < search_entries(t, recs, localized, n).len() ==> exists|k: int|
                0 <= k < n && (#[trigger] t[k]).0 == (#[trigger] search_entries(
                    t,
                    recs,
                    localized,
                    n,
                )[i]).0,
    decreases n,
{
    if n > 0 {
        lemma_search_increases(t, recs, localized, (n - 1) as nat);
        let before = search_entries(t, recs, localized, (n - 1) as nat);
        let after = search_entries(t, recs, localized, n);
        assert forall|i: int| 0 <= i < after.len() implies exists|k: int|
            0 <= k < n && (#[trigger] t[k]).0 == (#[trigger] after[i]).0 by {
            if i < before.len() {
                assert(after[i] == before[i]);
                let k = choose|k: int| 0 <= k < n - 1 && (#[trigger] t[k]).0 == before[i].0;
                assert(t[k].0 == after[i].0);
            } else {
                assert(t[n - 1].0 == after[i].0);
            }
        }
        assert forall|i: int, j: int| 0 <= i < j < after.len() implies (#[trigger] after[i]).0 < (
        #[trigger] after[j]).0 by {
            assert(after[i] == before[i]);
            if j < before.len() {
                assert(after[j] == before[j]);
            } else {
                let k = choose|k: int| 0 <= k < n - 1 && (#[trigger] t[k]).0 == before[i].0;
                assert(t[k].0 < t[n - 1].0);
            }
        }
    }
}

// ── Records ────────────────────────────────────────────────────────────────
impl Database {
    /// The fields of a record, its references followed as deep as `depth`
    /// says.
    pub open spec fn decoded_fields(&self, r: ParsedRecord, depth: ResolveDepth) -> Json {
        if depth == ResolveDepth::Plain {
            self.how().fields(r)
        } else {
            settled(
                decoded(
                    env_in(
                        self.lookups(),
                        r.header.form_version,
                        depth,
                        Some(resolver_of(self.lookups())),
                    ),
                    self.schema,
                    r.header.signature@,
                    subs(r.subrecords@),
                ),
                answer_views(self.answers@),
            )
        }
    }

    /// A record decoded. The points of a curve are put into its own record.
    pub open spec fn result_of(&self, r: ParsedRecord, depth: ResolveDepth) -> ResultView {
        let fields = self.decoded_fields(r, depth);
        let curve = match self.curves {
            Some(c) => curve_of(c.curves@, r.header.form_id.0),
            None => None,
        };
        ResultView {
            header: r.header@,
            editor_id: edid_of(subs(r.subrecords@)),
            fields: match fields {
                Json::Obj(o) => if r.header.signature@ == "CURV"@ && curve is Some {
                    Json::Obj(put(o, "Curve"@, Json::Arr(points_json(curve->0.points@))))
                } else {
                    fields
                },
                _ => fields,
            },
        }
    }

    /// Decodes the record at a place in the file.
    pub fn record_at_meta_with_depth(&self, meta: &RecordMeta, depth: ResolveDepth) -> (r: Result<
        RecordResult,
        Error,
    >)
        requires
            self.wf(),
        ensures
            match r {
                Ok(v) => self.esm.at(meta.offset) is Some && v@ == self.result_of(
                    self.esm.at(meta.offset)->0,
                    depth,
                ),
                Err(e) => self.esm.at(meta.offset) is None && e == Error::Unreadable(meta.offset),
            },
    {
        let parsed = match self.esm.parse_record_at(meta.offset) {
            Ok(parsed) => parsed,
            Err(e) => {
                return Err(e);
            },
        };
        let plain = match depth {
            ResolveDepth::Plain => true,
            _ => false,
        };
        let mut fields: Value = if plain {
            self.decoding().decode(parsed)
        } else {
            let source = self.ref_source();
            let resolver: DatabaseResolver<'_> = FullResolver::new(
                source.again(),
                FullResolver::new(source.again(), StubResolver::new(source)),
            );
            let ctx: DecodeContext<'_, DatabaseResolver<'_>> = DecodeContext::for_record(
                &self.schema,
                parsed.header.form_version,
                self.is_localized,
                self.localization.as_ref(),
                self.curves.as_ref(),
                depth,
                Some(&resolver),
            );
            settle(
                &decode_record(&ctx, &parsed.header.signature, &parsed.subrecords),
                &self.answers,
            )
        };
        assert(fields@ == self.decoded_fields(*parsed, depth));
        if str_eq(&parsed.header.signature, "CURV") {
            if let Some(curves) = &self.curves {
                if let Some(curve) = curves.get(parsed.header.form_id) {
                    fields =
                    match fields {
                        Value::Object(o) => Value::Object(
                            o.with("Curve", curve_points_value(curve)),
                        ),
                        other => other,
                    };
                }
            }
        }
        Ok(
            RecordResult {
                header: copy_header(&parsed.header),
                editor_id: edid_from_subrecords(&parsed.subrecords),
                fields,
            },
        )
    }

    /// Where the record with FormID `form_id` lies.
    pub fn get_formid_meta(&self, form_id: FormId) -> (r: Result<RecordMeta, Error>)
        requires
            self.wf(),
        ensures
            match r {
                Ok(m) => meta_of(self.index.metas(), form_id.0) == Some(m),
                Err(e) => meta_of(self.index.metas(), form_id.0) is None && e
                    == Error::FormIdNotFound(form_id),
            },
    {
        match self.index.get_by_formid(form_id) {
            Some(m) => Ok(m),
            None => Err(Error::FormIdNotFound(form_id)),
        }
    }

    /// Whether `r` is the record with FormID `form_id`, decoded, or the reason
    /// why there is none.
    pub open spec fn answers_formid(
        &self,
        form_id: FormId,
        depth: ResolveDepth,
        r: Result<RecordResult, Error>,
    ) -> bool {
        match meta_of(self.index.metas(), form_id.0) {
            None => r matches Err(e) && e == Error::FormIdNotFound(form_id),
            Some(m) => match self.esm.at(m.offset) {
                None => r matches Err(e) && e == Error::Unreadable(m.offset),
                Some(p) => r matches Ok(v) && v@ == self.result_of(p, depth),
            },
        }
    }

    /// Decodes the record with a FormID.
    pub fn record_by_formid_resolved(&self, form_id: FormId, depth: ResolveDepth) -> (r: Result<
        RecordResult,
        Error,
    >)
        requires
            self.wf(),
        ensures
            self.answers_formid(form_id, depth, r),
    {
        match self.get_formid_meta(form_id) {
            Ok(meta) => self.record_at_meta_with_depth(&meta, depth),
            Err(e) => Err(e),
        }
    }

    /// Decodes the record with a FormID, its references left as they are.
    pub fn record_by_formid(&self, form_id: FormId) -> (r: Result<RecordResult, Error>)
        requires
            self.wf(),
        ensures
            self.answers_formid(form_id, ResolveDepth::Plain, r),
    {
        self.record_by_formid_resolved(form_id, ResolveDepth::Plain)
    }

    /// Whether `r` is the record with EditorID `edid`, decoded, or the reason
    /// why there is none.
    pub open spec fn answers_edid(
        &self,
        edid: Seq<char>,
        depth: ResolveDepth,
        r: Result<RecordResult, Error>,
    ) -> bool {
        match self.edids() {
            Err(offset) => r matches Err(e) && e == Error::Unreadable(offset),
            Ok(_) => match self.named(edid) {
                None => r matches Err(e) && (e matches Error::EditorIdNotFound(s) && s@ == edid),
                Some(id) => self.answers_formid(id, depth, r),
            },
        }
    }

    /// Decodes the record with an EditorID.
    pub fn record_by_edid_resolved(&mut self, edid: &str, depth: ResolveDepth) -> (r: Result<
        RecordResult,
        Error,
    >)
        requires
            old(self).wf(),
        ensures
            final(self).wf(),
            final(self).same_answers(*old(self)),
            old(self).answers_edid(edid@, depth, r),
    {
        match self.resolve_edid_indexed(edid) {
            Ok(Some(id)) => self.record_by_formid_resolved(id, depth),
            Ok(None) => Err(Error::EditorIdNotFound(edid.to_owned())),
            Err(e) => Err(e),
        }
    }

    /// Decodes the record with an EditorID, its references left as they are.
    pub fn record_by_edid(&mut self, edid: &str) -> (r: Result<RecordResult, Error>)
        requires
            old(self).wf(),
        ensures
            final(self).wf(),
            final(self).same_answers(*old(self)),
            old(self).answers_edid(edid@, ResolveDepth::Plain, r),
    {
        self.record_by_edid_resolved(edid, ResolveDepth::Plain)
    }

    /// The record with a FormID, as it is stored.
    pub fn record_raw(&self, form_id: FormId) -> (r: Result<&ParsedRecord, Error>)
        requires
            self.wf(),
        ensures
            match meta_of(self.index.metas(), form_id.0) {
                None => r matches Err(e) && e == Error::FormIdNotFound(form_id),
                Some(m) => match self.esm.at(m.offset) {
                    None => r matches Err(e) && e == Error::Unreadable(m.offset),
                    Some(p) => r matches Ok(v) && *v == p,
                },
            },
    {
        match self.get_formid_meta(form_id) {
            Ok(meta) => self.esm.parse_record_at(meta.offset),
            Err(e) => Err(e),
        }
    }
}

} // verus!
