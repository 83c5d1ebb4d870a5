//! The comparison of two plugins.
use crate::database::Database;
use crate::decode::context::ResolveDepth;
use crate::diff::array_diff::{diff, is_empty_diff, json_diff, no_diff, FloatTexts};
use crate::diff::calibrate::{
    apply_restamp_calibrated_suppression, calibrated, default_views, found_defaults, suppressible,
};
use crate::diff::noise::{
    strip_noise_fields, strip_version_gated_transitions, without_gated, without_noise,
};
use crate::diff::report::{
    add_count, count_more, counts_view, diff_views, stub_views, BodyDetail, Counts, DefaultView,
    DiffOptions, DiffResult, DiffView, NameView, RecordDiff, RecordStub, RefName, StubView,
    SuppressedDefault,
};
use crate::diff::restamp::{strip_restamp_appearances, without_restamp};
use crate::error::Error;
use crate::filter::{collect_all_formid_values, formid_texts};
use crate::formid::{form_id_of, law_display_order, parse_formid, FormId};
use crate::index::{meta_of, Metas};
use crate::json::{Json, Value};
use crate::order::{join_text, joined};
use crate::reader::{
    edid_from_subrecords, edid_of, inline_string_from_subrecords, inline_string_of,
    lstring_id_from_subrecords, lstring_id_of, subs, OwnedSubrecord, ParsedRecord, RecordMeta, Sub,
};
use crate::schema::opt_text;
use crate::strings::StringKind;
use crate::text::{bytes_eq, hex8, str_eq, text_lt, texts, to_upper, uppercase};
use vstd::prelude::*;

verus! {

// ── Names ──────────────────────────────────────────────────────────────────
/// The text of a subrecord that names or describes a record: a localised file
/// stores the id of a string, any other the text itself.
pub open spec fn display_text(
    db: Database,
    list: Seq<Sub>,
    sig: Seq<char>,
    kind: StringKind,
) -> Option<Seq<char>> {
    if db.is_localized {
        match (lstring_id_of(list, sig), db.localization) {
            (Some(id), Some(l)) => l.text_of(kind, id),
            _ => None,
        }
    } else {
        inline_string_of(list, sig)
    }
}

/// The text of a subrecord that names or describes a record.
pub fn resolve_name_field(
    db: &Database,
    list: &Vec<OwnedSubrecord>,
    sig: &str,
    kind: StringKind,
) -> (r: Option<String>)
    ensures
        opt_text(r) == display_text(*db, subs(list@), sig@, kind),
{
    if db.is_localized {
        match lstring_id_from_subrecords(list, sig) {
            Some(id) => match &db.localization {
                Some(l) => match l.lookup(kind, id) {
                    Some(s) => Some(s.to_owned()),
                    None => None,
                },
                None => None,
            },
            None => None,
        }
    } else {
        inline_string_from_subrecords(list, sig)
    }
}

/// A record in a report, without its fields.
pub open spec fn stub_view(db: Database, id: u32, m: RecordMeta, r: ParsedRecord) -> StubView {
    let list = subs(r.subrecords@);
    StubView {
        form_id: hex8(id),
        editor_id: edid_of(list),
        record_type: m.signature.text(),
        offset: m.offset,
        name: display_text(db, list, "FULL"@, StringKind::Strings),
        description: display_text(db, list, "DESC"@, StringKind::DlStrings),
        fields: None,
    }
}

/// A record in a report, without its fields.
pub fn record_stub_from_db(db: &Database, meta: &RecordMeta, id: FormId) -> (r: Result<
    RecordStub,
    Error,
>)
    ensures
        match r {
            Ok(s) => db.esm.at(meta.offset) is Some && s@ == stub_view(
                *db,
                id.0,
                *meta,
                db.esm.at(meta.offset)->0,
            ),
            Err(e) => db.esm.at(meta.offset) is None && e == Error::Unreadable(meta.offset),
        },
{
    match db.parse_record_at(meta.offset) {
        Ok(rec) => Ok(
            RecordStub {
                form_id: id.display(),
                editor_id: edid_from_subrecords(&rec.subrecords),
                record_type: meta.signature.as_str().to_owned(),
                offset: meta.offset,
                name: resolve_name_field(db, &rec.subrecords, "FULL", StringKind::Strings),
                description: resolve_name_field(
                    db,
                    &rec.subrecords,
                    "DESC",
                    StringKind::DlStrings,
                ),
                fields: None,
            },
        ),
        Err(e) => Err(e),
    }
}

/// The name and the description of a record; neither where it cannot be read.
pub fn resolve_stub_names(db: &Database, meta: &RecordMeta) -> (r: (Option<String>, Option<String>))
    ensures
        (opt_text(r.0), opt_text(r.1)) == match db.esm.at(meta.offset) {
            Some(p) => (
                display_text(*db, subs(p.subrecords@), "FULL"@, StringKind::Strings),
                display_text(*db, subs(p.subrecords@), "DESC"@, StringKind::DlStrings),
            ),
            None => (None, None),
        },
{
    match db.parse_record_at(meta.offset) {
        Ok(rec) => (
            resolve_name_field(db, &rec.subrecords, "FULL", StringKind::Strings),
            resolve_name_field(db, &rec.subrecords, "DESC", StringKind::DlStrings),
        ),
        Err(_) => (None, None),
    }
}

/// What a FormID leads to in a plugin.
pub open spec fn name_in(db: Database, id: FormId) -> Option<NameView> {
    match meta_of(db.index.metas(), id.0) {
        Some(m) => match db.esm.at(m.offset) {
            Some(r) => {
                let list = subs(r.subrecords@);
                Some(
                    NameView {
                        record_type: m.signature.text(),
                        editor_id: edid_of(list),
                        name: display_text(db, list, "FULL"@, StringKind::Strings),
                        description: display_text(db, list, "DESC"@, StringKind::DlStrings),
                    },
                )
            },
            None => None,
        },
        None => None,
    }
}

/// What a FormID leads to: in the one plugin, or else in the other.
pub open spec fn ref_name(s: Seq<char>, primary: Database, fallback: Database) -> Option<NameView> {
    match form_id_of(s) {
        Some(id) => if name_in(primary, id) is Some {
            name_in(primary, id)
        } else {
            name_in(fallback, id)
        },
        None => None,
    }
}

/// What a FormID leads to in a plugin.
fn name_from(db: &Database, id: FormId) -> (r: Option<RefName>)
    requires
        db.wf(),
    ensures
        match r {
            Some(n) => name_in(*db, id) == Some(n@),
            None => name_in(*db, id) is None,
        },
{
    match db.index.get_by_formid(id) {
        Some(meta) => match db.parse_record_at(meta.offset) {
            Ok(rec) => Some(
                RefName {
                    record_type: meta.signature.as_str().to_owned(),
                    editor_id: edid_from_subrecords(&rec.subrecords),
                    name: resolve_name_field(db, &rec.subrecords, "FULL", StringKind::Strings),
                    description: resolve_name_field(
                        db,
                        &rec.subrecords,
                        "DESC",
                        StringKind::DlStrings,
                    ),
                },
            ),
            Err(_) => None,
        },
        None => None,
    }
}

/// What a FormID leads to: in the one plugin, or else in the other.
pub fn resolve_ref_name(fid_str: &str, primary: &Database, fallback: &Database) -> (r: Option<
    RefName,
>)
    requires
        primary.wf(),
        fallback.wf(),
    ensures
        match r {
            Some(n) => ref_name(fid_str@, *primary, *fallback) == Some(n@),
            None => ref_name(fid_str@, *primary, *fallback) is None,
        },
{
    match parse_formid(fid_str) {
        Ok(id) => match name_from(primary, id) {
            Some(n) => Some(n),
            None => name_from(fallback, id),
        },
        Err(_) => None,
    }
}

/// The first `n` texts of `more` joined to a sorted list.
pub open spec fn joined_all(out: Seq<Seq<char>>, more: Seq<Seq<char>>, n: nat) -> Seq<Seq<char>>
    decreases n,
{
    if n == 0 || n > more.len() {
        out
    } else {
        joined(joined_all(out, more, (n - 1) as nat), more[n - 1])
    }
}

/// The sorted list of the FormIDs in `v`, joined to those in `out`.
pub open spec fn refs_in(v: Json, out: Seq<Seq<char>>) -> Seq<Seq<char>> {
    let more = formid_texts(v, Seq::empty());
    joined_all(out, more, more.len())
}

/// Collects the FormIDs in a value.
pub fn collect_formid_refs(val: &Value, out: &mut Vec<String>)
    ensures
        texts(final(out)@) == refs_in(val@, texts(old(out)@)),
{
    let mut more: Vec<String> = Vec::new();
    assert(texts(more@) =~= Seq::<Seq<char>>::empty());
    collect_all_formid_values(val, &mut more);
    let mut i: usize = 0;
    while i < more.len()
        invariant
            i <= more.len(),
            texts(out@) == joined_all(texts(old(out)@), texts(more@), i as nat),
        decreases more.len() - i,
    {
        assert(texts(more@)[i as int] == more@[i as int]@);
        join_text(out, &more[i]);
        i += 1;
    }
}

// ── Added and removed records ──────────────────────────────────────────────
/// Whether a record type is left out, in whatever case the options write it.
pub open spec fn left_out(types: Seq<String>, sig: Seq<char>) -> bool {
    exists|i: int| 0 <= i < types.len() && uppercase((#[trigger] types[i])@) == sig
}

/// Whether a record type is left out.
fn is_left_out(types: &Vec<String>, sig: &str) -> (r: bool)
    ensures
        r == left_out(types@, sig@),
{
    let mut i: usize = 0;
    while i < types.len()
        invariant
            i <= types.len(),
            forall|j: int| 0 <= j < i ==> uppercase((#[trigger] types@[j])@) != sig@,
        decreases types.len() - i,
    {
        if str_eq(&to_upper(&types[i]), sig) {
            return true;
        }
        i += 1;
    }
    false
}

/// The depth to which the fields of added and removed records are decoded.
pub open spec fn body_depth(b: BodyDetail) -> Option<ResolveDepth> {
    match b {
        BodyDetail::Omit => None,
        BodyDetail::Stub => Some(ResolveDepth::Stub),
        BodyDetail::Full => Some(ResolveDepth::Full),
    }
}

/// A record in a report of which nothing but its place is known.
pub open spec fn bare_stub(id: u32, m: RecordMeta) -> StubView {
    StubView {
        form_id: hex8(id),
        editor_id: None,
        record_type: m.signature.text(),
        offset: m.offset,
        name: None,
        description: None,
        fields: None,
    }
}

/// A record that only one plugin has, with its fields as far as they are
/// asked for. Of one that cannot be read only the place is known.
pub open spec fn lone_stub(db: Database, id: u32, m: RecordMeta, bodies: BodyDetail) -> StubView {
    match db.esm.at(m.offset) {
        Some(r) => {
            let s = stub_view(db, id, m, r);
            match body_depth(bodies) {
                Some(depth) => StubView { fields: Some(db.result_of(r, depth).fields), ..s },
                None => s,
            }
        },
        None => bare_stub(id, m),
    }
}

/// Those of the first `n` records that the other plugin lacks.
pub open spec fn lone(db: Database, other: Database, opts: DiffOptions, n: nat) -> Seq<StubView>
    decreases n,
{
    let t = db.index.metas();
    if n == 0 || n > t.len() {
        Seq::empty()
    } else {
        let before = lone(db, other, opts, (n - 1) as nat);
        let (id, m) = t[n - 1];
        if meta_of(other.index.metas(), id) is Some || left_out(
            opts.exclude_types@,
            m.signature.text(),
        ) {
            before
        } else {
            before.push(lone_stub(db, id, m, opts.bodies))
        }
    }
}

/// A record that only one plugin has.
fn lone_record(db: &Database, meta: &RecordMeta, id: FormId, bodies: BodyDetail) -> (s: RecordStub)
    requires
        db.wf(),
    ensures
        s@ == lone_stub(*db, id.0, *meta, bodies),
{
    match record_stub_from_db(db, meta, id) {
        Ok(s) => {
            let mut stub = s;
            if let Some(depth) = bodies.resolve_depth() {
                if let Ok(r) = db.record_at_meta_with_depth(meta, depth) {
                    stub.fields = Some(r.fields);
                }
            }
            stub
        },
        Err(_) => RecordStub {
            form_id: id.display(),
            editor_id: None,
            record_type: meta.signature.as_str().to_owned(),
            offset: meta.offset,
            name: None,
            description: None,
            fields: None,
        },
    }
}

/// The records that the other plugin lacks.
fn lone_records(db: &Database, other: &Database, opts: &DiffOptions) -> (out: Vec<RecordStub>)
    requires
        db.wf(),
        other.wf(),
    ensures
        stub_views(out@) == lone(*db, *other, *opts, db.index.metas().len()),
{
    let all = db.index.iter_all();
    let ghost t = db.index.metas();
    let mut out: Vec<RecordStub> = Vec::new();
    assert(stub_views(out@) =~= Seq::<StubView>::empty());
    let mut i: usize = 0;
    while i < all.len()
        invariant
            i <= all.len(),
            t == db.index.metas(),
            all@ == t.map_values(|e: (u32, RecordMeta)| (FormId(e.0), e.1)),
            db.wf(),
            other.wf(),
            stub_views(out@) == lone(*db, *other, *opts, i as nat),
        decreases all.len() - i,
    {
        let (id, meta) = all[i];
        assert(t[i as int] == (id.0, meta)) by {
            assert(all@[i as int] == (FormId(t[i as int].0), t[i as int].1));
        }
        if !other.index.contains(id) && !is_left_out(&opts.exclude_types, meta.signature.as_str()) {
            let stub = lone_record(db, &meta, id, opts.bodies);
            let ghost before = stub_views(out@);
            let ghost added = stub@;
            out.push(stub);
            assert(stub_views(out@) =~= before.push(added));
        }
        i += 1;
    }
    out
}

// ── Changed records ────────────────────────────────────────────────────────
/// What the comparison of two versions of a record gives.
pub ghost enum Verdict {
    /// The record is reported as unchanged or not at all.
    Skip,
    /// All that changed is noise.
    Noise,
    /// The record changed; the flag says that it was saved by another version
    /// of the editor.
    Changed(DiffView, bool),
}

/// The changes of a record without noise, if that is asked for.
pub open spec fn quiet_changes(
    d: Json,
    b: Database,
    opts: DiffOptions,
    ma: RecordMeta,
    mb: RecordMeta,
) -> Json {
    if opts.suppress_noise {
        let sig = mb.signature.text();
        let clean = without_noise(d, sig);
        if ma.form_version != mb.form_version {
            without_restamp(
                without_gated(clean, b.schema, sig, ma.form_version, mb.form_version),
                sig,
            )
        } else {
            clean
        }
    } else {
        d
    }
}

/// How the floats of two plugins read.
pub open spec fn float_texts<'a>(a: Database, b: Database) -> FloatTexts<'a> {
    FloatTexts { first: &a.floats, second: &b.floats }
}

/// The comparison of two versions of a record. One that cannot be read is not
/// reported, nor one whose type is left out in either version.
pub open spec fn verdict(
    a: Database,
    b: Database,
    opts: DiffOptions,
    id: u32,
    ma: RecordMeta,
    mb: RecordMeta,
) -> Verdict {
    if left_out(opts.exclude_types@, ma.signature.text()) || left_out(
        opts.exclude_types@,
        mb.signature.text(),
    ) {
        Verdict::Skip
    } else if !a.esm.records@.contains_key(ma.offset) || !b.esm.records@.contains_key(mb.offset) {
        Verdict::Skip
    } else if a.esm.records@[ma.offset].payload@ == b.esm.records@[mb.offset].payload@ {
        Verdict::Skip
    } else {
        match (a.esm.at(ma.offset), b.esm.at(mb.offset)) {
            (Some(ra), Some(rb)) => {
                let d = diff(
                    a.result_of(ra, ResolveDepth::Plain).fields,
                    b.result_of(rb, ResolveDepth::Plain).fields,
                    float_texts(a, b),
                );
                let quiet = quiet_changes(d, b, opts, ma, mb);
                let old_name = edid_of(subs(ra.subrecords@));
                if d == no_diff() {
                    Verdict::Skip
                } else if opts.suppress_noise && quiet == no_diff() {
                    Verdict::Noise
                } else {
                    Verdict::Changed(
                        DiffView {
                            stub: stub_view(b, id, mb, rb),
                            changes: quiet,
                            prev: if old_name != edid_of(subs(rb.subrecords@)) {
                                old_name
                            } else {
                                None
                            },
                        },
                        opts.suppress_noise && ma.form_version != mb.form_version,
                    )
                }
            },
            _ => Verdict::Skip,
        }
    }
}

/// The outcome of the comparison of two versions of a record.
enum Outcome {
    Skip,
    Noise,
    Changed(RecordDiff, bool),
}

/// An outcome as mathematics.
spec fn outcome_view(o: Outcome) -> Verdict {
    match o {
        Outcome::Skip => Verdict::Skip,
        Outcome::Noise => Verdict::Noise,
        Outcome::Changed(d, r) => Verdict::Changed(d@, r),
    }
}

/// Whether two texts that may be absent are the same.
fn same_text(a: &Option<String>, b: &Option<String>) -> (r: bool)
    ensures
        r == (opt_text(*a) == opt_text(*b)),
{
    match (a, b) {
        (Some(a), Some(b)) => str_eq(a, b),
        (None, None) => true,
        _ => false,
    }
}

/// Compares two versions of a record.
fn compare_record(
    a: &Database,
    b: &Database,
    opts: &DiffOptions,
    id: FormId,
    ma: &RecordMeta,
    mb: &RecordMeta,
) -> (o: Outcome)
    requires
        a.wf(),
        b.wf(),
    ensures
        outcome_view(o) == verdict(*a, *b, *opts, id.0, *ma, *mb),
{
    if is_left_out(&opts.exclude_types, ma.signature.as_str()) || is_left_out(
        &opts.exclude_types,
        mb.signature.as_str(),
    ) {
        return Outcome::Skip;
    }
    let payload_a = match a.esm.record_payload_at(ma.offset) {
        Ok(p) => p,
        Err(_) => {
            return Outcome::Skip;
        },
    };
    let payload_b = match b.esm.record_payload_at(mb.offset) {
        Ok(p) => p,
        Err(_) => {
            return Outcome::Skip;
        },
    };
    if bytes_eq(payload_a.as_slice(), payload_b.as_slice()) {
        return Outcome::Skip;
    }
    let ra = match a.record_at_meta_with_depth(ma, ResolveDepth::Plain) {
        Ok(r) => r,
        Err(_) => {
            return Outcome::Skip;
        },
    };
    let rb = match b.record_at_meta_with_depth(mb, ResolveDepth::Plain) {
        Ok(r) => r,
        Err(_) => {
            return Outcome::Skip;
        },
    };
    let floats = FloatTexts { first: &a.floats, second: &b.floats };
    let mut changes = json_diff(&ra.fields, &rb.fields, floats);
    if is_empty_diff(&changes) {
        return Outcome::Skip;
    }
    let mut restamp = false;
    if opts.suppress_noise {
        let sig = mb.signature.as_str();
        strip_noise_fields(&mut changes, sig);
        if ma.form_version != mb.form_version {
            restamp = true;
            strip_version_gated_transitions(
                &mut changes,
                &b.schema,
                sig,
                ma.form_version,
                mb.form_version,
            );
            strip_restamp_appearances(&mut changes, sig);
        }
        if is_empty_diff(&changes) {
            return Outcome::Noise;
        }
    }
    let (name, description) = resolve_stub_names(b, mb);
    let prev_editor_id = if same_text(&ra.editor_id, &rb.editor_id) {
        None
    } else {
        ra.editor_id
    };
    let stub = RecordStub {
        form_id: id.display(),
        editor_id: rb.editor_id,
        record_type: mb.signature.as_str().to_owned(),
        offset: mb.offset,
        name,
        description,
        fields: None,
    };
    assert(stub@ == stub_view(*b, id.0, *mb, b.esm.at(mb.offset)->0));
    Outcome::Changed(RecordDiff { stub, field_changes: changes, prev_editor_id }, restamp)
}

/// What has been found among the records that both plugins have.
pub ghost struct Found {
    pub changed: Seq<DiffView>,
    pub restamp: Seq<bool>,
    pub counts: Counts,
}

/// What is found among the first `n` records of the old plugin.
pub open spec fn common(a: Database, b: Database, opts: DiffOptions, n: nat) -> Found
    decreases n,
{
    let t = a.index.metas();
    if n == 0 || n > t.len() {
        Found { changed: Seq::empty(), restamp: Seq::empty(), counts: Seq::empty() }
    } else {
        let f = common(a, b, opts, (n - 1) as nat);
        let (id, ma) = t[n - 1];
        match meta_of(b.index.metas(), id) {
            None => f,
            Some(mb) => match verdict(a, b, opts, id, ma, mb) {
                Verdict::Skip => f,
                Verdict::Noise => Found {
                    counts: count_more(f.counts, mb.signature.text(), 1),
                    ..f
                },
                Verdict::Changed(d, r) => Found {
                    changed: f.changed.push(d),
                    restamp: f.restamp.push(r),
                    counts: f.counts,
                },
            },
        }
    }
}

/// Compares the records that both plugins have.
fn common_records(a: &Database, b: &Database, opts: &DiffOptions) -> (r: (
    Vec<RecordDiff>,
    Vec<bool>,
    Vec<(String, u64)>,
))
    requires
        a.wf(),
        b.wf(),
    ensures
        common(*a, *b, *opts, a.index.metas().len()) == (Found {
            changed: diff_views(r.0@),
            restamp: r.1@,
            counts: counts_view(r.2@),
        }),
        r.0.len() == r.1.len(),
{
    let all = a.index.iter_all();
    let ghost t = a.index.metas();
    let mut changed: Vec<RecordDiff> = Vec::new();
    let mut restamp: Vec<bool> = Vec::new();
    let mut counts: Vec<(String, u64)> = Vec::new();
    assert(diff_views(changed@) =~= Seq::<DiffView>::empty());
    assert(counts_view(counts@) =~= Seq::empty());
    assert(restamp@ =~= Seq::<bool>::empty());
    let mut i: usize = 0;
    while i < all.len()
        invariant
            i <= all.len(),
            t == a.index.metas(),
            all@ == t.map_values(|e: (u32, RecordMeta)| (FormId(e.0), e.1)),
            a.wf(),
            b.wf(),
            changed.len() == restamp.len(),
            common(*a, *b, *opts, i as nat) == (Found {
                changed: diff_views(changed@),
                restamp: restamp@,
                counts: counts_view(counts@),
            }),
        decreases all.len() - i,
    {
        let (id, ma) = all[i];
        assert(t[i as int] == (id.0, ma)) by {
            assert(all@[i as int] == (FormId(t[i as int].0), t[i as int].1));
        }
        if let Some(mb) = b.index.get_by_formid(id) {
            match compare_record(a, b, opts, id, &ma, &mb) {
                Outcome::Skip => {},
                Outcome::Noise => {
                    add_count(&mut counts, mb.signature.as_str(), 1);
                },
                Outcome::Changed(d, r) => {
                    let ghost before = diff_views(changed@);
                    let ghost added = d@;
                    changed.push(d);
                    restamp.push(r);
                    assert(diff_views(changed@) =~= before.push(added));
                },
            }
        }
        i += 1;
    }
    (changed, restamp, counts)
}

// ── The report ─────────────────────────────────────────────────────────────
/// A report as mathematics.
pub ghost struct Report {
    pub added: Seq<StubView>,
    pub removed: Seq<StubView>,
    pub changed: Seq<DiffView>,
    pub names: Seq<(Seq<char>, NameView)>,
    pub counts: Counts,
    pub defaults: Seq<DefaultView>,
}

/// Names of references as mathematics.
pub open spec fn name_views(list: Seq<(String, RefName)>) -> Seq<(Seq<char>, NameView)> {
    list.map_values(|e: (String, RefName)| (e.0@, e.1@))
}

impl View for DiffResult {
    type V = Report;

    open spec fn view(&self) -> Report {
        Report {
            added: stub_views(self.added@),
            removed: stub_views(self.removed@),
            changed: diff_views(self.changed@),
            names: name_views(self.ref_names@),
            counts: counts_view(self.suppressed_counts@),
            defaults: default_views(self.auto_suppressed_defaults@),
        }
    }
}

/// The FormIDs in the fields of the first `n` records, joined to `out`.
pub open spec fn stub_refs(list: Seq<StubView>, out: Seq<Seq<char>>, n: nat) -> Seq<Seq<char>>
    decreases n,
{
    if n == 0 || n > list.len() {
        out
    } else {
        let before = stub_refs(list, out, (n - 1) as nat);
        match list[n - 1].fields {
            Some(v) => refs_in(v, before),
            None => before,
        }
    }
}

/// The FormIDs in the changes of the first `n` records.
pub open spec fn change_refs(list: Seq<DiffView>, n: nat) -> Seq<Seq<char>>
    decreases n,
{
    if n == 0 || n > list.len() {
        Seq::empty()
    } else {
        refs_in(list[n - 1].changes, change_refs(list, (n - 1) as nat))
    }
}

/// All FormIDs in a report, sorted.
pub open spec fn report_refs(
    changed: Seq<DiffView>,
    added: Seq<StubView>,
    removed: Seq<StubView>,
) -> Seq<Seq<char>> {
    let first = change_refs(changed, changed.len());
    stub_refs(removed, stub_refs(added, first, added.len()), removed.len())
}

/// What the first `n` FormIDs lead to.
pub open spec fn names_of(refs: Seq<Seq<char>>, a: Database, b: Database, n: nat) -> Seq<
    (Seq<char>, NameView),
>
    decreases n,
{
    if n == 0 || n > refs.len() {
        Seq::empty()
    } else {
        let before = names_of(refs, a, b, (n - 1) as nat);
        match ref_name(refs[n - 1], b, a) {
            Some(v) => before.push((refs[n - 1], v)),
            None => before,
        }
    }
}

/// Whether names of records can be had from a plugin.
pub open spec fn can_name(db: Database) -> bool {
    db.localization is Some || db.curves is Some || !db.is_localized
}

/// What is reported of the records that both plugins have, once the noise of
/// re-saving is taken out.
pub open spec fn settled_changes(f: Found, opts: DiffOptions) -> (
    Seq<DiffView>,
    Counts,
    Seq<DefaultView>,
) {
    if opts.suppress_noise && f.restamp.contains(true) {
        let defaults = found_defaults(f.changed, opts.restamp_default_min_count as int);
        let done = calibrated(
            f.changed,
            f.restamp,
            f.counts,
            suppressible(defaults),
            f.changed.len(),
        );
        (done.kept, done.counts, defaults)
    } else {
        (f.changed, f.counts, Seq::empty())
    }
}

/// The comparison of two plugins.
pub open spec fn comparison(a: Database, b: Database, opts: DiffOptions) -> Report {
    let added = lone(b, a, opts, b.index.metas().len());
    let removed = lone(a, b, opts, a.index.metas().len());
    let (changed, counts, defaults) = settled_changes(
        common(a, b, opts, a.index.metas().len()),
        opts,
    );
    let refs = report_refs(changed, added, removed);
    Report {
        added,
        removed,
        changed,
        names: if can_name(a) || can_name(b) {
            names_of(refs, a, b, refs.len())
        } else {
            Seq::empty()
        },
        counts,
        defaults,
    }
}

/// Whether one of the flags is set.
fn any_set(flags: &Vec<bool>) -> (r: bool)
    ensures
        r == flags@.contains(true),
{
    let mut i: usize = 0;
    while i < flags.len()
        invariant
            i <= flags.len(),
            forall|j: int| 0 <= j < i ==> !flags@[j],
        decreases flags.len() - i,
    {
        if flags[i] {
            assert(flags@[i as int] == true);
            return true;
        }
        i += 1;
    }
    false
}

/// Collects the FormIDs in the fields of records.
fn collect_stub_refs(list: &Vec<RecordStub>, out: &mut Vec<String>)
    ensures
        texts(final(out)@) == stub_refs(stub_views(list@), texts(old(out)@), list@.len()),
{
    let mut i: usize = 0;
    while i < list.len()
        invariant
            i <= list.len(),
            texts(out@) == stub_refs(stub_views(list@), texts(old(out)@), i as nat),
        decreases list.len() - i,
    {
        assert(stub_views(list@)[i as int] == list@[i as int]@);
        if let Some(f) = &list[i].fields {
            collect_formid_refs(f, out);
        }
        i += 1;
    }
}

/// What the FormIDs in a report lead to.
fn collect_names(
    changed: &Vec<RecordDiff>,
    added: &Vec<RecordStub>,
    removed: &Vec<RecordStub>,
    a: &Database,
    b: &Database,
) -> (r: Vec<(String, RefName)>)
    requires
        a.wf(),
        b.wf(),
    ensures
        ({
            let refs = report_refs(
                diff_views(changed@),
                stub_views(added@),
                stub_views(removed@),
            );
            name_views(r@) == names_of(refs, *a, *b, refs.len())
        }),
{
    let mut refs: Vec<String> = Vec::new();
    assert(texts(refs@) =~= Seq::<Seq<char>>::empty());
    let mut i: usize = 0;
    while i < changed.len()
        invariant
            i <= changed.len(),
            texts(refs@) == change_refs(diff_views(changed@), i as nat),
        decreases changed.len() - i,
    {
        assert(diff_views(changed@)[i as int] == changed@[i as int]@);
        collect_formid_refs(&changed[i].field_changes, &mut refs);
        i += 1;
    }
    collect_stub_refs(added, &mut refs);
    collect_stub_refs(removed, &mut refs);
    let mut out: Vec<(String, RefName)> = Vec::new();
    assert(name_views(out@) =~= Seq::empty());
    let mut k: usize = 0;
    while k < refs.len()
        invariant
            k <= refs.len(),
            a.wf(),
            b.wf(),
            name_views(out@) == names_of(texts(refs@), *a, *b, k as nat),
        decreases refs.len() - k,
    {
        assert(texts(refs@)[k as int] == refs@[k as int]@);
        if let Some(n) = resolve_ref_name(&refs[k], b, a) {
            let ghost before = name_views(out@);
            let ghost added_name = (refs@[k as int]@, n@);
            out.push((refs[k].as_str().to_owned(), n));
            assert(name_views(out@) =~= before.push(added_name));
        }
        k += 1;
    }
    out
}

/// Compares two plugins, the older first. A record that cannot be read never
/// stops the comparison.
pub fn diff_databases_with(a: &Database, b: &Database, opts: &DiffOptions) -> (r: Result<
    DiffResult,
    Error,
>)
    requires
        a.wf(),
        b.wf(),
    ensures
        r matches Ok(d) && d@ == comparison(*a, *b, *opts),
{
    let added = lone_records(b, a, opts);
    let removed = lone_records(a, b, opts);
    let (mut changed, restamp, mut counts) = common_records(a, b, opts);
    let ghost f = Found {
        changed: diff_views(changed@),
        restamp: restamp@,
        counts: counts_view(counts@),
    };
    let mut defaults: Vec<SuppressedDefault> = Vec::new();
    assert(default_views(defaults@) =~= Seq::<DefaultView>::empty());
    if opts.suppress_noise && any_set(&restamp) {
        assert(f.changed.len() == changed.len());
        defaults =
        apply_restamp_calibrated_suppression(
            &mut changed,
            &restamp,
            &mut counts,
            opts.restamp_default_min_count,
        );
    }
    assert(settled_changes(f, *opts) == (
        diff_views(changed@),
        counts_view(counts@),
        default_views(defaults@),
    ));
    let mut ref_names: Vec<(String, RefName)> = Vec::new();
    assert(name_views(ref_names@) =~= Seq::empty());
    if a.has_enrichment() || b.has_enrichment() || !a.is_localized || !b.is_localized {
        ref_names = collect_names(&changed, &added, &removed, a, b);
    }
    Ok(
        DiffResult {
            added,
            removed,
            changed,
            ref_names,
            suppressed_counts: counts,
            auto_suppressed_defaults: defaults,
        },
    )
}

/// Compares two plugins, the older first: full bodies, without noise, of
/// every type.
pub fn diff_databases(a: &Database, b: &Database) -> (r: Result<DiffResult, Error>)
    requires
        a.wf(),
        b.wf(),
    ensures
        exists|opts: DiffOptions|
            opts.bodies == BodyDetail::Full && opts.suppress_noise && opts.exclude_types@.len() == 0
                && opts.restamp_default_min_count == 100 && (r matches Ok(d) && d@
                == #[trigger] comparison(*a, *b, opts)),
{
    let opts = DiffOptions::default();
    diff_databases_with(a, b, &opts)
}

// ── Laws ───────────────────────────────────────────────────────────────────
/// The report of a comparison that found nothing.
pub open spec fn empty_report() -> Report {
    Report {
        added: Seq::empty(),
        removed: Seq::empty(),
        changed: Seq::empty(),
        names: Seq::empty(),
        counts: Seq::empty(),
        defaults: Seq::empty(),
    }
}

proof fn lemma_lone_same(db: Database, opts: DiffOptions, n: nat)
    requires
        db.wf(),
        n <= db.index.metas().len(),
    ensures
        lone(db, db, opts, n) == Seq::<StubView>::empty(),
    decreases n,
{
    if n > 0 {
        lemma_lone_same(db, opts, (n - 1) as nat);
        let t = db.index.metas();
        lemma_own_meta(t, n - 1);
    }
}

proof fn lemma_own_meta(t: Metas, i: int)
    requires
        crate::index::increasing(t),
        0 <= i < t.len(),
    ensures
        meta_of(t, t[i].0) == Some(t[i].1),
    decreases t.len(),
{
    if i > 0 {
        assert(t[0].0 < t[i].0);
        let rest = t.drop_first();
        assert(crate::index::increasing(rest)) by {
            assert forall|a: int, b: int| 0 <= a < b < rest.len() implies (#[trigger] rest[a]).0 < (
            #[trigger] rest[b]).0 by {
                assert(rest[a] == t[a + 1] && rest[b] == t[b + 1]);
            }
        }
        assert(rest[i - 1] == t[i]);
        lemma_own_meta(rest, i - 1);
    }
}

proof fn lemma_common_same(db: Database, opts: DiffOptions, n: nat)
    requires
        db.wf(),
        n <= db.index.metas().len(),
    ensures
        common(db, db, opts, n) == (Found {
            changed: Seq::empty(),
            restamp: Seq::empty(),
            counts: Seq::empty(),
        }),
    decreases n,
{
    if n > 0 {
        lemma_common_same(db, opts, (n - 1) as nat);
        let t = db.index.metas();
        lemma_own_meta(t, n - 1);
    }
}

/// A plugin compared with itself has no difference.
pub proof fn law_same_plugin_does_not_differ(db: Database, opts: DiffOptions)
    requires
        db.wf(),
    ensures
        comparison(db, db, opts) == empty_report(),
{
    let n = db.index.metas().len();
    lemma_lone_same(db, opts, n);
    lemma_common_same(db, opts, n);
    let f = Found { changed: Seq::empty(), restamp: Seq::empty(), counts: Seq::empty() };
    assert(!f.restamp.contains(true));
    assert(settled_changes(f, opts) == (f.changed, f.counts, Seq::<DefaultView>::empty()));
    let none = Seq::<StubView>::empty();
    assert(report_refs(f.changed, none, none) == Seq::<Seq<char>>::empty());
}

/// What is added one way is removed the other way round.
pub proof fn law_added_and_removed_mirror(a: Database, b: Database, opts: DiffOptions)
    ensures
        comparison(a, b, opts).added == comparison(b, a, opts).removed,
        comparison(a, b, opts).removed == comparison(b, a, opts).added,
{
}

/// The FormIDs among the first `n` records that the other plugin lacks and the
/// options do not leave out.
pub open spec fn lone_ids(db: Database, other: Database, opts: DiffOptions, n: nat) -> Seq<u32>
    decreases n,
{
    let t = db.index.metas();
    if n == 0 || n > t.len() {
        Seq::empty()
    } else {
        let before = lone_ids(db, other, opts, (n - 1) as nat);
        let (id, m) = t[n - 1];
        if meta_of(other.index.metas(), id) is Some || left_out(
            opts.exclude_types@,
            m.signature.text(),
        ) {
            before
        } else {
            before.push(id)
        }
    }
}

/// Added and removed records come in the order of their FormIDs, as numbers
/// and as they are shown, each once, and the other plugin has none of them.
pub proof fn law_lone_records(db: Database, other: Database, opts: DiffOptions, n: nat)
    requires
        db.wf(),
        n <= db.index.metas().len(),
    ensures
        ({
            let ids = lone_ids(db, other, opts, n);
            let list = lone(db, other, opts, n);
            &&& list.len() == ids.len()
            &&& forall|i: int| 0 <= i < ids.len() ==> (#[trigger] list[i]).form_id == hex8(ids[i])
            &&& forall|i: int|
                0 <= i < ids.len() ==> meta_of(other.index.metas(), #[trigger] ids[i]) is None
            &&& forall|i: int|
                0 <= i < ids.len() ==> exists|k: int|
                    0 <= k < n && (#[trigger] db.index.metas()[k]).0 == #[trigger] ids[i]
            &&& forall|i: int, j: int|
                0 <= i < j < ids.len() ==> #[trigger] ids[i] < #[trigger] ids[j]
            &&& forall|i: int, j: int|
                0 <= i < j < list.len() ==> text_lt(
                    (#[trigger] list[i]).form_id,
                    (#[trigger] list[j]).form_id,
                )
        }),
    decreases n,
{
    if n > 0 {
        law_lone_records(db, other, opts, (n - 1) as nat);
        let t = db.index.metas();
        let was = lone_ids(db, other, opts, (n - 1) as nat);
        let ids = lone_ids(db, other, opts, n);
        let before = lone(db, other, opts, (n - 1) as nat);
        let list = lone(db, other, opts, n);
        assert forall|i: int| 0 <= i < ids.len() implies exists|k: int|
            0 <= k < n && (#[trigger] t[k]).0 == #[trigger] ids[i] by {
            if i < was.len() {
                assert(ids[i] == was[i]);
                let k = choose|k: int| 0 <= k < n - 1 && (#[trigger] t[k]).0 == was[i];
                assert(t[k].0 == ids[i]);
            } else {
                assert(t[n - 1].0 == ids[i]);
            }
        }
        assert forall|i: int| 0 <= i < ids.len() implies (#[trigger] list[i]).form_id == hex8(
            ids[i],
        ) by {
            if i < was.len() {
                assert(list[i] == before[i]);
            }
        }
        assert forall|i: int| 0 <= i < ids.len() implies meta_of(
            other.index.metas(),
            #[trigger] ids[i],
        ) is None by {
            if i < was.len() {
                assert(ids[i] == was[i]);
            }
        }
        assert forall|i: int, j: int| 0 <= i < j < ids.len() implies #[trigger] ids[i]
            < #[trigger] ids[j] by {
            assert(ids[i] == was[i]);
            if j < was.len() {
                assert(ids[j] == was[j]);
            } else {
                let k = choose|k: int| 0 <= k < n - 1 && (#[trigger] t[k]).0 == was[i];
                assert(t[k].0 < t[n - 1].0);
            }
        }
        assert forall|i: int, j: int| 0 <= i < j < list.len() implies text_lt(
            (#[trigger] list[i]).form_id,
            (#[trigger] list[j]).form_id,
        ) by {
            assert(ids[i] < ids[j]);
            law_display_order(FormId(ids[i]), FormId(ids[j]));
        }
    }
}

proof fn lemma_lone_types(db: Database, other: Database, opts: DiffOptions, n: nat)
    ensures
        forall|i: int|
            0 <= i < lone(db, other, opts, n).len() ==> !left_out(
                opts.exclude_types@,
                (#[trigger] lone(db, other, opts, n)[i]).record_type,
            ),
    decreases n,
{
    if 0 < n <= db.index.metas().len() {
        lemma_lone_types(db, other, opts, (n - 1) as nat);
        let before = lone(db, other, opts, (n - 1) as nat);
        let list = lone(db, other, opts, n);
        assert forall|i: int| 0 <= i < list.len() implies !left_out(
            opts.exclude_types@,
            (#[trigger] list[i]).record_type,
        ) by {
            if i < before.len() {
                assert(list[i] == before[i]);
            }
        }
    }
}

proof fn lemma_common_types(a: Database, b: Database, opts: DiffOptions, n: nat)
    ensures
        common(a, b, opts, n).changed.len() == common(a, b, opts, n).restamp.len(),
        forall|i: int|
            0 <= i < common(a, b, opts, n).changed.len() ==> !left_out(
                opts.exclude_types@,
                (#[trigger] common(a, b, opts, n).changed[i]).stub.record_type,
            ),
    decreases n,
{
    if 0 < n <= a.index.metas().len() {
        lemma_common_types(a, b, opts, (n - 1) as nat);
        let before = common(a, b, opts, (n - 1) as nat).changed;
        let list = common(a, b, opts, n).changed;
        assert forall|i: int| 0 <= i < list.len() implies !left_out(
            opts.exclude_types@,
            (#[trigger] list[i]).stub.record_type,
        ) by {
            if i < before.len() {
                assert(list[i] == before[i]);
            }
        }
    }
}

proof fn lemma_calibrated_types(
    types: Seq<String>,
    changed: Seq<DiffView>,
    restamp: Seq<bool>,
    counts: Counts,
    set: Seq<(Seq<char>, Json)>,
    n: nat,
)
    requires
        forall|i: int|
            0 <= i < changed.len() ==> !left_out(types, (#[trigger] changed[i]).stub.record_type),
    ensures
        ({
            let kept = calibrated(changed, restamp, counts, set, n).kept;
            forall|i: int|
                0 <= i < kept.len() ==> !left_out(types, (#[trigger] kept[i]).stub.record_type)
        }),
    decreases n,
{
    if 0 < n <= changed.len() {
        lemma_calibrated_types(types, changed, restamp, counts, set, (n - 1) as nat);
        let before = calibrated(changed, restamp, counts, set, (n - 1) as nat).kept;
        let kept = calibrated(changed, restamp, counts, set, n).kept;
        assert forall|i: int| 0 <= i < kept.len() implies !left_out(
            types,
            (#[trigger] kept[i]).stub.record_type,
        ) by {
            if i < before.len() {
                assert(kept[i] == before[i]);
            } else {
                assert(kept[i].stub == changed[n - 1].stub);
            }
        }
    }
}

/// A type that is left out occurs nowhere in a report: neither among the added
/// nor among the removed nor among the changed records.
pub proof fn law_left_out_types_are_absent(a: Database, b: Database, opts: DiffOptions)
    ensures
        ({
            let r = comparison(a, b, opts);
            let types = opts.exclude_types@;
            &&& forall|i: int|
                0 <= i < r.added.len() ==> !left_out(types, (#[trigger] r.added[i]).record_type)
            &&& forall|i: int|
                0 <= i < r.removed.len() ==> !left_out(types, (#[trigger] r.removed[i]).record_type)
            &&& forall|i: int|
                0 <= i < r.changed.len() ==> !left_out(
                    types,
                    (#[trigger] r.changed[i]).stub.record_type,
                )
        }),
{
    lemma_lone_types(b, a, opts, b.index.metas().len());
    lemma_lone_types(a, b, opts, a.index.metas().len());
    lemma_common_types(a, b, opts, a.index.metas().len());
    let f = common(a, b, opts, a.index.metas().len());
    lemma_calibrated_types(
        opts.exclude_types@,
        f.changed,
        f.restamp,
        f.counts,
        suppressible(found_defaults(f.changed, opts.restamp_default_min_count as int)),
        f.changed.len(),
    );
}

/// Whether a change is one of the `k`-th record of the old plugin, which the
/// new one has too, and shows no fields of its own.
pub open spec fn changed_in_both(ta: Metas, tb: Metas, s: StubView, k: int) -> bool {
    &&& s.form_id == hex8(ta[k].0)
    &&& meta_of(tb, ta[k].0) is Some
    &&& s.fields is None
}

/// Whether every change is one of the first `n` records of the old plugin,
/// which the new one has too, and they come in the order of the FormIDs that
/// they show.
pub open spec fn in_both(ta: Metas, tb: Metas, list: Seq<DiffView>, n: int) -> bool {
    &&& forall|i: int|
        0 <= i < list.len() ==> exists|k: int|
            0 <= k < n && #[trigger] changed_in_both(ta, tb, (#[trigger] list[i]).stub, k)
    &&& forall|i: int, j: int|
        0 <= i < j < list.len() ==> text_lt(
            (#[trigger] list[i]).stub.form_id,
            (#[trigger] list[j]).stub.form_id,
        )
}

proof fn lemma_in_both_more(ta: Metas, tb: Metas, list: Seq<DiffView>, n: int)
    requires
        in_both(ta, tb, list, n),
    ensures
        in_both(ta, tb, list, n + 1),
{
    assert forall|i: int| 0 <= i < list.len() implies exists|k: int|
        0 <= k < n + 1 && #[trigger] changed_in_both(ta, tb, (#[trigger] list[i]).stub, k) by {
        let k = choose|k: int| 0 <= k < n && changed_in_both(ta, tb, list[i].stub, k);
        assert(changed_in_both(ta, tb, list[i].stub, k));
    }
}

proof fn lemma_in_both_push(ta: Metas, tb: Metas, list: Seq<DiffView>, d: DiffView, n: int)
    requires
        crate::index::increasing(ta),
        0 <= n < ta.len(),
        in_both(ta, tb, list, n),
        changed_in_both(ta, tb, d.stub, n),
    ensures
        in_both(ta, tb, list.push(d), n + 1),
{
    let all = list.push(d);
    lemma_in_both_more(ta, tb, list, n);
    assert forall|i: int| 0 <= i < all.len() implies exists|k: int|
        0 <= k < n + 1 && #[trigger] changed_in_both(ta, tb, (#[trigger] all[i]).stub, k) by {
        if i < list.len() {
            assert(all[i] == list[i]);
            let k = choose|k: int| 0 <= k < n + 1 && changed_in_both(ta, tb, list[i].stub, k);
            assert(changed_in_both(ta, tb, all[i].stub, k));
        } else {
            assert(changed_in_both(ta, tb, all[i].stub, n));
        }
    }
    assert forall|i: int, j: int| 0 <= i < j < all.len() implies text_lt(
        (#[trigger] all[i]).stub.form_id,
        (#[trigger] all[j]).stub.form_id,
    ) by {
        assert(all[i] == list[i]);
        if j < list.len() {
            assert(all[j] == list[j]);
        } else {
            let k = choose|k: int| 0 <= k < n && changed_in_both(ta, tb, list[i].stub, k);
            assert(ta[k].0 < ta[n].0);
            law_display_order(FormId(ta[k].0), FormId(ta[n].0));
        }
    }
}

proof fn lemma_common_order(a: Database, b: Database, opts: DiffOptions, n: nat)
    requires
        a.wf(),
        n <= a.index.metas().len(),
    ensures
        in_both(a.index.metas(), b.index.metas(), common(a, b, opts, n).changed, n as int),
    decreases n,
{
    if n > 0 {
        let m = (n - 1) as nat;
        lemma_common_order(a, b, opts, m);
        let ta = a.index.metas();
        let tb = b.index.metas();
        let before = common(a, b, opts, m).changed;
        lemma_in_both_more(ta, tb, before, m as int);
        if let Some(mb) = meta_of(tb, ta[m as int].0) {
            let v = verdict(a, b, opts, ta[m as int].0, ta[m as int].1, mb);
            if let Verdict::Changed(d, _) = v {
                assert(changed_in_both(ta, tb, d.stub, m as int));
                lemma_in_both_push(ta, tb, before, d, m as int);
            }
        }
    }
}

proof fn lemma_calibrated_order(
    ta: Metas,
    tb: Metas,
    changed: Seq<DiffView>,
    restamp: Seq<bool>,
    counts: Counts,
    set: Seq<(Seq<char>, Json)>,
    m: int,
    n: nat,
)
    requires
        in_both(ta, tb, changed, m),
        n <= changed.len(),
    ensures
        ({
            let kept = calibrated(changed, restamp, counts, set, n).kept;
            &&& in_both(ta, tb, kept, m)
            &&& forall|i: int|
                0 <= i < kept.len() ==> exists|k: int|
                    0 <= k < n && (#[trigger] kept[i]).stub == (#[trigger] changed[k]).stub
        }),
    decreases n,
{
    if n > 0 {
        lemma_calibrated_order(ta, tb, changed, restamp, counts, set, m, (n - 1) as nat);
        let before = calibrated(changed, restamp, counts, set, (n - 1) as nat).kept;
        let kept = calibrated(changed, restamp, counts, set, n).kept;
        if kept.len() > before.len() {
            lemma_kept_order(ta, tb, changed, before, kept.last(), m, n - 1);
            assert(kept =~= before.push(kept.last()));
        } else {
            assert(kept == before);
        }
        assert forall|i: int| 0 <= i < kept.len() implies exists|k: int|
            0 <= k < n && (#[trigger] kept[i]).stub == (#[trigger] changed[k]).stub by {
            if i < before.len() {
                assert(kept[i] == before[i]);
                let k = choose|k: int|
                    0 <= k < n - 1 && before[i].stub == (#[trigger] changed[k]).stub;
                assert(kept[i].stub == changed[k].stub);
            } else {
                assert(kept[i].stub == changed[n - 1].stub);
            }
        }
    }
}

proof fn lemma_kept_order(
    ta: Metas,
    tb: Metas,
    changed: Seq<DiffView>,
    before: Seq<DiffView>,
    d: DiffView,
    m: int,
    n: int,
)
    requires
        in_both(ta, tb, changed, m),
        in_both(ta, tb, before, m),
        0 <= n < changed.len(),
        d.stub == changed[n].stub,
        forall|i: int|
            0 <= i < before.len() ==> exists|k: int|
                0 <= k < n && (#[trigger] before[i]).stub == (#[trigger] changed[k]).stub,
    ensures
        in_both(ta, tb, before.push(d), m),
{
    let all = before.push(d);
    assert forall|i: int| 0 <= i < all.len() implies exists|k: int|
        0 <= k < m && #[trigger] changed_in_both(ta, tb, (#[trigger] all[i]).stub, k) by {
        if i < before.len() {
            assert(all[i] == before[i]);
            let k = choose|k: int| 0 <= k < m && changed_in_both(ta, tb, before[i].stub, k);
            assert(changed_in_both(ta, tb, all[i].stub, k));
        } else {
            let k = choose|k: int| 0 <= k < m && changed_in_both(ta, tb, changed[n].stub, k);
            assert(changed_in_both(ta, tb, all[i].stub, k));
        }
    }
    assert forall|i: int, j: int| 0 <= i < j < all.len() implies text_lt(
        (#[trigger] all[i]).stub.form_id,
        (#[trigger] all[j]).stub.form_id,
    ) by {
        assert(all[i] == before[i]);
        if j < before.len() {
            assert(all[j] == before[j]);
        } else {
            let k = choose|k: int| 0 <= k < n && before[i].stub == (#[trigger] changed[k]).stub;
            assert(text_lt(changed[k].stub.form_id, changed[n].stub.form_id));
        }
    }
}

/// Changed records are records of both plugins. They come in the order of
/// their FormIDs, each once, and without fields of their own.
pub proof fn law_changed_records(a: Database, b: Database, opts: DiffOptions)
    requires
        a.wf(),
    ensures
        in_both(
            a.index.metas(),
            b.index.metas(),
            comparison(a, b, opts).changed,
            a.index.metas().len() as int,
        ),
{
    let n = a.index.metas().len();
    let f = common(a, b, opts, n);
    lemma_common_order(a, b, opts, n);
    lemma_calibrated_order(
        a.index.metas(),
        b.index.metas(),
        f.changed,
        f.restamp,
        f.counts,
        suppressible(found_defaults(f.changed, opts.restamp_default_min_count as int)),
        n as int,
        f.changed.len(),
    );
}

proof fn lemma_common_nonempty(a: Database, b: Database, opts: DiffOptions, n: nat)
    ensures
        forall|i: int|
            0 <= i < common(a, b, opts, n).changed.len() ==> (#[trigger] common(
                a,
                b,
                opts,
                n,
            ).changed[i]).changes != no_diff(),
    decreases n,
{
    if 0 < n <= a.index.metas().len() {
        lemma_common_nonempty(a, b, opts, (n - 1) as nat);
        let before = common(a, b, opts, (n - 1) as nat).changed;
        let list = common(a, b, opts, n).changed;
        assert forall|i: int| 0 <= i < list.len() implies (#[trigger] list[i]).changes
            != no_diff() by {
            if i < before.len() {
                assert(list[i] == before[i]);
            }
        }
    }
}

proof fn lemma_calibrated_nonempty(
    changed: Seq<DiffView>,
    restamp: Seq<bool>,
    counts: Counts,
    set: Seq<(Seq<char>, Json)>,
    n: nat,
)
    requires
        forall|i: int| 0 <= i < changed.len() ==> (#[trigger] changed[i]).changes != no_diff(),
    ensures
        ({
            let kept = calibrated(changed, restamp, counts, set, n).kept;
            forall|i: int| 0 <= i < kept.len() ==> (#[trigger] kept[i]).changes != no_diff()
        }),
    decreases n,
{
    if 0 < n <= changed.len() {
        lemma_calibrated_nonempty(changed, restamp, counts, set, (n - 1) as nat);
        let before = calibrated(changed, restamp, counts, set, (n - 1) as nat).kept;
        let kept = calibrated(changed, restamp, counts, set, n).kept;
        assert forall|i: int| 0 <= i < kept.len() implies (#[trigger] kept[i]).changes
            != no_diff() by {
            if i < before.len() {
                assert(kept[i] == before[i]);
            }
        }
    }
}

/// A record is reported as changed only where a change is left: one of which
/// the noise was all there was is dropped.
pub proof fn law_changes_are_not_empty(a: Database, b: Database, opts: DiffOptions)
    ensures
        forall|i: int|
            0 <= i < comparison(a, b, opts).changed.len() ==> (#[trigger] comparison(
                a,
                b,
                opts,
            ).changed[i]).changes != no_diff(),
{
    let f = common(a, b, opts, a.index.metas().len());
    lemma_common_nonempty(a, b, opts, a.index.metas().len());
    lemma_calibrated_nonempty(
        f.changed,
        f.restamp,
        f.counts,
        suppressible(found_defaults(f.changed, opts.restamp_default_min_count as int)),
        f.changed.len(),
    );
}

/// A record that cannot be read is still reported where only one plugin has
/// it: by its place alone.
pub proof fn law_unreadable_records_are_listed(
    db: Database,
    other: Database,
    opts: DiffOptions,
    k: int,
)
    requires
        0 <= k < db.index.metas().len(),
        db.esm.at(db.index.metas()[k].1.offset) is None,
        meta_of(other.index.metas(), db.index.metas()[k].0) is None,
        !left_out(opts.exclude_types@, db.index.metas()[k].1.signature.text()),
    ensures
        comparison(other, db, opts).added.contains(
            bare_stub(db.index.metas()[k].0, db.index.metas()[k].1),
        ),
        comparison(db, other, opts).removed.contains(
            bare_stub(db.index.metas()[k].0, db.index.metas()[k].1),
        ),
{
    lemma_lone_holds(db, other, opts, k, db.index.metas().len());
}

proof fn lemma_lone_holds(db: Database, other: Database, opts: DiffOptions, k: int, n: nat)
    requires
        0 <= k < n <= db.index.metas().len(),
        meta_of(other.index.metas(), db.index.metas()[k].0) is None,
        !left_out(opts.exclude_types@, db.index.metas()[k].1.signature.text()),
    ensures
        lone(db, other, opts, n).contains(
            lone_stub(db, db.index.metas()[k].0, db.index.metas()[k].1, opts.bodies),
        ),
    decreases n,
{
    let t = db.index.metas();
    let s = lone_stub(db, t[k].0, t[k].1, opts.bodies);
    let list = lone(db, other, opts, n);
    if k < n - 1 {
        lemma_lone_holds(db, other, opts, k, (n - 1) as nat);
        let before = lone(db, other, opts, (n - 1) as nat);
        let i = choose|i: int| 0 <= i < before.len() && before[i] == s;
        assert(list[i] == s);
    } else {
        assert(list[list.len() - 1] == s);
    }
}

} // verus!
