//! The operations on plugins, and how requests are carried out.
use crate::coverage::{coverage_report, covers, has_type, lemma_covers_same, CoverageReport};
use crate::database::{Database, RecordResult};
use crate::decode::context::ResolveDepth;
use crate::diff::databases::{comparison, diff_databases_with, Report};
use crate::diff::report::{
    apply_type_filter, diffs_of_type, stubs_of_type, DiffOptions, DiffResult,
};
use crate::error::Error;
use crate::filter::{FilterOp, Numbers, SearchField};
use crate::formid::FormId;
use crate::index::meta_of;
use crate::ipc::{
    bulk_record_entry, explain_hardcoded_miss, explained, named_record, raw_record_view,
    record_answer, record_resolved, resolve_sel, sel_answer, sel_text, shows_raw, BulkRecordEntry,
    RawRecordView, RecordSel, RefSort, SelView,
};
use crate::listing::{
    found, lemma_found_same, list_views, listed, page, row_views, rows, type_sized, ListEntry,
    ListView, RecordRow, RowView,
};
use crate::query::{filtered, type_paths, FilterResult};
use crate::schema::{opt_text, slice_of};
use crate::text::{chars_of, str_eq, texts, to_upper, uppercase};
use crate::tree::{stub_at, TreeRecordStub};
use vstd::prelude::*;
use vstd::utf8::*;

verus! {

/// An operation on a plugin.
#[derive(Debug)]
pub enum Op {
    FileInfo,
    Record { sel: RecordSel, depth: ResolveDepth },
    RecordBulk { sels: Vec<RecordSel>, depth: ResolveDepth },
    RecordRaw { sel: RecordSel },
    ListByType { sig: String, limit: usize },
    ListTypeRecords { sig: String, offset: usize, limit: usize },
    FilterTypeRecords {
        sig: String,
        path: Option<String>,
        filter_op: FilterOp,
        value: Option<String>,
        limit: usize,
    },
    ListTypeFieldPaths { sig: String },
    Search { pattern: String, types: Vec<String>, field: SearchField, limit: usize },
    ReferencedBy {
        sel: RecordSel,
        limit: usize,
        depth: usize,
        type_filter: Option<String>,
        paths: bool,
        sort: RefSort,
    },
    RefPath { from: RecordSel, to: RecordSel, max_hops: usize, paths: bool },
    /// The level is the bit pattern of a float.
    Walk { sel: RecordSel, depth: usize, ref_limit: usize, level: u32, want_refs: bool },
    Chase { sel: RecordSel, depth: usize, ref_limit: usize },
    /// The level is the bit pattern of a float.
    DropTable { sel: RecordSel, level: u32, max_depth: usize, strict: bool },
    ListGroups,
    ListTypeChildren { sig: String, offset: usize, limit: usize },
    ListGroupChildren { group_offset: u64, offset: usize, limit: usize },
    RecordStubAt { offset: u64 },
    Coverage { record_type: Option<String>, sample: usize },
    Diff { b: String, record_type: Option<String>, options: DiffOptions },
    Shutdown,
}

/// A request for an operation on a plugin.
#[derive(Debug)]
pub struct Request {
    pub esm: String,
    pub op: Op,
}

/// What an operation gives.
#[derive(Debug)]
pub enum Reply {
    Nothing,
    Record(RecordResult),
    Bulk(Vec<BulkRecordEntry>),
    Raw(RawRecordView),
    List(Vec<ListEntry>),
    Rows(Vec<RecordRow>),
    Filter(FilterResult),
    Paths(Vec<String>),
    Stub(TreeRecordStub),
    Coverage(CoverageReport),
    /// The leveled item whose drop table is asked for.
    DropTableRoot(RecordResult),
    /// The records between which a path is asked for.
    PathEnds(FormId, FormId),
    /// The operation is carried out by walks and trees outside this module.
    Elsewhere,
}

/// An answer on the wire.
#[derive(Debug)]
pub enum Response {
    Data { data: Reply },
    Failure { error: String },
}

impl Response {
    /// The answer with a result: the reason of a failure in words.
    pub fn from_result(result: Result<Reply, Error>) -> (r: Response)
        ensures
            match result {
                Ok(data) => r == (Response::Data { data }),
                Err(e) => r matches Response::Failure { error } && error@ == e.says(),
            },
    {
        match result {
            Ok(data) => Response::Data { data },
            Err(e) => Response::Failure { error: e.message() },
        }
    }
}

// ── Search requests ────────────────────────────────────────────────────────
/// The first of the types from `i` on that is no record type, in upper case.
pub open spec fn bad_type(types: Seq<Seq<char>>, i: nat) -> Option<int>
    decreases types.len() - i,
{
    if i >= types.len() {
        None
    } else if !type_sized(uppercase(types[i as int])) {
        Some(i as int)
    } else {
        bad_type(types, i + 1)
    }
}

/// The record types of a search, in upper case.
pub fn search_types(types: &Vec<String>) -> (r: Result<Vec<String>, Error>)
    ensures
        match r {
            Ok(up) => bad_type(texts(types@), 0) is None && texts(up@) == texts(types@).map_values(
                |t: Seq<char>| uppercase(t),
            ),
            Err(e) => bad_type(texts(types@), 0) matches Some(i) && (e matches Error::BadSearchType(
                t,
            ) && t@ == texts(types@)[i]),
        },
{
    let ghost tv = texts(types@);
    let mut out: Vec<String> = Vec::new();
    let mut i: usize = 0;
    while i < types.len()
        invariant
            i <= types.len(),
            tv == texts(types@),
            out.len() == i,
            forall|j: int| 0 <= j < i ==> (#[trigger] out@[j])@ == uppercase(tv[j]),
            bad_type(tv, 0) == bad_type(tv, i as nat),
        decreases types.len() - i,
    {
        assert(tv[i as int] == types@[i as int]@);
        let up = to_upper(&types[i]);
        if up.as_str().as_bytes().len() != 4 {
            return Err(Error::BadSearchType(types[i].as_str().to_owned()));
        }
        out.push(up);
        i += 1;
    }
    assert(texts(out@) =~= tv.map_values(|t: Seq<char>| uppercase(t)));
    Ok(out)
}

// ── Operations ─────────────────────────────────────────────────────────────
/// Whether `r` is the answer to an operation on `db`.
pub open spec fn op_answer(db: Database, op: Op, nums: Numbers, r: Result<Reply, Error>) -> bool {
    match op {
        Op::Shutdown => r matches Ok(Reply::Nothing),
        Op::Record { sel, depth } => match r {
            Ok(reply) => reply matches Reply::Record(v) && record_answer(db, sel@, depth, Ok(v)),
            Err(e) => record_answer(db, sel@, depth, Err(e)),
        },
        Op::RecordBulk { sels, depth } => r matches Ok(Reply::Bulk(list)) && list@.len()
            == sels@.len() && forall|i: int|
            0 <= i < sels@.len() ==> (#[trigger] list@[i]).answers(db, sels@[i]@, depth),
        Op::RecordRaw { sel } => raw_answer(db, sel, r),
        Op::ListByType { sig, limit } => {
            let list = page(db.index.by_type(sig@), 0, limit as int);
            let want = listed(db.esm.records@, list, list.len());
            match r {
                Ok(reply) => reply matches Reply::List(out) && type_sized(sig@) && want == Ok::<
                    Seq<ListView>,
                    u64,
                >(list_views(out@)),
                Err(e) => if type_sized(sig@) {
                    want matches Err(offset) && e == Error::Unreadable(offset)
                } else {
                    e == Error::BadRecordType
                },
            }
        },
        Op::ListTypeRecords { sig, offset, limit } => {
            let list = page(db.index.by_type(sig@), offset as int, limit as int);
            let want = rows(db.esm.records@, db.localization, list, list.len());
            match r {
                Ok(reply) => reply matches Reply::Rows(out) && type_sized(sig@) && want == Ok::<
                    Seq<RowView>,
                    u64,
                >(row_views(out@)),
                Err(e) => if type_sized(sig@) {
                    want matches Err(at) && e == Error::Unreadable(at)
                } else {
                    e == Error::BadRecordType
                },
            }
        },
        Op::FilterTypeRecords { sig, path, filter_op, value, limit } => match db.scan(
            uppercase(sig@),
        ) {
            Err(offset) => r matches Err(e) && e == Error::Unreadable(offset),
            Ok((total, entries)) => {
                let all = filtered(
                    entries,
                    uppercase(sig@),
                    opt_text(path),
                    filter_op,
                    opt_text(value),
                    nums,
                    entries.len(),
                );
                r matches Ok(Reply::Filter(f)) && row_views(f.rows@) == page(all, 0, limit as int)
                    && f.matched == all.len() && f.scanned == entries.len() && f.total == total
                    && f.capped == (f.rows@.len() < all.len()) && f.scan_capped == (entries.len()
                    < total)
            },
        },
        Op::ListTypeFieldPaths { sig } => match db.scan(uppercase(sig@)) {
            Err(offset) => r matches Err(e) && e == Error::Unreadable(offset),
            Ok((_, entries)) => r matches Ok(Reply::Paths(out)) && texts(out@) == type_paths(
                entries,
                0,
                Seq::empty(),
            ),
        },
        Op::Search { pattern, types, field, limit } => search_answer(
            db,
            pattern@,
            types@,
            field,
            limit as int,
            r,
        ),
        Op::RecordStubAt { offset } => match r {
            Ok(reply) => reply matches Reply::Stub(s) && stub_at(db.esm.data@, offset) == Some(s@),
            Err(e) => stub_at(db.esm.data@, offset) is None && e == Error::OffsetOutOfRange(offset),
        },
        Op::Coverage { record_type, sample } => match record_type {
            Some(t) => if has_type(db.index.metas(), uppercase(t@)) {
                r matches Ok(Reply::Coverage(c)) && covers(
                    db,
                    Some(uppercase(t@)),
                    sample as int,
                    c,
                )
            } else {
                r matches Err(e) && (e matches Error::NoRecordsOfType(s) && s@ == t@)
            },
            None => r matches Ok(Reply::Coverage(c)) && covers(db, None, sample as int, c),
        },
        Op::DropTable { sel, .. } => drop_table_answer(db, sel, r),
        Op::RefPath { from, to, .. } => path_answer(db, from, to, r),
        Op::Diff { .. } => r matches Err(e) && e == Error::NeedsTwoFiles,
        _ => r matches Ok(Reply::Elsewhere),
    }
}

/// Whether `r` is the page of what a search finds, or the reason why it cannot
/// be made.
pub open spec fn search_answer(
    db: Database,
    pattern: Seq<char>,
    types: Seq<String>,
    field: SearchField,
    limit: int,
    r: Result<Reply, Error>,
) -> bool {
    if pattern.len() == 0 {
        r matches Err(e) && e == Error::EmptyPattern
    } else {
        match bad_type(texts(types), 0) {
            Some(i) => r matches Err(e) && (e matches Error::BadSearchType(t) && t@ == texts(
                types,
            )[i]),
            None => r matches Ok(Reply::Rows(out)) && exists|up: Seq<String>| #[trigger]
                texts(up) == texts(types).map_values(|t: Seq<char>| uppercase(t)) && row_views(out@)
                    == page(
                    found(db, db.searched(), pattern, up, field, db.searched().len()),
                    0,
                    limit,
                ),
        }
    }
}

/// Whether `r` is the record with a FormID, as it is stored, or the reason why
/// there is none.
pub open spec fn stored_answer(db: Database, id: FormId, r: Result<Reply, Error>) -> bool {
    match meta_of(db.index.metas(), id.0) {
        None => r matches Err(err) && explained(
            db.hardcoded.forms(),
            id,
            Error::FormIdNotFound(id),
            err,
        ),
        Some(m) => match db.esm.at(m.offset) {
            None => r matches Err(err) && explained(
                db.hardcoded.forms(),
                id,
                Error::Unreadable(m.offset),
                err,
            ),
            Some(p) => r matches Ok(Reply::Raw(v)) && shows_raw(v, p),
        },
    }
}

/// Whether `r` is the record that a selector names, as it is stored.
pub open spec fn raw_answer(db: Database, sel: RecordSel, r: Result<Reply, Error>) -> bool {
    exists|id: Result<FormId, Error>| #[trigger]
        sel_answer(db, sel@, id) && match id {
            Err(e) => r matches Err(err) && err == e,
            Ok(id) => stored_answer(db, id, r),
        }
}

/// Whether `r` is the record `v` where it is a leveled item, or the reason why
/// there is no drop table.
pub open spec fn root_answer(
    sel: RecordSel,
    v: Result<RecordResult, Error>,
    r: Result<Reply, Error>,
) -> bool {
    match v {
        Err(e) => r matches Err(err) && err == e,
        Ok(v) => if v@.header.signature == "LVLI"@ {
            r matches Ok(Reply::DropTableRoot(w)) && w == v
        } else {
            r matches Err(err) && (err matches Error::NotALeveledItem { selector, record_type }
                && selector@ == sel_text(sel@) && record_type@ == v@.header.signature)
        },
    }
}

/// Whether `r` is the leveled item that a selector names, with its references
/// named, or the reason why it has no drop table.
pub open spec fn drop_table_answer(db: Database, sel: RecordSel, r: Result<Reply, Error>) -> bool {
    exists|v: Result<RecordResult, Error>| #[trigger]
        record_answer(db, sel@, ResolveDepth::Stub, v) && root_answer(sel, v, r)
}

/// Whether `r` holds the records that two selectors name, or the reason why
/// the first that names none does not.
pub open spec fn path_answer(
    db: Database,
    from: RecordSel,
    to: RecordSel,
    r: Result<Reply, Error>,
) -> bool {
    exists|a: Result<FormId, Error>, b: Result<FormId, Error>|
        #![trigger sel_answer(db, from@, a), sel_answer(db, to@, b)]
        {
            &&& sel_answer(db, from@, a)
            &&& sel_answer(db, to@, b)
            &&& match (a, b) {
                (Err(e), _) => r matches Err(err) && err == e,
                (Ok(_), Err(e)) => r matches Err(err) && err == e,
                (Ok(x), Ok(y)) => r matches Ok(reply) && reply == Reply::PathEnds(x, y),
            }
        }
}

proof fn lemma_record_same(
    a: Database,
    b: Database,
    sel: SelView,
    depth: ResolveDepth,
    r: Result<RecordResult, Error>,
)
    requires
        a.same_replies(b),
        record_answer(a, sel, depth, r),
    ensures
        record_answer(b, sel, depth, r),
{
    let id = choose|id: Result<FormId, Error>| #[trigger]
        sel_answer(a, sel, id) && match id {
            Err(e) => r matches Err(err) && err == e,
            Ok(id) => named_record(a, id, depth, r),
        };
    assert(sel_answer(b, sel, id));
    if let Ok(id) = id {
        if let Err(err) = r {
            let e = choose|e: Error| #[trigger]
                a.answers_formid(id, depth, Err::<RecordResult, Error>(e)) && explained(
                    a.hardcoded.forms(),
                    id,
                    e,
                    err,
                );
            assert(b.answers_formid(id, depth, Err::<RecordResult, Error>(e)));
        }
        assert(named_record(b, id, depth, r));
    }
}

proof fn lemma_entry_same(
    a: Database,
    b: Database,
    entry: BulkRecordEntry,
    sel: SelView,
    depth: ResolveDepth,
)
    requires
        a.same_replies(b),
        entry.answers(a, sel, depth),
    ensures
        entry.answers(b, sel, depth),
{
    let r = choose|r: Result<RecordResult, Error>| #[trigger]
        record_answer(a, sel, depth, r) && entry.shows(sel, r);
    lemma_record_same(a, b, sel, depth, r);
}

/// Looks up several records.
fn bulk_records(db: &mut Database, sels: &Vec<RecordSel>, depth: ResolveDepth) -> (r: Vec<
    BulkRecordEntry,
>)
    requires
        old(db).wf(),
    ensures
        final(db).wf(),
        final(db).same_answers(*old(db)),
        r@.len() == sels@.len(),
        forall|i: int|
            0 <= i < sels@.len() ==> (#[trigger] r@[i]).answers(*old(db), sels@[i]@, depth),
{
    let mut out: Vec<BulkRecordEntry> = Vec::new();
    let mut i: usize = 0;
    while i < sels.len()
        invariant
            i <= sels.len(),
            db.wf(),
            db.same_answers(*old(db)),
            out.len() == i,
            forall|j: int|
                0 <= j < i ==> (#[trigger] out@[j]).answers(*old(db), sels@[j]@, depth),
        decreases sels.len() - i,
    {
        let ghost before = *db;
        let entry = bulk_record_entry(db, &sels[i], depth);
        proof {
            lemma_entry_same(before, *old(db), entry, sels@[i as int]@, depth);
        }
        out.push(entry);
        i += 1;
    }
    out
}

/// Looks up the record that a selector names, as it is stored.
fn raw_record(db: &mut Database, sel: &RecordSel) -> (r: Result<Reply, Error>)
    requires
        old(db).wf(),
    ensures
        final(db).wf(),
        final(db).same_answers(*old(db)),
        raw_answer(*old(db), *sel, r),
{
    let ghost before = *db;
    let found = resolve_sel(db, sel);
    assert(sel_answer(before, sel@, found));
    match found {
        Err(e) => Err(e),
        Ok(id) => match db.record_raw(id) {
            Ok(rec) => Ok(Reply::Raw(raw_record_view(rec))),
            Err(e) => Err(explain_hardcoded_miss(&db.hardcoded, id, e)),
        },
    }
}

/// Looks up the leveled item whose drop table is asked for.
fn drop_table_root(db: &mut Database, sel: &RecordSel) -> (r: Result<Reply, Error>)
    requires
        old(db).wf(),
    ensures
        final(db).wf(),
        final(db).same_answers(*old(db)),
        drop_table_answer(*old(db), *sel, r),
{
    let found = record_resolved(db, sel, ResolveDepth::Stub);
    assert(record_answer(*old(db), sel@, ResolveDepth::Stub, found));
    match found {
        Err(e) => Err(e),
        Ok(v) => if str_eq(&v.header.signature, "LVLI") {
            Ok(Reply::DropTableRoot(v))
        } else {
            Err(
                Error::NotALeveledItem {
                    selector: sel.display(),
                    record_type: v.header.signature.as_str().to_owned(),
                },
            )
        },
    }
}

/// Looks up the records between which a path is asked for.
fn path_ends(db: &mut Database, from: &RecordSel, to: &RecordSel) -> (r: Result<Reply, Error>)
    requires
        old(db).wf(),
    ensures
        final(db).wf(),
        final(db).same_answers(*old(db)),
        path_answer(*old(db), *from, *to, r),
{
    let ghost before = *db;
    let a = resolve_sel(db, from);
    let b = resolve_sel(db, to);
    assert(sel_answer(before, from@, a));
    assert(sel_answer(before, to@, b));
    match (a, b) {
        (Err(e), _) => Err(e),
        (Ok(_), Err(e)) => Err(e),
        (Ok(x), Ok(y)) => Ok(Reply::PathEnds(x, y)),
    }
}

/// How many records a walk shows in place of a target that was not found.
pub const WALK_MATCHES: usize = 10;

/// What a walk shows in place of a target that was not found: the first
/// records whose EditorID, name or description matches it.
pub fn walk_matches(db: &mut Database, target: &str) -> (out: Vec<RecordRow>)
    requires
        old(db).wf(),
    ensures
        final(db).wf(),
        final(db).same_answers(*old(db)),
        ({
            let list = old(db).searched();
            row_views(out@) == page(
                found(*old(db), list, target@, Seq::empty(), SearchField::Both, list.len()),
                0,
                WALK_MATCHES as int,
            )
        }),
{
    let types: Vec<String> = Vec::new();
    assert(types@ =~= Seq::<String>::empty());
    db.search(target, &types, SearchField::Both, WALK_MATCHES)
}

/// Carries out an operation on a plugin. `nums` is what a filter needs to know
/// of floating-point numbers.
pub fn dispatch_op(db: &mut Database, op: &Op, nums: &Numbers) -> (r: Result<Reply, Error>)
    requires
        old(db).wf(),
    ensures
        final(db).wf(),
        final(db).same_replies(*old(db)),
        !(*op is FilterTypeRecords || *op is ListTypeFieldPaths) ==> final(db).same_answers(
            *old(db),
        ),
        (*op is FilterTypeRecords || *op is ListTypeFieldPaths) ==> final(db).same_scans(*old(db)),
        op_answer(*old(db), *op, *nums, r),
{
    match op {
        Op::Shutdown => Ok(Reply::Nothing),
        Op::Record { sel, depth } => match record_resolved(db, sel, *depth) {
            Ok(v) => Ok(Reply::Record(v)),
            Err(e) => Err(e),
        },
        Op::RecordBulk { sels, depth } => Ok(Reply::Bulk(bulk_records(db, sels, *depth))),
        Op::RecordRaw { sel } => raw_record(db, sel),
        Op::ListByType { sig, limit } => match db.list_by_type(sig, *limit) {
            Ok(list) => Ok(Reply::List(list)),
            Err(e) => Err(e),
        },
        Op::ListTypeRecords { sig, offset, limit } => match db.list_type_records(
            sig,
            *offset,
            *limit,
        ) {
            Ok(list) => Ok(Reply::Rows(list)),
            Err(e) => Err(e),
        },
        Op::FilterTypeRecords { sig, path, filter_op, value, limit } => {
            let found = db.filter_type_records(
                sig,
                slice_of(path),
                *filter_op,
                slice_of(value),
                nums,
                *limit,
            );
            match found {
                Ok(f) => Ok(Reply::Filter(f)),
                Err(e) => Err(e),
            }
        },
        Op::ListTypeFieldPaths { sig } => match db.list_type_field_paths(sig) {
            Ok(list) => Ok(Reply::Paths(list)),
            Err(e) => Err(e),
        },
        Op::Search { pattern, types, field, limit } => {
            if chars_of(pattern).len() == 0 {
                return Err(Error::EmptyPattern);
            }
            match search_types(types) {
                Ok(up) => Ok(Reply::Rows(db.search(pattern, &up, *field, *limit))),
                Err(e) => Err(e),
            }
        },
        Op::RecordStubAt { offset } => match db.record_stub_at(*offset) {
            Ok(s) => Ok(Reply::Stub(s)),
            Err(e) => Err(e),
        },
        Op::Coverage { record_type, sample } => match coverage_report(
            db,
            slice_of(record_type),
            *sample,
        ) {
            Ok(c) => Ok(Reply::Coverage(c)),
            Err(e) => Err(e),
        },
        Op::DropTable { sel, .. } => drop_table_root(db, sel),
        Op::RefPath { from, to, .. } => path_ends(db, from, to),
        Op::Diff { .. } => Err(Error::NeedsTwoFiles),
        _ => Ok(Reply::Elsewhere),
    }
}

proof fn lemma_answer_same(
    a: Database,
    b: Database,
    op: Op,
    nums: Numbers,
    r: Result<Reply, Error>,
)
    requires
        a.same_replies(b),
        op_answer(a, op, nums, r),
    ensures
        op_answer(b, op, nums, r),
{
    match op {
        Op::Record { sel, depth } => match r {
            Ok(reply) => {
                let v = reply->Record_0;
                lemma_record_same(a, b, sel@, depth, Ok(v));
            },
            Err(e) => {
                lemma_record_same(a, b, sel@, depth, Err(e));
            },
        },
        Op::RecordBulk { sels, depth } => {
            let list = r->Ok_0->Bulk_0;
            assert forall|i: int| 0 <= i < sels@.len() implies (#[trigger] list@[i]).answers(
                b,
                sels@[i]@,
                depth,
            ) by {
                lemma_entry_same(a, b, list@[i], sels@[i]@, depth);
            }
        },
        Op::RecordRaw { sel } => {
            lemma_raw_same(a, b, sel, r);
        },
        Op::DropTable { sel, .. } => {
            lemma_drop_table_same(a, b, sel, r);
        },
        Op::RefPath { from, to, .. } => {
            let (x, y) = choose|x: Result<FormId, Error>, y: Result<FormId, Error>|
                #![trigger sel_answer(a, from@, x), sel_answer(a, to@, y)]
                {
                    &&& sel_answer(a, from@, x)
                    &&& sel_answer(a, to@, y)
                    &&& match (x, y) {
                        (Err(e), _) => r matches Err(err) && err == e,
                        (Ok(_), Err(e)) => r matches Err(err) && err == e,
                        (Ok(x), Ok(y)) => r matches Ok(reply) && reply == Reply::PathEnds(x, y),
                    }
                };
            assert(sel_answer(b, from@, x) && sel_answer(b, to@, y));
        },
        Op::Search { pattern, types, field, limit } => {
            lemma_search_same(a, b, pattern@, types@, field, limit as int, r);
        },
        Op::Coverage { record_type, sample } => {
            if let Ok(Reply::Coverage(c)) = r {
                let only = match record_type {
                    Some(t) => Some(uppercase(t@)),
                    None => None,
                };
                lemma_covers_same(a, b, only, sample as int, c);
            }
        },
        _ => {},
    }
}

/// What an operation answers depends on what the plugin holds alone, and not
/// on what has been asked of it before: a plugin that an operation leaves
/// behind answers every further one as it would have done at first.
pub proof fn law_answers_last(
    before: Database,
    after: Database,
    op: Op,
    nums: Numbers,
    r: Result<Reply, Error>,
)
    requires
        after.same_replies(before),
    ensures
        op_answer(after, op, nums, r) <==> op_answer(before, op, nums, r),
{
    if op_answer(after, op, nums, r) {
        lemma_answer_same(after, before, op, nums, r);
    }
    if op_answer(before, op, nums, r) {
        assert(before.same_replies(after));
        lemma_answer_same(before, after, op, nums, r);
    }
}

proof fn lemma_search_same(
    a: Database,
    b: Database,
    pattern: Seq<char>,
    types: Seq<String>,
    field: SearchField,
    limit: int,
    r: Result<Reply, Error>,
)
    requires
        a.same_replies(b),
        search_answer(a, pattern, types, field, limit, r),
    ensures
        search_answer(b, pattern, types, field, limit, r),
{
    let list = a.searched();
    if pattern.len() > 0 && bad_type(texts(types), 0) is None {
        let rows = r->Ok_0->Rows_0;
        let up = choose|up: Seq<String>| #[trigger]
            texts(up) == texts(types).map_values(|t: Seq<char>| uppercase(t)) && row_views(rows@)
                == page(found(a, list, pattern, up, field, list.len()), 0, limit);
        lemma_found_same(a, b, list, pattern, up, field, list.len());
        assert(texts(up) == texts(types).map_values(|t: Seq<char>| uppercase(t)));
    }
}

proof fn lemma_raw_same(a: Database, b: Database, sel: RecordSel, r: Result<Reply, Error>)
    requires
        a.same_replies(b),
        raw_answer(a, sel, r),
    ensures
        raw_answer(b, sel, r),
{
    let id = choose|id: Result<FormId, Error>| #[trigger]
        sel_answer(a, sel@, id) && match id {
            Err(e) => r matches Err(err) && err == e,
            Ok(id) => stored_answer(a, id, r),
        };
    assert(sel_answer(b, sel@, id));
}

proof fn lemma_drop_table_same(a: Database, b: Database, sel: RecordSel, r: Result<Reply, Error>)
    requires
        a.same_replies(b),
        drop_table_answer(a, sel, r),
    ensures
        drop_table_answer(b, sel, r),
{
    let v = choose|v: Result<RecordResult, Error>| #[trigger]
        record_answer(a, sel@, ResolveDepth::Stub, v) && root_answer(sel, v, r);
    lemma_record_same(a, b, sel@, ResolveDepth::Stub, v);
}

// ── Comparison ─────────────────────────────────────────────────────────────
/// A report restricted to one record type.
pub open spec fn restricted(r: Report, record_type: Option<Seq<char>>) -> Report {
    match record_type {
        Some(t) => {
            let sig = uppercase(t);
            Report {
                added: stubs_of_type(r.added, sig, r.added.len()),
                removed: stubs_of_type(r.removed, sig, r.removed.len()),
                changed: diffs_of_type(r.changed, sig, r.changed.len()),
                ..r
            }
        },
        None => r,
    }
}

/// Compares two plugins, the older first, and restricts the report to one
/// record type if that is asked for.
pub fn diff_locked(
    db_a: &Database,
    db_b: &Database,
    options: &DiffOptions,
    record_type: &Option<String>,
) -> (r: Result<DiffResult, Error>)
    requires
        db_a.wf(),
        db_b.wf(),
    ensures
        r matches Ok(d) && d@ == restricted(
            comparison(*db_a, *db_b, *options),
            opt_text(*record_type),
        ),
{
    match diff_databases_with(db_a, db_b, options) {
        Err(e) => Err(e),
        Ok(d) => {
            let mut result = d;
            let ghost before = result@;
            apply_type_filter(&mut result, record_type);
            assert(result@ == restricted(before, opt_text(*record_type)));
            Ok(result)
        },
    }
}

/// How the names of two plugins compare.
#[derive(Debug, Clone, Copy, PartialEq, Eq, Structural)]
pub enum KeyOrder {
    Before,
    Same,
    After,
}

/// In which order two plugins are locked.
#[derive(Debug, Clone, Copy, PartialEq, Eq, Structural)]
pub enum LockOrder {
    /// They are one and the same: it is locked once.
    Once,
    FirstThenSecond,
    SecondThenFirst,
}

/// The order in which two plugins are locked.
pub open spec fn lock_plan(
    keys: Option<KeyOrder>,
    same_handle: bool,
    handle_before: bool,
) -> LockOrder {
    if same_handle || keys == Some(KeyOrder::Same) {
        LockOrder::Once
    } else {
        match keys {
            Some(KeyOrder::Before) => LockOrder::FirstThenSecond,
            Some(_) => LockOrder::SecondThenFirst,
            None => if handle_before {
                LockOrder::FirstThenSecond
            } else {
                LockOrder::SecondThenFirst
            },
        }
    }
}

/// The order in which two plugins are locked: by their names where they have
/// names, and otherwise by where they lie in memory.
pub fn diff_pair(keys: Option<KeyOrder>, same_handle: bool, handle_before: bool) -> (r: LockOrder)
    ensures
        r == lock_plan(keys, same_handle, handle_before),
{
    let same_key = match keys {
        Some(KeyOrder::Same) => true,
        _ => false,
    };
    if same_handle || same_key {
        return LockOrder::Once;
    }
    match keys {
        Some(KeyOrder::Before) => LockOrder::FirstThenSecond,
        Some(_) => LockOrder::SecondThenFirst,
        None => if handle_before {
            LockOrder::FirstThenSecond
        } else {
            LockOrder::SecondThenFirst
        },
    }
}

/// The comparison of two names the other way round.
pub open spec fn turned(k: KeyOrder) -> KeyOrder {
    match k {
        KeyOrder::Before => KeyOrder::After,
        KeyOrder::Same => KeyOrder::Same,
        KeyOrder::After => KeyOrder::Before,
    }
}

/// Two comparisons of the same two plugins, whichever way round, lock them in
/// the same order, so that neither waits for the other.
pub proof fn law_lock_order_is_consistent(
    keys: Option<KeyOrder>,
    same_handle: bool,
    handle_before: bool,
)
    ensures
        ({
            let back = lock_plan(
                match keys {
                    Some(k) => Some(turned(k)),
                    None => None,
                },
                same_handle,
                !handle_before,
            );
            match lock_plan(keys, same_handle, handle_before) {
                LockOrder::Once => back == LockOrder::Once,
                LockOrder::FirstThenSecond => back == LockOrder::SecondThenFirst,
                LockOrder::SecondThenFirst => back == LockOrder::FirstThenSecond,
            }
        }),
{
}

} // verus!
