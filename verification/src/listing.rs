//! Lists of records: by type, by what they refer to, and by search.
use crate::database::Database;
use crate::decode::meaning::table_kind;
use crate::decode::walk::lstring_table_to_kind;
use crate::error::Error;
use crate::filter::{effective_take, taken, SearchField};
use crate::formid::FormId;
use crate::index::{meta_of, raw_ids, referrers, SearchRef, SearchView};
use crate::reader::{
    edid_from_subrecords, edid_of, lstring_id_from_subrecords, lstring_id_of, record_at, subs,
    ParsedRecord, RecordMeta, StoredRecord,
};
use crate::schema::{opt_text, own_opt, LStringTable};
use crate::strings::{Localization, StringKind};
use crate::text::{contains_text, hex8, hex8_string, list_contains, opt_slice};
use crate::wildcard::{matches_pattern, wildcard_match};
use vstd::prelude::*;
use vstd::utf8::*;

verus! {

/// A record in the list of a type.
#[derive(Debug)]
pub struct ListEntry {
    pub form_id: String,
    pub editor_id: Option<String>,
    pub full_lstring_id: Option<String>,
}

/// A record in the list of a type, as mathematics.
#[verifier::ext_equal]
pub ghost struct ListView {
    pub form_id: Seq<char>,
    pub editor_id: Option<Seq<char>>,
    pub full_lstring_id: Option<Seq<char>>,
}

impl View for ListEntry {
    type V = ListView;

    open spec fn view(&self) -> ListView {
        ListView {
            form_id: self.form_id@,
            editor_id: opt_text(self.editor_id),
            full_lstring_id: opt_text(self.full_lstring_id),
        }
    }
}

/// A record as it is shown in a list.
#[derive(Debug)]
pub struct RecordRow {
    pub form_id: String,
    pub record_type: Option<String>,
    pub editor_id: Option<String>,
    pub name: Option<String>,
    pub offset: u64,
}

/// A row as mathematics.
#[verifier::ext_equal]
pub ghost struct RowView {
    pub form_id: Seq<char>,
    pub record_type: Option<Seq<char>>,
    pub editor_id: Option<Seq<char>>,
    pub name: Option<Seq<char>>,
    pub offset: u64,
}

impl View for RecordRow {
    type V = RowView;

    open spec fn view(&self) -> RowView {
        RowView {
            form_id: self.form_id@,
            record_type: opt_text(self.record_type),
            editor_id: opt_text(self.editor_id),
            name: opt_text(self.name),
            offset: self.offset,
        }
    }
}

/// Rows as mathematics.
pub open spec fn row_views(rows: Seq<RecordRow>) -> Seq<RowView> {
    rows.map_values(|r: RecordRow| r@)
}

/// List entries as mathematics.
pub open spec fn list_views(list: Seq<ListEntry>) -> Seq<ListView> {
    list.map_values(|e: ListEntry| e@)
}

/// A page of a list: from `offset` on, at most as many items as `limit`
/// stands for.
pub open spec fn page<T>(list: Seq<T>, offset: int, limit: int) -> Seq<T> {
    let from = if offset <= list.len() {
        offset
    } else {
        list.len() as int
    };
    let to = if taken(limit) <= list.len() - from {
        from + taken(limit)
    } else {
        list.len() as int
    };
    list.subrange(from, to)
}

/// Where a page starts and ends.
fn page_bounds(len: usize, offset: usize, limit: usize) -> (r: (usize, usize))
    ensures
        r.0 <= r.1 <= len,
        forall|list: Seq<(FormId, RecordMeta)>|
            list.len() == len ==> #[trigger] page(list, offset as int, limit as int)
                == list.subrange(r.0 as int, r.1 as int),
{
    let from: usize = if offset <= len {
        offset
    } else {
        len
    };
    let n: usize = effective_take(limit);
    let to: usize = if n <= len - from {
        from + n
    } else {
        len
    };
    (from, to)
}

// ── Rows ───────────────────────────────────────────────────────────────────
/// A record in the list of its type.
pub open spec fn list_view(id: FormId, r: ParsedRecord) -> ListView {
    ListView {
        form_id: hex8(id.0),
        editor_id: edid_of(subs(r.subrecords@)),
        full_lstring_id: match lstring_id_of(subs(r.subrecords@), "FULL"@) {
            Some(n) => Some(hex8(n)),
            None => None,
        },
    }
}

/// The text of a string id in one of the string tables.
pub open spec fn string_at(
    strings: Option<Localization>,
    kind: StringKind,
    id: Option<u32>,
) -> Option<Seq<char>> {
    match (strings, id) {
        (Some(l), Some(id)) => l.text_of(kind, id),
        _ => None,
    }
}

/// The text of a string id in one of the string tables.
fn find_string<'a>(
    strings: &'a Option<Localization>,
    kind: StringKind,
    id: Option<u32>,
) -> (r: Option<&'a str>)
    ensures
        opt_slice(r) == string_at(*strings, kind, id),
{
    match (strings, id) {
        (Some(l), Some(id)) => l.lookup(kind, id),
        _ => None,
    }
}

/// A record as a row.
pub open spec fn row_view(
    id: FormId,
    m: RecordMeta,
    r: ParsedRecord,
    strings: Option<Localization>,
) -> RowView {
    RowView {
        form_id: hex8(id.0),
        record_type: Some(m.signature.text()),
        editor_id: edid_of(subs(r.subrecords@)),
        name: string_at(
            strings,
            StringKind::Strings,
            lstring_id_of(subs(r.subrecords@), "FULL"@),
        ),
        offset: m.offset,
    }
}

/// A record as a row.
fn make_row(
    id: FormId,
    m: &RecordMeta,
    r: &ParsedRecord,
    strings: &Option<Localization>,
) -> (row: RecordRow)
    ensures
        row@ == row_view(id, *m, *r, *strings),
{
    RecordRow {
        form_id: id.display(),
        record_type: Some(m.signature.as_str().to_owned()),
        editor_id: edid_from_subrecords(&r.subrecords),
        name: own_opt(
            find_string(
                strings,
                StringKind::Strings,
                lstring_id_from_subrecords(&r.subrecords, "FULL"),
            ),
        ),
        offset: m.offset,
    }
}

/// The list of records, or the offset of the first that cannot be read.
pub open spec fn listed(
    recs: Map<u64, StoredRecord>,
    list: Seq<(FormId, RecordMeta)>,
    n: nat,
) -> Result<Seq<ListView>, u64>
    decreases n,
{
    if n == 0 || n > list.len() {
        Ok(Seq::empty())
    } else {
        match listed(recs, list, (n - 1) as nat) {
            Err(offset) => Err(offset),
            Ok(before) => match record_at(recs, list[n - 1].1.offset) {
                Some(r) => Ok(before.push(list_view(list[n - 1].0, r))),
                None => Err(list[n - 1].1.offset),
            },
        }
    }
}

/// The rows of records, or the offset of the first that cannot be read.
pub open spec fn rows(
    recs: Map<u64, StoredRecord>,
    strings: Option<Localization>,
    list: Seq<(FormId, RecordMeta)>,
    n: nat,
) -> Result<Seq<RowView>, u64>
    decreases n,
{
    if n == 0 || n > list.len() {
        Ok(Seq::empty())
    } else {
        match rows(recs, strings, list, (n - 1) as nat) {
            Err(offset) => Err(offset),
            Ok(before) => match record_at(recs, list[n - 1].1.offset) {
                Some(r) => Ok(before.push(row_view(list[n - 1].0, list[n - 1].1, r, strings))),
                None => Err(list[n - 1].1.offset),
            },
        }
    }
}

proof fn lemma_listed_stuck(
    recs: Map<u64, StoredRecord>,
    list: Seq<(FormId, RecordMeta)>,
    n: nat,
    m: nat,
)
    requires
        n <= m <= list.len(),
        listed(recs, list, n) is Err,
    ensures
        listed(recs, list, m) == listed(recs, list, n),
    decreases m,
{
    if n < m {
        lemma_listed_stuck(recs, list, n, (m - 1) as nat);
    }
}

proof fn lemma_rows_stuck(
    recs: Map<u64, StoredRecord>,
    strings: Option<Localization>,
    list: Seq<(FormId, RecordMeta)>,
    n: nat,
    m: nat,
)
    requires
        n <= m <= list.len(),
        rows(recs, strings, list, n) is Err,
    ensures
        rows(recs, strings, list, m) == rows(recs, strings, list, n),
    decreases m,
{
    if n < m {
        lemma_rows_stuck(recs, strings, list, n, (m - 1) as nat);
    }
}

/// The rows of those FormIDs that have a record, or the offset of the first
/// record that cannot be read.
pub open spec fn rows_of_ids(db: Database, ids: Seq<u32>, n: nat) -> Result<Seq<RowView>, u64>
    decreases n,
{
    if n == 0 || n > ids.len() {
        Ok(Seq::empty())
    } else {
        match rows_of_ids(db, ids, (n - 1) as nat) {
            Err(offset) => Err(offset),
            Ok(before) => match meta_of(db.index.metas(), ids[n - 1]) {
                None => Ok(before),
                Some(m) => match db.esm.at(m.offset) {
                    None => Err(m.offset),
                    Some(r) => Ok(
                        before.push(row_view(FormId(ids[n - 1]), m, r, db.localization)),
                    ),
                },
            },
        }
    }
}

proof fn lemma_rows_of_ids_stuck(db: Database, ids: Seq<u32>, n: nat, m: nat)
    requires
        n <= m <= ids.len(),
        rows_of_ids(db, ids, n) is Err,
    ensures
        rows_of_ids(db, ids, m) == rows_of_ids(db, ids, n),
    decreases m,
{
    if n < m {
        lemma_rows_of_ids_stuck(db, ids, n, (m - 1) as nat);
    }
}

proof fn lemma_rows_of_ids_same(a: Database, b: Database, ids: Seq<u32>, n: nat)
    requires
        a.same_source(b),
    ensures
        rows_of_ids(a, ids, n) == rows_of_ids(b, ids, n),
    decreases n,
{
    if n > 0 && n <= ids.len() {
        lemma_rows_of_ids_same(a, b, ids, (n - 1) as nat);
    }
}

/// Whether `sig` has the four bytes of a record type.
pub open spec fn type_sized(sig: Seq<char>) -> bool {
    encode_utf8(sig).len() == 4
}

impl Database {
    /// Lists the records of a type.
    pub fn list_by_type(&self, sig: &str, limit: usize) -> (r: Result<Vec<ListEntry>, Error>)
        requires
            self.wf(),
        ensures
            ({
                let list = page(self.index.by_type(sig@), 0, limit as int);
                match r {
                    Ok(out) => type_sized(sig@) && listed(self.esm.records@, list, list.len())
                        == Ok::<Seq<ListView>, u64>(list_views(out@)),
                    Err(e) => if type_sized(sig@) {
                        listed(self.esm.records@, list, list.len()) matches Err(offset) && e
                            == Error::Unreadable(offset)
                    } else {
                        e == Error::BadRecordType
                    },
                }
            }),
    {
        if sig.as_bytes().len() != 4 {
            return Err(Error::BadRecordType);
        }
        let all = self.index.records_by_type(sig);
        let (from, to) = page_bounds(all.len(), 0, limit);
        let ghost list = page(all@, 0, limit as int);
        let mut out: Vec<ListEntry> = Vec::new();
        assert(list_views(out@) =~= Seq::<ListView>::empty());
        let mut i: usize = from;
        while i < to
            invariant
                from <= i <= to <= all.len(),
                list == all@.subrange(from as int, to as int),
                listed(self.esm.records@, list, (i - from) as nat) == Ok::<Seq<ListView>, u64>(
                    list_views(out@),
                ),
                list == page(self.index.by_type(sig@), 0, limit as int),
                type_sized(sig@),
            decreases to - i,
        {
            let (form_id, meta) = all[i];
            assert(list[i - from] == all@[i as int]);
            match self.esm.parse_record_at(meta.offset) {
                Ok(rec) => {
                    let entry = ListEntry {
                        form_id: form_id.display(),
                        editor_id: edid_from_subrecords(&rec.subrecords),
                        full_lstring_id: match lstring_id_from_subrecords(
                            &rec.subrecords,
                            "FULL",
                        ) {
                            Some(n) => Some(hex8_string(n)),
                            None => None,
                        },
                    };
                    let ghost before = list_views(out@);
                    let ghost added = entry@;
                    assert(added == list_view(form_id, *rec));
                    out.push(entry);
                    assert(list_views(out@) =~= before.push(added));
                },
                Err(e) => {
                    proof {
                        lemma_listed_stuck(
                            self.esm.records@,
                            list,
                            (i + 1 - from) as nat,
                            list.len(),
                        );
                    }
                    return Err(e);
                },
            }
            i += 1;
        }
        Ok(out)
    }

    /// Lists a page of the records of a type with their names.
    pub fn list_type_records(&self, sig: &str, offset: usize, limit: usize) -> (r: Result<
        Vec<RecordRow>,
        Error,
    >)
        requires
            self.wf(),
        ensures
            ({
                let list = page(self.index.by_type(sig@), offset as int, limit as int);
                let want = rows(self.esm.records@, self.localization, list, list.len());
                match r {
                    Ok(out) => type_sized(sig@) && want == Ok::<Seq<RowView>, u64>(
                        row_views(out@),
                    ),
                    Err(e) => if type_sized(sig@) {
                        want matches Err(at) && e == Error::Unreadable(at)
                    } else {
                        e == Error::BadRecordType
                    },
                }
            }),
    {
        if sig.as_bytes().len() != 4 {
            return Err(Error::BadRecordType);
        }
        let all = self.index.records_by_type(sig);
        let (from, to) = page_bounds(all.len(), offset, limit);
        let ghost list = page(all@, offset as int, limit as int);
        let mut out: Vec<RecordRow> = Vec::new();
        assert(row_views(out@) =~= Seq::<RowView>::empty());
        let mut i: usize = from;
        while i < to
            invariant
                from <= i <= to <= all.len(),
                list == all@.subrange(from as int, to as int),
                rows(self.esm.records@, self.localization, list, (i - from) as nat) == Ok::<
                    Seq<RowView>,
                    u64,
                >(row_views(out@)),
                list == page(self.index.by_type(sig@), offset as int, limit as int),
                type_sized(sig@),
            decreases to - i,
        {
            let (form_id, meta) = all[i];
            assert(list[i - from] == all@[i as int]);
            match self.esm.parse_record_at(meta.offset) {
                Ok(rec) => {
                    let row = make_row(form_id, &meta, rec, &self.localization);
                    let ghost before = row_views(out@);
                    let ghost added = row@;
                    out.push(row);
                    assert(row_views(out@) =~= before.push(added));
                },
                Err(e) => {
                    proof {
                        lemma_rows_stuck(
                            self.esm.records@,
                            self.localization,
                            list,
                            (i + 1 - from) as nat,
                            list.len(),
                        );
                    }
                    return Err(e);
                },
            }
            i += 1;
        }
        Ok(out)
    }

    /// A record as a row; nothing where there is no such record.
    pub fn record_row_for(&self, form_id: FormId) -> (r: Result<Option<RecordRow>, Error>)
        requires
            self.wf(),
        ensures
            match meta_of(self.index.metas(), form_id.0) {
                None => r matches Ok(row) && row is None,
                Some(m) => match self.esm.at(m.offset) {
                    None => r matches Err(e) && e == Error::Unreadable(m.offset),
                    Some(p) => r matches Ok(row) && (row matches Some(row) && row@ == row_view(
                        form_id,
                        m,
                        p,
                        self.localization,
                    )),
                },
            },
    {
        match self.index.get_by_formid(form_id) {
            None => Ok(None),
            Some(meta) => match self.esm.parse_record_at(meta.offset) {
                Ok(rec) => Ok(Some(make_row(form_id, &meta, rec, &self.localization))),
                Err(e) => Err(e),
            },
        }
    }

    /// The records that refer to `form_id`.
    pub fn referenced_by(&mut self, form_id: FormId) -> (r: Result<Vec<RecordRow>, Error>)
        requires
            old(self).wf(),
        ensures
            final(self).wf(),
            final(self).same_answers(*old(self)),
            ({
                let ids = referrers(old(self).refs(), form_id.0);
                let want = rows_of_ids(*old(self), ids, ids.len());
                match r {
                    Ok(out) => want == Ok::<Seq<RowView>, u64>(row_views(out@)),
                    Err(e) => want matches Err(at) && e == Error::Unreadable(at),
                }
            }),
    {
        let ghost before = *self;
        let list = self.xref_lookup(form_id);
        let ghost ids = referrers(before.refs(), form_id.0);
        assert(raw_ids(list@) == ids);
        proof {
            lemma_rows_of_ids_same(*self, before, ids, ids.len());
        }
        let mut out: Vec<RecordRow> = Vec::new();
        assert(row_views(out@) =~= Seq::<RowView>::empty());
        let mut i: usize = 0;
        while i < list.len()
            invariant
                i <= list.len(),
                self.wf(),
                ids == raw_ids(list@),
                rows_of_ids(*self, ids, i as nat) == Ok::<Seq<RowView>, u64>(row_views(out@)),
                rows_of_ids(*self, ids, ids.len()) == rows_of_ids(before, ids, ids.len()),
                self.same_answers(before),
                before == *old(self),
                ids == referrers(before.refs(), form_id.0),
            decreases list.len() - i,
        {
            assert(ids[i as int] == list@[i as int].0);
            match self.record_row_for(list[i]) {
                Ok(Some(row)) => {
                    let ghost prior = row_views(out@);
                    let ghost added = row@;
                    out.push(row);
                    assert(row_views(out@) =~= prior.push(added));
                },
                Ok(None) => {},
                Err(e) => {
                    proof {
                        lemma_rows_of_ids_stuck(*self, ids, (i + 1) as nat, ids.len());
                    }
                    return Err(e);
                },
            }
            i += 1;
        }
        Ok(out)
    }
}

// ── Search ─────────────────────────────────────────────────────────────────
/// A text that may be absent, or else another.
pub open spec fn or_text(a: Option<Seq<char>>, b: Option<Seq<char>>) -> Option<Seq<char>> {
    if a is Some {
        a
    } else {
        b
    }
}

/// Whether a text is there and matches a pattern.
pub open spec fn text_matches(pattern: Seq<char>, t: Option<Seq<char>>) -> bool {
    t is Some && matches_pattern(pattern, t->0)
}

/// The name of a search entry: the string that it refers to, or the text that
/// it holds.
pub open spec fn name_of(v: SearchView, strings: Option<Localization>) -> Option<Seq<char>> {
    or_text(string_at(strings, StringKind::Strings, v.full_id), v.full_text)
}

/// The string table that the description of a record is in.
pub open spec fn desc_kind(db: Database, id: u32) -> StringKind {
    let record = match meta_of(db.index.metas(), id) {
        Some(m) => Some(m.signature.text()),
        None => None,
    };
    table_kind(LStringTable::Strings, record, "DESC"@)
}

/// The description of a search entry: the string that it refers to, or the
/// text that it holds.
pub open spec fn desc_of(v: SearchView, strings: Option<Localization>, kind: StringKind) -> Option<
    Seq<char>,
> {
    or_text(string_at(strings, kind, v.desc_id), v.desc_text)
}

/// Whether the search entry of a record matches a pattern.
pub open spec fn entry_matches(
    db: Database,
    id: u32,
    v: SearchView,
    pattern: Seq<char>,
    field: SearchField,
) -> bool {
    let edid = text_matches(pattern, v.editor_id);
    let name = text_matches(pattern, name_of(v, db.localization));
    let desc = text_matches(pattern, desc_of(v, db.localization, desc_kind(db, id)));
    match field {
        SearchField::Edid => edid,
        SearchField::Name => name || desc,
        SearchField::Both => edid || name || desc,
    }
}

/// Whether a record's type is among those asked for; none stands for all.
pub open spec fn type_wanted(db: Database, types: Seq<String>, id: u32) -> bool {
    types.len() == 0 || contains_text(
        types,
        match meta_of(db.index.metas(), id) {
            Some(m) => m.signature.text(),
            None => Seq::empty(),
        },
    )
}

/// A search entry as a row.
pub open spec fn found_row(db: Database, id: u32, v: SearchView, field: SearchField) -> RowView {
    let m = meta_of(db.index.metas(), id);
    RowView {
        form_id: hex8(id),
        record_type: match m {
            Some(m) => Some(m.signature.text()),
            None => None,
        },
        editor_id: v.editor_id,
        name: if field == SearchField::Edid {
            None
        } else {
            name_of(v, db.localization)
        },
        offset: match m {
            Some(m) => m.offset,
            None => 0,
        },
    }
}

/// The rows of the matches among the first `n` search entries.
pub open spec fn found(
    db: Database,
    list: Seq<(u32, SearchView)>,
    pattern: Seq<char>,
    types: Seq<String>,
    field: SearchField,
    n: nat,
) -> Seq<RowView>
    decreases n,
{
    if n == 0 || n > list.len() {
        Seq::empty()
    } else {
        let before = found(db, list, pattern, types, field, (n - 1) as nat);
        let (id, v) = list[n - 1];
        if type_wanted(db, types, id) && entry_matches(db, id, v, pattern, field) {
            before.push(found_row(db, id, v, field))
        } else {
            before
        }
    }
}

/// A search finds the same in every plugin with the same file, schema and
/// tables.
pub proof fn lemma_found_same(
    a: Database,
    b: Database,
    list: Seq<(u32, SearchView)>,
    pattern: Seq<char>,
    types: Seq<String>,
    field: SearchField,
    n: nat,
)
    requires
        a.same_source(b),
    ensures
        found(a, list, pattern, types, field, n) == found(b, list, pattern, types, field, n),
    decreases n,
{
    if n > 0 && n <= list.len() {
        lemma_found_same(a, b, list, pattern, types, field, (n - 1) as nat);
    }
}

proof fn lemma_found_grows(
    db: Database,
    list: Seq<(u32, SearchView)>,
    pattern: Seq<char>,
    types: Seq<String>,
    field: SearchField,
    n: nat,
    m: nat,
)
    requires
        n <= m <= list.len(),
    ensures
        found(db, list, pattern, types, field, n).len() <= found(
            db,
            list,
            pattern,
            types,
            field,
            m,
        ).len(),
        found(db, list, pattern, types, field, n) == found(
            db,
            list,
            pattern,
            types,
            field,
            m,
        ).take(found(db, list, pattern, types, field, n).len() as int),
    decreases m,
{
    let a = found(db, list, pattern, types, field, n);
    let b = found(db, list, pattern, types, field, m);
    if n == m {
        assert(b.take(a.len() as int) =~= a);
    } else {
        lemma_found_grows(db, list, pattern, types, field, n, (m - 1) as nat);
        let c = found(db, list, pattern, types, field, (m - 1) as nat);
        assert(b.take(a.len() as int) =~= c.take(a.len() as int));
    }
}

/// Whether a text is there and matches a pattern.
fn matches_text(pattern: &str, t: Option<&str>) -> (r: bool)
    ensures
        r == text_matches(pattern@, opt_slice(t)),
{
    match t {
        Some(t) => wildcard_match(pattern, t),
        None => false,
    }
}

impl Database {
    /// Whether a record's type is among those asked for.
    fn wants_type(&self, types: &Vec<String>, id: FormId) -> (r: bool)
        requires
            self.wf(),
        ensures
            r == type_wanted(*self, types@, id.0),
    {
        if types.len() == 0 {
            return true;
        }
        match self.index.get_by_formid(id) {
            Some(m) => list_contains(types, m.signature.as_str()),
            None => {
                proof {
                    reveal_strlit("");
                    assert(""@ =~= Seq::<char>::empty());
                }
                list_contains(types, "")
            },
        }
    }

    /// The row of a search entry, if it matches.
    fn match_entry(
        &self,
        id: FormId,
        e: &SearchRef<'_>,
        pattern: &str,
        types: &Vec<String>,
        field: SearchField,
    ) -> (r: Option<RecordRow>)
        requires
            self.wf(),
        ensures
            match r {
                Some(row) => type_wanted(*self, types@, id.0) && entry_matches(
                    *self,
                    id.0,
                    e@,
                    pattern@,
                    field,
                ) && row@ == found_row(*self, id.0, e@, field),
                None => !(type_wanted(*self, types@, id.0) && entry_matches(
                    *self,
                    id.0,
                    e@,
                    pattern@,
                    field,
                )),
            },
    {
        if !self.wants_type(types, id) {
            return None;
        }
        let name: Option<&str> = match find_string(
            &self.localization,
            StringKind::Strings,
            e.full_id,
        ) {
            Some(s) => Some(s),
            None => e.full_text,
        };
        let meta = self.index.get_by_formid(id);
        let kind = match &meta {
            Some(m) => lstring_table_to_kind(
                &LStringTable::Strings,
                Some(m.signature.as_str()),
                "DESC",
            ),
            None => lstring_table_to_kind(&LStringTable::Strings, None, "DESC"),
        };
        let desc: Option<&str> = match find_string(&self.localization, kind, e.desc_id) {
            Some(s) => Some(s),
            None => e.desc_text,
        };
        let matched = match field {
            SearchField::Edid => matches_text(pattern, e.editor_id),
            SearchField::Name => matches_text(pattern, name) || matches_text(pattern, desc),
            SearchField::Both => matches_text(pattern, e.editor_id) || matches_text(pattern, name)
                || matches_text(pattern, desc),
        };
        if !matched {
            return None;
        }
        let shown: Option<&str> = match field {
            SearchField::Edid => None,
            _ => name,
        };
        Some(
            RecordRow {
                form_id: id.display(),
                record_type: match meta {
                    Some(m) => Some(m.signature.as_str().to_owned()),
                    None => None,
                },
                editor_id: own_opt(e.editor_id),
                name: own_opt(shown),
                offset: match meta {
                    Some(m) => m.offset,
                    None => 0,
                },
            },
        )
    }

    /// Searches records by EditorID, name and description, in the order of
    /// their FormIDs.
    pub fn search(
        &mut self,
        pattern: &str,
        types: &Vec<String>,
        field: SearchField,
        limit: usize,
    ) -> (out: Vec<RecordRow>)
        requires
            old(self).wf(),
        ensures
            final(self).wf(),
            final(self).same_answers(*old(self)),
            ({
                let list = old(self).searched();
                let all = found(*old(self), list, pattern@, types@, field, list.len());
                row_views(out@) == page(all, 0, limit as int)
            }),
    {
        let ghost before = *self;
        self.ensure_search_index();
        let entries = self.index.iter_search();
        let ghost list = before.searched();
        assert(list == self.index.search_list());
        let ghost all = found(*self, list, pattern@, types@, field, list.len());
        proof {
            lemma_found_same(*self, before, list, pattern@, types@, field, list.len());
        }
        let most: usize = effective_take(limit);
        let mut out: Vec<RecordRow> = Vec::new();
        assert(row_views(out@) =~= Seq::<RowView>::empty());
        let mut i: usize = 0;
        while i < entries.len() && out.len() < most
            invariant
                i <= entries.len(),
                self.wf(),
                list == entries@.map_values(|e: (FormId, SearchRef<'_>)| (e.0.0, e.1@)),
                row_views(out@) == found(*self, list, pattern@, types@, field, i as nat),
                out.len() <= most,
            decreases entries.len() - i,
        {
            assert(list[i as int] == (entries@[i as int].0.0, entries@[i as int].1@));
            if let Some(row) = self.match_entry(
                entries[i].0,
                &entries[i].1,
                pattern,
                types,
                field,
            ) {
                let ghost prior = row_views(out@);
                let ghost added = row@;
                out.push(row);
                assert(row_views(out@) =~= prior.push(added));
            }
            i += 1;
        }
        proof {
            lemma_found_grows(*self, list, pattern@, types@, field, i as nat, list.len());
            assert(row_views(out@) =~= page(all, 0, limit as int));
        }
        out
    }
}

/// The FormIDs of the matches among the first `n` search entries.
pub open spec fn found_ids(
    db: Database,
    list: Seq<(u32, SearchView)>,
    pattern: Seq<char>,
    types: Seq<String>,
    field: SearchField,
    n: nat,
) -> Seq<u32>
    decreases n,
{
    if n == 0 || n > list.len() {
        Seq::empty()
    } else {
        let before = found_ids(db, list, pattern, types, field, (n - 1) as nat);
        let (id, v) = list[n - 1];
        if type_wanted(db, types, id) && entry_matches(db, id, v, pattern, field) {
            before.push(id)
        } else {
            before
        }
    }
}

/// What a search finds comes in the order of the FormIDs, each record once,
/// and shows them.
pub proof fn law_search_is_sorted(
    db: Database,
    pattern: Seq<char>,
    types: Seq<String>,
    field: SearchField,
    n: nat,
)
    requires
        crate::database::search_increases(db.searched()),
        n <= db.searched().len(),
    ensures
        ({
            let ids = found_ids(db, db.searched(), pattern, types, field, n);
            let out = found(db, db.searched(), pattern, types, field, n);
            &&& out.len() == ids.len()
            &&& forall|i: int| 0 <= i < ids.len() ==> (#[trigger] out[i]).form_id == hex8(ids[i])
            &&& forall|i: int, j: int|
                0 <= i < j < ids.len() ==> #[trigger] ids[i] < #[trigger] ids[j]
            &&& forall|i: int|
                0 <= i < ids.len() ==> exists|k: int|
                    0 <= k < n && (#[trigger] db.searched()[k]).0 == #[trigger] ids[i]
        }),
    decreases n,
{
    if n > 0 {
        law_search_is_sorted(db, pattern, types, field, (n - 1) as nat);
        let list = db.searched();
        let before = found_ids(db, list, pattern, types, field, (n - 1) as nat);
        let ids = found_ids(db, list, pattern, types, field, n);
        let out = found(db, list, pattern, types, field, n);
        let was = found(db, list, pattern, types, field, (n - 1) as nat);
        assert forall|i: int| 0 <= i < ids.len() implies exists|k: int|
            0 <= k < n && (#[trigger] list[k]).0 == #[trigger] ids[i] by {
            if i < before.len() {
                assert(ids[i] == before[i]);
                let k = choose|k: int| 0 <= k < n - 1 && (#[trigger] list[k]).0 == before[i];
                assert(list[k].0 == ids[i]);
            } else {
                assert(list[n - 1].0 == ids[i]);
            }
        }
        assert forall|i: int| 0 <= i < ids.len() implies (#[trigger] out[i]).form_id == hex8(
            ids[i],
        ) by {
            if i < before.len() {
                assert(out[i] == was[i]);
            }
        }
        assert forall|i: int, j: int| 0 <= i < j < ids.len() implies #[trigger] ids[i]
            < #[trigger] ids[j] by {
            assert(ids[i] == before[i]);
            if j < before.len() {
                assert(ids[j] == before[j]);
            } else {
                let k = choose|k: int| 0 <= k < n - 1 && (#[trigger] list[k]).0 == before[i];
                assert(list[k].0 < list[n - 1].0);
            }
        }
    }
}

} // verus!
