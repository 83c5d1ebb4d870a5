//! How much of a plugin the schema covers.
use crate::database::Database;
use crate::decode::context::{ResolveDepth, RAW, UNKNOWN_RECORD, UNMAPPED, UNRESOLVED};
use crate::error::Error;
use crate::filter::effective_take;
use crate::formid::FormId;
use crate::index::{ids_of, law_by_type_is_exact, lemma_typed, Metas};
use crate::json::{get, views, Entries, Json, Object, Value};
use crate::listing::page;
use crate::order::{join_text, law_joined, texts_increase};
use crate::reader::RecordMeta;
use crate::text::{str_eq, texts, to_upper, uppercase};
use vstd::prelude::*;

verus! {

/// How often decoded records hold each marker.
#[derive(Debug, Clone, Copy, PartialEq, Eq, Structural)]
pub struct Markers {
    pub unknown_record: u64,
    pub raw_fallback: u64,
    pub unmapped: u64,
    pub unresolved: u64,
    pub records: u64,
}

/// The sum of two counts; a count stops at the largest number.
pub open spec fn plus(a: int, b: int) -> int {
    if a + b <= u64::MAX {
        a + b
    } else {
        u64::MAX as int
    }
}

/// The sum of two counts.
fn sum(a: u64, b: u64) -> (r: u64)
    ensures
        r as int == plus(a as int, b as int),
{
    if a <= u64::MAX - b {
        a + b
    } else {
        u64::MAX
    }
}

/// The counts of `b` on top of those of `a`.
pub open spec fn added(a: Markers, b: Markers) -> Markers {
    Markers {
        unknown_record: plus(a.unknown_record as int, b.unknown_record as int) as u64,
        raw_fallback: plus(a.raw_fallback as int, b.raw_fallback as int) as u64,
        unmapped: plus(a.unmapped as int, b.unmapped as int) as u64,
        unresolved: plus(a.unresolved as int, b.unresolved as int) as u64,
        records: plus(a.records as int, b.records as int) as u64,
    }
}

/// No markers.
pub open spec fn no_markers() -> Markers {
    Markers { unknown_record: 0, raw_fallback: 0, unmapped: 0, unresolved: 0, records: 0 }
}

impl Default for Markers {
    /// No markers.
    fn default() -> (r: Markers)
        ensures
            r == no_markers(),
    {
        Markers { unknown_record: 0, raw_fallback: 0, unmapped: 0, unresolved: 0, records: 0 }
    }
}

impl Markers {
    /// How many markers there are in all.
    pub fn total(&self) -> (r: u64)
        ensures
            r as int == plus(
                plus(
                    plus(self.unknown_record as int, self.raw_fallback as int),
                    self.unmapped as int,
                ),
                self.unresolved as int,
            ),
    {
        sum(sum(sum(self.unknown_record, self.raw_fallback), self.unmapped), self.unresolved)
    }

    /// Counts the markers of `other` too.
    pub fn add(&mut self, other: &Markers)
        ensures
            *final(self) == added(*old(self), *other),
    {
        self.unknown_record = sum(self.unknown_record, other.unknown_record);
        self.raw_fallback = sum(self.raw_fallback, other.raw_fallback);
        self.unmapped = sum(self.unmapped, other.unmapped);
        self.unresolved = sum(self.unresolved, other.unresolved);
        self.records = sum(self.records, other.records);
    }
}

// ── Markers in a record ────────────────────────────────────────────────────
/// How many subrecords the first `n` entries list.
pub open spec fn listed_subrecords(o: Entries, n: nat, m: int) -> int
    decreases n,
{
    if n == 0 || n > o.len() {
        m
    } else {
        let before = listed_subrecords(o, (n - 1) as nat, m);
        match o[n - 1].1 {
            Json::Arr(items) => plus(before, items.len() as int),
            _ => before,
        }
    }
}

/// Whether an object has a marker set.
pub open spec fn marked(o: Entries, k: Seq<char>) -> bool {
    get(o, k) == Some(Json::Bool(true))
}

/// One more, where `b` says so.
pub open spec fn one_if(n: u64, b: bool) -> u64 {
    if b {
        plus(n as int, 1) as u64
    } else {
        n
    }
}

/// `m` and the markers that an object itself holds.
pub open spec fn own_markers(o: Entries, m: Markers) -> Markers {
    Markers {
        unknown_record: one_if(m.unknown_record, marked(o, UNKNOWN_RECORD@)),
        raw_fallback: one_if(m.raw_fallback, marked(o, RAW@) && get(o, "reason"@) is Some),
        unresolved: one_if(m.unresolved, marked(o, UNRESOLVED@)),
        unmapped: match get(o, UNMAPPED@) {
            Some(Json::Obj(list)) => listed_subrecords(
                list,
                list.len(),
                m.unmapped as int,
            ) as u64,
            _ => m.unmapped,
        },
        records: m.records,
    }
}

/// `m` and the markers in `v`. What the schema did not consume is counted by
/// the subrecord and not looked into.
pub open spec fn markers_in(v: Json, m: Markers) -> Markers
    decreases v, 0nat,
{
    match v {
        Json::Obj(o) => entry_markers(o, 0, own_markers(o, m)),
        Json::Arr(items) => item_markers(items, 0, m),
        _ => m,
    }
}

/// `m` and the markers in the entries from `i` on.
pub open spec fn entry_markers(o: Entries, i: nat, m: Markers) -> Markers
    decreases o, o.len() - i,
{
    if i >= o.len() {
        m
    } else if o[i as int].0 == UNMAPPED@ {
        entry_markers(o, i + 1, m)
    } else {
        entry_markers(o, i + 1, markers_in(o[i as int].1, m))
    }
}

/// `m` and the markers in the items from `i` on.
pub open spec fn item_markers(items: Seq<Json>, i: nat, m: Markers) -> Markers
    decreases items, items.len() - i,
{
    if i >= items.len() {
        m
    } else {
        item_markers(items, i + 1, markers_in(items[i as int], m))
    }
}

/// Whether an object has a marker set.
fn is_marked(o: &Object, k: &str) -> (r: bool)
    ensures
        r == marked(o@, k@),
{
    match o.get(k) {
        Some(v) => v.is_true(),
        None => false,
    }
}

/// How many subrecords an object lists.
fn count_listed(o: &Object, m: u64) -> (r: u64)
    ensures
        r as int == listed_subrecords(o@, o@.len(), m as int),
{
    let mut r: u64 = m;
    let mut i: usize = 0;
    while i < o.entries.len()
        invariant
            i <= o.entries.len(),
            r as int == listed_subrecords(o@, i as nat, m as int),
        decreases o.entries.len() - i,
    {
        assert(o@[i as int].1 == o.entries@[i as int].1@);
        if let Value::Array(items) = &o.entries[i].1 {
            assert(o@[i as int].1 == Json::Arr(views(items@)));
            assert(views(items@).len() == items.len());
            r = sum(r, items.len() as u64);
        }
        i += 1;
    }
    r
}

/// Counts the markers that an object itself holds.
fn count_own(o: &Object, m: &mut Markers)
    ensures
        *final(m) == own_markers(o@, *old(m)),
{
    if is_marked(o, UNKNOWN_RECORD) {
        m.unknown_record = sum(m.unknown_record, 1);
    }
    if is_marked(o, RAW) && o.contains_key("reason") {
        m.raw_fallback = sum(m.raw_fallback, 1);
    }
    if is_marked(o, UNRESOLVED) {
        m.unresolved = sum(m.unresolved, 1);
    }
    if let Some(v) = o.get(UNMAPPED) {
        if let Value::Object(list) = v {
            m.unmapped = count_listed(list, m.unmapped);
        }
    }
}

/// Counts the markers in a value.
#[verifier::loop_isolation(false)]
pub fn count_markers(v: &Value, m: &mut Markers)
    ensures
        *final(m) == markers_in(v@, *old(m)),
    decreases v,
{
    match v {
        Value::Object(o) => {
            count_own(o, m);
            let ghost start = *m;
            let mut i: usize = 0;
            while i < o.entries.len()
                invariant
                    i <= o.entries.len(),
                    entry_markers(o@, 0, start) == entry_markers(o@, i as nat, *m),
                decreases o.entries.len() - i,
            {
                assert(o@[i as int] == (o.entries@[i as int].0@, o.entries@[i as int].1@));
                if !str_eq(&o.entries[i].0, UNMAPPED) {
                    count_markers(&o.entries[i].1, m);
                }
                i += 1;
            }
        },
        Value::Array(items) => {
            let ghost start = *m;
            let mut i: usize = 0;
            while i < items.len()
                invariant
                    i <= items.len(),
                    item_markers(views(items@), 0, start) == item_markers(
                        views(items@),
                        i as nat,
                        *m,
                    ),
                decreases items.len() - i,
            {
                assert(views(items@)[i as int] == items@[i as int]@);
                count_markers(&items[i], m);
                i += 1;
            }
        },
        _ => {},
    }
}

// ── The report ─────────────────────────────────────────────────────────────
/// The markers of a plugin by record type, in the order of the types.
#[derive(Debug)]
pub struct CoverageReport {
    pub by_type: Vec<(String, Markers)>,
    pub totals: Markers,
}

/// The types of a report.
pub open spec fn report_types(list: Seq<(String, Markers)>) -> Seq<Seq<char>> {
    list.map_values(|e: (String, Markers)| e.0@)
}

/// The markers of the first `n` records of a list; those that cannot be read
/// do not count.
pub open spec fn record_markers(db: Database, list: Seq<(FormId, RecordMeta)>, n: nat) -> Markers
    decreases n,
{
    if n == 0 || n > list.len() {
        no_markers()
    } else {
        let before = record_markers(db, list, (n - 1) as nat);
        match db.esm.at(list[n - 1].1.offset) {
            Some(r) => added(
                Markers { records: plus(before.records as int, 1) as u64, ..before },
                markers_in(db.result_of(r, ResolveDepth::Plain).fields, no_markers()),
            ),
            None => before,
        }
    }
}

/// The markers of the first records of a type, as many as `sample` stands for.
pub open spec fn type_markers(db: Database, sig: Seq<char>, sample: int) -> Markers {
    let list = page(db.index.by_type(sig), 0, sample);
    record_markers(db, list, list.len())
}

/// The markers of the first `n` types.
pub open spec fn total_markers(list: Seq<(String, Markers)>, n: nat) -> Markers
    decreases n,
{
    if n == 0 || n > list.len() {
        no_markers()
    } else {
        added(total_markers(list, (n - 1) as nat), list[n - 1].1)
    }
}

/// Whether a record has the type `t`.
pub open spec fn has_type(m: Metas, t: Seq<char>) -> bool {
    exists|k: int| 0 <= k < m.len() && (#[trigger] m[k]).1.signature.text() == t
}

/// Whether `r` is the report of a plugin on the types that `wanted` lets
/// through.
pub open spec fn covers(
    db: Database,
    wanted: Option<Seq<char>>,
    sample: int,
    r: CoverageReport,
) -> bool {
    let types = report_types(r.by_type@);
    &&& texts_increase(types)
    &&& forall|t: Seq<char>| #[trigger]
        types.contains(t) <==> has_type(db.index.metas(), t) && (wanted matches Some(w) ==> t == w)
    &&& forall|i: int|
        0 <= i < r.by_type@.len() ==> (#[trigger] r.by_type@[i]).1 == type_markers(
            db,
            r.by_type@[i].0@,
            sample,
        )
    &&& r.totals == total_markers(r.by_type@, r.by_type@.len())
}

proof fn lemma_record_markers_same(
    a: Database,
    b: Database,
    list: Seq<(FormId, RecordMeta)>,
    n: nat,
)
    requires
        a.same_source(b),
    ensures
        record_markers(a, list, n) == record_markers(b, list, n),
    decreases n,
{
    if 0 < n <= list.len() {
        lemma_record_markers_same(a, b, list, (n - 1) as nat);
    }
}

/// A report covers every plugin with the same file, schema and tables.
pub proof fn lemma_covers_same(
    a: Database,
    b: Database,
    wanted: Option<Seq<char>>,
    sample: int,
    r: CoverageReport,
)
    requires
        a.same_source(b),
        covers(a, wanted, sample, r),
    ensures
        covers(b, wanted, sample, r),
{
    assert forall|i: int| 0 <= i < r.by_type@.len() implies (#[trigger] r.by_type@[i]).1
        == type_markers(b, r.by_type@[i].0@, sample) by {
        let list = page(a.index.by_type(r.by_type@[i].0@), 0, sample);
        lemma_record_markers_same(a, b, list, list.len());
    }
}

proof fn lemma_has_type(m: Metas, sig: Seq<u8>)
    requires
        crate::index::increasing(m),
    ensures
        ids_of(m, sig, m.len()).len() > 0 <==> exists|k: int|
            0 <= k < m.len() && (#[trigger] m[k]).1.signature.0@ == sig,
{
    lemma_typed(m, sig, m.len());
    law_by_type_is_exact(m, sig, m.len());
    let list = crate::index::typed(m, sig, m.len());
    if list.len() > 0 {
        lemma_typed_from(m, sig, m.len());
        let k = choose|k: int| 0 <= k < m.len() && (FormId((#[trigger] m[k]).0), m[k].1) == list[0];
        assert(m[k].1.signature.0@ == sig);
    }
    if exists|k: int| 0 <= k < m.len() && (#[trigger] m[k]).1.signature.0@ == sig {
        let k = choose|k: int| 0 <= k < m.len() && (#[trigger] m[k]).1.signature.0@ == sig;
        assert(list.contains((FormId(m[k].0), m[k].1)));
    }
}

proof fn lemma_typed_from(m: Metas, sig: Seq<u8>, n: nat)
    requires
        n <= m.len(),
    ensures
        forall|i: int|
            0 <= i < crate::index::typed(m, sig, n).len() ==> exists|k: int|
                0 <= k < n && (FormId((#[trigger] m[k]).0), m[k].1) == (
                #[trigger] crate::index::typed(m, sig, n)[i]),
    decreases n,
{
    if n > 0 {
        lemma_typed_from(m, sig, (n - 1) as nat);
        let before = crate::index::typed(m, sig, (n - 1) as nat);
        let after = crate::index::typed(m, sig, n);
        assert forall|i: int| 0 <= i < after.len() implies exists|k: int|
            0 <= k < n && (FormId((#[trigger] m[k]).0), m[k].1) == (#[trigger] after[i]) by {
            if i < before.len() {
                assert(after[i] == before[i]);
                let k = choose|k: int|
                    0 <= k < n - 1 && (FormId((#[trigger] m[k]).0), m[k].1) == before[i];
                assert((FormId(m[k].0), m[k].1) == after[i]);
            } else {
                assert((FormId(m[n - 1].0), m[n - 1].1) == after[i]);
            }
        }
    }
}

/// The record types of a plugin, in order.
fn sorted_types(db: &Database) -> (r: Vec<String>)
    requires
        db.wf(),
    ensures
        texts_increase(texts(r@)),
        forall|t: Seq<char>| #[trigger] texts(r@).contains(t) <==> has_type(db.index.metas(), t),
{
    let sigs = db.index.signatures();
    let mut out: Vec<String> = Vec::new();
    assert(texts(out@) =~= Seq::<Seq<char>>::empty());
    let mut i: usize = 0;
    while i < sigs.len()
        invariant
            i <= sigs.len(),
            texts_increase(texts(out@)),
            forall|t: Seq<char>| #[trigger]
                texts(out@).contains(t) <==> exists|k: int|
                    0 <= k < i && (#[trigger] sigs@[k]).text() == t,
        decreases sigs.len() - i,
    {
        let ghost before = texts(out@);
        let ghost added_text = sigs@[i as int].text();
        proof {
            law_joined(before, added_text);
        }
        join_text(&mut out, sigs[i].as_str());
        assert forall|t: Seq<char>| #[trigger] texts(out@).contains(t) <==> exists|k: int|
            0 <= k < i + 1 && (#[trigger] sigs@[k]).text() == t by {
            if texts(out@).contains(t) {
                if t == added_text {
                    assert(sigs@[i as int].text() == t);
                } else {
                    assert(before.contains(t));
                    let k = choose|k: int| 0 <= k < i && (#[trigger] sigs@[k]).text() == t;
                    assert(sigs@[k].text() == t);
                }
            }
            if exists|k: int| 0 <= k < i + 1 && (#[trigger] sigs@[k]).text() == t {
                let k = choose|k: int| 0 <= k < i + 1 && (#[trigger] sigs@[k]).text() == t;
                if k < i {
                    assert(before.contains(t));
                }
            }
        }
        i += 1;
    }
    proof {
        let m = db.index.metas();
        assert forall|t: Seq<char>| #[trigger] texts(out@).contains(t) <==> has_type(m, t) by {
            if texts(out@).contains(t) {
                let k = choose|k: int| 0 <= k < sigs.len() && (#[trigger] sigs@[k]).text() == t;
                lemma_has_type(m, sigs@[k].0@);
                assert(ids_of(m, sigs@[k].0@, m.len()).len() > 0);
                let j = choose|j: int|
                    0 <= j < m.len() && (#[trigger] m[j]).1.signature.0@ == sigs@[k].0@;
                assert(m[j].1.signature.text() == t);
            }
            if has_type(m, t) {
                let j = choose|j: int|
                    0 <= j < m.len() && (#[trigger] m[j]).1.signature.text() == t;
                lemma_has_type(m, m[j].1.signature.0@);
                assert(ids_of(m, m[j].1.signature.0@, m.len()).len() > 0);
                let k = choose|k: int|
                    0 <= k < sigs.len() && (#[trigger] sigs@[k]).0@ == m[j].1.signature.0@;
                assert(sigs@[k].text() == t);
            }
        }
    }
    out
}

/// Counts the markers of the first records of a type.
fn count_type(db: &Database, sig: &str, sample: usize) -> (r: Markers)
    requires
        db.wf(),
    ensures
        r == type_markers(*db, sig@, sample as int),
{
    let all = db.index.records_by_type(sig);
    let most: usize = effective_take(sample);
    let upto: usize = if most <= all.len() {
        most
    } else {
        all.len()
    };
    let ghost list = page(db.index.by_type(sig@), 0, sample as int);
    assert(list =~= all@.take(upto as int));
    let mut r = Markers::default();
    let mut i: usize = 0;
    while i < upto
        invariant
            i <= upto <= all.len(),
            db.wf(),
            list == all@.take(upto as int),
            r == record_markers(*db, list, i as nat),
        decreases upto - i,
    {
        assert(list[i as int] == all@[i as int]);
        if let Ok(v) = db.record_at_meta_with_depth(&all[i].1, ResolveDepth::Plain) {
            r.records = sum(r.records, 1);
            let mut own = Markers::default();
            count_markers(&v.fields, &mut own);
            r.add(&own);
        }
        i += 1;
    }
    r
}

/// Counts the markers of a plugin by record type: of one type or of all, and
/// of the first `sample` records of each, or of all where it is zero.
pub fn coverage_report(db: &Database, record_type: Option<&str>, sample: usize) -> (r: Result<
    CoverageReport,
    Error,
>)
    requires
        db.wf(),
    ensures
        match record_type {
            Some(t) => if has_type(db.index.metas(), uppercase(t@)) {
                r matches Ok(c) && covers(*db, Some(uppercase(t@)), sample as int, c)
            } else {
                r matches Err(e) && (e matches Error::NoRecordsOfType(s) && s@ == t@)
            },
            None => r matches Ok(c) && covers(*db, None, sample as int, c),
        },
{
    let all = sorted_types(db);
    let ghost every = texts(all@);
    let mut types: Vec<String> = Vec::new();
    match record_type {
        Some(t) => {
            let up = to_upper(t);
            assert(texts(types@) =~= Seq::<Seq<char>>::empty());
            let mut i: usize = 0;
            while i < all.len() && types.len() == 0
                invariant
                    i <= all.len(),
                    every == texts(all@),
                    types.len() == 0 ==> forall|j: int| 0 <= j < i ==> every[j] != up@,
                    types.len() > 0 ==> every.contains(up@) && texts(types@) == seq![up@],
                decreases all.len() - i,
            {
                assert(every[i as int] == all@[i as int]@);
                if str_eq(&all[i], &up) {
                    types.push(all[i].as_str().to_owned());
                    assert(texts(types@) =~= seq![up@]);
                }
                i += 1;
            }
            if types.len() == 0 {
                assert(!every.contains(up@));
                return Err(Error::NoRecordsOfType(t.to_owned()));
            }
            assert forall|x: Seq<char>| #[trigger] texts(types@).contains(x) <==> has_type(
                db.index.metas(),
                x,
            ) && x == up@ by {
                assert(texts(types@)[0] == up@);
            }
        },
        None => {
            types = all;
        },
    }
    let ghost tv = texts(types@);
    let mut by_type: Vec<(String, Markers)> = Vec::new();
    let mut i: usize = 0;
    while i < types.len()
        invariant
            i <= types.len(),
            db.wf(),
            tv == texts(types@),
            by_type.len() == i,
            forall|j: int|
                0 <= j < i ==> (#[trigger] by_type@[j]).0@ == tv[j] && by_type@[j].1
                    == type_markers(*db, tv[j], sample as int),
        decreases types.len() - i,
    {
        by_type.push((types[i].as_str().to_owned(), count_type(db, &types[i], sample)));
        i += 1;
    }
    assert(report_types(by_type@) =~= tv);
    let mut totals = Markers::default();
    let mut k: usize = 0;
    while k < by_type.len()
        invariant
            k <= by_type.len(),
            totals == total_markers(by_type@, k as nat),
        decreases by_type.len() - k,
    {
        totals.add(&by_type[k].1);
        k += 1;
    }
    Ok(CoverageReport { by_type, totals })
}

} // verus!
