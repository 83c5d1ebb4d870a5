//! Queries over the decoded records of a type.
use crate::carriers::{
    all_matches, carriers, label, match_views, omod_hits, omod_matches, perk_hits,
    perk_matches, seed_views, seeds, CarrierKind, Carriers, Hit, HitView,
};
use crate::database::{
    decoded_in_order, entries_increase, entry_views, Database, EntryView, FilterCacheEntry,
    RecordResult,
};
use crate::decode::context::ResolveDepth;
use crate::error::Error;
use crate::filter::{
    collect_all_formid_values, collect_field_paths, collect_formid_paths, effective_take,
    formid_texts, law_paths_sorted, paths, predicate_holds, predicate_matches, taken,
    target_paths, FilterOp, Numbers,
};
use crate::formid::{form_id_of, parse_form_id_input, FormId};
use crate::index::{law_by_type_increases, meta_of, raw_ids, type_key, Decoding};
use crate::json::Json;
use crate::listing::{page, row_views, RecordRow, RowView};
use crate::order::texts_increase;
use crate::reader::{edid_from_subrecords, edid_of, record_at, subs, RecordMeta, StoredRecord};
use crate::schema::copy_opt;
use crate::selectors::{pick_text, EntryPointSpec, OmodPropertySpec, Pick};
use crate::text::{hex8, opt_slice, str_eq, texts, to_upper, uppercase};
use vstd::prelude::*;

verus! {

/// The number of records of a type that are decoded for filters at most.
pub const FILTER_SCAN_CAP: usize = 20_000;

/// The number of paths that are listed for a type at most.
pub const MAX_PATHS: usize = 5000;

/// How many of the `total` records of a type filters look at.
pub open spec fn scanned(total: int) -> int {
    if total <= FILTER_SCAN_CAP {
        total
    } else {
        FILTER_SCAN_CAP as int
    }
}

// ── Decoded records of a type ──────────────────────────────────────────────
/// The records of a list from `i` on decoded, after `acc`, or the offset of
/// the first that cannot be read.
pub open spec fn decoded_list(
    recs: Map<u64, StoredRecord>,
    d: Decoding<'_>,
    list: Seq<(FormId, RecordMeta)>,
    i: nat,
    acc: Seq<EntryView>,
) -> Result<Seq<EntryView>, u64>
    decreases list.len() - i,
{
    if i >= list.len() {
        Ok(acc)
    } else {
        let (id, m) = list[i as int];
        match record_at(recs, m.offset) {
            None => Err(m.offset),
            Some(r) => decoded_list(
                recs,
                d,
                list,
                i + 1,
                acc.push(
                    EntryView {
                        form_id: id,
                        editor_id: edid_of(subs(r.subrecords@)),
                        offset: m.offset,
                        fields: d.fields(r),
                    },
                ),
            ),
        }
    }
}

/// The records that have been decoded for a type.
pub open spec fn cached(
    cache: Seq<(String, (usize, Vec<FilterCacheEntry>))>,
    sig: Seq<char>,
) -> Option<(int, Seq<EntryView>)>
    decreases cache.len(),
{
    if cache.len() == 0 {
        None
    } else if cache[0].0@ == sig {
        Some((cache[0].1.0 as int, entry_views(cache[0].1.1@)))
    } else {
        cached(cache.drop_first(), sig)
    }
}

impl Database {
    /// How many records a type has, and those of them that filters look at,
    /// decoded: those that have been decoded before, or the first of the file.
    pub open spec fn scan(&self, sig: Seq<char>) -> Result<(int, Seq<EntryView>), u64> {
        match cached(self.filter_cache@, sig) {
            Some(found) => Ok(found),
            None => {
                let all = self.index.by_type(sig);
                let list = all.take(scanned(all.len() as int));
                match decoded_list(self.esm.records@, self.how(), list, 0, Seq::empty()) {
                    Ok(entries) => Ok((all.len() as int, entries)),
                    Err(offset) => Err(offset),
                }
            },
        }
    }

    /// Whether another database gives the same answers as this one, filters
    /// among them.
    pub open spec fn same_scans(&self, other: Database) -> bool {
        &&& self.same_source(other)
        &&& self.index == other.index
        &&& forall|sig: Seq<char>| #[trigger] self.scan(sig) == other.scan(sig)
    }

    /// Whether another database answers every question as this one does.
    pub open spec fn same_replies(&self, other: Database) -> bool {
        &&& self.same_source(other)
        &&& self.edids() == other.edids()
        &&& self.searched() == other.searched()
        &&& self.refs() == other.refs()
        &&& forall|sig: Seq<char>| #[trigger] self.scan(sig) == other.scan(sig)
    }

    /// Where the decoded records of a type are, or the end.
    fn find_cached(&self, sig: &str) -> (i: usize)
        ensures
            i <= self.filter_cache.len(),
            match cached(self.filter_cache@, sig@) {
                Some((total, entries)) => i < self.filter_cache.len()
                    && self.filter_cache@[i as int].1.0 == total && entry_views(
                    self.filter_cache@[i as int].1.1@,
                ) == entries,
                None => i == self.filter_cache.len(),
            },
    {
        let ghost all = self.filter_cache@;
        let mut i: usize = 0;
        assert(all.skip(0) =~= all);
        while i < self.filter_cache.len()
            invariant
                i <= self.filter_cache.len(),
                all == self.filter_cache@,
                cached(all, sig@) == cached(all.skip(i as int), sig@),
            decreases self.filter_cache.len() - i,
        {
            assert(all.skip(i as int)[0] == all[i as int]);
            if str_eq(&self.filter_cache[i].0, sig) {
                return i;
            }
            assert(all.skip(i as int).drop_first() =~= all.skip(i + 1));
            i += 1;
        }
        i
    }

    /// Decodes the first `upto` records of a list.
    fn decode_list(&self, list: &Vec<(FormId, RecordMeta)>, upto: usize) -> (r: Result<
        Vec<FilterCacheEntry>,
        Error,
    >)
        requires
            upto <= list.len(),
            forall|i: int, j: int| 0 <= i < j < list.len() ==> list@[i].0.0 < list@[j].0.0,
        ensures
            ({
                let want = decoded_list(
                    self.esm.records@,
                    self.how(),
                    list@.take(upto as int),
                    0,
                    Seq::empty(),
                );
                match r {
                    Ok(out) => want == Ok::<Seq<EntryView>, u64>(entry_views(out@))
                        && entries_increase(entry_views(out@)) && out@.len() == upto,
                    Err(e) => want matches Err(offset) && e == Error::Unreadable(offset),
                }
            }),
    {
        let ghost wanted = list@.take(upto as int);
        let mut out: Vec<FilterCacheEntry> = Vec::new();
        assert(entry_views(out@) =~= Seq::<EntryView>::empty());
        let mut i: usize = 0;
        while i < upto
            invariant
                i <= upto <= list.len(),
                wanted == list@.take(upto as int),
                out.len() == i,
                forall|j: int| 0 <= j < i ==> (#[trigger] entry_views(out@)[j]).form_id == list@[j].0,
                decoded_list(self.esm.records@, self.how(), wanted, 0, Seq::empty())
                    == decoded_list(
                    self.esm.records@,
                    self.how(),
                    wanted,
                    i as nat,
                    entry_views(out@),
                ),
            decreases upto - i,
        {
            assert(wanted[i as int] == list@[i as int]);
            let (form_id, meta) = list[i];
            match self.esm.parse_record_at(meta.offset) {
                Ok(parsed) => {
                    let entry = FilterCacheEntry {
                        form_id,
                        editor_id: edid_from_subrecords(&parsed.subrecords),
                        offset: meta.offset,
                        fields: self.decoding().decode(parsed),
                    };
                    let ghost prior = entry_views(out@);
                    let ghost added = entry@;
                    out.push(entry);
                    assert(entry_views(out@) =~= prior.push(added));
                },
                Err(e) => {
                    return Err(e);
                },
            }
            i += 1;
        }
        assert(entries_increase(entry_views(out@))) by {
            let ev = entry_views(out@);
            assert forall|a: int, b: int| 0 <= a < b < ev.len() implies (#[trigger] ev[a]).form_id.0
                < (#[trigger] ev[b]).form_id.0 by {
                assert(list@[a].0.0 < list@[b].0.0);
            }
        }
        Ok(out)
    }

    /// Decodes the records of a type, unless that has been done.
    pub fn ensure_filter_cache(&mut self, sig: &str) -> (r: Result<(), Error>)
        requires
            old(self).wf(),
        ensures
            final(self).wf(),
            final(self).same_scans(*old(self)),
            match r {
                Ok(_) => cached(final(self).filter_cache@, sig@) is Some && old(self).scan(sig@)
                    == Ok::<(int, Seq<EntryView>), u64>(
                    cached(final(self).filter_cache@, sig@)->0,
                ),
                Err(e) => old(self).scan(sig@) matches Err(offset) && e == Error::Unreadable(offset)
                    && *final(self) == *old(self),
            },
    {
        if self.find_cached(sig) < self.filter_cache.len() {
            return Ok(());
        }
        let total: usize = self.index.count_by_type(sig);
        let records = self.index.records_by_type(sig);
        proof {
            law_by_type_increases(self.index.metas(), type_key(sig@), self.index.metas().len());
        }
        let ghost all = self.index.by_type(sig@);
        let upto: usize = if records.len() <= FILTER_SCAN_CAP {
            records.len()
        } else {
            FILTER_SCAN_CAP
        };
        proof {
            crate::index::lemma_typed(self.index.metas(), type_key(sig@), self.index.metas().len());
        }
        match self.decode_list(&records, upto) {
            Ok(entries) => {
                let ghost before = self.filter_cache@;
                self.filter_cache.push((sig.to_owned(), (total, entries)));
                proof {
                    let after = self.filter_cache@;
                    assert(after.drop_last() =~= before);
                    assert forall|s: Seq<char>| #[trigger] self.scan(s) == old(self).scan(s) by {
                        lemma_cached_push(before, after.last(), s);
                        assert(after =~= before.push(after.last()));
                        if cached(before, s) is None && s == sig@ {
                            assert(cached(after, s) == Some((total as int, entry_views(entries@))));
                        }
                    }
                    lemma_cached_push(before, after.last(), sig@);
                    assert(after =~= before.push(after.last()));
                    assert(self.wf()) by {
                        assert forall|i: int| 0 <= i < after.len() implies decoded_in_order(
                            self.index,
                            #[trigger] after[i],
                        ) by {
                            if i < before.len() {
                                assert(after[i] == before[i]);
                            }
                        }
                    }
                }
                Ok(())
            },
            Err(e) => Err(e),
        }
    }

    /// The decoded records of a type, and how many the type has.
    pub fn filter_cache_entries(&mut self, sig: &str) -> (r: Result<
        &(usize, Vec<FilterCacheEntry>),
        Error,
    >)
        requires
            old(self).wf(),
        ensures
            final(self).wf(),
            final(self).same_scans(*old(self)),
            match r {
                Ok(found) => old(self).scan(sig@) == Ok::<(int, Seq<EntryView>), u64>(
                    (found.0 as int, entry_views(found.1@)),
                ) && entries_increase(entry_views(found.1@)) && found.1@.len() == scanned(
                    found.0 as int,
                ),
                Err(e) => old(self).scan(sig@) matches Err(offset) && e == Error::Unreadable(
                    offset,
                ),
            },
    {
        match self.ensure_filter_cache(sig) {
            Ok(_) => {
                let i: usize = self.find_cached(sig);
                Ok(&self.filter_cache[i].1)
            },
            Err(e) => Err(e),
        }
    }
}

proof fn lemma_cached_push(
    cache: Seq<(String, (usize, Vec<FilterCacheEntry>))>,
    e: (String, (usize, Vec<FilterCacheEntry>)),
    sig: Seq<char>,
)
    ensures
        cached(cache.push(e), sig) == if cached(cache, sig) is Some {
            cached(cache, sig)
        } else if e.0@ == sig {
            Some((e.1.0 as int, entry_views(e.1.1@)))
        } else {
            None
        },
    decreases cache.len(),
{
    let all = cache.push(e);
    if cache.len() == 0 {
        assert(all.drop_first() =~= Seq::empty());
        assert(all[0] == e);
        assert(cached(all.drop_first(), sig) is None);
    } else {
        assert(all[0] == cache[0]);
        assert(all.drop_first() =~= cache.drop_first().push(e));
        lemma_cached_push(cache.drop_first(), e, sig);
    }
}

// ── Filters ────────────────────────────────────────────────────────────────
/// What a filter has found.
#[derive(Debug)]
pub struct FilterResult {
    pub rows: Vec<RecordRow>,
    /// How many records matched, whether or not they are among the rows.
    pub matched: usize,
    /// How many records were tested.
    pub scanned: usize,
    /// How many records the type has.
    pub total: usize,
    /// Whether the limit cut the rows short.
    pub capped: bool,
    /// Whether not all records of the type were tested.
    pub scan_capped: bool,
}

/// The rows of the records among the first `n` that satisfy a predicate.
pub open spec fn filtered(
    entries: Seq<EntryView>,
    sig: Seq<char>,
    path: Option<Seq<char>>,
    op: FilterOp,
    value: Option<Seq<char>>,
    nums: Numbers,
    n: nat,
) -> Seq<RowView>
    decreases n,
{
    if n == 0 || n > entries.len() {
        Seq::empty()
    } else {
        let before = filtered(entries, sig, path, op, value, nums, (n - 1) as nat);
        let e = entries[n - 1];
        if predicate_holds(e.fields, path, op, value, nums) {
            before.push(
                RowView {
                    form_id: hex8(e.form_id.0),
                    record_type: Some(sig),
                    editor_id: e.editor_id,
                    name: None,
                    offset: e.offset,
                },
            )
        } else {
            before
        }
    }
}

/// Filters decoded records of a type.
fn filter_entries(
    entries: &Vec<FilterCacheEntry>,
    sig: &str,
    path: Option<&str>,
    op: FilterOp,
    value: Option<&str>,
    nums: &Numbers,
    limit: usize,
) -> (r: (Vec<RecordRow>, usize))
    ensures
        ({
            let all = filtered(
                entry_views(entries@),
                sig@,
                opt_slice(path),
                op,
                opt_slice(value),
                *nums,
                entries@.len(),
            );
            r.1 == all.len() && r.1 <= entries.len() && row_views(r.0@) == page(
                all,
                0,
                limit as int,
            )
        }),
{
    let most: usize = effective_take(limit);
    let ghost ev = entry_views(entries@);
    let ghost p = opt_slice(path);
    let ghost w = opt_slice(value);
    let mut out: Vec<RecordRow> = Vec::new();
    assert(row_views(out@) =~= Seq::<RowView>::empty());
    let mut matched: usize = 0;
    let mut i: usize = 0;
    while i < entries.len()
        invariant
            i <= entries.len(),
            ev == entry_views(entries@),
            p == opt_slice(path),
            w == opt_slice(value),
            matched == filtered(ev, sig@, p, op, w, *nums, i as nat).len(),
            matched <= i,
            most == taken(limit as int),
            row_views(out@) == page(filtered(ev, sig@, p, op, w, *nums, i as nat), 0, limit as int),
        decreases entries.len() - i,
    {
        let e = &entries[i];
        assert(ev[i as int] == e@);
        let ghost before = filtered(ev, sig@, p, op, w, *nums, i as nat);
        let ghost after = filtered(ev, sig@, p, op, w, *nums, (i + 1) as nat);
        if predicate_matches(&e.fields, path, op, value, nums) {
            if out.len() < most {
                let row = RecordRow {
                    form_id: e.form_id.display(),
                    record_type: Some(sig.to_owned()),
                    editor_id: copy_opt(&e.editor_id),
                    name: None,
                    offset: e.offset,
                };
                let ghost added = row@;
                let ghost prior = row_views(out@);
                assert(prior.len() == out.len());
                assert(after == before.push(added));
                out.push(row);
                assert(row_views(out@) =~= prior.push(added));
            }
            matched += 1;
            assert(row_views(out@) =~= page(after, 0, limit as int));
        }
        i += 1;
    }
    (out, matched)
}

impl Database {
    /// Filters the records of a type by a predicate on their fields.
    pub fn filter_type_records(
        &mut self,
        sig: &str,
        path: Option<&str>,
        op: FilterOp,
        value: Option<&str>,
        nums: &Numbers,
        limit: usize,
    ) -> (r: Result<FilterResult, Error>)
        requires
            old(self).wf(),
        ensures
            final(self).wf(),
            final(self).same_scans(*old(self)),
            ({
                let up = uppercase(sig@);
                match old(self).scan(up) {
                    Err(offset) => r matches Err(e) && e == Error::Unreadable(offset),
                    Ok((total, entries)) => {
                        let all = filtered(
                            entries,
                            up,
                            opt_slice(path),
                            op,
                            opt_slice(value),
                            *nums,
                            entries.len(),
                        );
                        r matches Ok(f) && row_views(f.rows@) == page(all, 0, limit as int)
                            && f.matched == all.len() && f.scanned == entries.len() && f.total
                            == total && f.capped == (f.rows@.len() < all.len()) && f.scan_capped
                            == (entries.len() < total) && f.rows@.len() <= f.matched <= f.scanned
                            && f.scanned == scanned(f.total as int)
                    },
                }
            }),
    {
        let up = to_upper(sig);
        match self.filter_cache_entries(&up) {
            Err(e) => Err(e),
            Ok(found) => {
                let total: usize = found.0;
                let scanned: usize = found.1.len();
                let (rows, matched) = filter_entries(&found.1, &up, path, op, value, nums, limit);
                assert(row_views(rows@).len() == rows@.len());
                Ok(
                    FilterResult {
                        rows,
                        matched,
                        scanned,
                        total,
                        capped: limit > 0 && matched > limit,
                        scan_capped: scanned < total,
                    },
                )
            },
        }
    }
}

/// The paths in the decoded records from `i` on, joined to `out`.
pub open spec fn type_paths(entries: Seq<EntryView>, i: nat, out: Seq<Seq<char>>) -> Seq<Seq<char>>
    decreases entries.len() - i,
{
    if i >= entries.len() || out.len() >= MAX_PATHS {
        out
    } else {
        type_paths(
            entries,
            i + 1,
            paths(entries[i as int].fields, Seq::empty(), out, MAX_PATHS as int),
        )
    }
}

impl Database {
    /// Lists the paths in the decoded records of a type, in order.
    pub fn list_type_field_paths(&mut self, sig: &str) -> (r: Result<Vec<String>, Error>)
        requires
            old(self).wf(),
        ensures
            final(self).wf(),
            final(self).same_scans(*old(self)),
            match old(self).scan(uppercase(sig@)) {
                Err(offset) => r matches Err(e) && e == Error::Unreadable(offset),
                Ok((_, entries)) => r matches Ok(out) && texts(out@) == type_paths(
                    entries,
                    0,
                    Seq::empty(),
                ) && texts_increase(texts(out@)) && out@.len() <= MAX_PATHS,
            },
    {
        let up = to_upper(sig);
        match self.filter_cache_entries(&up) {
            Err(e) => Err(e),
            Ok(found) => {
                let entries = &found.1;
                let ghost ev = entry_views(entries@);
                let mut out: Vec<String> = Vec::new();
                assert(texts(out@) =~= Seq::<Seq<char>>::empty());
                proof {
                    reveal_strlit("");
                    assert(""@ =~= Seq::<char>::empty());
                }
                let mut i: usize = 0;
                while i < entries.len() && out.len() < MAX_PATHS
                    invariant
                        i <= entries.len(),
                        ev == entry_views(entries@),
                        ""@ == Seq::<char>::empty(),
                        texts_increase(texts(out@)),
                        out.len() <= MAX_PATHS,
                        type_paths(ev, 0, Seq::empty()) == type_paths(ev, i as nat, texts(out@)),
                    decreases entries.len() - i,
                {
                    assert(ev[i as int] == entries@[i as int]@);
                    proof {
                        law_paths_sorted(
                            entries@[i as int].fields@,
                            Seq::empty(),
                            texts(out@),
                            MAX_PATHS as int,
                        );
                    }
                    collect_field_paths(&entries[i].fields, "", &mut out, MAX_PATHS);
                    assert(texts(out@).len() == out.len());
                    i += 1;
                }
                Ok(out)
            },
        }
    }
}

// ── References ─────────────────────────────────────────────────────────────
/// The FormIDs that the first `n` texts name, each once, but for `own`.
pub open spec fn distinct_ids(list: Seq<Seq<char>>, own: FormId, n: nat) -> Seq<u32>
    decreases n,
{
    if n == 0 || n > list.len() {
        Seq::empty()
    } else {
        let before = distinct_ids(list, own, (n - 1) as nat);
        match form_id_of(list[n - 1]) {
            Some(id) => if id != own && !before.contains(id.0) {
                before.push(id.0)
            } else {
                before
            },
            None => before,
        }
    }
}

/// Whether `id` is one of `list`.
fn holds_id(list: &Vec<FormId>, id: FormId) -> (r: bool)
    ensures
        r == raw_ids(list@).contains(id.0),
{
    let mut i: usize = 0;
    while i < list.len()
        invariant
            i <= list.len(),
            forall|j: int| 0 <= j < i ==> raw_ids(list@)[j] != id.0,
        decreases list.len() - i,
    {
        if list[i].0 == id.0 {
            assert(raw_ids(list@)[i as int] == id.0);
            return true;
        }
        i += 1;
    }
    false
}

impl Database {
    /// The fields of a record, its references left as they are; nothing where
    /// it cannot be had.
    pub open spec fn plain_fields(&self, id: FormId) -> Option<Json> {
        match meta_of(self.index.metas(), id.0) {
            Some(m) => match self.esm.at(m.offset) {
                Some(p) => Some(self.result_of(p, ResolveDepth::Plain).fields),
                None => None,
            },
            None => None,
        }
    }

    /// The paths in a record at which another is referred to.
    pub fn formid_reference_paths(&self, referencer: FormId, target: FormId) -> (r: Vec<String>)
        requires
            self.wf(),
        ensures
            texts(r@) == match self.plain_fields(referencer) {
                Some(v) => target_paths(v, hex8(target.0), Seq::empty(), Seq::empty()),
                None => Seq::empty(),
            },
    {
        let mut out: Vec<String> = Vec::new();
        assert(texts(out@) =~= Seq::<Seq<char>>::empty());
        if let Ok(result) = self.record_by_formid(referencer) {
            proof {
                reveal_strlit("");
                assert(""@ =~= Seq::<char>::empty());
            }
            collect_formid_paths(&result.fields, &target.display(), "", &mut out);
        }
        out
    }

    /// The FormIDs that a record refers to, each once, but for its own.
    pub fn outgoing_formids(&self, node: FormId) -> (r: Vec<FormId>)
        requires
            self.wf(),
        ensures
            raw_ids(r@) == match self.plain_fields(node) {
                Some(v) => {
                    let list = formid_texts(v, Seq::empty());
                    distinct_ids(list, node, list.len())
                },
                None => Seq::empty(),
            },
    {
        let mut out: Vec<FormId> = Vec::new();
        assert(raw_ids(out@) =~= Seq::<u32>::empty());
        let result: RecordResult = match self.record_by_formid(node) {
            Ok(result) => result,
            Err(_) => {
                return out;
            },
        };
        let mut raw: Vec<String> = Vec::new();
        assert(texts(raw@) =~= Seq::<Seq<char>>::empty());
        collect_all_formid_values(&result.fields, &mut raw);
        let mut i: usize = 0;
        while i < raw.len()
            invariant
                i <= raw.len(),
                raw_ids(out@) == distinct_ids(texts(raw@), node, i as nat),
            decreases raw.len() - i,
        {
            assert(texts(raw@)[i as int] == raw@[i as int]@);
            if let Ok(id) = parse_form_id_input(&raw[i]) {
                if id.0 != node.0 && !holds_id(&out, id) {
                    let ghost before = raw_ids(out@);
                    out.push(id);
                    assert(raw_ids(out@) =~= before.push(id.0));
                }
            }
            i += 1;
        }
        out
    }
}

// ── Carriers ───────────────────────────────────────────────────────────────
/// Decoded PERKs with their matches.
pub open spec fn perk_list(entries: Seq<EntryView>, p: Pick) -> Seq<(FormId, Seq<HitView>)> {
    entries.map_values(|e: EntryView| (e.form_id, perk_matches(e.fields, p)))
}

/// Decoded OMODs with their matches.
pub open spec fn omod_list(entries: Seq<EntryView>, spec: OmodPropertySpec) -> Seq<
    (FormId, Seq<HitView>),
> {
    entries.map_values(|e: EntryView| (e.form_id, omod_matches(e.fields, spec.scope, spec.sel@)))
}

impl Database {
    /// The PERKs that carry an entry point, and what has been matched in
    /// words.
    pub fn perks_by_entry_point(&mut self, spec: &EntryPointSpec) -> (r: Result<
        (String, Carriers),
        Error,
    >)
        requires
            old(self).wf(),
        ensures
            final(self).wf(),
            final(self).same_scans(*old(self)),
            match old(self).scan("PERK"@) {
                Err(offset) => r matches Err(e) && e == Error::Unreadable(offset),
                Ok((_, entries)) => {
                    let m = perk_list(entries, spec@);
                    r matches Ok(found) && found.0@ == label(
                        "entry point"@,
                        pick_text(spec@),
                        all_matches(m, m.len()),
                    ) && seed_views(found.1@) == seeds(CarrierKind::EntryPoint, m, m.len())
                },
            },
    {
        match self.filter_cache_entries("PERK") {
            Err(e) => Err(e),
            Ok(found) => {
                let entries = &found.1;
                let mut list: Vec<(FormId, Vec<Hit>)> = Vec::new();
                let mut i: usize = 0;
                while i < entries.len()
                    invariant
                        i <= entries.len(),
                        list.len() == i,
                        forall|j: int|
                            0 <= j < i ==> #[trigger] match_views(list@)[j] == (
                                entry_views(entries@)[j].form_id,
                                perk_matches(entry_views(entries@)[j].fields, spec@),
                            ),
                    decreases entries.len() - i,
                {
                    let ghost before = list@;
                    list.push((entries[i].form_id, perk_hits(&entries[i].fields, spec)));
                    assert forall|j: int| 0 <= j < i + 1 implies #[trigger] match_views(list@)[j]
                        == (
                        entry_views(entries@)[j].form_id,
                        perk_matches(entry_views(entries@)[j].fields, spec@),
                    ) by {
                        if j < i {
                            assert(match_views(before)[j] == match_views(list@)[j]);
                        }
                    }
                    i += 1;
                }
                assert(match_views(list@) =~= perk_list(entry_views(entries@), spec@));
                Ok(carriers(CarrierKind::EntryPoint, &spec.display(), &list))
            },
        }
    }

    /// The OMODs that carry a property, and what has been matched in words.
    pub fn omods_by_property(&mut self, spec: &OmodPropertySpec) -> (r: Result<
        (String, Carriers),
        Error,
    >)
        requires
            old(self).wf(),
        ensures
            final(self).wf(),
            final(self).same_scans(*old(self)),
            match old(self).scan("OMOD"@) {
                Err(offset) => r matches Err(e) && e == Error::Unreadable(offset),
                Ok((_, entries)) => {
                    let m = omod_list(entries, *spec);
                    r matches Ok(found) && found.0@ == label(
                        "OMOD property"@,
                        spec.reads(),
                        all_matches(m, m.len()),
                    ) && seed_views(found.1@) == seeds(CarrierKind::OmodProperty, m, m.len())
                },
            },
    {
        match self.filter_cache_entries("OMOD") {
            Err(e) => Err(e),
            Ok(found) => {
                let entries = &found.1;
                let mut list: Vec<(FormId, Vec<Hit>)> = Vec::new();
                let mut i: usize = 0;
                while i < entries.len()
                    invariant
                        i <= entries.len(),
                        list.len() == i,
                        forall|j: int|
                            0 <= j < i ==> #[trigger] match_views(list@)[j] == (
                                entry_views(entries@)[j].form_id,
                                omod_matches(
                                    entry_views(entries@)[j].fields,
                                    spec.scope,
                                    spec.sel@,
                                ),
                            ),
                    decreases entries.len() - i,
                {
                    let ghost before = list@;
                    list.push((entries[i].form_id, omod_hits(&entries[i].fields, spec)));
                    assert forall|j: int| 0 <= j < i + 1 implies #[trigger] match_views(list@)[j]
                        == (
                        entry_views(entries@)[j].form_id,
                        omod_matches(entry_views(entries@)[j].fields, spec.scope, spec.sel@),
                    ) by {
                        if j < i {
                            assert(match_views(before)[j] == match_views(list@)[j]);
                        }
                    }
                    i += 1;
                }
                assert(match_views(list@) =~= omod_list(entry_views(entries@), *spec));
                Ok(carriers(CarrierKind::OmodProperty, &spec.display(), &list))
            },
        }
    }
}

} // verus!
