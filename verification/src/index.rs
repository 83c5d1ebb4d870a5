//! The indexes of a plugin: its records by FormID and by type, and where they
//! have been built, by EditorID, for search, and by what refers to them.
use crate::curves::CurveIndex;
use crate::decode::context::{DecodeContext, Env, NoResolver, ResolveDepth};
use crate::decode::meaning::decoded;
use crate::decode::walk::decode_record;
use crate::error::Error;
use crate::format::{tag_bytes, Signature};
use crate::formid::{form_id_of, hex_prefixed, parse_formid, FormId};
use crate::hardcoded::{form_of, lookup as hardcoded_lookup, Form, HardcodedTable};
use crate::json::{views, Entries, Json, Object, Value};
use crate::reader::{
    edid_from_subrecords, edid_of, inline_string_from_subrecords, inline_string_of,
    lstring_id_from_subrecords, lstring_id_of, record_at, subs, EsmFile, ParsedRecord, RecordMeta,
    StoredRecord,
};
use crate::schema::{opt_text, slice_of, Schema};
use crate::settle::{answer_views, settle, settled};
use crate::strings::Localization;
use crate::text::{chars_of, opt_slice, str_eq};
use std::collections::BTreeMap;
use vstd::prelude::*;
use vstd::std_specs::btree::*;
use vstd::std_specs::cmp::OrdSpec;
use vstd::std_specs::iter::IteratorSpec;
use vstd::utf8::*;

verus! {

/// Where each record lies, by FormID.
pub type Metas = Seq<(u32, RecordMeta)>;

/// The records by FormID, in increasing order, and the FormIDs of each type.
#[derive(Debug)]
pub struct FormsSection {
    pub records: Vec<(u32, RecordMeta)>,
    pub types: Vec<(Signature, Vec<u32>)>,
}

/// Whether the FormIDs increase.
pub open spec fn increasing(t: Metas) -> bool {
    forall|i: int, j: int| 0 <= i < j < t.len() ==> (#[trigger] t[i]).0 < (#[trigger] t[j]).0
}

/// The record with FormID `id`.
pub open spec fn meta_of(t: Metas, id: u32) -> Option<RecordMeta>
    decreases t.len(),
{
    if t.len() == 0 {
        None
    } else if t[0].0 == id {
        Some(t[0].1)
    } else {
        meta_of(t.drop_first(), id)
    }
}

/// The FormIDs of the records of a type among the first `n`.
pub open spec fn ids_of(t: Metas, sig: Seq<u8>, n: nat) -> Seq<u32>
    decreases n,
{
    if n == 0 || n > t.len() {
        Seq::empty()
    } else if t[n - 1].1.signature.0@ == sig {
        ids_of(t, sig, (n - 1) as nat).push(t[n - 1].0)
    } else {
        ids_of(t, sig, (n - 1) as nat)
    }
}

/// The records of a type among the first `n`.
pub open spec fn typed(t: Metas, sig: Seq<u8>, n: nat) -> Seq<(FormId, RecordMeta)>
    decreases n,
{
    if n == 0 || n > t.len() {
        Seq::empty()
    } else if t[n - 1].1.signature.0@ == sig {
        typed(t, sig, (n - 1) as nat).push((FormId(t[n - 1].0), t[n - 1].1))
    } else {
        typed(t, sig, (n - 1) as nat)
    }
}

/// The position of a type from `i` on, or the length.
pub open spec fn type_index(types: Seq<(Signature, Vec<u32>)>, sig: Seq<u8>, i: nat) -> int
    decreases types.len() - i,
{
    if i >= types.len() || types[i as int].0.0@ == sig {
        i as int
    } else {
        type_index(types, sig, i + 1)
    }
}

/// The FormIDs that the directory gives for a type.
pub open spec fn type_ids(types: Seq<(Signature, Vec<u32>)>, sig: Seq<u8>) -> Seq<u32> {
    let i = type_index(types, sig, 0);
    if 0 <= i < types.len() {
        types[i].1@
    } else {
        Seq::empty()
    }
}

/// Whether no type is listed twice, and none without a record.
pub open spec fn types_distinct(types: Seq<(Signature, Vec<u32>)>) -> bool {
    &&& forall|i: int, j: int|
        0 <= i < j < types.len() ==> (#[trigger] types[i]).0.0@ != (#[trigger] types[j]).0.0@
    &&& forall|i: int| 0 <= i < types.len() ==> (#[trigger] types[i]).1@.len() > 0
}

impl FormsSection {
    /// Whether the FormIDs increase, and the directory lists the records of
    /// each type, in order.
    pub open spec fn wf(&self) -> bool {
        &&& increasing(self.records@)
        &&& types_distinct(self.types@)
        &&& forall|sig: Seq<u8>| #[trigger]
            type_ids(self.types@, sig) == ids_of(self.records@, sig, self.records@.len())
    }

    /// The record with FormID `form_id`.
    pub fn get(&self, form_id: FormId) -> (r: Option<RecordMeta>)
        requires
            self.wf(),
        ensures
            r == meta_of(self.records@, form_id.0),
    {
        let i: usize = find_record(&self.records, form_id.0);
        if i < self.records.len() {
            Some(self.records[i].1)
        } else {
            None
        }
    }
}

proof fn lemma_type_index(types: Seq<(Signature, Vec<u32>)>, sig: Seq<u8>, i: nat)
    requires
        i <= types.len(),
    ensures
        i <= type_index(types, sig, i) <= types.len(),
        type_index(types, sig, i) < types.len() ==> types[type_index(types, sig, i)].0.0@ == sig,
        forall|j: int|
            i <= j < type_index(types, sig, i) ==> (#[trigger] types[j]).0.0@ != sig,
    decreases types.len() - i,
{
    if !(i >= types.len() || types[i as int].0.0@ == sig) {
        lemma_type_index(types, sig, i + 1);
    }
}

/// The position of the type `sig`, or the length.
fn find_type(types: &Vec<(Signature, Vec<u32>)>, sig: &Signature) -> (i: usize)
    ensures
        i == type_index(types@, sig.0@, 0),
        i <= types.len(),
        i < types.len() ==> types@[i as int].0.0@ == sig.0@,
        forall|j: int| 0 <= j < i ==> (#[trigger] types@[j]).0.0@ != sig.0@,
{
    let mut i: usize = 0;
    while i < types.len() && !types[i].0.same(sig)
        invariant
            i <= types.len(),
            type_index(types@, sig.0@, 0) == type_index(types@, sig.0@, i as nat),
            forall|j: int| 0 <= j < i ==> (#[trigger] types@[j]).0.0@ != sig.0@,
        decreases types.len() - i,
    {
        i += 1;
    }
    i
}

/// The records of the first `n` entries by FormID: of several the last.
pub open spec fn latest(list: Seq<(FormId, RecordMeta)>, n: nat) -> Map<u32, RecordMeta>
    decreases n,
{
    if n == 0 || n > list.len() {
        Map::empty()
    } else {
        latest(list, (n - 1) as nat).insert(list[n - 1].0.0, list[n - 1].1)
    }
}

/// The record with FormID `id` in a map.
pub open spec fn map_meta(m: Map<u32, RecordMeta>, id: u32) -> Option<RecordMeta> {
    if m.contains_key(id) {
        Some(m[id])
    } else {
        None
    }
}

proof fn lemma_meta_at(t: Metas, id: u32, i: int)
    requires
        0 <= i < t.len(),
        t[i].0 == id,
        forall|j: int| 0 <= j < i ==> (#[trigger] t[j]).0 != id,
    ensures
        meta_of(t, id) == Some(t[i].1),
    decreases t.len(),
{
    if i > 0 {
        assert forall|j: int| 0 <= j < i - 1 implies (#[trigger] t.drop_first()[j]).0 != id by {
            assert(t.drop_first()[j] == t[j + 1]);
        }
        lemma_meta_at(t.drop_first(), id, i - 1);
    }
}

proof fn lemma_meta_absent(t: Metas, id: u32)
    requires
        forall|j: int| 0 <= j < t.len() ==> (#[trigger] t[j]).0 != id,
    ensures
        meta_of(t, id) is None,
    decreases t.len(),
{
    if t.len() > 0 {
        assert forall|j: int| 0 <= j < t.len() - 1 implies (#[trigger] t.drop_first()[j]).0
            != id by {
            assert(t.drop_first()[j] == t[j + 1]);
        }
        lemma_meta_absent(t.drop_first(), id);
    }
}

/// The directory of the record types.
#[verifier::loop_isolation(false)]
pub fn build_type_index(records: &Vec<(u32, RecordMeta)>) -> (types: Vec<(Signature, Vec<u32>)>)
    ensures
        types_distinct(types@),
        forall|sig: Seq<u8>| #[trigger]
            type_ids(types@, sig) == ids_of(records@, sig, records@.len()),
{
    let mut types: Vec<(Signature, Vec<u32>)> = Vec::new();
    let mut i: usize = 0;
    while i < records.len()
        invariant
            i <= records.len(),
            types_distinct(types@),
            forall|sig: Seq<u8>| #[trigger] type_ids(types@, sig) == ids_of(records@, sig, i as nat),
        decreases records.len() - i,
    {
        let id: u32 = records[i].0;
        let sig = records[i].1.signature;
        let at: usize = find_type(&types, &sig);
        let ghost before = types@;
        let ghost key = sig.0@;
        if at < types.len() {
            let (s, mut list) = types.remove(at);
            list.push(id);
            types.insert(at, (s, list));
            assert(types@ =~= before.update(at as int, (s, list)));
            assert forall|sig2: Seq<u8>| #[trigger] type_ids(types@, sig2) == ids_of(
                records@,
                sig2,
                (i + 1) as nat,
            ) by {
                assert(type_ids(before, sig2) == ids_of(records@, sig2, i as nat));
                lemma_type_index(before, sig2, 0);
                lemma_type_index(types@, sig2, 0);
                let p = type_index(before, sig2, 0);
                let q = type_index(types@, sig2, 0);
                if p < before.len() {
                    assert(types@[p].0.0@ == sig2);
                }
                if q < types@.len() {
                    assert(before[q].0.0@ == sig2);
                }
                assert(p == q);
            }
        } else {
            let mut list: Vec<u32> = Vec::new();
            list.push(id);
            types.push((sig, list));
            assert(types@ =~= before.push((sig, list)));
            assert forall|sig2: Seq<u8>| #[trigger] type_ids(types@, sig2) == ids_of(
                records@,
                sig2,
                (i + 1) as nat,
            ) by {
                assert(type_ids(before, sig2) == ids_of(records@, sig2, i as nat));
                lemma_type_index(before, sig2, 0);
                lemma_type_index(types@, sig2, 0);
                let p = type_index(before, sig2, 0);
                let q = type_index(types@, sig2, 0);
                if sig2 == key {
                    assert(p == before.len());
                    assert(types@[before.len() as int].0.0@ == sig2);
                    if q < before.len() {
                        assert(before[q].0.0@ == sig2);
                    }
                    assert(q == before.len());
                    assert(list@ =~= seq![id]);
                    assert(Seq::<u32>::empty().push(id) =~= seq![id]);
                } else {
                    if p < before.len() {
                        assert(types@[p].0.0@ == sig2);
                    }
                    if q < before.len() {
                        assert(before[q].0.0@ == sig2);
                    }
                }
            }
        }
        i += 1;
    }
    types
}

/// The keys of an ordered map increase.
proof fn lemma_keys_increase(keys: Seq<u32>)
    requires
        increasing_seq(keys),
    ensures
        forall|a: int, b: int| 0 <= a < b < keys.len() ==> #[trigger] keys[a] < #[trigger] keys[b],
{
    broadcast use vstd::std_specs::btree::group_btree_axioms;

    axiom_increasing_seq_meaning::<u32>(keys);
    assert forall|a: int, b: int| 0 <= a < b < keys.len() implies #[trigger] keys[a]
        < #[trigger] keys[b] by {
        assert(keys[a].cmp_spec(&keys[b]) is Less);
    }
}

/// Builds the records by FormID from the records of a file.
pub fn build_forms(list: &Vec<(FormId, RecordMeta)>) -> (r: FormsSection)
    ensures
        r.wf(),
        forall|id: u32| #[trigger]
            meta_of(r.records@, id) == map_meta(latest(list@, list@.len()), id),
{
    broadcast use vstd::std_specs::btree::group_btree_axioms;

    let mut m: BTreeMap<u32, RecordMeta> = BTreeMap::new();
    let mut i: usize = 0;
    while i < list.len()
        invariant
            i <= list.len(),
            m@ == latest(list@, i as nat),
        decreases list.len() - i,
    {
        m.insert(list[i].0.0, list[i].1);
        i += 1;
    }
    let mut records: Vec<(u32, RecordMeta)> = Vec::new();
    let entries = m.iter();
    let ghost items = entries.remaining();
    proof {
        lemma_keys_increase(items.map_values(|kv: (&u32, &RecordMeta)| *kv.0));
    }
    for kv in it: entries
        invariant
            it.seq() == items,
            records@.len() == it.index(),
            forall|j: int|
                0 <= j < records@.len() ==> (#[trigger] records@[j]).0 == *it.seq()[j].0
                    && records@[j].1 == *it.seq()[j].1,
    {
        records.push((*kv.0, *kv.1));
    }
    let ghost keys = items.map_values(|kv: (&u32, &RecordMeta)| *kv.0);
    assert(records@.len() == items.len());
    assert forall|a: int, b: int| 0 <= a < b < records@.len() implies (#[trigger] records@[a]).0 < (
    #[trigger] records@[b]).0 by {
        assert(keys[a] < keys[b]);
        assert(keys[a] == records@[a].0 && keys[b] == records@[b].0);
    }
    assert forall|id: u32| #[trigger] meta_of(records@, id) == map_meta(m@, id) by {
        if m@.contains_key(id) {
            assert(items.contains((&id, &m@[id])));
            let k = choose|k: int| 0 <= k < items.len() && items[k] == (&id, &m@[id]);
            assert(records@[k].0 == id && records@[k].1 == m@[id]);
            lemma_meta_at(records@, id, k);
        } else {
            assert forall|j: int| 0 <= j < records@.len() implies (#[trigger] records@[j]).0
                != id by {
                assert(m@.contains_key(*items[j].0));
            }
            lemma_meta_absent(records@, id);
        }
    }
    let types = build_type_index(&records);
    FormsSection { records, types }
}

/// Ordered search agrees with [`meta_of`].
fn find_record(records: &Vec<(u32, RecordMeta)>, id: u32) -> (i: usize)
    requires
        increasing(records@),
    ensures
        i <= records.len(),
        i < records.len() ==> records@[i as int].0 == id && meta_of(records@, id) == Some(
            records@[i as int].1,
        ),
        i == records.len() ==> meta_of(records@, id) is None,
{
    let mut lo: usize = 0;
    let mut hi: usize = records.len();
    while lo < hi
        invariant
            lo <= hi <= records.len(),
            increasing(records@),
            forall|j: int| 0 <= j < lo ==> (#[trigger] records@[j]).0 < id,
            forall|j: int| hi <= j < records.len() ==> (#[trigger] records@[j]).0 >= id,
        decreases hi - lo,
    {
        let mid: usize = lo + (hi - lo) / 2;
        if records[mid].0 < id {
            lo = mid + 1;
        } else {
            hi = mid;
        }
    }
    if lo < records.len() && records[lo].0 == id {
        proof {
            lemma_meta_at(records@, id, lo as int);
        }
        lo
    } else {
        proof {
            assert forall|j: int| 0 <= j < records.len() implies (#[trigger] records@[j]).0
                != id by {
                if j > lo {
                    assert(records@[lo as int].0 < records@[j].0);
                }
            }
            lemma_meta_absent(records@, id);
        }
        records.len()
    }
}

// ── EditorIDs ──────────────────────────────────────────────────────────────
/// The FormIDs by EditorID, in the order of the records.
#[derive(Debug)]
pub struct EdidSection {
    pub entries: Vec<(String, u32)>,
}

/// EditorIDs as mathematics.
pub open spec fn edid_views(entries: Seq<(String, u32)>) -> Seq<(Seq<char>, u32)> {
    entries.map_values(|e: (String, u32)| (e.0@, e.1))
}

/// The FormID of the last of the first `n` entries with EditorID `edid`.
pub open spec fn last_edid(entries: Seq<(Seq<char>, u32)>, edid: Seq<char>, n: nat) -> Option<u32>
    decreases n,
{
    if n == 0 || n > entries.len() {
        None
    } else if entries[n - 1].0 == edid {
        Some(entries[n - 1].1)
    } else {
        last_edid(entries, edid, (n - 1) as nat)
    }
}

/// The EditorIDs of the records from `i` on, after `acc`, or the offset of
/// the first record that cannot be read.
pub open spec fn edid_entries(
    t: Metas,
    recs: Map<u64, StoredRecord>,
    i: nat,
    acc: Seq<(Seq<char>, u32)>,
) -> Result<Seq<(Seq<char>, u32)>, u64>
    decreases t.len() - i,
{
    if i >= t.len() {
        Ok(acc)
    } else {
        let (id, meta) = t[i as int];
        match record_at(recs, meta.offset) {
            None => Err(meta.offset),
            Some(r) => match edid_of(subs(r.subrecords@)) {
                Some(e) => edid_entries(t, recs, i + 1, acc.push((e, id))),
                None => edid_entries(t, recs, i + 1, acc),
            },
        }
    }
}

/// Builds the EditorIDs of all records.
pub fn build_edid_section(forms: &FormsSection, esm: &EsmFile) -> (r: Result<EdidSection, Error>)
    ensures
        match r {
            Ok(s) => edid_entries(forms.records@, esm.records@, 0, Seq::empty()) == Ok::<
                Seq<(Seq<char>, u32)>,
                u64,
            >(edid_views(s.entries@)),
            Err(e) => exists|offset: u64|
                e == Error::Unreadable(offset) && edid_entries(
                    forms.records@,
                    esm.records@,
                    0,
                    Seq::empty(),
                ) == Err::<Seq<(Seq<char>, u32)>, u64>(offset),
        },
{
    let mut entries: Vec<(String, u32)> = Vec::new();
    assert(edid_views(entries@) =~= Seq::<(Seq<char>, u32)>::empty());
    let mut i: usize = 0;
    while i < forms.records.len()
        invariant
            i <= forms.records.len(),
            edid_entries(forms.records@, esm.records@, 0, Seq::empty()) == edid_entries(
                forms.records@,
                esm.records@,
                i as nat,
                edid_views(entries@),
            ),
        decreases forms.records.len() - i,
    {
        let id: u32 = forms.records[i].0;
        let offset: u64 = forms.records[i].1.offset;
        match esm.parse_record_at(offset) {
            Ok(rec) => {
                if let Some(edid) = edid_from_subrecords(&rec.subrecords) {
                    let ghost prior = edid_views(entries@);
                    let ghost e = edid@;
                    entries.push((edid, id));
                    assert(edid_views(entries@) =~= prior.push((e, id)));
                }
            },
            Err(e) => {
                return Err(e);
            },
        }
        i += 1;
    }
    Ok(EdidSection { entries })
}

// ── Search ─────────────────────────────────────────────────────────────────
/// What a search looks at in a record. Localised files store ids of strings,
/// others the strings themselves.
#[derive(Debug)]
pub struct SearchMeta {
    pub editor_id: Option<String>,
    pub full_id: Option<u32>,
    pub desc_id: Option<u32>,
    pub full_text: Option<String>,
    pub desc_text: Option<String>,
}

/// What a search looks at, as mathematics.
pub struct SearchView {
    pub editor_id: Option<Seq<char>>,
    pub full_id: Option<u32>,
    pub desc_id: Option<u32>,
    pub full_text: Option<Seq<char>>,
    pub desc_text: Option<Seq<char>>,
}

impl View for SearchMeta {
    type V = SearchView;

    open spec fn view(&self) -> SearchView {
        SearchView {
            editor_id: opt_text(self.editor_id),
            full_id: self.full_id,
            desc_id: self.desc_id,
            full_text: opt_text(self.full_text),
            desc_text: opt_text(self.desc_text),
        }
    }
}

/// What a search looks at, borrowed.
#[derive(Debug, Clone, Copy)]
pub struct SearchRef<'a> {
    pub editor_id: Option<&'a str>,
    pub full_id: Option<u32>,
    pub desc_id: Option<u32>,
    pub full_text: Option<&'a str>,
    pub desc_text: Option<&'a str>,
}

impl<'a> View for SearchRef<'a> {
    type V = SearchView;

    open spec fn view(&self) -> SearchView {
        SearchView {
            editor_id: opt_slice(self.editor_id),
            full_id: self.full_id,
            desc_id: self.desc_id,
            full_text: opt_slice(self.full_text),
            desc_text: opt_slice(self.desc_text),
        }
    }
}

/// What a search looks at, by FormID.
#[derive(Debug)]
pub struct SearchSection {
    pub entries: Vec<(u32, SearchMeta)>,
}

/// Search entries as mathematics.
pub open spec fn search_views(entries: Seq<(u32, SearchMeta)>) -> Seq<(u32, SearchView)> {
    entries.map_values(|e: (u32, SearchMeta)| (e.0, e.1@))
}

/// What a search looks at in a record.
pub open spec fn search_view(r: ParsedRecord, localized: bool) -> SearchView {
    let list = subs(r.subrecords@);
    if localized {
        SearchView {
            editor_id: edid_of(list),
            full_id: lstring_id_of(list, "FULL"@),
            desc_id: lstring_id_of(list, "DESC"@),
            full_text: None,
            desc_text: None,
        }
    } else {
        SearchView {
            editor_id: edid_of(list),
            full_id: None,
            desc_id: None,
            full_text: inline_string_of(list, "FULL"@),
            desc_text: inline_string_of(list, "DESC"@),
        }
    }
}

/// Whether there is something to search for.
pub open spec fn searchable(v: SearchView) -> bool {
    v.editor_id is Some || v.full_id is Some || v.desc_id is Some || v.full_text is Some
        || v.desc_text is Some
}

/// The search entries of the first `n` records. Records that cannot be read,
/// and those with nothing to search for, have none.
pub open spec fn search_entries(
    t: Metas,
    recs: Map<u64, StoredRecord>,
    localized: bool,
    n: nat,
) -> Seq<(u32, SearchView)>
    decreases n,
{
    if n == 0 || n > t.len() {
        Seq::empty()
    } else {
        let list = search_entries(t, recs, localized, (n - 1) as nat);
        let (id, meta) = t[n - 1];
        match record_at(recs, meta.offset) {
            Some(r) => if searchable(search_view(r, localized)) {
                list.push((id, search_view(r, localized)))
            } else {
                list
            },
            None => list,
        }
    }
}

/// Builds the search entries of all records.
pub fn build_search_section(forms: &FormsSection, esm: &EsmFile, is_localized: bool) -> (r:
    SearchSection)
    ensures
        search_views(r.entries@) == search_entries(
            forms.records@,
            esm.records@,
            is_localized,
            forms.records@.len(),
        ),
{
    let mut entries: Vec<(u32, SearchMeta)> = Vec::new();
    assert(search_views(entries@) =~= Seq::<(u32, SearchView)>::empty());
    let mut i: usize = 0;
    while i < forms.records.len()
        invariant
            i <= forms.records.len(),
            search_views(entries@) == search_entries(
                forms.records@,
                esm.records@,
                is_localized,
                i as nat,
            ),
        decreases forms.records.len() - i,
    {
        let id: u32 = forms.records[i].0;
        if let Ok(rec) = esm.parse_record_at(forms.records[i].1.offset) {
            let list = &rec.subrecords;
            let editor_id = edid_from_subrecords(list);
            let meta = if is_localized {
                SearchMeta {
                    editor_id,
                    full_id: lstring_id_from_subrecords(list, "FULL"),
                    desc_id: lstring_id_from_subrecords(list, "DESC"),
                    full_text: None,
                    desc_text: None,
                }
            } else {
                SearchMeta {
                    editor_id,
                    full_id: None,
                    desc_id: None,
                    full_text: inline_string_from_subrecords(list, "FULL"),
                    desc_text: inline_string_from_subrecords(list, "DESC"),
                }
            };
            if meta.editor_id.is_some() || meta.full_id.is_some() || meta.desc_id.is_some()
                || meta.full_text.is_some() || meta.desc_text.is_some() {
                let ghost prior = search_views(entries@);
                let ghost mv = meta@;
                entries.push((id, meta));
                assert(search_views(entries@) =~= prior.push((id, mv)));
            }
        }
        i += 1;
    }
    SearchSection { entries }
}

// ── References ─────────────────────────────────────────────────────────────
/// The FormIDs that the texts in a decoded value write, after `acc`. Fields
/// whose name starts with an underscore are left out.
pub open spec fn harvested(v: Json, acc: Seq<u32>) -> Seq<u32>
    decreases v, 0nat,
{
    match v {
        Json::Str(s) => if hex_prefixed(s) && form_id_of(s) is Some {
            acc.push(form_id_of(s)->Some_0.0)
        } else {
            acc
        },
        Json::Arr(items) => harvested_items(items, 0, acc),
        Json::Obj(o) => harvested_fields(o, 0, acc),
        _ => acc,
    }
}

/// The FormIDs in the items from `i` on, after `acc`.
pub open spec fn harvested_items(items: Seq<Json>, i: nat, acc: Seq<u32>) -> Seq<u32>
    decreases items, items.len() - i,
{
    if i >= items.len() {
        acc
    } else {
        harvested_items(items, i + 1, harvested(items[i as int], acc))
    }
}

/// The FormIDs in the fields from `i` on, after `acc`.
pub open spec fn harvested_fields(o: Entries, i: nat, acc: Seq<u32>) -> Seq<u32>
    decreases o, o.len() - i,
{
    if i >= o.len() {
        acc
    } else if o[i as int].0.len() > 0 && o[i as int].0[0] == '_' {
        harvested_fields(o, i + 1, acc)
    } else {
        harvested_fields(o, i + 1, harvested(o[i as int].1, acc))
    }
}

/// Collects the FormIDs that the texts in a decoded value write.
#[verifier::loop_isolation(false)]
pub fn harvest_formids(v: &Value, out: &mut Vec<u32>)
    ensures
        final(out)@ == harvested(v@, old(out)@),
    decreases v,
{
    match v {
        Value::String(s) => {
            let c = chars_of(s);
            if c.len() >= 2 && c[0] == '0' && (c[1] == 'x' || c[1] == 'X') {
                if let Ok(id) = parse_formid(s) {
                    out.push(id.0);
                }
            }
        },
        Value::Array(items) => {
            let mut i: usize = 0;
            while i < items.len()
                invariant
                    i <= items.len(),
                    harvested_items(views(items@), 0, old(out)@) == harvested_items(
                        views(items@),
                        i as nat,
                        out@,
                    ),
                decreases items.len() - i,
            {
                assert(views(items@)[i as int] == items@[i as int]@);
                harvest_formids(&items[i], out);
                i += 1;
            }
        },
        Value::Object(o) => {
            let mut i: usize = 0;
            while i < o.entries.len()
                invariant
                    i <= o.entries.len(),
                    harvested_fields(o@, 0, old(out)@) == harvested_fields(o@, i as nat, out@),
                decreases o.entries.len() - i,
            {
                assert(o@[i as int] == (o.entries@[i as int].0@, o.entries@[i as int].1@));
                let k = chars_of(&o.entries[i].0);
                if !(k.len() > 0 && k[0] == '_') {
                    harvest_formids(&o.entries[i].1, out);
                }
                i += 1;
            }
        },
        _ => {},
    }
}

/// The FormIDs that refer to each FormID.
#[derive(Debug)]
pub struct XrefSection {
    pub refs: BTreeMap<u32, Vec<u32>>,
}

/// References as mathematics.
pub open spec fn ref_views(m: Map<u32, Vec<u32>>) -> Map<u32, Seq<u32>> {
    Map::new(|k: u32| m.contains_key(k), |k: u32| m[k]@)
}

/// What refers to `id`.
pub open spec fn referrers(m: Map<u32, Seq<u32>>, id: u32) -> Seq<u32> {
    if m.contains_key(id) {
        m[id]
    } else {
        Seq::empty()
    }
}

/// Whether a FormID is that of a record or of a form of the game itself.
pub open spec fn known(t: Metas, table: Seq<(u32, Form)>, id: u32) -> bool {
    meta_of(t, id) is Some || form_of(table, id) is Some
}

/// The distinct known FormIDs among the first `n`, but for `own`.
pub open spec fn targets(
    t: Metas,
    table: Seq<(u32, Form)>,
    own: u32,
    list: Seq<u32>,
    n: nat,
) -> Seq<u32>
    decreases n,
{
    if n == 0 || n > list.len() {
        Seq::empty()
    } else {
        let before = targets(t, table, own, list, (n - 1) as nat);
        let id = list[n - 1];
        if id != own && known(t, table, id) && !before.contains(id) {
            before.push(id)
        } else {
            before
        }
    }
}

/// The references with `own` referring to the first `n` targets.
pub open spec fn with_referrer(m: Map<u32, Seq<u32>>, own: u32, list: Seq<u32>, n: nat) -> Map<
    u32,
    Seq<u32>,
>
    decreases n,
{
    if n == 0 || n > list.len() {
        m
    } else {
        let before = with_referrer(m, own, list, (n - 1) as nat);
        before.insert(list[n - 1], referrers(before, list[n - 1]).push(own))
    }
}

/// What decoding needs to know of a file.
pub struct Decoding<'a> {
    pub schema: &'a Schema,
    pub is_localized: bool,
    pub localization: Option<&'a Localization>,
    pub curves: Option<&'a CurveIndex>,
    pub answers: &'a Vec<(Value, Value)>,
}

impl<'a> Decoding<'a> {
    /// The context in which a record is decoded without following references.
    pub open spec fn env(&self, form_version: u16) -> Env<NoResolver> {
        Env {
            form_version,
            localized: self.is_localized,
            strings: crate::decode::context::opt_ref(self.localization),
            curves: crate::decode::context::opt_ref(self.curves),
            depth: ResolveDepth::Plain,
            resolver: None,
            outer: None,
            record: None,
            edid: None,
            lo: None,
            hi: None,
        }
    }

    /// A record decoded without following references.
    pub open spec fn fields(&self, r: ParsedRecord) -> Json {
        settled(
            decoded(
                self.env(r.header.form_version),
                *self.schema,
                r.header.signature@,
                subs(r.subrecords@),
            ),
            answer_views(self.answers@),
        )
    }

    /// Decodes a record without following references.
    pub fn decode(&self, r: &ParsedRecord) -> (v: Value)
        ensures
            v@ == self.fields(*r),
    {
        let ctx: DecodeContext<'_, NoResolver> = DecodeContext::for_record(
            self.schema,
            r.header.form_version,
            self.is_localized,
            self.localization,
            self.curves,
            ResolveDepth::Plain,
            None,
        );
        settle(&decode_record(&ctx, &r.header.signature, &r.subrecords), self.answers)
    }
}

/// The references of the first `n` records of a file. Each record refers to a
/// target once, however often it names it.
pub open spec fn references(
    t: Metas,
    table: Seq<(u32, Form)>,
    order: Seq<u64>,
    recs: Map<u64, StoredRecord>,
    d: Decoding<'_>,
    n: nat,
) -> Map<u32, Seq<u32>>
    decreases n,
{
    if n == 0 || n > order.len() {
        Map::empty()
    } else {
        let m = references(t, table, order, recs, d, (n - 1) as nat);
        match record_at(recs, order[n - 1]) {
            Some(r) => {
                let own = r.header.form_id.0;
                if meta_of(t, own) is Some {
                    let list = harvested(d.fields(r), Seq::empty());
                    let hits = targets(t, table, own, list, list.len());
                    with_referrer(m, own, hits, hits.len())
                } else {
                    m
                }
            },
            None => m,
        }
    }
}

/// The distinct known FormIDs among `list`, but for `own`.
fn distinct_targets(
    forms: &FormsSection,
    table: &HardcodedTable,
    own: u32,
    list: &Vec<u32>,
) -> (r: Vec<u32>)
    requires
        forms.wf(),
        table.wf(),
    ensures
        r@ == targets(forms.records@, table.forms(), own, list@, list@.len()),
{
    let mut r: Vec<u32> = Vec::new();
    let mut i: usize = 0;
    while i < list.len()
        invariant
            i <= list.len(),
            forms.wf(),
            table.wf(),
            r@ == targets(forms.records@, table.forms(), own, list@, i as nat),
        decreases list.len() - i,
    {
        let id: u32 = list[i];
        if id != own {
            let is_record = find_record(&forms.records, id) < forms.records.len();
            if is_record || hardcoded_lookup(table, FormId(id)).is_some() {
                let mut seen = false;
                let mut j: usize = 0;
                while j < r.len() && !seen
                    invariant
                        j <= r.len(),
                        seen ==> r@.contains(id),
                        !seen ==> forall|k: int| 0 <= k < j ==> r@[k] != id,
                    decreases r.len() - j + if seen {
                        0int
                    } else {
                        1int
                    },
                {
                    if r[j] == id {
                        assert(r@[j as int] == id);
                        seen = true;
                    } else {
                        j += 1;
                    }
                }
                if !seen {
                    r.push(id);
                }
            }
        }
        i += 1;
    }
    r
}

/// Records that `own` refers to the targets.
fn add_referrer(m: &mut BTreeMap<u32, Vec<u32>>, own: u32, list: &Vec<u32>)
    ensures
        ref_views(final(m)@) == with_referrer(
            ref_views(old(m)@),
            own,
            list@,
            list@.len(),
        ),
{
    broadcast use vstd::std_specs::btree::group_btree_axioms;

    let mut i: usize = 0;
    while i < list.len()
        invariant
            i <= list.len(),
            ref_views(m@) == with_referrer(ref_views(old(m)@), own, list@, i as nat),
        decreases list.len() - i,
    {
        let id: u32 = list[i];
        let ghost before = ref_views(m@);
        let mut own_list: Vec<u32> = match m.remove(&id) {
            Some(v) => v,
            None => Vec::new(),
        };
        assert(own_list@ == referrers(before, id)) by {
            assert(referrers(before, id) =~= own_list@);
        }
        own_list.push(own);
        m.insert(id, own_list);
        assert(ref_views(m@) =~= before.insert(id, referrers(before, id).push(own)));
        i += 1;
    }
}

/// Builds the references between the records of a file.
pub fn build_xref_section(
    forms: &FormsSection,
    table: &HardcodedTable,
    esm: &EsmFile,
    d: &Decoding<'_>,
) -> (r: XrefSection)
    requires
        forms.wf(),
        table.wf(),
    ensures
        ref_views(r.refs@) == references(
            forms.records@,
            table.forms(),
            esm.order@,
            esm.records@,
            *d,
            esm.order@.len(),
        ),
{
    let mut refs: BTreeMap<u32, Vec<u32>> = BTreeMap::new();
    assert(ref_views(refs@) =~= Map::<u32, Seq<u32>>::empty());
    let mut i: usize = 0;
    while i < esm.order.len()
        invariant
            i <= esm.order.len(),
            forms.wf(),
            table.wf(),
            ref_views(refs@) == references(
                forms.records@,
                table.forms(),
                esm.order@,
                esm.records@,
                *d,
                i as nat,
            ),
        decreases esm.order.len() - i,
    {
        if let Ok(rec) = esm.parse_record_at(esm.order[i]) {
            let own: u32 = rec.header.form_id.0;
            if find_record(&forms.records, own) < forms.records.len() {
                let fields = d.decode(rec);
                let mut list: Vec<u32> = Vec::new();
                harvest_formids(&fields, &mut list);
                let hits = distinct_targets(forms, table, own, &list);
                add_referrer(&mut refs, own, &hits);
            }
        }
        i += 1;
    }
    XrefSection { refs }
}

// ── The index ──────────────────────────────────────────────────────────────
/// The indexes of a plugin. A section that has not been built is absent, and
/// what is asked of it is not found.
#[derive(Debug)]
pub struct Index {
    pub path: String,
    pub forms: Option<FormsSection>,
    pub edid: Option<EdidSection>,
    pub search: Option<SearchSection>,
    pub xref: Option<XrefSection>,
}

/// FormIDs as numbers.
pub open spec fn raw_ids(list: Seq<FormId>) -> Seq<u32> {
    list.map_values(|id: FormId| id.0)
}

/// The first four bytes of a type's text.
pub open spec fn type_key(sig: Seq<char>) -> Seq<u8> {
    tag_bytes(encode_utf8(sig))
}

pub proof fn lemma_typed(t: Metas, sig: Seq<u8>, n: nat)
    requires
        increasing(t),
        n <= t.len(),
    ensures
        typed(t, sig, n).len() == ids_of(t, sig, n).len(),
        forall|i: int|
            0 <= i < typed(t, sig, n).len() ==> (#[trigger] typed(t, sig, n)[i]).0.0 == ids_of(
                t,
                sig,
                n,
            )[i] && meta_of(t, ids_of(t, sig, n)[i]) == Some(typed(t, sig, n)[i].1),
    decreases n,
{
    if n > 0 {
        lemma_typed(t, sig, (n - 1) as nat);
        lemma_meta_at(t, t[n - 1].0, n - 1);
    }
}

impl Index {
    /// The records of this index.
    pub open spec fn metas(&self) -> Metas {
        match self.forms {
            Some(f) => f.records@,
            None => Seq::empty(),
        }
    }

    /// Whether the records are in order.
    pub open spec fn wf(&self) -> bool {
        self.forms matches Some(f) ==> f.wf()
    }

    /// The FormIDs that the directory gives for a type.
    pub open spec fn ids_by_type(&self, sig: Seq<char>) -> Seq<u32> {
        ids_of(self.metas(), type_key(sig), self.metas().len())
    }

    /// The records of a type.
    pub open spec fn by_type(&self, sig: Seq<char>) -> Seq<(FormId, RecordMeta)> {
        typed(self.metas(), type_key(sig), self.metas().len())
    }

    /// The FormID of the record with EditorID `edid`.
    pub open spec fn edid_id(&self, edid: Seq<char>) -> Option<u32> {
        match self.edid {
            Some(s) => last_edid(edid_views(s.entries@), edid, s.entries@.len()),
            None => None,
        }
    }

    /// What refers to `id`.
    pub open spec fn referrers_of(&self, id: u32) -> Seq<u32> {
        match self.xref {
            Some(x) => referrers(ref_views(x.refs@), id),
            None => Seq::empty(),
        }
    }

    /// The index without any section.
    pub fn empty(path: String) -> (r: Index)
        ensures
            r.path == path,
            r.forms is None,
            r.edid is None,
            r.search is None,
            r.xref is None,
            r.wf(),
    {
        Index { path, forms: None, edid: None, search: None, xref: None }
    }

    /// The index of the records of a file, which are given in its order: the
    /// last record with a FormID counts. The other sections are left to be
    /// built.
    pub fn build(path: String, list: &Vec<(FormId, RecordMeta)>) -> (r: Index)
        ensures
            r.path == path,
            r.wf(),
            r.forms is Some,
            r.edid is None,
            r.search is None,
            r.xref is None,
            forall|id: u32| #[trigger]
                meta_of(r.metas(), id) == map_meta(latest(list@, list@.len()), id),
    {
        Index { path, forms: Some(build_forms(list)), edid: None, search: None, xref: None }
    }

    /// The record with FormID `form_id`.
    pub fn get_by_formid(&self, form_id: FormId) -> (r: Option<RecordMeta>)
        requires
            self.wf(),
        ensures
            r == meta_of(self.metas(), form_id.0),
    {
        match &self.forms {
            Some(f) => f.get(form_id),
            None => None,
        }
    }

    /// The type of the record with FormID `form_id`.
    pub fn signature_of(&self, form_id: FormId) -> (r: Option<Signature>)
        requires
            self.wf(),
        ensures
            r == match meta_of(self.metas(), form_id.0) {
                Some(m) => Some(m.signature),
                None => None,
            },
    {
        match self.get_by_formid(form_id) {
            Some(m) => Some(m.signature),
            None => None,
        }
    }

    /// Whether there is a record with FormID `form_id`.
    pub fn contains(&self, form_id: FormId) -> (b: bool)
        requires
            self.wf(),
        ensures
            b == (meta_of(self.metas(), form_id.0) is Some),
    {
        self.get_by_formid(form_id).is_some()
    }

    /// The number of records.
    pub fn len(&self) -> (n: usize)
        ensures
            n == self.metas().len(),
    {
        match &self.forms {
            Some(f) => f.records.len(),
            None => 0,
        }
    }

    /// Whether there is no record.
    pub fn is_empty(&self) -> (b: bool)
        ensures
            b == (self.metas().len() == 0),
    {
        self.len() == 0
    }

    /// The records with their FormIDs, in increasing order.
    pub fn iter_all(&self) -> (r: Vec<(FormId, RecordMeta)>)
        ensures
            r@ == self.metas().map_values(|e: (u32, RecordMeta)| (FormId(e.0), e.1)),
    {
        let mut r: Vec<(FormId, RecordMeta)> = Vec::new();
        if let Some(f) = &self.forms {
            let mut i: usize = 0;
            while i < f.records.len()
                invariant
                    i <= f.records.len(),
                    r.len() == i,
                    forall|j: int|
                        0 <= j < i ==> #[trigger] r@[j] == (FormId(f.records@[j].0), f.records@[j].1),
                decreases f.records.len() - i,
            {
                r.push((FormId(f.records[i].0), f.records[i].1));
                i += 1;
            }
        }
        assert(r@ =~= self.metas().map_values(|e: (u32, RecordMeta)| (FormId(e.0), e.1)));
        r
    }

    /// The FormIDs of all records, in increasing order.
    pub fn iter_form_ids(&self) -> (r: Vec<FormId>)
        ensures
            raw_ids(r@) == self.metas().map_values(|e: (u32, RecordMeta)| e.0),
    {
        let mut r: Vec<FormId> = Vec::new();
        if let Some(f) = &self.forms {
            let mut i: usize = 0;
            while i < f.records.len()
                invariant
                    i <= f.records.len(),
                    r.len() == i,
                    forall|j: int| 0 <= j < i ==> (#[trigger] r@[j]).0 == f.records@[j].0,
                decreases f.records.len() - i,
            {
                r.push(FormId(f.records[i].0));
                i += 1;
            }
        }
        assert(raw_ids(r@) =~= self.metas().map_values(|e: (u32, RecordMeta)| e.0));
        r
    }

    /// The FormID of the record with EditorID `edid`; of several the last.
    pub fn get_by_edid(&self, edid: &str) -> (r: Option<FormId>)
        ensures
            r == match self.edid_id(edid@) {
                Some(id) => Some(FormId(id)),
                None => None,
            },
    {
        let s: &EdidSection = match &self.edid {
            Some(s) => s,
            None => {
                return None;
            },
        };
        let ghost ev = edid_views(s.entries@);
        let mut i: usize = s.entries.len();
        while i > 0
            invariant
                i <= s.entries.len(),
                ev == edid_views(s.entries@),
                self.edid == Some(*s),
                self.edid_id(edid@) == last_edid(ev, edid@, i as nat),
            decreases i,
        {
            i -= 1;
            assert(ev[i as int] == (s.entries@[i as int].0@, s.entries@[i as int].1));
            if str_eq(&s.entries[i].0, edid) {
                return Some(FormId(s.entries[i].1));
            }
        }
        None
    }

    /// The record types, each once.
    pub fn signatures(&self) -> (r: Vec<Signature>)
        requires
            self.wf(),
        ensures
            forall|i: int, j: int|
                0 <= i < j < r.len() ==> (#[trigger] r@[i]).0@ != (#[trigger] r@[j]).0@,
            forall|sig: Seq<u8>|
                (ids_of(self.metas(), sig, self.metas().len()).len() > 0) == (exists|i: int|
                    0 <= i < r.len() && (#[trigger] r@[i]).0@ == sig),
    {
        let mut r: Vec<Signature> = Vec::new();
        if let Some(f) = &self.forms {
            let mut i: usize = 0;
            while i < f.types.len()
                invariant
                    i <= f.types.len(),
                    r.len() == i,
                    forall|j: int| 0 <= j < i ==> #[trigger] r@[j] == f.types@[j].0,
                decreases f.types.len() - i,
            {
                r.push(f.types[i].0);
                i += 1;
            }
            assert forall|sig: Seq<u8>|
                (ids_of(self.metas(), sig, self.metas().len()).len() > 0) == (exists|i: int|
                    0 <= i < r.len() && (#[trigger] r@[i]).0@ == sig) by {
                lemma_type_index(f.types@, sig, 0);
                let k = type_index(f.types@, sig, 0);
                assert(type_ids(f.types@, sig) == ids_of(
                    f.records@,
                    sig,
                    f.records@.len(),
                ));
                if k < f.types@.len() {
                    assert(r@[k].0@ == sig);
                    assert(f.types@[k].1@.len() > 0);
                } else if exists|i: int| 0 <= i < r.len() && (#[trigger] r@[i]).0@ == sig {
                    let i = choose|i: int| 0 <= i < r.len() && (#[trigger] r@[i]).0@ == sig;
                    assert(f.types@[i].0.0@ == sig);
                }
            }
        }
        r
    }

    /// The directory's list for a type.
    fn type_list(&self, sig: &str) -> (r: Option<&Vec<u32>>)
        requires
            self.wf(),
        ensures
            self.ids_by_type(sig@) == match r {
                Some(v) => v@,
                None => Seq::empty(),
            },
    {
        match &self.forms {
            Some(f) => {
                let key = Signature::from_slice(sig.as_bytes());
                let i: usize = find_type(&f.types, &key);
                assert(type_ids(f.types@, key.0@) == ids_of(
                    f.records@,
                    key.0@,
                    f.records@.len(),
                ));
                if i < f.types.len() {
                    Some(&f.types[i].1)
                } else {
                    None
                }
            },
            None => None,
        }
    }

    /// The number of records of a type.
    pub fn count_by_type(&self, sig: &str) -> (n: usize)
        requires
            self.wf(),
        ensures
            n == self.ids_by_type(sig@).len(),
    {
        match self.type_list(sig) {
            Some(v) => v.len(),
            None => 0,
        }
    }

    /// The FormIDs of the records of a type, in increasing order.
    pub fn form_ids_by_type(&self, sig: &str) -> (r: Vec<FormId>)
        requires
            self.wf(),
        ensures
            raw_ids(r@) == self.ids_by_type(sig@),
    {
        let mut r: Vec<FormId> = Vec::new();
        if let Some(v) = self.type_list(sig) {
            let mut i: usize = 0;
            while i < v.len()
                invariant
                    i <= v.len(),
                    r.len() == i,
                    forall|j: int| 0 <= j < i ==> (#[trigger] r@[j]).0 == v@[j],
                decreases v.len() - i,
            {
                r.push(FormId(v[i]));
                i += 1;
            }
        }
        assert(raw_ids(r@) =~= self.ids_by_type(sig@));
        r
    }

    /// The records of a type, in the order of their FormIDs.
    pub fn records_by_type(&self, sig: &str) -> (r: Vec<(FormId, RecordMeta)>)
        requires
            self.wf(),
        ensures
            r@ == self.by_type(sig@),
    {
        let mut r: Vec<(FormId, RecordMeta)> = Vec::new();
        proof {
            if self.forms is Some {
                lemma_typed(self.metas(), type_key(sig@), self.metas().len());
            }
        }
        if let Some(v) = self.type_list(sig) {
            let mut i: usize = 0;
            while i < v.len()
                invariant
                    i <= v.len(),
                    self.wf(),
                    self.by_type(sig@).len() == v@.len(),
                    v@ == self.ids_by_type(sig@),
                    forall|j: int|
                        0 <= j < v@.len() ==> (#[trigger] self.by_type(sig@)[j]).0.0 == v@[j]
                            && meta_of(self.metas(), v@[j]) == Some(self.by_type(sig@)[j].1),
                    r@ =~= self.by_type(sig@).take(i as int),
                decreases v.len() - i,
            {
                let id = FormId(v[i]);
                assert(self.by_type(sig@)[i as int].0.0 == v@[i as int]);
                if let Some(meta) = self.get_by_formid(id) {
                    r.push((id, meta));
                }
                i += 1;
            }
        }
        assert(r@ =~= self.by_type(sig@));
        r
    }

    /// What refers to `form_id`.
    pub fn get_xref(&self, form_id: FormId) -> (r: Vec<FormId>)
        ensures
            raw_ids(r@) == self.referrers_of(form_id.0),
    {
        let mut r: Vec<FormId> = Vec::new();
        if let Some(x) = &self.xref {
            if let Some(v) = x.refs.get(&form_id.0) {
                let mut i: usize = 0;
                while i < v.len()
                    invariant
                        i <= v.len(),
                        r.len() == i,
                        forall|j: int| 0 <= j < i ==> (#[trigger] r@[j]).0 == v@[j],
                    decreases v.len() - i,
                {
                    r.push(FormId(v[i]));
                    i += 1;
                }
            }
        }
        assert(raw_ids(r@) =~= self.referrers_of(form_id.0));
        r
    }

    /// The search entries of this index.
    pub open spec fn search_list(&self) -> Seq<(u32, SearchView)> {
        match self.search {
            Some(s) => search_views(s.entries@),
            None => Seq::empty(),
        }
    }

    /// The search entries, borrowed.
    pub fn iter_search(&self) -> (r: Vec<(FormId, SearchRef<'_>)>)
        ensures
            r@.map_values(|e: (FormId, SearchRef<'_>)| (e.0.0, e.1@)) == self.search_list(),
    {
        let mut r: Vec<(FormId, SearchRef<'_>)> = Vec::new();
        if let Some(s) = &self.search {
            let mut i: usize = 0;
            while i < s.entries.len()
                invariant
                    i <= s.entries.len(),
                    r.len() == i,
                    forall|j: int|
                        0 <= j < i ==> (#[trigger] r@[j]).0.0 == s.entries@[j].0 && r@[j].1@
                            == s.entries@[j].1@,
                decreases s.entries.len() - i,
            {
                let m = &s.entries[i].1;
                r.push(
                    (
                        FormId(s.entries[i].0),
                        SearchRef {
                            editor_id: slice_of(&m.editor_id),
                            full_id: m.full_id,
                            desc_id: m.desc_id,
                            full_text: slice_of(&m.full_text),
                            desc_text: slice_of(&m.desc_text),
                        },
                    ),
                );
                i += 1;
            }
        }
        assert(r@.map_values(|e: (FormId, SearchRef<'_>)| (e.0.0, e.1@)) =~= self.search_list());
        r
    }
}

// ── Caches ─────────────────────────────────────────────────────────────────
/// The sections of an index.
#[derive(Debug, Clone, Copy, PartialEq, Eq, Structural)]
pub enum BuildStage {
    Tree,
    Forms,
    Edid,
    Search,
    Xref,
}

/// Which sections of an index are there, and which are not.
#[derive(Debug, Clone)]
pub struct CacheInventory {
    pub present: Vec<BuildStage>,
    pub missing: Vec<BuildStage>,
}

/// The sections among `list` whose flag is `want`, in order.
pub open spec fn stages_with(list: Seq<(BuildStage, bool)>, want: bool, n: nat) -> Seq<BuildStage>
    decreases n,
{
    if n == 0 || n > list.len() {
        Seq::empty()
    } else if list[n - 1].1 == want {
        stages_with(list, want, (n - 1) as nat).push(list[n - 1].0)
    } else {
        stages_with(list, want, (n - 1) as nat)
    }
}

impl CacheInventory {
    /// Whether no section is there.
    pub fn is_empty(&self) -> (b: bool)
        ensures
            b == (self.present@.len() == 0),
    {
        self.present.len() == 0
    }

    /// Whether every section is there.
    pub fn is_complete(&self) -> (b: bool)
        ensures
            b == (self.missing@.len() == 0),
    {
        self.missing.len() == 0
    }
}

/// Sorts the sections by whether they are there.
pub fn cache_inventory(forms: bool, tree: bool, edid: bool, search: bool, xref: bool) -> (r:
    CacheInventory)
    ensures
        ({
            let list = seq![
                (BuildStage::Forms, forms),
                (BuildStage::Tree, tree),
                (BuildStage::Edid, edid),
                (BuildStage::Search, search),
                (BuildStage::Xref, xref),
            ];
            r.present@ == stages_with(list, true, 5) && r.missing@ == stages_with(list, false, 5)
        }),
{
    let ghost list = seq![
        (BuildStage::Forms, forms),
        (BuildStage::Tree, tree),
        (BuildStage::Edid, edid),
        (BuildStage::Search, search),
        (BuildStage::Xref, xref),
    ];
    let mut r = CacheInventory { present: Vec::new(), missing: Vec::new() };
    bucket(&mut r, BuildStage::Forms, forms, Ghost(list), Ghost(0));
    bucket(&mut r, BuildStage::Tree, tree, Ghost(list), Ghost(1));
    bucket(&mut r, BuildStage::Edid, edid, Ghost(list), Ghost(2));
    bucket(&mut r, BuildStage::Search, search, Ghost(list), Ghost(3));
    bucket(&mut r, BuildStage::Xref, xref, Ghost(list), Ghost(4));
    r
}

/// Puts a section where it belongs.
fn bucket(
    r: &mut CacheInventory,
    stage: BuildStage,
    mapped: bool,
    Ghost(list): Ghost<Seq<(BuildStage, bool)>>,
    Ghost(n): Ghost<nat>,
)
    requires
        n < list.len(),
        list[n as int] == (stage, mapped),
        old(r).present@ == stages_with(list, true, n),
        old(r).missing@ == stages_with(list, false, n),
    ensures
        final(r).present@ == stages_with(list, true, n + 1),
        final(r).missing@ == stages_with(list, false, n + 1),
{
    if mapped {
        r.present.push(stage);
    } else {
        r.missing.push(stage);
    }
}

/// The id of the display name of a record.
pub fn full_name_for_record(esm: &EsmFile, meta: &RecordMeta) -> (r: Result<Option<u32>, Error>)
    ensures
        match r {
            Ok(id) => esm.at(meta.offset) is Some && id == lstring_id_of(
                subs(esm.at(meta.offset)->0.subrecords@),
                "FULL"@,
            ),
            Err(e) => esm.at(meta.offset) is None && e == Error::Unreadable(meta.offset),
        },
{
    match esm.parse_record_at(meta.offset) {
        Ok(rec) => Ok(lstring_id_from_subrecords(&rec.subrecords, "FULL")),
        Err(e) => Err(e),
    }
}

// ── Laws ───────────────────────────────────────────────────────────────────
/// The records of a type are those records that have the type: each has it,
/// and each record is among those of its own type.
pub proof fn law_by_type_is_exact(t: Metas, sig: Seq<u8>, n: nat)
    requires
        n <= t.len(),
    ensures
        forall|i: int|
            0 <= i < typed(t, sig, n).len() ==> (#[trigger] typed(t, sig, n)[i]).1.signature.0@
                == sig,
        forall|j: int|
            0 <= j < n && (#[trigger] t[j]).1.signature.0@ == sig ==> typed(t, sig, n).contains(
                (FormId(t[j].0), t[j].1),
            ),
    decreases n,
{
    if n > 0 {
        law_by_type_is_exact(t, sig, (n - 1) as nat);
        let before = typed(t, sig, (n - 1) as nat);
        let after = typed(t, sig, n);
        assert forall|j: int| 0 <= j < n && (#[trigger] t[j]).1.signature.0@ == sig implies after.contains(
            (FormId(t[j].0), t[j].1),
        ) by {
            let e = (FormId(t[j].0), t[j].1);
            if j < n - 1 {
                assert(before.contains(e));
                let k = choose|k: int| 0 <= k < before.len() && before[k] == e;
                assert(after[k] == e);
            } else {
                assert(after[after.len() - 1] == e);
            }
        }
    }
}

/// The records of a type come in the order of their FormIDs.
pub proof fn law_by_type_increases(t: Metas, sig: Seq<u8>, n: nat)
    requires
        increasing(t),
        n <= t.len(),
    ensures
        forall|i: int, j: int|
            0 <= i < j < typed(t, sig, n).len() ==> (#[trigger] typed(t, sig, n)[i]).0.0 < (
            #[trigger] typed(t, sig, n)[j]).0.0,
        forall|i: int|
            0 <= i < typed(t, sig, n).len() ==> exists|k: int|
                0 <= k < n && (#[trigger] t[k]).0 == (#[trigger] typed(t, sig, n)[i]).0.0,
    decreases n,
{
    if n > 0 {
        law_by_type_increases(t, sig, (n - 1) as nat);
        let before = typed(t, sig, (n - 1) as nat);
        let after = typed(t, sig, n);
        assert forall|i: int| 0 <= i < after.len() implies exists|k: int|
            0 <= k < n && (#[trigger] t[k]).0 == (#[trigger] after[i]).0.0 by {
            if i < before.len() {
                assert(after[i] == before[i]);
                let k = choose|k: int| 0 <= k < n - 1 && (#[trigger] t[k]).0 == before[i].0.0;
                assert(t[k].0 == after[i].0.0);
            } else {
                assert(t[n - 1].0 == after[i].0.0);
            }
        }
        assert forall|i: int, j: int| 0 <= i < j < after.len() implies (#[trigger] after[i]).0.0 < (
        #[trigger] after[j]).0.0 by {
            assert(after[i] == before[i]);
            if j < before.len() {
                assert(after[j] == before[j]);
            } else {
                let k = choose|k: int| 0 <= k < n - 1 && (#[trigger] t[k]).0 == before[i].0.0;
                assert(t[k].0 < t[n - 1].0);
            }
        }
    }
}

/// A record refers to a target once, however often it names it.
pub proof fn law_targets_distinct(
    t: Metas,
    table: Seq<(u32, Form)>,
    own: u32,
    list: Seq<u32>,
    n: nat,
)
    ensures
        targets(t, table, own, list, n).no_duplicates(),
        !targets(t, table, own, list, n).contains(own),
        forall|id: u32| #[trigger]
            targets(t, table, own, list, n).contains(id) ==> known(t, table, id),
    decreases n,
{
    if n > 0 && n <= list.len() {
        law_targets_distinct(t, table, own, list, (n - 1) as nat);
        let before = targets(t, table, own, list, (n - 1) as nat);
        let after = targets(t, table, own, list, n);
        let id = list[n - 1];
        if id != own && known(t, table, id) && !before.contains(id) {
            assert forall|x: u32| #[trigger] after.contains(x) implies known(t, table, x) && x
                != own by {
                let k = choose|k: int| 0 <= k < after.len() && after[k] == x;
                if k < before.len() {
                    assert(before[k] == x);
                    assert(before.contains(x));
                }
            }
        }
    }
}

/// Whether the record at `offset` is `src` and refers to `id`.
pub open spec fn refers(
    t: Metas,
    table: Seq<(u32, Form)>,
    recs: Map<u64, StoredRecord>,
    d: Decoding<'_>,
    offset: u64,
    src: u32,
    id: u32,
) -> bool {
    match record_at(recs, offset) {
        Some(r) => {
            let list = harvested(d.fields(r), Seq::empty());
            r.header.form_id.0 == src && meta_of(t, src) is Some && targets(
                t,
                table,
                src,
                list,
                list.len(),
            ).contains(id)
        },
        None => false,
    }
}

proof fn lemma_with_referrer(m: Map<u32, Seq<u32>>, own: u32, list: Seq<u32>, n: nat, id: u32)
    requires
        list.no_duplicates(),
        n <= list.len(),
    ensures
        referrers(with_referrer(m, own, list, n), id) == if list.take(n as int).contains(id) {
            referrers(m, id).push(own)
        } else {
            referrers(m, id)
        },
    decreases n,
{
    if n == 0 {
        assert(list.take(0).len() == 0);
    } else {
        lemma_with_referrer(m, own, list, (n - 1) as nat, id);
        let was = list.take(n - 1);
        let now = list.take(n as int);
        assert(now =~= was.push(list[n - 1]));
        if was.contains(id) {
            let i = choose|i: int| 0 <= i < was.len() && was[i] == id;
            assert(now[i] == id);
            assert(list[i] != list[n - 1]);
        }
        if id == list[n - 1] {
            assert(now[n - 1] == id);
        }
        if now.contains(id) && id != list[n - 1] {
            let i = choose|i: int| 0 <= i < now.len() && now[i] == id;
            assert(was[i] == id);
        }
    }
}

/// A record is listed among those that refer to another exactly where one of
/// the file's records is it and names the other.
pub proof fn law_referrers_are_exact(
    t: Metas,
    table: Seq<(u32, Form)>,
    order: Seq<u64>,
    recs: Map<u64, StoredRecord>,
    d: Decoding<'_>,
    n: nat,
    src: u32,
    id: u32,
)
    requires
        n <= order.len(),
    ensures
        referrers(references(t, table, order, recs, d, n), id).contains(src) <==> (exists|k: int|
            0 <= k < n && refers(t, table, recs, d, #[trigger] order[k], src, id)),
    decreases n,
{
    if n == 0 {
        assert(referrers(references(t, table, order, recs, d, 0), id).len() == 0);
    } else {
        law_referrers_are_exact(t, table, order, recs, d, (n - 1) as nat, src, id);
        let m = references(t, table, order, recs, d, (n - 1) as nat);
        let before = referrers(m, id);
        let after = referrers(references(t, table, order, recs, d, n), id);
        let hit = refers(t, table, recs, d, order[n - 1], src, id);
        if let Some(r) = record_at(recs, order[n - 1]) {
            let own = r.header.form_id.0;
            if meta_of(t, own) is Some {
                let list = harvested(d.fields(r), Seq::empty());
                let hits = targets(t, table, own, list, list.len());
                law_targets_distinct(t, table, own, list, list.len());
                lemma_with_referrer(m, own, hits, hits.len(), id);
                assert(hits.take(hits.len() as int) =~= hits);
            }
        }
        // What has been listed stays, and only the last record can be new.
        if before.contains(src) {
            let i = choose|i: int| 0 <= i < before.len() && before[i] == src;
            assert(after[i] == src);
        }
        if hit {
            assert(after[after.len() - 1] == src);
        }
        if after.contains(src) && !before.contains(src) {
            let i = choose|i: int| 0 <= i < after.len() && after[i] == src;
            if i < before.len() {
                assert(before[i] == src);
            }
            assert(hit);
        }
        if exists|k: int| 0 <= k < n && refers(t, table, recs, d, #[trigger] order[k], src, id) {
            let k = choose|k: int|
                0 <= k < n && refers(t, table, recs, d, #[trigger] order[k], src, id);
            if k < n - 1 {
                assert(before.contains(src));
            }
        }
        if before.contains(src) {
            let k = choose|k: int|
                0 <= k < n - 1 && refers(t, table, recs, d, #[trigger] order[k], src, id);
            assert(0 <= k < n && refers(t, table, recs, d, order[k], src, id));
        }
    }
}

} // verus!
