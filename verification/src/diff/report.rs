//! What a comparison reports.
use crate::decode::context::ResolveDepth;
use crate::json::{Json, Value};
use crate::schema::{copy_opt, opt_text};
use crate::text::{str_eq, str_lt, text_lt};
use vstd::prelude::*;

verus! {

/// How much of an added or removed record is reported.
#[derive(Debug, Clone, Copy, PartialEq, Eq, Structural)]
pub enum BodyDetail {
    /// Only what the record is.
    Omit,
    /// Its fields, with references as stubs.
    Stub,
    /// Its fields, with references expanded.
    Full,
}

impl BodyDetail {
    /// How deeply references are followed when the fields are decoded;
    /// nothing where they are not.
    pub fn resolve_depth(self) -> (r: Option<ResolveDepth>)
        ensures
            r == match self {
                BodyDetail::Omit => None,
                BodyDetail::Stub => Some(ResolveDepth::Stub),
                BodyDetail::Full => Some(ResolveDepth::Full),
            },
    {
        match self {
            BodyDetail::Omit => None,
            BodyDetail::Stub => Some(ResolveDepth::Stub),
            BodyDetail::Full => Some(ResolveDepth::Full),
        }
    }
}

/// What a comparison reports and what it leaves out.
#[derive(Debug)]
pub struct DiffOptions {
    pub bodies: BodyDetail,
    /// Whether noise is left out.
    pub suppress_noise: bool,
    /// Record types that are left out.
    pub exclude_types: Vec<String>,
    /// How often a value has to appear to count as a default.
    pub restamp_default_min_count: usize,
}

impl Default for DiffOptions {
    /// Full bodies, without noise, of every type.
    fn default() -> (r: DiffOptions)
        ensures
            r.bodies == BodyDetail::Full,
            r.suppress_noise,
            r.exclude_types@.len() == 0,
            r.restamp_default_min_count == 100,
    {
        DiffOptions {
            bodies: BodyDetail::Full,
            suppress_noise: true,
            exclude_types: Vec::new(),
            restamp_default_min_count: 100,
        }
    }
}

/// A record in a report.
#[derive(Debug)]
pub struct RecordStub {
    pub form_id: String,
    pub editor_id: Option<String>,
    pub record_type: String,
    pub offset: u64,
    /// The display name.
    pub name: Option<String>,
    pub description: Option<String>,
    /// The decoded fields of an added or removed record.
    pub fields: Option<Value>,
}

/// A record in a report as mathematics.
pub struct StubView {
    pub form_id: Seq<char>,
    pub editor_id: Option<Seq<char>>,
    pub record_type: Seq<char>,
    pub offset: u64,
    pub name: Option<Seq<char>>,
    pub description: Option<Seq<char>>,
    pub fields: Option<Json>,
}

impl View for RecordStub {
    type V = StubView;

    open spec fn view(&self) -> StubView {
        StubView {
            form_id: self.form_id@,
            editor_id: opt_text(self.editor_id),
            record_type: self.record_type@,
            offset: self.offset,
            name: opt_text(self.name),
            description: opt_text(self.description),
            fields: match self.fields {
                Some(v) => Some(v@),
                None => None,
            },
        }
    }
}

impl RecordStub {
    /// A copy of this record.
    pub fn copy(&self) -> (r: RecordStub)
        ensures
            r@ == self@,
    {
        RecordStub {
            form_id: self.form_id.clone(),
            editor_id: copy_opt(&self.editor_id),
            record_type: self.record_type.clone(),
            offset: self.offset,
            name: copy_opt(&self.name),
            description: copy_opt(&self.description),
            fields: match &self.fields {
                Some(v) => Some(v.copy()),
                None => None,
            },
        }
    }
}

/// A record that changed.
#[derive(Debug)]
pub struct RecordDiff {
    pub stub: RecordStub,
    /// What changed and nothing else.
    pub field_changes: Value,
    /// The old EditorID, where it changed.
    pub prev_editor_id: Option<String>,
}

/// A record that changed, as mathematics.
pub struct DiffView {
    pub stub: StubView,
    pub changes: Json,
    pub prev: Option<Seq<char>>,
}

impl View for RecordDiff {
    type V = DiffView;

    open spec fn view(&self) -> DiffView {
        DiffView {
            stub: self.stub@,
            changes: self.field_changes@,
            prev: opt_text(self.prev_editor_id),
        }
    }
}

/// What a reference in a report leads to.
#[derive(Debug)]
pub struct RefName {
    pub record_type: String,
    pub editor_id: Option<String>,
    pub name: Option<String>,
    pub description: Option<String>,
}

/// What a reference leads to, as mathematics.
pub struct NameView {
    pub record_type: Seq<char>,
    pub editor_id: Option<Seq<char>>,
    pub name: Option<Seq<char>>,
    pub description: Option<Seq<char>>,
}

impl View for RefName {
    type V = NameView;

    open spec fn view(&self) -> NameView {
        NameView {
            record_type: self.record_type@,
            editor_id: opt_text(self.editor_id),
            name: opt_text(self.name),
            description: opt_text(self.description),
        }
    }
}

/// A value that was left out as a default, and how often it appeared.
#[derive(Debug)]
pub struct SuppressedDefault {
    pub leaf_name: String,
    pub value: Value,
    pub count: usize,
}

/// A value that was left out as a default, as mathematics.
pub struct DefaultView {
    pub name: Seq<char>,
    pub value: Json,
    pub count: int,
}

impl View for SuppressedDefault {
    type V = DefaultView;

    open spec fn view(&self) -> DefaultView {
        DefaultView { name: self.leaf_name@, value: self.value@, count: self.count as int }
    }
}

/// Numbers by name, in the order of the names.
pub type Counts = Seq<(Seq<char>, int)>;

/// Numbers by name in memory, as mathematics.
pub open spec fn counts_view(m: Seq<(String, u64)>) -> Counts {
    m.map_values(|e: (String, u64)| (e.0@, e.1 as int))
}

/// The position of name `k` from `i` on, or where it belongs.
pub open spec fn count_slot(m: Counts, k: Seq<char>, i: nat) -> int
    decreases m.len() - i,
{
    if i >= m.len() || m[i as int].0 == k || text_lt(k, m[i as int].0) {
        i as int
    } else {
        count_slot(m, k, i + 1)
    }
}

/// The numbers with `n` more for `k`; a number stops at the largest.
pub open spec fn count_more(m: Counts, k: Seq<char>, n: int) -> Counts {
    let i = count_slot(m, k, 0);
    if i < m.len() && m[i].0 == k {
        m.update(
            i,
            (
                k,
                if m[i].1 + n > u64::MAX {
                    u64::MAX as int
                } else {
                    m[i].1 + n
                },
            ),
        )
    } else {
        m.insert(i, (k, n))
    }
}

/// Counts `n` more for `k`.
pub fn add_count(m: &mut Vec<(String, u64)>, k: &str, n: u64)
    ensures
        counts_view(final(m)@) == count_more(counts_view(old(m)@), k@, n as int),
{
    let ghost mv = counts_view(m@);
    let mut i: usize = 0;
    while i < m.len() && !str_eq(&m[i].0, k) && !str_lt(k, &m[i].0)
        invariant
            i <= m.len(),
            m@ == old(m)@,
            mv == counts_view(m@),
            count_slot(mv, k@, 0) == count_slot(mv, k@, i as nat),
        decreases m.len() - i,
    {
        assert(mv[i as int].0 == m@[i as int].0@);
        i += 1;
    }
    assert(i < m.len() ==> mv[i as int] == (m@[i as int].0@, m@[i as int].1 as int));
    if i < m.len() && str_eq(&m[i].0, k) {
        let old_n: u64 = m[i].1;
        let sum: u64 = if old_n > u64::MAX - n {
            u64::MAX
        } else {
            old_n + n
        };
        m[i] = (k.to_owned(), sum);
        assert(counts_view(m@) =~= mv.update(i as int, (k@, sum as int)));
    } else {
        m.insert(i, (k.to_owned(), n));
        assert(counts_view(m@) =~= mv.insert(i as int, (k@, n as int)));
    }
}

/// The difference of two plugins.
#[derive(Debug)]
pub struct DiffResult {
    /// Records that only the new plugin has.
    pub added: Vec<RecordStub>,
    /// Records that only the old plugin has.
    pub removed: Vec<RecordStub>,
    pub changed: Vec<RecordDiff>,
    /// What the references in the report lead to, by FormID.
    pub ref_names: Vec<(String, RefName)>,
    /// How many records of each type were left out as noise.
    pub suppressed_counts: Vec<(String, u64)>,
    pub auto_suppressed_defaults: Vec<SuppressedDefault>,
}

/// The records of type `sig` among the first `n`.
pub open spec fn stubs_of_type(list: Seq<StubView>, sig: Seq<char>, n: nat) -> Seq<StubView>
    decreases n,
{
    if n == 0 || n > list.len() {
        Seq::empty()
    } else if list[n - 1].record_type == sig {
        stubs_of_type(list, sig, (n - 1) as nat).push(list[n - 1])
    } else {
        stubs_of_type(list, sig, (n - 1) as nat)
    }
}

/// The changed records of type `sig` among the first `n`.
pub open spec fn diffs_of_type(list: Seq<DiffView>, sig: Seq<char>, n: nat) -> Seq<DiffView>
    decreases n,
{
    if n == 0 || n > list.len() {
        Seq::empty()
    } else if list[n - 1].stub.record_type == sig {
        diffs_of_type(list, sig, (n - 1) as nat).push(list[n - 1])
    } else {
        diffs_of_type(list, sig, (n - 1) as nat)
    }
}

/// Records as mathematics.
pub open spec fn stub_views(list: Seq<RecordStub>) -> Seq<StubView> {
    list.map_values(|s: RecordStub| s@)
}

/// Changed records as mathematics.
pub open spec fn diff_views(list: Seq<RecordDiff>) -> Seq<DiffView> {
    list.map_values(|d: RecordDiff| d@)
}

impl RecordDiff {
    /// A copy of this changed record.
    pub fn copy(&self) -> (r: RecordDiff)
        ensures
            r@ == self@,
    {
        RecordDiff {
            stub: self.stub.copy(),
            field_changes: self.field_changes.copy(),
            prev_editor_id: copy_opt(&self.prev_editor_id),
        }
    }
}

/// Keeps the records of type `sig`.
fn keep_stubs(list: &Vec<RecordStub>, sig: &str) -> (r: Vec<RecordStub>)
    ensures
        stub_views(r@) == stubs_of_type(stub_views(list@), sig@, list.len() as nat),
{
    let ghost lv = stub_views(list@);
    let mut r: Vec<RecordStub> = Vec::new();
    assert(stub_views(r@) =~= Seq::<StubView>::empty());
    let mut i: usize = 0;
    while i < list.len()
        invariant
            i <= list.len(),
            lv == stub_views(list@),
            stub_views(r@) =~= stubs_of_type(lv, sig@, i as nat),
        decreases list.len() - i,
    {
        assert(lv[i as int] == list@[i as int]@);
        if str_eq(&list[i].record_type, sig) {
            let ghost prior = stub_views(r@);
            r.push(list[i].copy());
            assert(stub_views(r@) =~= prior.push(lv[i as int]));
        }
        i += 1;
    }
    r
}

/// Keeps the changed records of type `sig`.
fn keep_diffs(list: &Vec<RecordDiff>, sig: &str) -> (r: Vec<RecordDiff>)
    ensures
        diff_views(r@) == diffs_of_type(diff_views(list@), sig@, list.len() as nat),
{
    let ghost lv = diff_views(list@);
    let mut r: Vec<RecordDiff> = Vec::new();
    assert(diff_views(r@) =~= Seq::<DiffView>::empty());
    let mut i: usize = 0;
    while i < list.len()
        invariant
            i <= list.len(),
            lv == diff_views(list@),
            diff_views(r@) =~= diffs_of_type(lv, sig@, i as nat),
        decreases list.len() - i,
    {
        assert(lv[i as int] == list@[i as int]@);
        if str_eq(&list[i].stub.record_type, sig) {
            let ghost prior = diff_views(r@);
            r.push(list[i].copy());
            assert(diff_views(r@) =~= prior.push(lv[i as int]));
        }
        i += 1;
    }
    r
}

/// Restricts a report to one record type, in whatever case it is written.
/// The names of references stay.
pub fn apply_type_filter(result: &mut DiffResult, record_type: &Option<String>)
    ensures
        match *record_type {
            Some(t) => {
                let sig = crate::text::uppercase(t@);
                &&& stub_views(final(result).added@) == stubs_of_type(
                    stub_views(old(result).added@),
                    sig,
                    old(result).added.len() as nat,
                )
                &&& stub_views(final(result).removed@) == stubs_of_type(
                    stub_views(old(result).removed@),
                    sig,
                    old(result).removed.len() as nat,
                )
                &&& diff_views(final(result).changed@) == diffs_of_type(
                    diff_views(old(result).changed@),
                    sig,
                    old(result).changed.len() as nat,
                )
                &&& final(result).ref_names == old(result).ref_names
                &&& final(result).suppressed_counts == old(result).suppressed_counts
                &&& final(result).auto_suppressed_defaults == old(
                    result,
                ).auto_suppressed_defaults
            },
            None => *final(result) == *old(result),
        },
{
    if let Some(t) = record_type {
        let sig = crate::text::to_upper(t);
        result.added = keep_stubs(&result.added, &sig);
        result.removed = keep_stubs(&result.removed, &sig);
        result.changed = keep_diffs(&result.changed, &sig);
    }
}

} // verus!
