//! Forms that the game itself defines and no plugin holds.
use crate::formid::{hex_prefixed, FormId};
use crate::schema::opt_text;
use crate::text::{chars_of, parse_chars, parse_uint, str_eq};
use vstd::prelude::*;

verus! {

/// A form that the game itself defines.
#[derive(Debug)]
pub struct HardcodedForm {
    pub record_type: String,
    pub editor_id: Option<String>,
}

/// An entry of the list that the table is built from.
#[derive(Debug)]
pub struct RawEntry {
    /// `0x` and hexadecimal digits.
    pub formid: String,
    pub record_type: String,
    pub editor_id: Option<String>,
}

/// The forms by FormID, in increasing order.
#[derive(Debug)]
pub struct HardcodedTable {
    pub entries: Vec<(u32, HardcodedForm)>,
}

/// A form as mathematics.
pub struct Form {
    pub record_type: Seq<char>,
    pub editor_id: Option<Seq<char>>,
}

impl View for HardcodedForm {
    type V = Form;

    open spec fn view(&self) -> Form {
        Form { record_type: self.record_type@, editor_id: opt_text(self.editor_id) }
    }
}

/// Forms by FormID as mathematics.
pub open spec fn forms(entries: Seq<(u32, HardcodedForm)>) -> Seq<(u32, Form)> {
    entries.map_values(|e: (u32, HardcodedForm)| (e.0, e.1@))
}

/// Whether the FormIDs do not decrease.
pub open spec fn ordered(t: Seq<(u32, Form)>) -> bool {
    forall|i: int, j: int| 0 <= i <= j < t.len() ==> (#[trigger] t[i]).0 <= (#[trigger] t[j]).0
}

/// The first form with FormID `id`.
pub open spec fn form_of(t: Seq<(u32, Form)>, id: u32) -> Option<Form>
    decreases t.len(),
{
    if t.len() == 0 {
        None
    } else if t[0].0 == id {
        Some(t[0].1)
    } else {
        form_of(t.drop_first(), id)
    }
}

/// The FormID of the first form with EditorID `edid`.
pub open spec fn id_of(t: Seq<(u32, Form)>, edid: Seq<char>) -> Option<u32>
    decreases t.len(),
{
    if t.len() == 0 {
        None
    } else if t[0].1.editor_id == Some(edid) {
        Some(t[0].0)
    } else {
        id_of(t.drop_first(), edid)
    }
}

impl HardcodedTable {
    /// The forms of this table.
    pub open spec fn forms(&self) -> Seq<(u32, Form)> {
        forms(self.entries@)
    }

    /// Whether the forms are in increasing order.
    pub open spec fn wf(&self) -> bool {
        ordered(self.forms())
    }
}

/// The number that an entry's FormID writes.
pub open spec fn entry_number(s: Seq<char>) -> Option<int> {
    parse_uint(
        if hex_prefixed(s) {
            s.skip(2)
        } else {
            s
        },
        16,
        u32::MAX as int,
    )
}

/// The position in the first `n` entries of `t` behind the last FormID that
/// is not above `id`.
pub open spec fn form_place(t: Seq<(u32, Form)>, id: u32, n: nat) -> int
    decreases n,
{
    if n == 0 || n > t.len() || t[n - 1].0 <= id {
        n as int
    } else {
        form_place(t, id, (n - 1) as nat)
    }
}

/// The table of the first `n` entries: in the order of the FormIDs, and of
/// the list where they are equal.
pub open spec fn built(raw: Seq<RawEntry>, n: nat) -> Seq<(u32, Form)>
    decreases n,
{
    if n == 0 || n > raw.len() {
        Seq::empty()
    } else {
        let t = built(raw, (n - 1) as nat);
        let e = raw[n - 1];
        let id = entry_number(e.formid@)->0 as u32;
        t.insert(
            form_place(t, id, t.len()),
            (id, Form { record_type: e.record_type@, editor_id: opt_text(e.editor_id) }),
        )
    }
}

proof fn lemma_form_place(t: Seq<(u32, Form)>, id: u32, n: nat)
    requires
        ordered(t),
        n <= t.len(),
    ensures
        0 <= form_place(t, id, n) <= n,
        forall|j: int| 0 <= j < form_place(t, id, n) ==> (#[trigger] t[j]).0 <= id,
        forall|j: int| form_place(t, id, n) <= j < n ==> (#[trigger] t[j]).0 > id,
    decreases n,
{
    if !(n == 0 || t[n - 1].0 <= id) {
        lemma_form_place(t, id, (n - 1) as nat);
    }
}

/// Builds the table. Fails where an entry's FormID is not hexadecimal.
#[verifier::loop_isolation(false)]
pub fn table(raw: &Vec<RawEntry>) -> (r: Option<HardcodedTable>)
    ensures
        match r {
            Some(t) => t.wf() && t.forms() == built(raw@, raw.len() as nat) && forall|i: int|
                0 <= i < raw.len() ==> entry_number((#[trigger] raw@[i]).formid@) is Some,
            None => exists|i: int|
                0 <= i < raw.len() && entry_number((#[trigger] raw@[i]).formid@) is None,
        },
{
    let mut entries: Vec<(u32, HardcodedForm)> = Vec::new();
    assert(forms(entries@) =~= Seq::<(u32, Form)>::empty());
    let mut i: usize = 0;
    while i < raw.len()
        invariant
            i <= raw.len(),
            ordered(forms(entries@)),
            forms(entries@) == built(raw@, i as nat),
            forall|j: int| 0 <= j < i ==> entry_number((#[trigger] raw@[j]).formid@) is Some,
        decreases raw.len() - i,
    {
        let v = chars_of(&raw[i].formid);
        assert(v@.skip(0) =~= v@);
        let from: usize = if v.len() >= 2 && v[0] == '0' && (v[1] == 'x' || v[1] == 'X') {
            2
        } else {
            0
        };
        let id: u32 = match parse_chars(&v, from, 16, u32::MAX as u64) {
            Some(n) => n as u32,
            None => {
                return None;
            },
        };
        let ghost t = forms(entries@);
        let mut j: usize = entries.len();
        while j > 0 && entries[j - 1].0 > id
            invariant
                j <= entries.len(),
                t == forms(entries@),
                form_place(t, id, t.len()) == form_place(t, id, j as nat),
            decreases j,
        {
            assert(t[j - 1].0 == entries@[j - 1].0);
            j -= 1;
        }
        assert(j > 0 ==> t[j - 1].0 == entries@[j - 1].0);
        let form = HardcodedForm {
            record_type: raw[i].record_type.clone(),
            editor_id: crate::schema::copy_opt(&raw[i].editor_id),
        };
        let ghost fv = form@;
        proof {
            lemma_form_place(t, id, t.len());
        }
        entries.insert(j, (id, form));
        assert(forms(entries@) =~= t.insert(j as int, (id, fv)));
        i += 1;
    }
    Some(HardcodedTable { entries })
}

/// Linear and ordered search agree.
proof fn lemma_form_at(t: Seq<(u32, Form)>, id: u32, i: int)
    requires
        0 <= i < t.len(),
        t[i].0 == id,
        forall|j: int| 0 <= j < i ==> (#[trigger] t[j]).0 != id,
    ensures
        form_of(t, id) == Some(t[i].1),
    decreases t.len(),
{
    if i > 0 {
        assert forall|j: int| 0 <= j < i - 1 implies (#[trigger] t.drop_first()[j]).0 != id by {
            assert(t.drop_first()[j] == t[j + 1]);
        }
        lemma_form_at(t.drop_first(), id, i - 1);
    }
}

proof fn lemma_form_absent(t: Seq<(u32, Form)>, id: u32)
    requires
        forall|j: int| 0 <= j < t.len() ==> (#[trigger] t[j]).0 != id,
    ensures
        form_of(t, id) is None,
    decreases t.len(),
{
    if t.len() > 0 {
        assert forall|j: int| 0 <= j < t.len() - 1 implies (#[trigger] t.drop_first()[j]).0
            != id by {
            assert(t.drop_first()[j] == t[j + 1]);
        }
        lemma_form_absent(t.drop_first(), id);
    }
}

/// The form with FormID `id`.
pub fn lookup(t: &HardcodedTable, id: FormId) -> (r: Option<&HardcodedForm>)
    requires
        t.wf(),
    ensures
        match r {
            Some(f) => form_of(t.forms(), id.0) == Some(f@),
            None => form_of(t.forms(), id.0) is None,
        },
{
    let ghost tv = t.forms();
    let mut lo: usize = 0;
    let mut hi: usize = t.entries.len();
    while lo < hi
        invariant
            lo <= hi <= t.entries.len(),
            tv == t.forms(),
            ordered(tv),
            forall|j: int| 0 <= j < lo ==> (#[trigger] tv[j]).0 < id.0,
            forall|j: int| hi <= j < tv.len() ==> (#[trigger] tv[j]).0 >= id.0,
        decreases hi - lo,
    {
        let mid: usize = lo + (hi - lo) / 2;
        assert(tv[mid as int].0 == t.entries@[mid as int].0);
        if t.entries[mid].0 < id.0 {
            lo = mid + 1;
        } else {
            hi = mid;
        }
    }
    assert(tv.len() == t.entries.len());
    assert(lo < tv.len() ==> tv[lo as int] == (t.entries@[lo as int].0, t.entries@[lo as int].1@));
    if lo < t.entries.len() && t.entries[lo].0 == id.0 {
        proof {
            lemma_form_at(tv, id.0, lo as int);
        }
        Some(&t.entries[lo].1)
    } else {
        proof {
            lemma_form_absent(tv, id.0);
        }
        None
    }
}

/// The FormID of the form with EditorID `edid`, in exactly this case. Of
/// several the lowest.
pub fn lookup_by_editor_id(t: &HardcodedTable, edid: &str) -> (r: Option<FormId>)
    ensures
        match r {
            Some(id) => id_of(t.forms(), edid@) == Some(id.0),
            None => id_of(t.forms(), edid@) is None,
        },
{
    let ghost tv = t.forms();
    let mut i: usize = 0;
    assert(tv.skip(0) =~= tv);
    while i < t.entries.len()
        invariant
            i <= t.entries.len(),
            tv == t.forms(),
            id_of(tv, edid@) == id_of(tv.skip(i as int), edid@),
        decreases t.entries.len() - i,
    {
        assert(tv.skip(i as int)[0] == (t.entries@[i as int].0, t.entries@[i as int].1@));
        if let Some(e) = &t.entries[i].1.editor_id {
            if str_eq(e, edid) {
                return Some(FormId::new(t.entries[i].0));
            }
        }
        assert(tv.skip(i as int).drop_first() =~= tv.skip(i + 1));
        i += 1;
    }
    None
}

proof fn lemma_form_in(t: Seq<(u32, Form)>, id: u32) -> (k: int)
    requires
        form_of(t, id) is Some,
    ensures
        0 <= k < t.len(),
        t[k] == (id, form_of(t, id)->0),
    decreases t.len(),
{
    if t[0].0 == id {
        0
    } else {
        let k = lemma_form_in(t.drop_first(), id);
        assert(t.drop_first()[k] == t[k + 1]);
        k + 1
    }
}

proof fn lemma_form_found(t: Seq<(u32, Form)>, k: int)
    requires
        0 <= k < t.len(),
    ensures
        form_of(t, t[k].0) is Some,
    decreases t.len(),
{
    if t[0].0 != t[k].0 {
        assert(t.drop_first()[k - 1] == t[k]);
        lemma_form_found(t.drop_first(), k - 1);
    }
}

proof fn lemma_id_in(t: Seq<(u32, Form)>, edid: Seq<char>) -> (k: int)
    requires
        id_of(t, edid) is Some,
    ensures
        0 <= k < t.len(),
        t[k].0 == id_of(t, edid)->0,
        t[k].1.editor_id == Some(edid),
        forall|j: int| 0 <= j < k ==> (#[trigger] t[j]).1.editor_id != Some(edid),
    decreases t.len(),
{
    if t[0].1.editor_id == Some(edid) {
        0
    } else {
        let rest = t.drop_first();
        let k = lemma_id_in(rest, edid);
        assert(rest[k] == t[k + 1]);
        assert forall|j: int| 0 <= j < k + 1 implies (#[trigger] t[j]).1.editor_id != Some(
            edid,
        ) by {
            if j > 0 {
                assert(rest[j - 1] == t[j]);
            }
        }
        k + 1
    }
}

proof fn lemma_id_found(t: Seq<(u32, Form)>, edid: Seq<char>, k: int)
    requires
        0 <= k < t.len(),
        t[k].1.editor_id == Some(edid),
    ensures
        id_of(t, edid) is Some,
    decreases t.len(),
{
    if t[0].1.editor_id != Some(edid) {
        assert(t.drop_first()[k - 1] == t[k]);
        lemma_id_found(t.drop_first(), edid, k - 1);
    }
}

/// An EditorID leads to the lowest FormID of the forms that have it, and to
/// none where no form has it.
pub proof fn law_editor_id_names_the_lowest(t: HardcodedTable, id: u32, edid: Seq<char>)
    requires
        t.wf(),
    ensures
        id_of(t.forms(), edid) == Some(id) <==> {
            &&& exists|k: int|
                0 <= k < t.forms().len() && #[trigger] t.forms()[k].0 == id
                    && t.forms()[k].1.editor_id == Some(edid)
            &&& forall|k: int|
                0 <= k < t.forms().len() && (#[trigger] t.forms()[k]).1.editor_id == Some(edid)
                    ==> id <= t.forms()[k].0
        },
        id_of(t.forms(), edid) is None <==> forall|k: int|
            0 <= k < t.forms().len() ==> (#[trigger] t.forms()[k]).1.editor_id != Some(edid),
        id_of(t.forms(), edid) matches Some(found) ==> form_of(t.forms(), found) is Some,
{
    let f = t.forms();
    if id_of(f, edid) is Some {
        let k = lemma_id_in(f, edid);
        lemma_form_found(f, k);
        assert forall|j: int|
            0 <= j < f.len() && (#[trigger] f[j]).1.editor_id == Some(edid) implies f[k].0
            <= f[j].0 by {
            assert(k <= j);
        }
    }
    assert forall|k: int|
        0 <= k < f.len() && (#[trigger] f[k]).1.editor_id == Some(edid) implies id_of(f, edid)
        is Some by {
        lemma_id_found(f, edid, k);
    }
}

/// The two ways to look a form up undo each other, unless another form has
/// the same EditorID or the same FormID: a form is found by its EditorID
/// exactly where the form with that FormID has it.
pub proof fn law_lookups_are_inverse(t: Seq<(u32, Form)>, id: u32, edid: Seq<char>)
    requires
        forall|i: int, j: int|
            0 <= i < t.len() && 0 <= j < t.len() && (#[trigger] t[i]).1.editor_id == Some(edid) && (
            #[trigger] t[j]).1.editor_id == Some(edid) ==> t[i].0 == t[j].0,
        forall|i: int, j: int|
            0 <= i < t.len() && 0 <= j < t.len() && (#[trigger] t[i]).0 == id && (
            #[trigger] t[j]).0 == id ==> t[i].1.editor_id == t[j].1.editor_id,
    ensures
        id_of(t, edid) == Some(id) <==> (form_of(t, id) matches Some(f) && f.editor_id == Some(
            edid,
        )),
{
    if id_of(t, edid) == Some(id) {
        let k = lemma_id_in(t, edid);
        lemma_form_found(t, k);
        let m = lemma_form_in(t, id);
        assert(t[k].0 == t[m].0);
    }
    if form_of(t, id) is Some && form_of(t, id)->0.editor_id == Some(edid) {
        let m = lemma_form_in(t, id);
        lemma_id_found(t, edid, m);
        let k = lemma_id_in(t, edid);
        assert(t[k].1.editor_id == t[m].1.editor_id);
    }
}

} // verus!
