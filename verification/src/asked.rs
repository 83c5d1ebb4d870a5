//! What is asked for by FormID, path or type, and what comes back.
use crate::database::{Database, EntryView};
use crate::diff::report::{
    count_more, count_slot, diffs_of_type, stubs_of_type, Counts, DiffView, StubView,
};
use crate::dispatch::bad_type;
use crate::filter::{law_paths_sorted, paths};
use crate::formid::{
    form_id_of, formid_like, law_display_form, law_display_parses, lemma_trim_nothing,
    upper_hex_digit, FormId,
};
use crate::index::meta_of;
use crate::ipc::{selected, SelView};
use crate::listing::{rows_of_ids, string_at, RowView};
use crate::order::texts_increase;
use crate::picks::{holds_picks, lemma_picked, picked};
use crate::places::{law_paths_are_patterns, pattern_in};
use crate::query::{distinct_ids, type_paths, MAX_PATHS};
use crate::reader::{edid_of, lstring_id_of, subs};
use crate::strings::StringKind;
use crate::text::{all_digits, digit_value, digits_value, hex8, text_lt, trimmed, uppercase};
use vstd::prelude::*;
use vstd::utf8::*;

verus! {

// ── FormIDs ────────────────────────────────────────────────────────────────
/// Digits behind `0x` name a FormID in hexadecimal.
pub proof fn law_prefixed_digits_are_hexadecimal(d: Seq<char>, upper: bool)
    requires
        d.len() > 0,
        all_digits(d, 16),
        digits_value(d, 16) <= u32::MAX,
        trimmed(
            seq![
                '0',
                if upper {
                    'X'
                } else {
                    'x'
                },
            ] + d,
        ) == seq![
            '0',
            if upper {
                'X'
            } else {
                'x'
            },
        ] + d,
    ensures
        form_id_of(
            seq![
                '0',
                if upper {
                    'X'
                } else {
                    'x'
                },
            ] + d,
        ) == Some(FormId(digits_value(d, 16) as u32)),
{
    let x = if upper {
        'X'
    } else {
        'x'
    };
    let s = seq!['0', x] + d;
    assert(s[0] == '0' && s[1] == x);
    assert(s.skip(2) =~= d);
    assert(digit_value(d[0]) < 16);
}

/// Decimal digits alone name a FormID in decimal.
pub proof fn law_bare_digits_are_decimal(d: Seq<char>)
    requires
        d.len() > 0,
        all_digits(d, 10),
        digits_value(d, 10) <= u32::MAX,
        trimmed(d) == d,
    ensures
        form_id_of(d) == Some(FormId(digits_value(d, 10) as u32)),
{
    assert(digit_value(d[0]) < 10);
    if d.len() >= 2 {
        assert(digit_value(d[1]) < 10);
    }
}

/// A displayed FormID selects that FormID.
pub proof fn law_displayed_formid_selects_it(id: FormId)
    ensures
        selected(hex8(id.0)) == SelView::FormId(id),
{
    law_display_form(id);
    law_display_parses(id);
    let s = hex8(id.0);
    assert(upper_hex_digit(s[9]));
    lemma_trim_nothing(s);
    assert forall|i: int| 0 <= i < 8 implies digit_value(#[trigger] s.skip(2)[i]) < 16 by {
        assert(s.skip(2)[i] == s[i + 2]);
    }
}

/// A token that is no number, with or without `0x`, is an EditorID.
pub proof fn law_other_tokens_are_editor_ids(s: Seq<char>)
    requires
        !formid_like(s),
    ensures
        selected(s) == SelView::Edid(s),
{
}

/// A token of hexadecimal digits alone can be both.
pub proof fn law_bare_tokens_are_open(s: Seq<char>)
    requires
        0 < trimmed(s).len() <= 8,
        all_digits(trimmed(s), 16),
    ensures
        selected(s) == SelView::Auto(s),
{
    let t = trimmed(s);
    assert(digit_value(t[0]) < 16);
    if t.len() >= 2 {
        assert(digit_value(t[1]) < 16);
    }
}

// ── References ─────────────────────────────────────────────────────────────
/// The FormIDs that a record refers to are all that its texts name, each once
/// and without its own.
pub proof fn law_every_reference_goes_out(list: Seq<Seq<char>>, own: FormId, n: nat, x: u32)
    requires
        n <= list.len(),
    ensures
        distinct_ids(list, own, n).no_duplicates(),
        distinct_ids(list, own, n).contains(x) <==> x != own.0 && exists|i: int|
            0 <= i < n && form_id_of(#[trigger] list[i]) == Some(FormId(x)),
    decreases n,
{
    if n > 0 {
        law_every_reference_goes_out(list, own, (n - 1) as nat, x);
        let before = distinct_ids(list, own, (n - 1) as nat);
        let after = distinct_ids(list, own, n);
        if let Some(id) = form_id_of(list[n - 1]) {
            law_every_reference_goes_out(list, own, (n - 1) as nat, id.0);
            if id != own && !before.contains(id.0) {
                assert(after == before.push(id.0));
                assert(after[before.len() as int] == id.0);
                if before.contains(x) {
                    let i = choose|i: int| 0 <= i < before.len() && before[i] == x;
                    assert(after[i] == x);
                }
                if after.contains(x) {
                    let i = choose|i: int| 0 <= i < after.len() && after[i] == x;
                    if i < before.len() {
                        assert(before[i] == x);
                    }
                }
                assert forall|i: int, j: int|
                    0 <= i < after.len() && 0 <= j < after.len() && i != j implies after[i]
                    != after[j] by {
                    if i < before.len() && j < before.len() {
                        assert(before[i] != before[j]);
                    } else if i < before.len() {
                        assert(before.contains(before[i]));
                    } else {
                        assert(before.contains(before[j]));
                    }
                }
            }
            if x == id.0 {
                assert(form_id_of(list[n - 1]) == Some(FormId(x)));
            }
        }
    }
}

/// The row of a FormID that has a record.
pub open spec fn row_of_id(db: Database, ids: Seq<u32>) -> spec_fn(int) -> Option<RowView> {
    |i: int|
        match meta_of(db.index.metas(), ids[i]) {
            Some(m) => match db.esm.at(m.offset) {
                Some(r) => Some(
                    RowView {
                        form_id: hex8(ids[i]),
                        record_type: Some(m.signature.text()),
                        editor_id: edid_of(subs(r.subrecords@)),
                        name: string_at(
                            db.localization,
                            StringKind::Strings,
                            lstring_id_of(subs(r.subrecords@), "FULL"@),
                        ),
                        offset: m.offset,
                    },
                ),
                None => None,
            },
            None => None,
        }
}

proof fn lemma_rows_of_ids(db: Database, ids: Seq<u32>, n: nat)
    requires
        n <= ids.len(),
    ensures
        rows_of_ids(db, ids, n) matches Ok(out) ==> out == picked(row_of_id(db, ids), n),
        rows_of_ids(db, ids, n) is Err <==> exists|i: int|
            0 <= i < n && (meta_of(db.index.metas(), #[trigger] ids[i]) matches Some(m)
                && db.esm.at(m.offset) is None),
    decreases n,
{
    if n > 0 {
        lemma_rows_of_ids(db, ids, (n - 1) as nat);
        let f = row_of_id(db, ids);
        let x = f(n - 1);
        if let Some(m) = meta_of(db.index.metas(), ids[n - 1]) {
            if db.esm.at(m.offset) is None {
                assert(meta_of(db.index.metas(), ids[n - 1]) is Some);
            }
        }
    }
}

/// Every FormID that has a record gives its row, in order, where all of these
/// records can be read; where one cannot, there are no rows.
pub proof fn law_every_id_gives_its_row(db: Database, ids: Seq<u32>)
    ensures
        rows_of_ids(db, ids, ids.len()) is Err <==> exists|i: int|
            0 <= i < ids.len() && (meta_of(db.index.metas(), #[trigger] ids[i]) matches Some(m)
                && db.esm.at(m.offset) is None),
        rows_of_ids(db, ids, ids.len()) matches Ok(out) ==> holds_picks(
            out,
            row_of_id(db, ids),
            ids.len(),
        ),
{
    lemma_rows_of_ids(db, ids, ids.len());
    let _ = lemma_picked(row_of_id(db, ids), ids.len());
}

// ── Paths ──────────────────────────────────────────────────────────────────
/// The paths of a type are patterns of the places in its records, and all of
/// them where there are fewer than are listed at most.
pub proof fn law_paths_of_every_record(
    entries: Seq<EntryView>,
    i: nat,
    out: Seq<Seq<char>>,
    x: Seq<char>,
)
    requires
        i <= entries.len(),
        texts_increase(out),
        out.len() <= MAX_PATHS,
    ensures
        type_paths(entries, i, out).contains(x) ==> out.contains(x) || exists|k: int|
            i <= k < entries.len() && pattern_in(
                (#[trigger] entries[k]).fields,
                Seq::empty(),
                x,
            ),
        type_paths(entries, i, out).len() < MAX_PATHS && (out.contains(x) || exists|k: int|
            i <= k < entries.len() && pattern_in(
                (#[trigger] entries[k]).fields,
                Seq::empty(),
                x,
            )) ==> type_paths(entries, i, out).contains(x),
        type_paths(entries, i, out).len() >= out.len(),
    decreases entries.len() - i,
{
    if i < entries.len() && out.len() < MAX_PATHS {
        let v = entries[i as int].fields;
        let next = paths(v, Seq::empty(), out, MAX_PATHS as int);
        law_paths_are_patterns(v, Seq::empty(), out, MAX_PATHS as int, x);
        law_paths_sorted(v, Seq::empty(), out, MAX_PATHS as int);
        law_paths_of_every_record(entries, i + 1, next, x);
        if pattern_in(v, Seq::empty(), x) {
            assert(pattern_in(entries[i as int].fields, Seq::empty(), x));
        }
    }
}

// ── Types ──────────────────────────────────────────────────────────────────
/// A record of a type.
pub open spec fn stub_if(list: Seq<StubView>, sig: Seq<char>) -> spec_fn(int) -> Option<StubView> {
    |i: int|
        if list[i].record_type == sig {
            Some(list[i])
        } else {
            None
        }
}

/// A changed record of a type.
pub open spec fn diff_if(list: Seq<DiffView>, sig: Seq<char>) -> spec_fn(int) -> Option<DiffView> {
    |i: int|
        if list[i].stub.record_type == sig {
            Some(list[i])
        } else {
            None
        }
}

proof fn lemma_of_type(stubs: Seq<StubView>, diffs: Seq<DiffView>, sig: Seq<char>, n: nat, m: nat)
    requires
        n <= stubs.len(),
        m <= diffs.len(),
    ensures
        stubs_of_type(stubs, sig, n) == picked(stub_if(stubs, sig), n),
        diffs_of_type(diffs, sig, m) == picked(diff_if(diffs, sig), m),
    decreases n + m,
{
    if n > 0 {
        lemma_of_type(stubs, diffs, sig, (n - 1) as nat, m);
    }
    if m > 0 {
        lemma_of_type(stubs, diffs, sig, n, (m - 1) as nat);
    }
}

/// A report on one type keeps every record of it, in order, and no other.
pub proof fn law_type_keeps_its_records(
    stubs: Seq<StubView>,
    diffs: Seq<DiffView>,
    sig: Seq<char>,
)
    ensures
        holds_picks(stubs_of_type(stubs, sig, stubs.len()), stub_if(stubs, sig), stubs.len()),
        holds_picks(diffs_of_type(diffs, sig, diffs.len()), diff_if(diffs, sig), diffs.len()),
{
    lemma_of_type(stubs, diffs, sig, stubs.len(), diffs.len());
    let _ = lemma_picked(stub_if(stubs, sig), stubs.len());
    let _ = lemma_picked(diff_if(diffs, sig), diffs.len());
}

/// The first type that does not have four bytes in upper case is the bad one.
pub proof fn law_first_bad_type(types: Seq<Seq<char>>, i: nat)
    requires
        i <= types.len(),
    ensures
        match bad_type(types, i) {
            Some(k) => i <= k < types.len() && encode_utf8(uppercase(types[k])).len() != 4
                && forall|j: int|
                i <= j < k ==> encode_utf8(uppercase(#[trigger] types[j])).len() == 4,
            None => forall|j: int|
                i <= j < types.len() ==> encode_utf8(uppercase(#[trigger] types[j])).len() == 4,
        },
    decreases types.len() - i,
{
    if i < types.len() {
        law_first_bad_type(types, i + 1);
    }
}

// ── Counts by name ─────────────────────────────────────────────────────────
proof fn lemma_count_slot(m: Counts, k: Seq<char>, i: nat)
    requires
        i <= m.len(),
    ensures
        i <= count_slot(m, k, i) <= m.len(),
        count_slot(m, k, i) < m.len() ==> m[count_slot(m, k, i)].0 == k || text_lt(
            k,
            m[count_slot(m, k, i)].0,
        ),
        forall|j: int|
            i <= j < count_slot(m, k, i) ==> (#[trigger] m[j]).0 != k && !text_lt(k, m[j].0),
    decreases m.len() - i,
{
    if i < m.len() && !(m[i as int].0 == k || text_lt(k, m[i as int].0)) {
        lemma_count_slot(m, k, i + 1);
    }
}

/// Counting more for a name leaves every other count as it is, and has the
/// name counted more, or for the first time.
pub proof fn law_counting_more(m: Counts, k: Seq<char>, n: int)
    ensures
        forall|x: (Seq<char>, int)|
            x.0 != k ==> (#[trigger] count_more(m, k, n).contains(x) <==> m.contains(x)),
        (exists|i: int| 0 <= i < m.len() && (#[trigger] m[i]).0 == k && count_slot(m, k, 0) == i
            && count_more(m, k, n)[i] == (
            k,
            if m[i].1 + n <= u64::MAX {
                m[i].1 + n
            } else {
                u64::MAX as int
            },
        )) || count_more(m, k, n).contains((k, n)),
{
    lemma_count_slot(m, k, 0);
    let i = count_slot(m, k, 0);
    let after = count_more(m, k, n);
    if i < m.len() && m[i].0 == k {
        assert forall|x: (Seq<char>, int)| x.0 != k implies (#[trigger] after.contains(x)
            <==> m.contains(x)) by {
            if after.contains(x) {
                let j = choose|j: int| 0 <= j < after.len() && after[j] == x;
                assert(m[j] == x);
            }
            if m.contains(x) {
                let j = choose|j: int| 0 <= j < m.len() && m[j] == x;
                assert(after[j] == x);
            }
        }
        assert(m[i].0 == k);
    } else {
        assert(after[i] == (k, n));
        assert forall|x: (Seq<char>, int)| x.0 != k implies (#[trigger] after.contains(x)
            <==> m.contains(x)) by {
            if after.contains(x) {
                let j = choose|j: int| 0 <= j < after.len() && after[j] == x;
                if j < i {
                    assert(m[j] == x);
                } else {
                    assert(m[j - 1] == x);
                }
            }
            if m.contains(x) {
                let j = choose|j: int| 0 <= j < m.len() && m[j] == x;
                if j < i {
                    assert(after[j] == x);
                } else {
                    assert(after[j + 1] == x);
                }
            }
        }
    }
}

} // verus!
