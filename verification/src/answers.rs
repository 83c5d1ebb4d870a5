//! What the answers to questions hold.
use crate::database::{Database, EntryView};
use crate::filter::{
    deep_holds, op_holds, path_holds, predicate_holds, value_holds, FilterOp, Numbers, SearchField,
};
use crate::formid::FormId;
use crate::index::{
    edid_entries, last_edid, latest, meta_of, search_entries, Decoding, Metas, SearchView,
};
use crate::json::Json;
use crate::listing::{desc_kind, found, listed, page, rows, string_at, RowView};
use crate::picks::{holds_picks, lemma_picked, picked};
use crate::query::{decoded_list, filtered};
use crate::reader::{
    edid_of, inline_string_of, lstring_id_of, record_at, subs, RecordMeta, StoredRecord,
};
use crate::strings::{Localization, StringKind};
use crate::text::{hex8, lowercase, split_all, trimmed};
use crate::wildcard::{glob, matches_pattern};
use crate::wording::lemma_find;
use vstd::prelude::*;

verus! {

// ── Patterns ───────────────────────────────────────────────────────────────
/// A pattern that starts with `*` matches a text exactly where the rest of the
/// pattern matches some end of the text.
pub proof fn law_star_skips(p: Seq<char>, t: Seq<char>)
    ensures
        glob(seq!['*'] + p, t) <==> exists|k: int|
            0 <= k <= t.len() && #[trigger] glob(p, t.skip(k)),
    decreases t.len(),
{
    let q = seq!['*'] + p;
    assert(q[0] == '*');
    assert(q.drop_first() =~= p);
    assert(t.skip(0) =~= t);
    if glob(p, t) {
        assert(glob(p, t.skip(0)));
    }
    if t.len() > 0 {
        let s = t.drop_first();
        law_star_skips(p, s);
        if glob(q, s) {
            let k = choose|k: int| 0 <= k <= s.len() && #[trigger] glob(p, s.skip(k));
            assert(s.skip(k) =~= t.skip(k + 1));
            assert(glob(p, t.skip(k + 1)));
        }
        if exists|k: int| 0 <= k <= t.len() && #[trigger] glob(p, t.skip(k)) {
            let k = choose|k: int| 0 <= k <= t.len() && #[trigger] glob(p, t.skip(k));
            if k > 0 {
                assert(s.skip(k - 1) =~= t.skip(k));
                assert(glob(p, s.skip(k - 1)));
            }
        }
    } else {
        if exists|k: int| 0 <= k <= t.len() && #[trigger] glob(p, t.skip(k)) {
            let k = choose|k: int| 0 <= k <= t.len() && #[trigger] glob(p, t.skip(k));
            assert(k == 0);
        }
    }
}

/// A character other than `*` matches itself, and the rest of the pattern the
/// rest of the text.
pub proof fn law_character_stands_for_itself(c: char, p: Seq<char>, t: Seq<char>)
    requires
        c != '*',
    ensures
        glob(seq![c] + p, t) <==> t.len() > 0 && t[0] == c && glob(p, t.drop_first()),
{
    assert((seq![c] + p).drop_first() =~= p);
}

/// A pattern without `*` matches the texts that hold it, whatever the case of
/// their letters; one with `*` matches as a whole; nothing at all, and `*`
/// alone, match every text.
pub proof fn law_patterns(p: Seq<char>, t: Seq<char>)
    ensures
        p.len() == 0 ==> matches_pattern(p, t),
        p == seq!['*'] ==> matches_pattern(p, t),
        p.len() > 1 && p.contains('*') ==> matches_pattern(p, t) == glob(
            lowercase(p),
            lowercase(t),
        ),
        p.len() > 0 && !p.contains('*') ==> (matches_pattern(p, t) <==> exists|i: int|
            0 <= i <= lowercase(t).len() - lowercase(p).len() && #[trigger] lowercase(t).subrange(
                i,
                i + lowercase(p).len(),
            ) == lowercase(p)),
{
    if p == seq!['*'] {
        assert(p.len() == 1);
        assert(p[0] == '*');
    }
}

// ── Pages ──────────────────────────────────────────────────────────────────
/// A page holds, from its offset on, every item of the list up to its limit,
/// and with a limit of zero all of them.
pub proof fn law_page_items<T>(list: Seq<T>, offset: nat, limit: nat, i: int)
    requires
        list.len() <= usize::MAX,
        0 <= i,
    ensures
        i < page(list, offset as int, limit as int).len() <==> offset + i < list.len() && (limit
            == 0 || i < limit),
        i < page(list, offset as int, limit as int).len() ==> page(
            list,
            offset as int,
            limit as int,
        )[i] == list[offset + i],
{
}

// ── Filters ────────────────────────────────────────────────────────────────
/// The row of an entry that a filter lets through.
pub open spec fn passing(
    entries: Seq<EntryView>,
    sig: Seq<char>,
    path: Option<Seq<char>>,
    op: FilterOp,
    value: Option<Seq<char>>,
    nums: Numbers,
) -> spec_fn(int) -> Option<RowView> {
    |i: int|
        if predicate_holds(entries[i].fields, path, op, value, nums) {
            Some(
                RowView {
                    form_id: hex8(entries[i].form_id.0),
                    record_type: Some(sig),
                    editor_id: entries[i].editor_id,
                    name: None,
                    offset: entries[i].offset,
                },
            )
        } else {
            None
        }
}

proof fn lemma_filtered(
    entries: Seq<EntryView>,
    sig: Seq<char>,
    path: Option<Seq<char>>,
    op: FilterOp,
    value: Option<Seq<char>>,
    nums: Numbers,
    n: nat,
)
    requires
        n <= entries.len(),
    ensures
        filtered(entries, sig, path, op, value, nums, n) == picked(
            passing(entries, sig, path, op, value, nums),
            n,
        ),
    decreases n,
{
    if n > 0 {
        lemma_filtered(entries, sig, path, op, value, nums, (n - 1) as nat);
    }
}

/// A filter gives a row for every record that it looks at and whose fields
/// meet the condition, in order, and none for any other.
pub proof fn law_filter_gives_every_match(
    entries: Seq<EntryView>,
    sig: Seq<char>,
    path: Option<Seq<char>>,
    op: FilterOp,
    value: Option<Seq<char>>,
    nums: Numbers,
)
    ensures
        holds_picks(
            filtered(entries, sig, path, op, value, nums, entries.len()),
            passing(entries, sig, path, op, value, nums),
            entries.len(),
        ),
{
    lemma_filtered(entries, sig, path, op, value, nums, entries.len());
    let _ = lemma_picked(passing(entries, sig, path, op, value, nums), entries.len());
}

/// A condition with a path is one on what the path leads to, and without one,
/// or with a blank one, on anything in the record.
pub proof fn law_condition_with_a_path(
    fields: Json,
    path: Option<Seq<char>>,
    op: FilterOp,
    value: Option<Seq<char>>,
    nums: Numbers,
)
    ensures
        path is None || trimmed(path->Some_0).len() == 0 ==> predicate_holds(
            fields,
            path,
            op,
            value,
            nums,
        ) == deep_holds(fields, op, value, nums),
        path is Some && trimmed(path->Some_0).len() > 0 ==> predicate_holds(
            fields,
            path,
            op,
            value,
            nums,
        ) == path_holds(fields, split_all(trimmed(path->Some_0), '.'), op, value, nums),
{
}

/// At the end of a path `Exists` always holds, `Contains` looks at anything in
/// the value, and any other operator at the value itself.
pub proof fn law_condition_at_a_value(
    v: Json,
    op: FilterOp,
    value: Option<Seq<char>>,
    nums: Numbers,
)
    ensures
        op_holds(v, FilterOp::Exists, value, nums),
        op_holds(v, FilterOp::Contains, value, nums) == deep_holds(
            v,
            FilterOp::Contains,
            value,
            nums,
        ),
        op != FilterOp::Exists && op != FilterOp::Contains ==> op_holds(v, op, value, nums)
            == value_holds(v, op, value, nums),
{
}

/// A path is cut at every dot: a name without dots is one segment, and behind
/// a dot the segments of the rest follow.
pub proof fn law_path_segments(name: Seq<char>, rest: Seq<char>)
    requires
        !name.contains('.'),
    ensures
        split_all(name, '.') == seq![name],
        split_all(name + seq!['.'] + rest, '.') == seq![name] + split_all(rest, '.'),
{
    let s = name + seq!['.'] + rest;
    lemma_find(name, '.', rest);
    assert(s.take(name.len() as int) =~= name);
    assert(s.skip(name.len() as int + 1) =~= rest);
}

/// What a filter looks at is every record of the list, in order, with its
/// EditorID, its place and its decoded fields; where one cannot be read there
/// is only the place of the first such.
pub proof fn law_records_are_decoded_in_order(
    recs: Map<u64, StoredRecord>,
    d: Decoding<'_>,
    list: Seq<(FormId, RecordMeta)>,
)
    ensures
        match decoded_list(recs, d, list, 0, Seq::empty()) {
            Ok(out) => {
                &&& out.len() == list.len()
                &&& forall|k: int|
                    0 <= k < list.len() ==> (record_at(recs, list[k].1.offset) matches Some(r)
                        && (#[trigger] out[k]).form_id == list[k].0 && out[k].editor_id == edid_of(
                        subs(r.subrecords@),
                    ) && out[k].offset == list[k].1.offset && out[k].fields == d.fields(r))
            },
            Err(at) => exists|k: int|
                0 <= k < list.len() && (#[trigger] list[k]).1.offset == at && record_at(recs, at)
                    is None && forall|j: int|
                    0 <= j < k ==> record_at(recs, (#[trigger] list[j]).1.offset) is Some,
        },
{
    lemma_decoded(recs, d, list, 0, Seq::empty());
}

/// An entry of a record that can be read.
spec fn entry_of(
    recs: Map<u64, StoredRecord>,
    d: Decoding<'_>,
    e: (FormId, RecordMeta),
    v: EntryView,
) -> bool {
    record_at(recs, e.1.offset) matches Some(r) && v.form_id == e.0 && v.editor_id == edid_of(
        subs(r.subrecords@),
    ) && v.offset == e.1.offset && v.fields == d.fields(r)
}

proof fn lemma_decoded(
    recs: Map<u64, StoredRecord>,
    d: Decoding<'_>,
    list: Seq<(FormId, RecordMeta)>,
    i: nat,
    acc: Seq<EntryView>,
)
    requires
        i <= list.len(),
        acc.len() == i,
        forall|k: int| 0 <= k < i ==> entry_of(recs, d, #[trigger] list[k], acc[k]),
    ensures
        match decoded_list(recs, d, list, i, acc) {
            Ok(out) => out.len() == list.len() && forall|k: int|
                0 <= k < list.len() ==> entry_of(recs, d, list[k], #[trigger] out[k]),
            Err(at) => exists|k: int|
                0 <= k < list.len() && (#[trigger] list[k]).1.offset == at && record_at(recs, at)
                    is None && forall|j: int|
                    0 <= j < k ==> record_at(recs, (#[trigger] list[j]).1.offset) is Some,
        },
    decreases list.len() - i,
{
    assert forall|j: int| 0 <= j < i implies record_at(recs, (#[trigger] list[j]).1.offset)
        is Some by {
        assert(entry_of(recs, d, list[j], acc[j]));
    }
    if i < list.len() {
        let (id, m) = list[i as int];
        if let Some(r) = record_at(recs, m.offset) {
            let next = acc.push(
                EntryView {
                    form_id: id,
                    editor_id: edid_of(subs(r.subrecords@)),
                    offset: m.offset,
                    fields: d.fields(r),
                },
            );
            assert forall|k: int| 0 <= k < i + 1 implies entry_of(
                recs,
                d,
                #[trigger] list[k],
                next[k],
            ) by {
                if k < i {
                    assert(next[k] == acc[k]);
                }
            }
            lemma_decoded(recs, d, list, i + 1, next);
        } else {
            assert(list[i as int].1.offset == m.offset);
        }
    } else {
        assert forall|k: int| 0 <= k < list.len() implies entry_of(
            recs,
            d,
            list[k],
            #[trigger] acc[k],
        ) by {
            assert(entry_of(recs, d, list[k], acc[k]));
        }
    }
}

// ── Searches ───────────────────────────────────────────────────────────────
/// The row of an entry that a search finds: its type is one of those asked
/// for, if any are, and the pattern matches its EditorID, or its name or
/// description, as the field asked for says. The name is a string of the file
/// that the entry refers to, or else the text it holds, and so is the
/// description.
pub open spec fn hit_row(
    db: Database,
    list: Seq<(u32, SearchView)>,
    pattern: Seq<char>,
    types: Seq<String>,
    field: SearchField,
) -> spec_fn(int) -> Option<RowView> {
    |i: int|
        {
            let (id, v) = list[i];
            let m = meta_of(db.index.metas(), id);
            let sig = match m {
                Some(m) => m.signature.text(),
                None => Seq::empty(),
            };
            let own = string_at(db.localization, StringKind::Strings, v.full_id);
            let name = if own is Some {
                own
            } else {
                v.full_text
            };
            let told = string_at(db.localization, desc_kind(db, id), v.desc_id);
            let desc = if told is Some {
                told
            } else {
                v.desc_text
            };
            let by_edid = v.editor_id is Some && matches_pattern(pattern, v.editor_id->Some_0);
            let by_name = name is Some && matches_pattern(pattern, name->Some_0);
            let by_desc = desc is Some && matches_pattern(pattern, desc->Some_0);
            let wanted = types.len() == 0 || exists|k: int|
                0 <= k < types.len() && (#[trigger] types[k])@ == sig;
            if wanted && (field != SearchField::Name && by_edid || field != SearchField::Edid && (
            by_name || by_desc)) {
                Some(
                    RowView {
                        form_id: hex8(id),
                        record_type: match m {
                            Some(m) => Some(m.signature.text()),
                            None => None,
                        },
                        editor_id: v.editor_id,
                        name: if field == SearchField::Edid {
                            None
                        } else {
                            name
                        },
                        offset: match m {
                            Some(m) => m.offset,
                            None => 0,
                        },
                    },
                )
            } else {
                None
            }
        }
}

proof fn lemma_found(
    db: Database,
    list: Seq<(u32, SearchView)>,
    pattern: Seq<char>,
    types: Seq<String>,
    field: SearchField,
    n: nat,
)
    requires
        n <= list.len(),
    ensures
        found(db, list, pattern, types, field, n) == picked(
            hit_row(db, list, pattern, types, field),
            n,
        ),
    decreases n,
{
    if n > 0 {
        lemma_found(db, list, pattern, types, field, (n - 1) as nat);
        let f = hit_row(db, list, pattern, types, field);
        let x = f(n - 1);
    }
}

/// A search gives a row for every entry that it finds, in order, and none for
/// any other.
pub proof fn law_search_gives_every_match(
    db: Database,
    list: Seq<(u32, SearchView)>,
    pattern: Seq<char>,
    types: Seq<String>,
    field: SearchField,
)
    ensures
        holds_picks(
            found(db, list, pattern, types, field, list.len()),
            hit_row(db, list, pattern, types, field),
            list.len(),
        ),
{
    lemma_found(db, list, pattern, types, field, list.len());
    let _ = lemma_picked(hit_row(db, list, pattern, types, field), list.len());
}

/// What a record offers to searches: its EditorID, and its name and
/// description, as string ids where the file is localized and as texts where
/// it is not.
pub open spec fn offered(
    t: Metas,
    recs: Map<u64, StoredRecord>,
    localized: bool,
) -> spec_fn(int) -> Option<(u32, SearchView)> {
    |i: int|
        match record_at(recs, t[i].1.offset) {
            Some(r) => {
                let list = subs(r.subrecords@);
                let full = lstring_id_of(list, "FULL"@);
                let desc = lstring_id_of(list, "DESC"@);
                let full_text = inline_string_of(list, "FULL"@);
                let desc_text = inline_string_of(list, "DESC"@);
                let v = SearchView {
                    editor_id: edid_of(list),
                    full_id: if localized {
                        full
                    } else {
                        None
                    },
                    desc_id: if localized {
                        desc
                    } else {
                        None
                    },
                    full_text: if localized {
                        None
                    } else {
                        full_text
                    },
                    desc_text: if localized {
                        None
                    } else {
                        desc_text
                    },
                };
                let something = edid_of(list) is Some || localized && (full is Some || desc
                    is Some) || !localized && (full_text is Some || desc_text is Some);
                if something {
                    Some((t[i].0, v))
                } else {
                    None
                }
            },
            None => None,
        }
}

proof fn lemma_offered(t: Metas, recs: Map<u64, StoredRecord>, localized: bool, n: nat)
    requires
        n <= t.len(),
    ensures
        search_entries(t, recs, localized, n) == picked(offered(t, recs, localized), n),
    decreases n,
{
    if n > 0 {
        lemma_offered(t, recs, localized, (n - 1) as nat);
    }
}

/// Every record that can be read and offers something can be searched for.
pub proof fn law_every_record_is_searchable(
    t: Metas,
    recs: Map<u64, StoredRecord>,
    localized: bool,
)
    ensures
        holds_picks(
            search_entries(t, recs, localized, t.len()),
            offered(t, recs, localized),
            t.len(),
        ),
{
    lemma_offered(t, recs, localized, t.len());
    let _ = lemma_picked(offered(t, recs, localized), t.len());
}

// ── Lists ──────────────────────────────────────────────────────────────────
/// The list of a type has every record in order with its FormID, its EditorID
/// and the string id of its name; where one cannot be read there is only the
/// place of the first such.
pub proof fn law_list_has_every_record(
    recs: Map<u64, StoredRecord>,
    list: Seq<(FormId, RecordMeta)>,
    n: nat,
)
    requires
        n <= list.len(),
    ensures
        match listed(recs, list, n) {
            Ok(out) => {
                &&& out.len() == n
                &&& forall|k: int|
                    0 <= k < n ==> (record_at(recs, list[k].1.offset) matches Some(r) && (
                    #[trigger] out[k]).form_id == hex8(list[k].0.0) && out[k].editor_id == edid_of(
                        subs(r.subrecords@),
                    ) && out[k].full_lstring_id == match lstring_id_of(
                        subs(r.subrecords@),
                        "FULL"@,
                    ) {
                        Some(x) => Some(hex8(x)),
                        None => None,
                    })
            },
            Err(at) => exists|k: int|
                0 <= k < n && (#[trigger] list[k]).1.offset == at && record_at(recs, at) is None
                    && forall|j: int|
                    0 <= j < k ==> record_at(recs, (#[trigger] list[j]).1.offset) is Some,
        },
    decreases n,
{
    if n > 0 {
        let m = (n - 1) as nat;
        law_list_has_every_record(recs, list, m);
        if let Ok(before) = listed(recs, list, m) {
            assert forall|j: int| 0 <= j < m implies record_at(
                recs,
                (#[trigger] list[j]).1.offset,
            ) is Some by {
                let x = before[j];
            }
            if let Ok(out) = listed(recs, list, n) {
                assert forall|k: int| 0 <= k < m implies #[trigger] out[k] == before[k] by {}
            } else {
                assert(list[m as int].1.offset == list[n - 1].1.offset);
            }
        }
    }
}

/// The rows of records are those of every record in order, each with its
/// FormID, type, EditorID, name and place; where one cannot be read there is
/// only the place of the first such.
pub proof fn law_rows_show_every_record(
    recs: Map<u64, StoredRecord>,
    strings: Option<Localization>,
    list: Seq<(FormId, RecordMeta)>,
    n: nat,
)
    requires
        n <= list.len(),
    ensures
        match rows(recs, strings, list, n) {
            Ok(out) => {
                &&& out.len() == n
                &&& forall|k: int|
                    0 <= k < n ==> (record_at(recs, list[k].1.offset) matches Some(r) && (
                    #[trigger] out[k]).form_id == hex8(list[k].0.0) && out[k].record_type == Some(
                        list[k].1.signature.text(),
                    ) && out[k].editor_id == edid_of(subs(r.subrecords@)) && out[k].name
                        == string_at(
                        strings,
                        StringKind::Strings,
                        lstring_id_of(subs(r.subrecords@), "FULL"@),
                    ) && out[k].offset == list[k].1.offset)
            },
            Err(at) => exists|k: int|
                0 <= k < n && (#[trigger] list[k]).1.offset == at && record_at(recs, at) is None
                    && forall|j: int|
                    0 <= j < k ==> record_at(recs, (#[trigger] list[j]).1.offset) is Some,
        },
    decreases n,
{
    if n > 0 {
        let m = (n - 1) as nat;
        law_rows_show_every_record(recs, strings, list, m);
        if let Ok(before) = rows(recs, strings, list, m) {
            assert forall|j: int| 0 <= j < m implies record_at(
                recs,
                (#[trigger] list[j]).1.offset,
            ) is Some by {
                let x = before[j];
            }
            if let Ok(out) = rows(recs, strings, list, n) {
                assert forall|k: int| 0 <= k < m implies #[trigger] out[k] == before[k] by {}
            } else {
                assert(list[m as int].1.offset == list[n - 1].1.offset);
            }
        }
    }
}

// ── Indexes ────────────────────────────────────────────────────────────────
/// Where records share a FormID, the last of them has it.
pub proof fn law_last_record_has_the_formid(list: Seq<(FormId, RecordMeta)>, n: nat, k: int)
    requires
        0 <= k < n <= list.len(),
        forall|j: int| k < j < n ==> (#[trigger] list[j]).0 != list[k].0,
    ensures
        latest(list, n).contains_key(list[k].0.0),
        latest(list, n)[list[k].0.0] == list[k].1,
    decreases n,
{
    if k < n - 1 {
        assert(list[n - 1].0 != list[k].0);
        law_last_record_has_the_formid(list, (n - 1) as nat, k);
    }
}

/// A FormID that no record has is not known.
pub proof fn law_other_formids_are_unknown(list: Seq<(FormId, RecordMeta)>, n: nat, id: u32)
    requires
        n <= list.len(),
        forall|j: int| 0 <= j < n ==> (#[trigger] list[j]).0.0 != id,
    ensures
        !latest(list, n).contains_key(id),
    decreases n,
{
    if n > 0 {
        assert(list[n - 1].0.0 != id);
        law_other_formids_are_unknown(list, (n - 1) as nat, id);
    }
}

/// Where records share an EditorID, it leads to the last of them; one that no
/// record has leads nowhere.
pub proof fn law_editor_id_leads_to_the_last(
    entries: Seq<(Seq<char>, u32)>,
    edid: Seq<char>,
    n: nat,
)
    requires
        n <= entries.len(),
    ensures
        match last_edid(entries, edid, n) {
            Some(id) => exists|k: int|
                0 <= k < n && (#[trigger] entries[k]) == (edid, id) && forall|j: int|
                    k < j < n ==> (#[trigger] entries[j]).0 != edid,
            None => forall|j: int| 0 <= j < n ==> (#[trigger] entries[j]).0 != edid,
        },
    decreases n,
{
    if n > 0 {
        law_editor_id_leads_to_the_last(entries, edid, (n - 1) as nat);
        if entries[n - 1].0 == edid {
            assert(entries[n - 1] == (edid, entries[n - 1].1));
        } else if let Some(id) = last_edid(entries, edid, (n - 1) as nat) {
            let k = choose|k: int|
                0 <= k < n - 1 && (#[trigger] entries[k]) == (edid, id) && forall|j: int|
                    k < j < n - 1 ==> (#[trigger] entries[j]).0 != edid;
            assert(entries[k] == (edid, id));
        }
    }
}

/// The EditorID of a record that has one.
pub open spec fn titled(t: Metas, recs: Map<u64, StoredRecord>) -> spec_fn(int) -> Option<
    (Seq<char>, u32),
> {
    |i: int|
        match record_at(recs, t[i].1.offset) {
            Some(r) => match edid_of(subs(r.subrecords@)) {
                Some(e) => Some((e, t[i].0)),
                None => None,
            },
            None => None,
        }
}

proof fn lemma_titled(t: Metas, recs: Map<u64, StoredRecord>, i: nat, acc: Seq<(Seq<char>, u32)>)
    requires
        i <= t.len(),
        acc == picked(titled(t, recs), i),
    ensures
        edid_entries(t, recs, i, acc) matches Ok(out) ==> out == picked(titled(t, recs), t.len()),
    decreases t.len() - i,
{
    if i < t.len() {
        let f = titled(t, recs);
        let x = f(i as int);
        let next = picked(f, i + 1);
        if let Some(r) = record_at(recs, t[i as int].1.offset) {
            lemma_titled(t, recs, i + 1, next);
        }
    }
}

/// Every record that has an EditorID is indexed by it, in order.
pub proof fn law_every_editor_id_is_indexed(t: Metas, recs: Map<u64, StoredRecord>)
    ensures
        edid_entries(t, recs, 0, Seq::empty()) matches Ok(out) ==> holds_picks(
            out,
            titled(t, recs),
            t.len(),
        ),
{
    lemma_titled(t, recs, 0, Seq::empty());
    let _ = lemma_picked(titled(t, recs), t.len());
}

} // verus!
