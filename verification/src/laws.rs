//! What holds across modules.
use crate::database::{
    decoded_in_order, entries_increase, entry_views, Database, EntryView, FilterCacheEntry,
};
use crate::error::Error;
use crate::format::{tag_bytes, Signature};
use crate::filter::{FilterOp, Numbers};
use crate::formid::{law_display_order, lemma_fixed_hex_value, FormId};
use crate::index::{law_by_type_increases, type_key, Decoding};
use crate::ipc::{sel_answer, SelView};
use crate::listing::page;
use crate::query::{cached, decoded_list, filtered, scanned, FILTER_SCAN_CAP};
use crate::reader::{record_at, RecordMeta, StoredRecord};
use crate::text::{fixed_hex, hex8, hex_of, text_lt};
use vstd::prelude::*;
use vstd::utf8::*;

verus! {

/// Bytes in hexadecimal take two digits each.
pub proof fn law_hex_length(data: Seq<u8>)
    ensures
        hex_of(data).len() == 2 * data.len(),
    decreases data.len(),
{
    if data.len() > 0 {
        law_hex_length(data.drop_last());
        reveal_with_fuel(fixed_hex, 3);
    }
}

/// Different bytes read differently in hexadecimal.
pub proof fn law_hex_injective(a: Seq<u8>, b: Seq<u8>)
    requires
        hex_of(a) == hex_of(b),
    ensures
        a == b,
    decreases a.len(),
{
    law_hex_length(a);
    law_hex_length(b);
    if a.len() > 0 {
        let ha = hex_of(a.drop_last());
        let hb = hex_of(b.drop_last());
        law_hex_length(a.drop_last());
        law_hex_length(b.drop_last());
        let ta = fixed_hex(a.last() as nat, 2, false);
        let tb = fixed_hex(b.last() as nat, 2, false);
        let n = ha.len();
        assert(hex_of(a).take(n as int) =~= ha);
        assert(hex_of(b).take(n as int) =~= hb);
        assert(hex_of(a).skip(n as int) =~= ta);
        assert(hex_of(b).skip(n as int) =~= tb);
        law_hex_injective(a.drop_last(), b.drop_last());
        assert(vstd::arithmetic::power::pow(16, 2) == 256) by {
            reveal(vstd::arithmetic::power::pow);
            reveal_with_fuel(vstd::arithmetic::power::pow, 3);
        }
        lemma_fixed_hex_value(a.last() as nat, 2, false);
        lemma_fixed_hex_value(b.last() as nat, 2, false);
        assert(a =~= a.drop_last().push(a.last()));
        assert(b =~= b.drop_last().push(b.last()));
    } else {
        assert(a =~= b);
    }
}

/// A type's text leads back to the type, where the type is text at all.
pub proof fn law_type_text_names_type(sig: Signature)
    requires
        valid_utf8(sig.0@),
    ensures
        type_key(sig.text()) == sig.0@,
{
    decode_utf8_encode_utf8(sig.0@);
    assert(tag_bytes(sig.0@) =~= sig.0@);
}

/// A page is a stretch of the list; it is no longer than its limit, and a
/// limit of zero is none.
pub proof fn law_page<T>(list: Seq<T>, offset: nat, limit: nat)
    requires
        list.len() <= usize::MAX,
    ensures
        limit > 0 ==> page(list, offset as int, limit as int).len() <= limit,
        offset == 0 && limit == 0 ==> page(list, 0, 0) == list,
        offset == 0 ==> page(list, 0, limit as int).is_prefix_of(list),
        offset <= list.len() && limit == 0 ==> page(list, offset as int, 0) == list.skip(
            offset as int,
        ),
{
    assert(page(list, 0, 0) =~= list);
    assert(page(list, 0, limit as int) =~= list.take(page(list, 0, limit as int).len() as int));
    if offset <= list.len() {
        assert(page(list, offset as int, 0) =~= list.skip(offset as int));
    }
}

proof fn lemma_decoded_ids(
    recs: Map<u64, StoredRecord>,
    d: Decoding<'_>,
    list: Seq<(FormId, RecordMeta)>,
    i: nat,
    acc: Seq<EntryView>,
)
    requires
        acc.len() == i <= list.len(),
        forall|k: int| 0 <= k < i ==> (#[trigger] acc[k]).form_id == list[k].0,
    ensures
        decoded_list(recs, d, list, i, acc) matches Ok(out) ==> out.len() == list.len() && forall|
            k: int,
        |
            0 <= k < list.len() ==> (#[trigger] out[k]).form_id == list[k].0,
    decreases list.len() - i,
{
    if i < list.len() {
        let (id, m) = list[i as int];
        if let Some(r) = record_at(recs, m.offset) {
            lemma_decoded_ids(
                recs,
                d,
                list,
                i + 1,
                acc.push(
                    EntryView {
                        form_id: id,
                        editor_id: crate::reader::edid_of(crate::reader::subs(r.subrecords@)),
                        offset: m.offset,
                        fields: d.fields(r),
                    },
                ),
            );
        }
    }
}

proof fn lemma_cached_from(
    cache: Seq<(String, (usize, Vec<FilterCacheEntry>))>,
    sig: Seq<char>,
) -> (i: int)
    requires
        cached(cache, sig) is Some,
    ensures
        0 <= i < cache.len(),
        cache[i].0@ == sig,
        cached(cache, sig) == Some((cache[i].1.0 as int, entry_views(cache[i].1.1@))),
    decreases cache.len(),
{
    if cache[0].0@ == sig {
        0
    } else {
        let i = lemma_cached_from(cache.drop_first(), sig);
        assert(cache.drop_first()[i] == cache[i + 1]);
        i + 1
    }
}

/// Filters look at all records of a type, or at the first of them where there
/// are too many, in the order of their FormIDs.
pub proof fn law_scan_is_capped(db: Database, sig: Seq<char>)
    requires
        db.wf(),
    ensures
        db.scan(sig) matches Ok((total, entries)) ==> {
            &&& total == db.index.by_type(sig).len()
            &&& entries.len() == scanned(total)
            &&& entries.len() <= total
            &&& entries.len() <= FILTER_SCAN_CAP
            &&& entries_increase(entries)
        },
{
    if cached(db.filter_cache@, sig) is Some {
        let i = lemma_cached_from(db.filter_cache@, sig);
        assert(decoded_in_order(db.index, db.filter_cache@[i]));
    } else {
        let all = db.index.by_type(sig);
        let list = all.take(scanned(all.len() as int));
        law_by_type_increases(db.index.metas(), type_key(sig), db.index.metas().len());
        lemma_decoded_ids(db.esm.records@, db.how(), list, 0, Seq::empty());
        if let Ok((total, entries)) = db.scan(sig) {
            assert forall|a: int, b: int| 0 <= a < b < entries.len() implies (
            #[trigger] entries[a]).form_id.0 < (#[trigger] entries[b]).form_id.0 by {
                assert(list[a] == all[a] && list[b] == all[b]);
            }
        }
    }
}

/// A filter matches no more records than it looks at, and gives them in the
/// order of their FormIDs.
pub proof fn law_filter_is_sorted(
    entries: Seq<EntryView>,
    sig: Seq<char>,
    path: Option<Seq<char>>,
    op: FilterOp,
    value: Option<Seq<char>>,
    nums: Numbers,
    n: nat,
)
    requires
        entries_increase(entries),
        n <= entries.len(),
    ensures
        ({
            let rows = filtered(entries, sig, path, op, value, nums, n);
            &&& rows.len() <= n
            &&& forall|i: int|
                0 <= i < rows.len() ==> exists|k: int|
                    0 <= k < n && (#[trigger] rows[i]).form_id == hex8(
                        (#[trigger] entries[k]).form_id.0,
                    )
            &&& forall|i: int, j: int|
                0 <= i < j < rows.len() ==> text_lt(
                    (#[trigger] rows[i]).form_id,
                    (#[trigger] rows[j]).form_id,
                )
        }),
    decreases n,
{
    if n > 0 {
        let m = (n - 1) as nat;
        law_filter_is_sorted(entries, sig, path, op, value, nums, m);
        let before = filtered(entries, sig, path, op, value, nums, m);
        let rows = filtered(entries, sig, path, op, value, nums, n);
        assert forall|i: int| 0 <= i < rows.len() implies exists|k: int|
            0 <= k < n && (#[trigger] rows[i]).form_id == hex8(
                (#[trigger] entries[k]).form_id.0,
            ) by {
            if i < before.len() {
                assert(rows[i] == before[i]);
                let k = choose|k: int|
                    0 <= k < m && before[i].form_id == hex8((#[trigger] entries[k]).form_id.0);
                assert(rows[i].form_id == hex8(entries[k].form_id.0));
            } else {
                assert(rows[i].form_id == hex8(entries[n - 1].form_id.0));
            }
        }
        assert forall|i: int, j: int| 0 <= i < j < rows.len() implies text_lt(
            (#[trigger] rows[i]).form_id,
            (#[trigger] rows[j]).form_id,
        ) by {
            assert(rows[i] == before[i]);
            if j < before.len() {
                assert(rows[j] == before[j]);
            } else {
                let k = choose|k: int|
                    0 <= k < m && before[i].form_id == hex8((#[trigger] entries[k]).form_id.0);
                law_display_order(entries[k].form_id, entries[n - 1].form_id);
            }
        }
    }
}

/// What is built to answer a question changes no later answer.
pub proof fn law_kept_answers_are_kept_replies(before: Database, after: Database)
    requires
        after.same_answers(before) || after.same_scans(before),
    ensures
        after.same_replies(before),
{
}

/// A record goes before a form of the game itself with the same EditorID.
pub proof fn law_records_go_first(db: Database, edid: Seq<char>, r: Result<FormId, Error>)
    requires
        db.named(edid) is Some,
        sel_answer(db, SelView::Edid(edid), r),
    ensures
        r matches Ok(id) && Some(id) == db.named(edid),
{
}

} // verus!
