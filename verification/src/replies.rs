//! What replies to operations hold.
use crate::answers::{
    hit_row, law_filter_gives_every_match, law_list_has_every_record, law_page_items,
    law_rows_show_every_record, law_search_gives_every_match, passing,
};
use crate::carriers::{tags_of, CarrierKind, HitView, TagView};
use crate::curves::{curve_of, CurvePoint};
use crate::database::Database;
use crate::decode::context::ResolveDepth;
use crate::decode::rules::bash_table;
use crate::dispatch::{op_answer, Op, Reply};
use crate::filter::{FilterOp, Numbers, SearchField};
use crate::json::{get, obj1, Json};
use crate::listing::{list_views, page, row_views, ListEntry, RecordRow, RowView};
use crate::order::law_get_after_put;
use crate::picks::{holds_picks, lemma_picked, picked};
use crate::query::{filtered, FilterResult};
use crate::reader::{edid_of, subs, ParsedRecord};
use crate::schema::opt_text;
use crate::text::{hex8, texts, uppercase};
use vstd::prelude::*;

verus! {

// ── Lists of records ───────────────────────────────────────────────────────
/// The rows of a type are those of its records from the offset on, as many as
/// the limit says, or all with a limit of zero.
pub proof fn law_rows_of_a_type(
    db: Database,
    sig: String,
    offset: usize,
    limit: usize,
    nums: Numbers,
    out: Vec<RecordRow>,
    i: int,
)
    requires
        op_answer(
            db,
            Op::ListTypeRecords { sig, offset, limit },
            nums,
            Ok(Reply::Rows(out)),
        ),
        db.index.by_type(sig@).len() <= usize::MAX,
        0 <= i,
    ensures
        i < out@.len() <==> offset + i < db.index.by_type(sig@).len() && (limit == 0 || i < limit),
        i < out@.len() ==> {
            let row = out@[i]@;
            let (id, m) = db.index.by_type(sig@)[offset + i];
            &&& row.form_id == hex8(id.0)
            &&& row.record_type == Some(m.signature.text())
            &&& row.offset == m.offset
            &&& db.esm.at(m.offset) matches Some(r) && row.editor_id == edid_of(
                subs(r.subrecords@),
            )
        },
{
    let all = db.index.by_type(sig@);
    let list = page(all, offset as int, limit as int);
    law_page_items(all, offset as nat, limit as nat, i);
    law_rows_show_every_record(db.esm.records@, db.localization, list, list.len());
    assert(row_views(out@).len() == out@.len());
    if i < out@.len() {
        assert(row_views(out@)[i] == out@[i]@);
    }
}

/// The list of a type has its records from the first on, as many as the limit
/// says, or all with a limit of zero.
pub proof fn law_list_of_a_type(
    db: Database,
    sig: String,
    limit: usize,
    nums: Numbers,
    out: Vec<ListEntry>,
    i: int,
)
    requires
        op_answer(db, Op::ListByType { sig, limit }, nums, Ok(Reply::List(out))),
        db.index.by_type(sig@).len() <= usize::MAX,
        0 <= i,
    ensures
        i < out@.len() <==> i < db.index.by_type(sig@).len() && (limit == 0 || i < limit),
        i < out@.len() ==> {
            let e = out@[i]@;
            let (id, m) = db.index.by_type(sig@)[i];
            &&& e.form_id == hex8(id.0)
            &&& db.esm.at(m.offset) matches Some(r) && e.editor_id == edid_of(subs(r.subrecords@))
        },
{
    let all = db.index.by_type(sig@);
    let list = page(all, 0, limit as int);
    law_page_items(all, 0, limit as nat, i);
    law_list_has_every_record(db.esm.records@, list, list.len());
    assert(list_views(out@).len() == out@.len());
    if i < out@.len() {
        assert(list_views(out@)[i] == out@[i]@);
    }
}

/// A filter tells how many records it looked at, how many met the condition,
/// and the first of these as rows, as many as the limit says, or all with a
/// limit of zero.
pub proof fn law_filter_reply(
    db: Database,
    sig: String,
    path: Option<String>,
    filter_op: FilterOp,
    value: Option<String>,
    limit: usize,
    nums: Numbers,
    f: FilterResult,
) -> (all: Seq<RowView>)
    requires
        op_answer(
            db,
            Op::FilterTypeRecords { sig, path, filter_op, value, limit },
            nums,
            Ok(Reply::Filter(f)),
        ),
        db.scan(uppercase(sig@)) is Ok,
    ensures
        ({
            let (total, entries) = db.scan(uppercase(sig@))->Ok_0;
            &&& holds_picks(
                all,
                passing(
                    entries,
                    uppercase(sig@),
                    opt_text(path),
                    filter_op,
                    opt_text(value),
                    nums,
                ),
                entries.len(),
            )
            &&& f.matched == all.len()
            &&& f.scanned == entries.len()
            &&& f.total == total
            &&& f.capped <==> f.rows@.len() < f.matched
            &&& f.scan_capped <==> f.scanned < f.total
            &&& all.len() <= usize::MAX ==> f.rows@.len() == if limit == 0 || all.len() <= limit {
                all.len() as int
            } else {
                limit as int
            }
            &&& forall|i: int| 0 <= i < f.rows@.len() ==> (#[trigger] f.rows@[i])@ == all[i]
        }),
{
    let (total, entries) = db.scan(uppercase(sig@))->Ok_0;
    let p = opt_text(path);
    let v = opt_text(value);
    let all = filtered(entries, uppercase(sig@), p, filter_op, v, nums, entries.len());
    law_filter_gives_every_match(entries, uppercase(sig@), p, filter_op, v, nums);
    let shown = page(all, 0, limit as int);
    assert(row_views(f.rows@).len() == f.rows@.len());
    assert forall|i: int| 0 <= i < f.rows@.len() implies (#[trigger] f.rows@[i])@ == all[i] by {
        assert(row_views(f.rows@)[i] == f.rows@[i]@);
        assert(shown[i] == all[i]);
    }
    all
}

/// A search gives the first of what it finds among all entries, as many as the
/// limit says, or all with a limit of zero; the types asked for are taken in
/// upper case.
pub proof fn law_search_reply(
    db: Database,
    pattern: String,
    types: Vec<String>,
    field: SearchField,
    limit: usize,
    nums: Numbers,
    out: Vec<RecordRow>,
) -> (r: (Seq<String>, Seq<RowView>))
    requires
        op_answer(
            db,
            Op::Search { pattern, types, field, limit },
            nums,
            Ok(Reply::Rows(out)),
        ),
    ensures
        pattern@.len() > 0,
        ({
            let (up, all) = r;
            &&& up.len() == types@.len()
            &&& forall|k: int| 0 <= k < up.len() ==> (#[trigger] up[k])@ == uppercase(types@[k]@)
            &&& holds_picks(
                all,
                hit_row(db, db.searched(), pattern@, up, field),
                db.searched().len(),
            )
            &&& all.len() <= usize::MAX ==> out@.len() == if limit == 0 || all.len() <= limit {
                all.len() as int
            } else {
                limit as int
            }
            &&& forall|i: int| 0 <= i < out@.len() ==> (#[trigger] out@[i])@ == all[i]
        }),
{
    let list = db.searched();
    let up = choose|up: Seq<String>| #[trigger]
        texts(up) == texts(types@).map_values(|t: Seq<char>| uppercase(t)) && row_views(out@)
            == page(
            crate::listing::found(db, list, pattern@, up, field, list.len()),
            0,
            limit as int,
        );
    let all = crate::listing::found(db, list, pattern@, up, field, list.len());
    law_search_gives_every_match(db, list, pattern@, up, field);
    assert(texts(up).len() == up.len());
    assert(texts(types@).len() == types@.len());
    assert forall|k: int| 0 <= k < up.len() implies (#[trigger] up[k])@ == uppercase(
        types@[k]@,
    ) by {
        assert(texts(up)[k] == up[k]@);
        assert(texts(types@)[k] == types@[k]@);
    }
    let shown = page(all, 0, limit as int);
    assert(row_views(out@).len() == out@.len());
    assert forall|i: int| 0 <= i < out@.len() implies (#[trigger] out@[i])@ == all[i] by {
        assert(row_views(out@)[i] == out@[i]@);
        assert(shown[i] == all[i]);
    }
    (up, all)
}

// ── Records ────────────────────────────────────────────────────────────────
/// A decoded record has its header, its EditorID and its fields; that of a
/// curve has the points of the curve besides.
pub proof fn law_decoded_record(db: Database, r: ParsedRecord, depth: ResolveDepth, k: Seq<char>)
    ensures
        ({
            let v = db.result_of(r, depth);
            let fields = db.decoded_fields(r, depth);
            let curve = match db.curves {
                Some(c) => curve_of(c.curves@, r.header.form_id.0),
                None => None,
            };
            &&& v.header == r.header@
            &&& v.editor_id == edid_of(subs(r.subrecords@))
            &&& if r.header.signature@ == "CURV"@ && curve is Some && fields is Obj {
                &&& v.fields is Obj
                &&& get(v.fields->Obj_0, "Curve"@) matches Some(Json::Arr(points)) && points.len()
                    == curve->Some_0.points@.len() && forall|i: int|
                    0 <= i < points.len() ==> shows_point(
                        #[trigger] points[i],
                        curve->Some_0.points@[i],
                    )
                &&& k != "Curve"@ ==> get(v.fields->Obj_0, k) == get(fields->Obj_0, k)
            } else {
                v.fields == fields
            }
        }),
{
    if let Json::Obj(o) = db.decoded_fields(r, depth) {
        if let Some(c) = db.curves {
            if let Some(curve) = curve_of(c.curves@, r.header.form_id.0) {
                let points = crate::curves::points_json(curve.points@);
                law_get_after_put(o, "Curve"@, Json::Arr(points), "Curve"@);
                law_get_after_put(o, "Curve"@, Json::Arr(points), k);
                assert forall|i: int| 0 <= i < points.len() implies shows_point(
                    #[trigger] points[i],
                    curve.points@[i],
                ) by {
                    lemma_point(curve.points@[i]);
                }
            }
        }
    }
}

/// Whether a value shows a point of a curve: both coordinates as numbers, or
/// as nothing where they are not finite.
pub open spec fn shows_point(v: Json, p: CurvePoint) -> bool {
    v matches Json::Obj(o) && get(o, "x"@) == Some(shown_number(p.x)) && get(o, "y"@) == Some(
        shown_number(p.y),
    )
}

/// A single-precision number, or nothing where all bits of its exponent are
/// set.
pub open spec fn shown_number(bits: u32) -> Json {
    if (bits / 0x80_0000) % 256 == 255 {
        Json::Null
    } else {
        Json::Float(bits)
    }
}

proof fn lemma_point(p: CurvePoint)
    ensures
        shows_point(crate::curves::point_json(p), p),
{
    reveal_strlit("x");
    reveal_strlit("y");
    assert("x"@[0] == 'x' && "y"@[0] == 'y');
    let one = crate::json::put(Seq::empty(), "x"@, shown_number(p.x));
    law_get_after_put(Seq::empty(), "x"@, shown_number(p.x), "x"@);
    law_get_after_put(one, "y"@, shown_number(p.y), "x"@);
    law_get_after_put(one, "y"@, shown_number(p.y), "y"@);
}

/// The bash damage of a weapon has a row for every level where the curve is
/// positive and the weapon is eligible, and else says why there is none.
pub proof fn law_bash_damage_rows(positive: bool, eligible: bool, rows: Seq<(u32, u32)>)
    ensures
        !positive ==> bash_table(positive, eligible, rows) == Json::Obj(
            obj1("source"@, Json::Str("curve_zero_reference"@)),
        ),
        positive && !eligible ==> bash_table(positive, eligible, rows) == Json::Obj(
            obj1("source"@, Json::Str("ineligible"@)),
        ),
        positive && eligible ==> (bash_table(positive, eligible, rows) matches Json::Obj(o) && get(
            o,
            "source"@,
        ) == Some(Json::Str("curve"@)) && (get(o, "curve"@) matches Some(Json::Arr(list))
            && list.len() == rows.len() && forall|i: int|
            0 <= i < list.len() ==> shows_row(#[trigger] list[i], rows[i]))),
{
    if positive && eligible {
        reveal_strlit("source");
        reveal_strlit("curve");
        assert("source"@.len() == 6 && "curve"@.len() == 5);
        let list = rows.map_values(|r: (u32, u32)| crate::decode::rules::bash_row(r));
        let c = Json::Str("curve"@);
        let one = crate::json::put(Seq::empty(), "source"@, c);
        law_get_after_put(Seq::empty(), "source"@, c, "source"@);
        law_get_after_put(one, "curve"@, Json::Arr(list), "source"@);
        law_get_after_put(one, "curve"@, Json::Arr(list), "curve"@);
        assert forall|i: int| 0 <= i < list.len() implies shows_row(#[trigger] list[i], rows[i]) by {
            lemma_row(rows[i]);
        }
    }
}

/// Whether a value shows a level and the damage at it.
pub open spec fn shows_row(v: Json, row: (u32, u32)) -> bool {
    v matches Json::Obj(o) && get(o, "level"@) == Some(shown_number(row.0)) && get(o, "damage"@)
        == Some(shown_number(row.1))
}

proof fn lemma_row(row: (u32, u32))
    ensures
        shows_row(crate::decode::rules::bash_row(row), row),
{
    reveal_strlit("level");
    reveal_strlit("damage");
    assert("level"@.len() == 5 && "damage"@.len() == 6);
    let one = crate::json::put(Seq::empty(), "level"@, shown_number(row.0));
    law_get_after_put(Seq::empty(), "level"@, shown_number(row.0), "level"@);
    law_get_after_put(one, "damage"@, shown_number(row.1), "level"@);
    law_get_after_put(one, "damage"@, shown_number(row.1), "damage"@);
}

// ── Tags ───────────────────────────────────────────────────────────────────
/// The tag of a match; of several matches of one entry point only the first
/// has one.
pub open spec fn tag_at(kind: CarrierKind, set: Seq<HitView>) -> spec_fn(int) -> Option<TagView> {
    |i: int|
        if kind == CarrierKind::EntryPoint && i > 0 && set[i - 1].id == set[i].id {
            None
        } else {
            Some(
                TagView {
                    kind,
                    id: set[i].id,
                    name: set[i].name,
                    scope: match set[i].scope {
                        Some(s) => Some(s.tag()),
                        None => None,
                    },
                },
            )
        }
}

proof fn lemma_tags(kind: CarrierKind, set: Seq<HitView>, n: nat)
    requires
        n <= set.len(),
    ensures
        tags_of(kind, set, n) == picked(tag_at(kind, set), n),
    decreases n,
{
    if n > 0 {
        lemma_tags(kind, set, (n - 1) as nat);
        let f = tag_at(kind, set);
        let x = f(n - 1);
    }
}

/// Every match of a record gives its tag, in order.
pub proof fn law_every_match_is_tagged(kind: CarrierKind, set: Seq<HitView>)
    ensures
        holds_picks(tags_of(kind, set, set.len()), tag_at(kind, set), set.len()),
{
    lemma_tags(kind, set, set.len());
    let _ = lemma_picked(tag_at(kind, set), set.len());
}

} // verus!
