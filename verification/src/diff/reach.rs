//! What reaches the report of a comparison: a field that an author replaced
//! is always there, and what is left out is noise.
use crate::database::Database;
use crate::decode::context::{NoResolver, ResolveDepth};
use crate::decode::laws::law_decoded_is_ordered;
use crate::diff::array_diff::{diff, from_to, no_diff};
use crate::diff::calibrate::{
    calibrated, calibrated_changes, child_path, found_defaults, suppressible, undefaulted,
    undefaulted_fields,
};
use crate::diff::databases::{
    common, comparison, float_texts, left_out, quiet_changes, verdict, Verdict,
};
use crate::diff::edits::{law_edits_survive_gates, law_edits_survive_restamp, some_edit};
use crate::diff::laws::{among, field_diff, law_difference_by_key, law_noise_fields_go};
use crate::diff::noise::{
    explained, is_leaf, noise_fields, unexplained, without_gated, without_noise,
};
use crate::diff::report::{Counts, DiffOptions, DiffView};
use crate::diff::restamp::{
    restamped, restamped_fields, unpadded, unpadded_fields, without_padding, zeroed_blob,
};
use crate::json::{
    get, has_key, key_index, lemma_key_index, nothing, obj1, obj2, put, same, slot, Entries, Json,
};
use crate::order::{
    keys_increase, law_get_after_put, law_put_keeps_order, law_text_order_irreflexive,
};
use crate::reader::{subs, ParsedRecord, RecordMeta};
use crate::schema::{lookup, MemberDef};
use crate::settle::{answer_views, settled};
use crate::text::{hex8, text_lt};
use vstd::prelude::*;

verus! {

// ── Fields, one by one ─────────────────────────────────────────────────────
/// What `f` makes of the first `n` fields of an object; where it makes nothing
/// of one the field goes.
pub open spec fn each_field(
    o: Entries,
    f: spec_fn(Seq<char>, Json) -> Option<Json>,
    n: nat,
) -> Entries
    decreases n,
{
    if n == 0 || n > o.len() {
        nothing()
    } else {
        let before = each_field(o, f, (n - 1) as nat);
        match f(o[n - 1].0, o[n - 1].1) {
            Some(w) => before.push((o[n - 1].0, w)),
            None => before,
        }
    }
}

proof fn lemma_get_push(o: Entries, e: (Seq<char>, Json), k: Seq<char>)
    ensures
        get(o.push(e), k) == if get(o, k) is Some {
            get(o, k)
        } else if e.0 == k {
            Some(e.1)
        } else {
            None
        },
    decreases o.len(),
{
    let all = o.push(e);
    if o.len() == 0 {
        assert(all[0] == e);
        assert(all.drop_first() =~= nothing());
        assert(get(all.drop_first(), k) is None);
    } else {
        assert(all[0] == o[0]);
        assert(all.drop_first() =~= o.drop_first().push(e));
        lemma_get_push(o.drop_first(), e, k);
    }
}

proof fn lemma_each_field(
    o: Entries,
    f: spec_fn(Seq<char>, Json) -> Option<Json>,
    n: nat,
    k: Seq<char>,
)
    requires
        keys_increase(o),
        n <= o.len(),
    ensures
        keys_increase(each_field(o, f, n)),
        forall|i: int|
            0 <= i < each_field(o, f, n).len() ==> among(o, (#[trigger] each_field(o, f, n)[i]).0, n),
        get(each_field(o, f, n), k) == if among(o, k, n) {
            f(k, get(o, k)->0)
        } else {
            None
        },
    decreases n,
{
    if n > 0 {
        let m = (n - 1) as nat;
        lemma_each_field(o, f, m, k);
        let before = each_field(o, f, m);
        let after = each_field(o, f, n);
        let (key, v) = o[n - 1];
        assert(get(o, key) == Some(v)) by {
            lemma_key_index(o, key);
            let p = key_index(o, key);
            if p < n - 1 {
                law_text_order_irreflexive(key);
            }
        }
        if let Some(w) = f(key, v) {
            lemma_get_push(before, (key, w), k);
            assert forall|i: int, j: int| 0 <= i < j < after.len() implies text_lt(
                (#[trigger] after[i]).0,
                (#[trigger] after[j]).0,
            ) by {
                assert(after[i] == before[i]);
                if j < before.len() {
                    assert(after[j] == before[j]);
                } else {
                    assert(among(o, before[i].0, m));
                    let h = choose|h: int| 0 <= h < m && (#[trigger] o[h]).0 == before[i].0;
                    assert(text_lt(o[h].0, o[n - 1].0));
                }
            }
        }
        assert forall|i: int| 0 <= i < after.len() implies among(o, (#[trigger] after[i]).0, n) by {
            if i < before.len() {
                assert(after[i] == before[i]);
                assert(among(o, before[i].0, m));
                let h = choose|h: int| 0 <= h < m && (#[trigger] o[h]).0 == before[i].0;
                assert(0 <= h < n && o[h].0 == after[i].0);
            } else {
                assert(o[n - 1].0 == after[i].0);
            }
        }
        if among(o, k, m) {
            let h = choose|h: int| 0 <= h < m && (#[trigger] o[h]).0 == k;
            assert(0 <= h < n && o[h].0 == k);
            assert(among(o, k, n));
            if k == key {
                assert(text_lt(o[h].0, o[n - 1].0));
                law_text_order_irreflexive(k);
            }
        } else if k == key {
            assert(o[n - 1].0 == k);
            assert(among(o, k, n));
        } else if among(o, k, n) {
            let h = choose|h: int| 0 <= h < n && (#[trigger] o[h]).0 == k;
            assert(0 <= h < m);
        }
    }
}

proof fn lemma_each_field_get(o: Entries, f: spec_fn(Seq<char>, Json) -> Option<Json>, k: Seq<char>)
    requires
        keys_increase(o),
    ensures
        keys_increase(each_field(o, f, o.len())),
        get(each_field(o, f, o.len()), k) == match get(o, k) {
            Some(v) => f(k, v),
            None => None,
        },
{
    lemma_each_field(o, f, o.len(), k);
    lemma_key_index(o, k);
    let p = key_index(o, k);
    if p < o.len() {
        assert(o[p].0 == k);
        assert(among(o, k, o.len()));
    } else if among(o, k, o.len()) {
        let h = choose|h: int| 0 <= h < o.len() && (#[trigger] o[h]).0 == k;
        assert(o[h].0 != k);
    }
}

/// What the schema leaves of a field.
spec fn gated_field(members: Seq<MemberDef>, a: u16, b: u16) -> spec_fn(Seq<char>, Json) -> Option<
    Json,
> {
    |k: Seq<char>, v: Json|
        if explained(members, k, v, a, b) {
            None
        } else {
            Some(v)
        }
}

/// What re-saving leaves of a field.
spec fn restamped_field(sig: Seq<char>) -> spec_fn(Seq<char>, Json) -> Option<Json> {
    |k: Seq<char>, v: Json|
        if restamped(v, sig, k).1 {
            None
        } else {
            Some(restamped(v, sig, k).0)
        }
}

/// What is left of a field without defaults.
spec fn undefaulted_field(set: Seq<(Seq<char>, Json)>) -> spec_fn(Seq<char>, Json) -> Option<Json> {
    |k: Seq<char>, v: Json|
        if undefaulted(v, child_path(Seq::empty(), k, v), set).1 {
            None
        } else {
            Some(undefaulted(v, child_path(Seq::empty(), k, v), set).0)
        }
}

/// What is left of a field without zeroed padding.
spec fn unpadded_field() -> spec_fn(Seq<char>, Json) -> Option<Json> {
    |k: Seq<char>, v: Json|
        if unpadded(v).2 {
            None
        } else {
            Some(unpadded(v).0)
        }
}

proof fn lemma_gated_is_each(o: Entries, members: Seq<MemberDef>, a: u16, b: u16, n: nat)
    ensures
        unexplained(o, members, a, b, n) == each_field(o, gated_field(members, a, b), n),
    decreases n,
{
    if 0 < n <= o.len() {
        lemma_gated_is_each(o, members, a, b, (n - 1) as nat);
    }
}

proof fn lemma_restamped_is_each(o: Entries, sig: Seq<char>, n: nat)
    ensures
        restamped_fields(o, sig, n) == each_field(o, restamped_field(sig), n),
    decreases n,
{
    if 0 < n <= o.len() {
        lemma_restamped_is_each(o, sig, (n - 1) as nat);
    }
}

proof fn lemma_undefaulted_is_each(o: Entries, set: Seq<(Seq<char>, Json)>, n: nat)
    ensures
        undefaulted_fields(o, Seq::empty(), set, n) == each_field(o, undefaulted_field(set), n),
    decreases n,
{
    if 0 < n <= o.len() {
        lemma_undefaulted_is_each(o, set, (n - 1) as nat);
    }
}

proof fn lemma_unpadded_is_each(o: Entries, n: nat)
    ensures
        unpadded_fields(o, -1, n).0 == each_field(o, unpadded_field(), n),
    decreases n,
{
    if 0 < n <= o.len() {
        lemma_unpadded_is_each(o, (n - 1) as nat);
    }
}

// ── A replaced value ───────────────────────────────────────────────────────
/// Whether a change says that `x` was replaced by `y`, and nothing else.
pub open spec fn replaced(v: Json, x: Json, y: Json) -> bool {
    v matches Json::Obj(o) && o.len() == 2 && get(o, "from"@) == Some(x) && get(o, "to"@) == Some(y)
}

proof fn lemma_names()
    ensures
        "from"@ != "to"@,
        "from"@ != "_array_diff"@,
        "to"@ != "_array_diff"@,
        "from"@ != "hex"@,
        "to"@ != "hex"@,
{
    reveal_strlit("from");
    reveal_strlit("to");
    reveal_strlit("_array_diff");
    reveal_strlit("hex");
    assert("from"@.len() == 4 && "to"@.len() == 2 && "_array_diff"@.len() == 11 && "hex"@.len()
        == 3);
}

proof fn lemma_put_len(o: Entries, k: Seq<char>, v: Json)
    requires
        get(o, k) is None,
        0 <= slot(o, k) <= o.len(),
    ensures
        put(o, k, v).len() == o.len() + 1,
{
    let i = slot(o, k);
    if i < o.len() && o[i].0 == k {
        lemma_key_index(o, k);
        assert(key_index(o, k) <= i);
    }
}

proof fn lemma_from_to(x: Json, y: Json)
    ensures
        replaced(from_to(x, y), x, y),
        ({
            let o = obj2("from"@, x, "to"@, y);
            &&& keys_increase(o)
            &&& is_leaf(o)
            &&& get(o, "_array_diff"@) is None
            &&& get(o, "hex"@) is None
            &&& forall|i: int| 0 <= i < o.len() ==> (#[trigger] o[i]).1 == x || o[i].1 == y
        }),
{
    lemma_names();
    let none = nothing();
    assert(keys_increase(none));
    let one = obj1("from"@, x);
    law_put_keeps_order(none, "from"@, x);
    law_get_after_put(none, "from"@, x, "from"@);
    law_get_after_put(none, "from"@, x, "to"@);
    law_get_after_put(none, "from"@, x, "_array_diff"@);
    law_get_after_put(none, "from"@, x, "hex"@);
    assert(one.len() == 1);
    assert(one[0] == ("from"@, x));
    law_put_keeps_order(one, "to"@, y);
    law_get_after_put(one, "to"@, y, "from"@);
    law_get_after_put(one, "to"@, y, "to"@);
    law_get_after_put(one, "to"@, y, "_array_diff"@);
    law_get_after_put(one, "to"@, y, "hex"@);
    assert(one.drop_first() =~= none);
    assert(0 <= slot(one, "to"@) <= 1) by {
        reveal_with_fuel(slot, 3);
    }
    lemma_put_len(one, "to"@, y);
}

/// A replacement has the value before and the value after, and nothing else.
pub proof fn law_from_to(x: Json, y: Json)
    ensures
        replaced(from_to(x, y), x, y),
{
    lemma_from_to(x, y);
}

proof fn lemma_no_key(o: Entries, k: Seq<char>)
    requires
        get(o, k) is None,
    ensures
        key_index(o, k) == o.len(),
        !has_key(o, k),
{
    lemma_key_index(o, k);
}

/// A value that was replaced by another is noise to no stage.
proof fn lemma_replaced_stays(
    k: Seq<char>,
    x: Json,
    y: Json,
    members: Seq<MemberDef>,
    a: u16,
    b: u16,
    sig: Seq<char>,
)
    requires
        x != Json::Null,
        y != Json::Null,
    ensures
        !explained(members, k, from_to(x, y), a, b),
        restamped(from_to(x, y), sig, k) == (from_to(x, y), false),
{
    lemma_from_to(x, y);
    let o = obj2("from"@, x, "to"@, y);
    lemma_no_key(o, "_array_diff"@);
}

proof fn lemma_replaced_is_no_default(
    k: Seq<char>,
    x: Json,
    y: Json,
    path: Seq<char>,
    set: Seq<(Seq<char>, Json)>,
)
    requires
        x != Json::Null,
        y != Json::Null,
    ensures
        undefaulted(from_to(x, y), path, set) == (from_to(x, y), false),
{
    lemma_from_to(x, y);
    let o = obj2("from"@, x, "to"@, y);
    lemma_no_key(o, "_array_diff"@);
}

proof fn lemma_replaced_is_no_padding(x: Json, y: Json)
    requires
        !(x is Obj),
        !(y is Obj),
    ensures
        unpadded(from_to(x, y)).0 == from_to(x, y),
        !unpadded(from_to(x, y)).2,
        unpadded(from_to(x, y)).1 == 0,
{
    lemma_from_to(x, y);
    let o = obj2("from"@, x, "to"@, y);
    lemma_no_key(o, "_array_diff"@);
    lemma_no_key(o, "hex"@);
    assert(!zeroed_blob(from_to(x, y)));
    assert(unpadded(o[0].1) == (o[0].1, 0nat, false));
    assert(unpadded(o[1].1) == (o[1].1, 0nat, false));
    reveal_with_fuel(unpadded_fields, 3);
    let rest = unpadded_fields(o, -1, 2).0;
    assert(unpadded_fields(o, -1, 0).0 =~= nothing());
    assert(rest =~= o);
}

// ── Decoded fields ─────────────────────────────────────────────────────────
proof fn lemma_settled_keys(o: Entries, answers: Seq<(Json, Json)>)
    requires
        keys_increase(o),
    ensures
        settled(Json::Obj(o), answers) matches Json::Obj(p) && keys_increase(p),
{
    let p = settled(Json::Obj(o), answers)->Obj_0;
    assert forall|i: int, j: int| 0 <= i < j < p.len() implies text_lt(
        (#[trigger] p[i]).0,
        (#[trigger] p[j]).0,
    ) by {
        assert(p[i].0 == o[i].0 && p[j].0 == o[j].0);
    }
}

/// The fields of a decoded record are an object with increasing names.
pub proof fn law_fields_are_ordered(db: Database, r: ParsedRecord)
    ensures
        db.result_of(r, ResolveDepth::Plain).fields matches Json::Obj(o) && keys_increase(o),
{
    let e = db.how().env(r.header.form_version);
    law_decoded_is_ordered::<NoResolver>(
        e,
        db.schema,
        r.header.signature@,
        subs(r.subrecords@),
    );
    let d = decoded_of(db, r);
    lemma_settled_keys(d->Obj_0, answer_views(db.answers@));
    let s = settled(d, answer_views(db.answers@));
    assert(db.how().fields(r) == s);
    if let Some(c) = db.curves {
        if let Some(curve) = crate::curves::curve_of(c.curves@, r.header.form_id.0) {
            law_put_keeps_order(
                s->Obj_0,
                "Curve"@,
                Json::Arr(crate::curves::points_json(curve.points@)),
            );
        }
    }
}

/// A record decoded without its references followed.
spec fn decoded_of(db: Database, r: ParsedRecord) -> Json {
    crate::decode::meaning::decoded(
        db.how().env(r.header.form_version),
        *db.how().schema,
        r.header.signature@,
        subs(r.subrecords@),
    )
}

// ── The verdict on a record ────────────────────────────────────────────────
/// Whether two versions of a record are compared field by field: both can be
/// read, they are stored differently, and their type is not left out.
pub open spec fn compared(
    a: Database,
    b: Database,
    opts: DiffOptions,
    ma: RecordMeta,
    mb: RecordMeta,
) -> bool {
    &&& !left_out(opts.exclude_types@, ma.signature.text())
    &&& !left_out(opts.exclude_types@, mb.signature.text())
    &&& a.esm.records@.contains_key(ma.offset)
    &&& b.esm.records@.contains_key(mb.offset)
    &&& a.esm.records@[ma.offset].payload@ != b.esm.records@[mb.offset].payload@
    &&& a.esm.at(ma.offset) is Some
    &&& b.esm.at(mb.offset) is Some
}

/// The fields of the record at a place of a plugin.
pub open spec fn fields_at(db: Database, m: RecordMeta) -> Entries {
    db.result_of(db.esm.at(m.offset)->0, ResolveDepth::Plain).fields->Obj_0
}

/// Whether a field of a type is left out as noise by its name alone.
pub open spec fn noise_by_name(opts: DiffOptions, m: RecordMeta, k: Seq<char>) -> bool {
    opts.suppress_noise && noise_fields(m.signature.text()).contains(k)
}

proof fn lemma_differences(a: Database, b: Database, ma: RecordMeta, mb: RecordMeta, k: Seq<char>)
    requires
        a.esm.at(ma.offset) is Some,
        b.esm.at(mb.offset) is Some,
    ensures
        ({
            let d = diff(
                Json::Obj(fields_at(a, ma)),
                Json::Obj(fields_at(b, mb)),
                float_texts(a, b),
            );
            &&& a.result_of(a.esm.at(ma.offset)->0, ResolveDepth::Plain).fields == Json::Obj(
                fields_at(a, ma),
            )
            &&& b.result_of(b.esm.at(mb.offset)->0, ResolveDepth::Plain).fields == Json::Obj(
                fields_at(b, mb),
            )
            &&& d is Obj
            &&& keys_increase(d->Obj_0)
            &&& get(d->Obj_0, k) == field_diff(
                get(fields_at(a, ma), k),
                get(fields_at(b, mb), k),
                float_texts(a, b),
            )
        }),
{
    law_fields_are_ordered(a, a.esm.at(ma.offset)->0);
    law_fields_are_ordered(b, b.esm.at(mb.offset)->0);
    law_difference_by_key(fields_at(a, ma), fields_at(b, mb), k, float_texts(a, b));
}

/// Whether a field was replaced: each version has a value in it that is not
/// null, the values differ, and they are not compared part by part.
pub open spec fn field_replaced(x: Option<Json>, y: Option<Json>) -> bool {
    match (x, y) {
        (Some(x), Some(y)) => x != Json::Null && y != Json::Null && !same(x, y) && !(x is Obj
            && y is Obj) && !(x is Arr && y is Arr),
        _ => false,
    }
}

proof fn lemma_quiet_field(
    d: Json,
    a: Database,
    b: Database,
    opts: DiffOptions,
    ma: RecordMeta,
    mb: RecordMeta,
    k: Seq<char>,
)
    requires
        d is Obj,
        keys_increase(d->Obj_0),
    ensures
        ({
            let q = quiet_changes(d, b, opts, ma, mb);
            &&& q is Obj
            &&& keys_increase(q->Obj_0)
            &&& noise_by_name(opts, mb, k) ==> get(q->Obj_0, k) is None
            &&& get(d->Obj_0, k) is None ==> get(q->Obj_0, k) is None
            &&& !noise_by_name(opts, mb, k) && (!opts.suppress_noise || ma.form_version
                == mb.form_version) ==> get(q->Obj_0, k) == get(d->Obj_0, k)
            &&& forall|x: Json, y: Json|
                x != Json::Null && y != Json::Null && !noise_by_name(opts, mb, k) && get(
                    d->Obj_0,
                    k,
                ) == Some(#[trigger] from_to(x, y)) ==> get(q->Obj_0, k) == Some(from_to(x, y))
        }),
{
    let o = d->Obj_0;
    let sig = mb.signature.text();
    if opts.suppress_noise {
        law_noise_fields_go(o, sig, k);
        let clean = without_noise(d, sig);
        let c = clean->Obj_0;
        if ma.form_version != mb.form_version {
            let gated = without_gated(clean, b.schema, sig, ma.form_version, mb.form_version);
            match lookup(b.schema.records@, sig) {
                Some(def) => {
                    lemma_gated_is_each(
                        c,
                        def.members@,
                        ma.form_version,
                        mb.form_version,
                        c.len(),
                    );
                    lemma_each_field_get(
                        c,
                        gated_field(def.members@, ma.form_version, mb.form_version),
                        k,
                    );
                },
                None => {},
            }
            let g = gated->Obj_0;
            lemma_restamped_is_each(g, sig, g.len());
            lemma_each_field_get(g, restamped_field(sig), k);
            assert forall|x: Json, y: Json|
                x != Json::Null && y != Json::Null && !noise_by_name(opts, mb, k) && get(o, k)
                    == Some(#[trigger] from_to(x, y)) implies get(
                quiet_changes(d, b, opts, ma, mb)->Obj_0,
                k,
            ) == Some(from_to(x, y)) by {
                let members = match lookup(b.schema.records@, sig) {
                    Some(def) => def.members@,
                    None => Seq::empty(),
                };
                lemma_replaced_stays(
                    k,
                    x,
                    y,
                    members,
                    ma.form_version,
                    mb.form_version,
                    sig,
                );
            }
        }
    }
}

proof fn lemma_has_key_nonempty(o: Entries, k: Seq<char>)
    requires
        get(o, k) is Some,
    ensures
        Json::Obj(o) != no_diff(),
{
    assert(o.len() > 0);
}

/// A field that was replaced is reported, with the value before and the value
/// after, whatever the versions of the two files, unless its name alone makes
/// it noise: the record is one of those that changed.
pub proof fn law_replaced_field_is_reported(
    a: Database,
    b: Database,
    opts: DiffOptions,
    id: u32,
    ma: RecordMeta,
    mb: RecordMeta,
    k: Seq<char>,
)
    requires
        compared(a, b, opts, ma, mb),
        field_replaced(get(fields_at(a, ma), k), get(fields_at(b, mb), k)),
        !noise_by_name(opts, mb, k),
    ensures
        verdict(a, b, opts, id, ma, mb) matches Verdict::Changed(d, _) && d.stub.form_id == hex8(id)
            && d.stub.record_type == mb.signature.text() && (d.changes matches Json::Obj(o) && (get(
            o,
            k,
        ) matches Some(v) && replaced(v, get(fields_at(a, ma), k)->0, get(
            fields_at(b, mb),
            k,
        )->0))),
{
    let x = get(fields_at(a, ma), k)->0;
    let y = get(fields_at(b, mb), k)->0;
    let fl = float_texts(a, b);
    lemma_differences(a, b, ma, mb, k);
    let d = diff(Json::Obj(fields_at(a, ma)), Json::Obj(fields_at(b, mb)), fl);
    assert(diff(x, y, fl) == from_to(x, y));
    lemma_from_to(x, y);
    assert(from_to(x, y) != no_diff());
    assert(get(d->Obj_0, k) == Some(from_to(x, y)));
    lemma_quiet_field(d, a, b, opts, ma, mb, k);
    lemma_has_key_nonempty(d->Obj_0, k);
    let q = quiet_changes(d, b, opts, ma, mb);
    lemma_has_key_nonempty(q->Obj_0, k);
}

/// Where both versions were saved alike, or noise is not suppressed, the
/// changes of a record are exactly the differences of its fields, but for the
/// fields that are noise by name; the record changed where there is one.
pub proof fn law_same_version_reports_every_field(
    a: Database,
    b: Database,
    opts: DiffOptions,
    id: u32,
    ma: RecordMeta,
    mb: RecordMeta,
    k: Seq<char>,
)
    requires
        compared(a, b, opts, ma, mb),
        !opts.suppress_noise || ma.form_version == mb.form_version,
    ensures
        ({
            let change = field_diff(
                get(fields_at(a, ma), k),
                get(fields_at(b, mb), k),
                float_texts(a, b),
            );
            &&& change is Some && !noise_by_name(opts, mb, k) ==> verdict(
                a,
                b,
                opts,
                id,
                ma,
                mb,
            ) is Changed
            &&& verdict(a, b, opts, id, ma, mb) matches Verdict::Changed(d, r) ==> !r
                && d.changes is Obj && get(d.changes->Obj_0, k) == if noise_by_name(opts, mb, k) {
                None
            } else {
                change
            }
        }),
{
    lemma_differences(a, b, ma, mb, k);
    let d = diff(Json::Obj(fields_at(a, ma)), Json::Obj(fields_at(b, mb)), float_texts(a, b));
    lemma_quiet_field(d, a, b, opts, ma, mb, k);
    let q = quiet_changes(d, b, opts, ma, mb);
    if get(d->Obj_0, k) is Some {
        lemma_has_key_nonempty(d->Obj_0, k);
    }
    if get(q->Obj_0, k) is Some {
        lemma_has_key_nonempty(q->Obj_0, k);
    }
}

/// No change is made up: a field of a changed record differs between its
/// versions, and no field is noise by name.
pub proof fn law_reported_fields_differ(
    a: Database,
    b: Database,
    opts: DiffOptions,
    id: u32,
    ma: RecordMeta,
    mb: RecordMeta,
    k: Seq<char>,
)
    requires
        verdict(a, b, opts, id, ma, mb) is Changed,
    ensures
        compared(a, b, opts, ma, mb),
        ({
            let d = verdict(a, b, opts, id, ma, mb)->Changed_0;
            d.changes is Obj && (get(d.changes->Obj_0, k) is Some ==> !noise_by_name(opts, mb, k)
                && field_diff(
                get(fields_at(a, ma), k),
                get(fields_at(b, mb), k),
                float_texts(a, b),
            ) is Some)
        }),
{
    lemma_differences(a, b, ma, mb, k);
    let d = diff(Json::Obj(fields_at(a, ma)), Json::Obj(fields_at(b, mb)), float_texts(a, b));
    lemma_quiet_field(d, a, b, opts, ma, mb, k);
}

/// A record whose differences hold an edit, however deep, is one of those that
/// changed, whatever the versions of the two files; and its changes still hold
/// an edit.
pub proof fn law_edits_reach_the_verdict(
    a: Database,
    b: Database,
    opts: DiffOptions,
    id: u32,
    ma: RecordMeta,
    mb: RecordMeta,
)
    requires
        compared(a, b, opts, ma, mb),
        ({
            let d = diff(
                Json::Obj(fields_at(a, ma)),
                Json::Obj(fields_at(b, mb)),
                float_texts(a, b),
            );
            let clean = if opts.suppress_noise {
                without_noise(d, mb.signature.text())
            } else {
                d
            };
            clean matches Json::Obj(o) && some_edit(o, o.len())
        }),
    ensures
        verdict(a, b, opts, id, ma, mb) matches Verdict::Changed(d, _) && (d.changes matches Json::Obj(
            o,
        ) && some_edit(o, o.len())),
{
    lemma_differences(a, b, ma, mb, Seq::empty());
    let d = diff(Json::Obj(fields_at(a, ma)), Json::Obj(fields_at(b, mb)), float_texts(a, b));
    lemma_quiet_edit(d, b, opts, ma, mb);
}

proof fn lemma_quiet_edit(
    d: Json,
    b: Database,
    opts: DiffOptions,
    ma: RecordMeta,
    mb: RecordMeta,
)
    requires
        d is Obj,
        opts.suppress_noise ==> (without_noise(d, mb.signature.text()) matches Json::Obj(o)
            && some_edit(o, o.len())),
        !opts.suppress_noise ==> some_edit(d->Obj_0, d->Obj_0.len()),
    ensures
        d != no_diff(),
        quiet_changes(d, b, opts, ma, mb) != no_diff(),
        quiet_changes(d, b, opts, ma, mb) matches Json::Obj(o) && some_edit(o, o.len()),
{
    let sig = mb.signature.text();
    if opts.suppress_noise {
        let clean = without_noise(d, sig);
        let c = clean->Obj_0;
        assert(c.len() > 0);
        if d == no_diff() {
            assert(keys_increase(nothing()));
            law_noise_fields_go(nothing(), sig, c[0].0);
            lemma_key_index(c, c[0].0);
            assert(key_index(c, c[0].0) == 0);
        }
        if ma.form_version != mb.form_version {
            if let Some(def) = lookup(b.schema.records@, sig) {
                law_edits_survive_gates(
                    c,
                    def.members@,
                    ma.form_version,
                    mb.form_version,
                    c.len(),
                );
            }
            let gated = without_gated(clean, b.schema, sig, ma.form_version, mb.form_version);
            law_edits_survive_restamp(gated->Obj_0, sig);
        }
    } else {
        assert(d->Obj_0.len() > 0);
    }
    let o = quiet_changes(d, b, opts, ma, mb)->Obj_0;
    assert(some_edit(o, o.len()));
    assert(o.len() > 0);
}

// ── The report ─────────────────────────────────────────────────────────────
proof fn lemma_calibrated_field(v: Json, set: Seq<(Seq<char>, Json)>, k: Seq<char>, x: Json, y: Json)
    requires
        v is Obj,
        keys_increase(v->Obj_0),
        get(v->Obj_0, k) == Some(from_to(x, y)),
        x != Json::Null,
        y != Json::Null,
        !(x is Obj),
        !(y is Obj),
    ensures
        calibrated_changes(v, set) matches Json::Obj(o) && get(o, k) == Some(from_to(x, y)),
{
    let o = v->Obj_0;
    lemma_unpadded_is_each(o, o.len());
    lemma_each_field_get(o, unpadded_field(), k);
    lemma_replaced_is_no_padding(x, y);
    let u = without_padding(v).0->Obj_0;
    assert(get(u, k) == Some(from_to(x, y)));
    lemma_undefaulted_is_each(u, set, u.len());
    lemma_each_field_get(u, undefaulted_field(set), k);
    lemma_replaced_is_no_default(
        k,
        x,
        y,
        child_path(Seq::empty(), k, from_to(x, y)),
        set,
    );
}

/// Whether a report has a record under its FormID and says that its field was
/// replaced.
pub open spec fn reports(list: Seq<DiffView>, id: u32, k: Seq<char>, x: Json, y: Json) -> bool {
    exists|i: int|
        0 <= i < list.len() && (#[trigger] list[i]).stub.form_id == hex8(id)
            && list[i].changes is Obj && (get(list[i].changes->Obj_0, k) matches Some(v)
            && replaced(v, x, y))
}

proof fn lemma_calibrated_reports(
    changed: Seq<DiffView>,
    restamp: Seq<bool>,
    counts: Counts,
    set: Seq<(Seq<char>, Json)>,
    n: nat,
    i: int,
    k: Seq<char>,
    x: Json,
    y: Json,
)
    requires
        0 <= i < n <= changed.len(),
        changed[i].changes is Obj,
        keys_increase(changed[i].changes->Obj_0),
        get(changed[i].changes->Obj_0, k) == Some(from_to(x, y)),
        x != Json::Null,
        y != Json::Null,
        !(x is Obj),
        !(y is Obj),
    ensures
        ({
            let kept = calibrated(changed, restamp, counts, set, n).kept;
            exists|j: int|
                0 <= j < kept.len() && (#[trigger] kept[j]).stub == changed[i].stub
                    && kept[j].changes is Obj && get(kept[j].changes->Obj_0, k) == Some(
                    from_to(x, y),
                )
        }),
    decreases n,
{
    let before = calibrated(changed, restamp, counts, set, (n - 1) as nat).kept;
    let kept = calibrated(changed, restamp, counts, set, n).kept;
    if i < n - 1 {
        lemma_calibrated_reports(changed, restamp, counts, set, (n - 1) as nat, i, k, x, y);
        let j = choose|j: int|
            0 <= j < before.len() && (#[trigger] before[j]).stub == changed[i].stub
                && before[j].changes is Obj && get(before[j].changes->Obj_0, k) == Some(
                from_to(x, y),
            );
        assert(kept[j] == before[j]);
    } else {
        lemma_calibrated_field(changed[i].changes, set, k, x, y);
        let rest = calibrated_changes(changed[i].changes, set);
        lemma_has_key_nonempty(rest->Obj_0, k);
        let last = kept[kept.len() - 1];
        assert(last.stub == changed[i].stub);
    }
}

proof fn lemma_common_holds(a: Database, b: Database, opts: DiffOptions, h: int, n: nat)
    requires
        0 <= h < n <= a.index.metas().len(),
        crate::index::meta_of(b.index.metas(), a.index.metas()[h].0) is Some,
        verdict(
            a,
            b,
            opts,
            a.index.metas()[h].0,
            a.index.metas()[h].1,
            crate::index::meta_of(b.index.metas(), a.index.metas()[h].0)->0,
        ) is Changed,
    ensures
        common(a, b, opts, n).changed.contains(
            verdict(
                a,
                b,
                opts,
                a.index.metas()[h].0,
                a.index.metas()[h].1,
                crate::index::meta_of(b.index.metas(), a.index.metas()[h].0)->0,
            )->Changed_0,
        ),
    decreases n,
{
    let t = a.index.metas();
    let mb = crate::index::meta_of(b.index.metas(), t[h].0)->0;
    let d = verdict(a, b, opts, t[h].0, t[h].1, mb)->Changed_0;
    let list = common(a, b, opts, n).changed;
    if h < n - 1 {
        lemma_common_holds(a, b, opts, h, (n - 1) as nat);
        let before = common(a, b, opts, (n - 1) as nat).changed;
        let i = choose|i: int| 0 <= i < before.len() && before[i] == d;
        assert(list[i] == d);
    } else {
        assert(list[list.len() - 1] == d);
    }
}

/// A field that was replaced reaches the report: where both plugins have a
/// record, and one of its fields was replaced and is not noise by name, the
/// report has the record among those that changed, with the value before and
/// the value after, whatever the versions of the two files.
pub proof fn law_replaced_field_reaches_the_report(
    a: Database,
    b: Database,
    opts: DiffOptions,
    h: int,
    mb: RecordMeta,
    k: Seq<char>,
)
    requires
        0 <= h < a.index.metas().len(),
        crate::index::meta_of(b.index.metas(), a.index.metas()[h].0) == Some(mb),
        compared(a, b, opts, a.index.metas()[h].1, mb),
        field_replaced(get(fields_at(a, a.index.metas()[h].1), k), get(fields_at(b, mb), k)),
        !(get(fields_at(a, a.index.metas()[h].1), k)->0 is Obj),
        !(get(fields_at(b, mb), k)->0 is Obj),
        !noise_by_name(opts, mb, k),
    ensures
        reports(
            comparison(a, b, opts).changed,
            a.index.metas()[h].0,
            k,
            get(fields_at(a, a.index.metas()[h].1), k)->0,
            get(fields_at(b, mb), k)->0,
        ),
{
    let t = a.index.metas();
    let (id, ma) = t[h];
    let x = get(fields_at(a, ma), k)->0;
    let y = get(fields_at(b, mb), k)->0;
    let fl = float_texts(a, b);
    law_replaced_field_is_reported(a, b, opts, id, ma, mb, k);
    lemma_differences(a, b, ma, mb, k);
    let d = diff(Json::Obj(fields_at(a, ma)), Json::Obj(fields_at(b, mb)), fl);
    assert(diff(x, y, fl) == from_to(x, y));
    lemma_from_to(x, y);
    assert(from_to(x, y) != no_diff());
    lemma_quiet_field(d, a, b, opts, ma, mb, k);
    let view = verdict(a, b, opts, id, ma, mb)->Changed_0;
    assert(get(view.changes->Obj_0, k) == Some(from_to(x, y)));
    lemma_common_holds(a, b, opts, h, t.len());
    let f = common(a, b, opts, t.len());
    let i = choose|i: int| 0 <= i < f.changed.len() && f.changed[i] == view;
    let set = suppressible(found_defaults(f.changed, opts.restamp_default_min_count as int));
    lemma_calibrated_reports(
        f.changed,
        f.restamp,
        f.counts,
        set,
        f.changed.len(),
        i,
        k,
        x,
        y,
    );
    let list = comparison(a, b, opts).changed;
    if opts.suppress_noise && f.restamp.contains(true) {
        let kept = calibrated(f.changed, f.restamp, f.counts, set, f.changed.len()).kept;
        assert(list == kept);
        let j = choose|j: int|
            0 <= j < kept.len() && (#[trigger] kept[j]).stub == f.changed[i].stub
                && kept[j].changes is Obj && get(kept[j].changes->Obj_0, k) == Some(
                from_to(x, y),
            );
        assert(list[j].stub.form_id == hex8(id));
    } else {
        assert(list == f.changed);
        assert(list[i].stub.form_id == hex8(id));
    }
}

} // verus!
