//! What a whole record decodes to, and how its groups and unions are read.
use crate::decode::context::{resolved, Env, FormIdRefResolver, ResolveDepth};
use crate::decode::meaning::{
    choose_by_field, choose_by_number, decoded, edid_char, element_scope, groups, leftover,
    leftovers, lstring, member, member_choice, put_all_unique, record_env, table_kind,
};
use crate::decode::order::{law_every_member_is_decoded, members_in_turn, Moment};
use crate::decode::scalars::{field_key, field_uint, first_above, le_uint, version_choice};
use crate::decode::scope::{anchor_of, stops};
use crate::decode::shape::{bearing, stored};
use crate::decode::vmad::{vmad, vmad_by_flags, vmad_perk, vmad_qust, vmad_scen};
use crate::json::{get, nothing, obj2, obj3, obj4, put, Entries, Json};
use crate::order::law_get_after_put;
use crate::reader::{inline_text, Sub};
use crate::schema::{lookup, BitChoice, LStringTable, MemberDef, RecordDef, Schema, UnionDecider};
use crate::strings::StringKind;
use crate::text::{decimal, hex8, hex_of};
use vstd::prelude::*;

verus! {

// ── What is left over ──────────────────────────────────────────────────────
/// A subrecord as it is shown where no member took it.
pub open spec fn shown_leftover(s: Sub) -> Json {
    Json::Obj(
        obj3(
            "signature"@,
            Json::Str(s.sig),
            "hex"@,
            Json::Str(hex_of(s.data)),
            "_raw"@,
            Json::Bool(true),
        ),
    )
}

/// Subrecords as they are shown where no member took them.
pub open spec fn shown_leftovers(list: Seq<Sub>) -> Seq<Json> {
    Seq::new(list.len(), |i: int| shown_leftover(list[i]))
}

/// Under each signature stand exactly the subrecords with it that no member
/// took, in their order, with all their bytes.
pub proof fn law_leftovers_by_signature(pool: Seq<Sub>, n: nat, sig: Seq<char>)
    requires
        n <= pool.len(),
    ensures
        get(leftovers(pool, n), sig) == if bearing(pool, sig, n).len() == 0 {
            None
        } else {
            Some(Json::Arr(shown_leftovers(bearing(pool, sig, n))))
        },
    decreases n,
{
    if n > 0 {
        law_leftovers_by_signature(pool, (n - 1) as nat, sig);
        let o = leftovers(pool, (n - 1) as nat);
        let s = pool[n - 1];
        law_leftovers_by_signature(pool, (n - 1) as nat, s.sig);
        let before = match get(o, s.sig) {
            Some(Json::Arr(list)) => list,
            _ => Seq::empty(),
        };
        law_get_after_put(o, s.sig, Json::Arr(before.push(leftover(s))), sig);
        let was = bearing(pool, s.sig, (n - 1) as nat);
        let now = bearing(pool, s.sig, n);
        assert(now == was.push(s));
        assert(before =~= shown_leftovers(was));
        assert(before.push(leftover(s)) =~= shown_leftovers(now));
    }
}

// ── Records ────────────────────────────────────────────────────────────────
/// A record whose type the schema does not know says so, and shows all its
/// subrecords.
pub proof fn law_unknown_record_shows_all<R: FormIdRefResolver>(
    e: Env<R>,
    schema: Schema,
    sig: Seq<char>,
    list: Seq<Sub>,
    s: Seq<char>,
)
    requires
        lookup(schema.records@, sig) is None,
        sig != "WEAP"@,
        list.len() > 0,
    ensures
        decoded(e, schema, sig, list) matches Json::Obj(o) && {
            &&& get(o, "_record_type"@) == Some(Json::Str(sig))
            &&& get(o, "_unknown_record"@) == Some(Json::Bool(true))
            &&& get(o, "_unmapped"@) matches Some(Json::Obj(m)) && get(m, s) == if bearing(
                list,
                s,
                list.len(),
            ).len() == 0 {
                None
            } else {
                Some(Json::Arr(shown_leftovers(bearing(list, s, list.len()))))
            }
        },
{
    reveal_strlit("_record_type");
    reveal_strlit("_unknown_record");
    reveal_strlit("_unmapped");
    assert("_record_type"@.len() == 12 && "_unknown_record"@.len() == 15 && "_unmapped"@.len()
        == 9);
    law_leftovers_by_signature(list, list.len(), s);
    let a = put(nothing(), "_record_type"@, Json::Str(sig));
    let b = put(a, "_unknown_record"@, Json::Bool(true));
    let m = Json::Obj(leftovers(list, list.len()));
    law_get_after_put(nothing(), "_record_type"@, Json::Str(sig), "_record_type"@);
    law_get_after_put(a, "_unknown_record"@, Json::Bool(true), "_record_type"@);
    law_get_after_put(a, "_unknown_record"@, Json::Bool(true), "_unknown_record"@);
    law_get_after_put(b, "_unmapped"@, m, "_record_type"@);
    law_get_after_put(b, "_unmapped"@, m, "_unknown_record"@);
    law_get_after_put(b, "_unmapped"@, m, "_unmapped"@);
}

/// A record whose type the schema knows is what its members give, every one of
/// them in the order of the schema, and with the subrecords that none of them
/// took.
pub proof fn law_known_record_decodes_every_member<R: FormIdRefResolver>(
    e: Env<R>,
    schema: Schema,
    sig: Seq<char>,
    list: Seq<Sub>,
    def: RecordDef,
    k: Seq<char>,
) -> (at: Seq<Moment>)
    requires
        lookup(schema.records@, sig) == Some(def),
        sig != "WEAP"@,
    ensures
        members_in_turn(
            Env { record: Some(sig), edid: edid_char(list), outer: at_outer(e, sig, list), ..e },
            def.members,
            0,
            at,
        ),
        at[0] == (Moment {
            out: put(nothing(), "_record_type"@, Json::Str(def.name@)),
            pool: list,
        }),
        decoded(e, schema, sig, list) matches Json::Obj(o) && {
            let last = at[def.members.len() as int];
            &&& last.pool.len() == 0 ==> get(o, k) == get(last.out, k)
            &&& last.pool.len() > 0 ==> get(o, k) == if k == "_unmapped"@ {
                Some(Json::Obj(leftovers(last.pool, last.pool.len())))
            } else {
                get(last.out, k)
            }
        },
{
    let first = put(nothing(), "_record_type"@, Json::Str(def.name@));
    let at = law_every_member_is_decoded(record_env(e, sig, list), def.members, 0, first, list);
    let last = at[def.members.len() as int];
    assert(record_env(e, sig, list) == Env {
        record: Some(sig),
        edid: edid_char(list),
        outer: at_outer(e, sig, list),
        ..e
    });
    if last.pool.len() > 0 {
        law_get_after_put(
            last.out,
            "_unmapped"@,
            Json::Obj(leftovers(last.pool, last.pool.len())),
            k,
        );
    }
    at
}

/// The enclosing struct of a record: none, unless the context is that of the
/// record already.
pub open spec fn at_outer<R>(e: Env<R>, sig: Seq<char>, list: Seq<Sub>) -> Option<Entries> {
    if edid_char(list) == e.edid && e.record == Some(sig) {
        e.outer
    } else {
        None
    }
}

// ── Text ───────────────────────────────────────────────────────────────────
/// A text of a file with string tables is the text of the id that its four
/// bytes write, in the table of the field: null for no id, and a marker with
/// the id where no table holds it. In any other file it is the text itself.
pub proof fn law_text_of_a_field<R>(
    e: Env<R>,
    table: LStringTable,
    sig: Seq<char>,
    data: Seq<u8>,
)
    ensures
        !e.localized ==> lstring(e, table, sig, data) == if inline_text(data).len() == 0 {
            Json::Null
        } else {
            Json::Str(inline_text(data))
        },
        e.localized && data.len() < 4 ==> lstring(e, table, sig, data) == Json::Null,
        e.localized && data.len() >= 4 ==> {
            let id = stored(data, 0, 4) as u32;
            let found = match e.strings {
                Some(l) => l.text_of(table_kind(table, e.record, sig), id),
                None => None,
            };
            lstring(e, table, sig, data) == if id == 0 {
                Json::Null
            } else {
                match found {
                    Some(s) => Json::Str(s),
                    None => Json::Obj(
                        obj2("lstring_id"@, Json::Str(hex8(id)), "_unresolved"@, Json::Bool(true)),
                    ),
                }
            }
        },
{
    reveal_with_fuel(stored, 5);
}

/// A description is in the table of long texts, except that of a load screen;
/// so are the log entries of quests and the text of books. Dialogue has a
/// table of its own, except for its prompts. All else is in the first table.
pub proof fn law_table_of_a_text(record: Seq<char>, sig: Seq<char>)
    ensures
        table_kind(LStringTable::Dlstrings, Some(record), sig) == StringKind::DlStrings,
        table_kind(LStringTable::Ilstrings, Some(record), sig) == StringKind::IlStrings,
        sig == "DESC"@ && record != "LSCR"@ ==> table_kind(
            LStringTable::Strings,
            Some(record),
            sig,
        ) == StringKind::DlStrings,
        sig == "DESC"@ && record == "LSCR"@ ==> table_kind(
            LStringTable::Strings,
            Some(record),
            sig,
        ) == StringKind::Strings,
        sig == "CNAM"@ && (record == "QUST"@ || record == "BOOK"@) ==> table_kind(
            LStringTable::Strings,
            Some(record),
            sig,
        ) == StringKind::DlStrings,
        record == "INFO"@ && sig != "RNAM"@ && sig != "DESC"@ ==> table_kind(
            LStringTable::Strings,
            Some(record),
            sig,
        ) == StringKind::IlStrings,
        record == "INFO"@ && sig == "RNAM"@ ==> table_kind(
            LStringTable::Strings,
            Some(record),
            sig,
        ) == StringKind::Strings,
        sig != "DESC"@ && sig != "CNAM"@ && record != "INFO"@ ==> table_kind(
            LStringTable::Strings,
            Some(record),
            sig,
        ) == StringKind::Strings,
{
    reveal_strlit("DESC");
    reveal_strlit("CNAM");
    reveal_strlit("RNAM");
    reveal_strlit("LSCR");
    reveal_strlit("QUST");
    reveal_strlit("BOOK");
    reveal_strlit("INFO");
    assert("DESC"@[0] == 'D' && "CNAM"@[0] == 'C' && "RNAM"@[0] == 'R');
    assert("LSCR"@[0] == 'L' && "QUST"@[0] == 'Q' && "BOOK"@[0] == 'B' && "INFO"@[0] == 'I');
}

// ── References ─────────────────────────────────────────────────────────────
/// A reference is followed as deep as is asked: to a curve, where the field
/// allows one and it is known; to the identity of its target, or to the target
/// in full, where it is known and is not zero; and else it is the FormID as it
/// is shown, or null for zero.
pub proof fn law_reference_is_followed<R: FormIdRefResolver>(e: Env<R>, curv: bool, id: u32)
    requires
        !curv || e.curves is None || !e.curves->Some_0.curves@.contains_key(id),
    ensures
        id == 0 ==> resolved(e, curv, id) == Json::Null,
        id != 0 && (e.depth == ResolveDepth::Plain || e.resolver is None) ==> resolved(e, curv, id)
            == Json::Str(hex8(id)),
        id != 0 && e.depth == ResolveDepth::Stub && e.resolver is Some ==> resolved(e, curv, id)
            == match e.resolver->Some_0.stub_of(id) {
            Some(s) => Json::Obj(
                obj3(
                    "formid"@,
                    Json::Str(s.formid),
                    "editor_id"@,
                    match s.editor_id {
                        Some(t) => Json::Str(t),
                        None => Json::Null,
                    },
                    "record_type"@,
                    Json::Str(s.record_type),
                ),
            ),
            None => Json::Str(hex8(id)),
        },
        id != 0 && e.depth == ResolveDepth::Full && e.resolver is Some ==> resolved(e, curv, id)
            == match e.resolver->Some_0.full_of(id) {
            Some(v) => v,
            None => Json::Str(hex8(id)),
        },
{
}

/// A reference to a known curve, where the field allows one, shows the curve:
/// its EditorID, its path, and all its points.
pub proof fn law_reference_to_a_curve<R: FormIdRefResolver>(e: Env<R>, id: u32)
    requires
        e.curves is Some,
        e.curves->Some_0.curves@.contains_key(id),
    ensures
        ({
            let c = e.curves->Some_0.curves@[id];
            resolved(e, true, id) == Json::Obj(
                obj4(
                    "formid"@,
                    Json::Str(hex8(id)),
                    "editor_id"@,
                    match c.edid {
                        Some(t) => Json::Str(t@),
                        None => Json::Null,
                    },
                    "curve_path"@,
                    Json::Str(c.path@),
                    "curve"@,
                    Json::Arr(
                        Seq::new(
                            c.points@.len(),
                            |i: int|
                                Json::Obj(
                                    obj2(
                                        "x"@,
                                        crate::curves::float_json(c.points@[i].x),
                                        "y"@,
                                        crate::curves::float_json(c.points@[i].y),
                                    ),
                                ),
                        ),
                    ),
                ),
            )
        }),
{
    let c = e.curves->Some_0.curves@[id];
    let shown = Seq::new(
        c.points@.len(),
        |i: int|
            Json::Obj(
                obj2(
                    "x"@,
                    crate::curves::float_json(c.points@[i].x),
                    "y"@,
                    crate::curves::float_json(c.points@[i].y),
                ),
            ),
    );
    assert(crate::curves::points_json(c.points@) =~= shown);
}

// ── Choosing a variant ─────────────────────────────────────────────────────
/// A variant is chosen by the version of the file: the second within a range
/// and the first outside of it; by how many thresholds the version has
/// reached; or the only one, from a version on or below one.
pub proof fn law_choice_by_version(fv: u16, edid: Option<char>, d: UnionDecider, n: int)
    requires
        n >= 2,
    ensures
        d matches UnionDecider::FormVersion { form_version } ==> version_choice(fv, edid, d, n)
            == Some(
            if fv >= form_version.min && (form_version.max is None || fv
                <= form_version.max->Some_0) {
                1int
            } else {
                0int
            },
        ),
        d matches UnionDecider::FromVersion { from_version } ==> version_choice(fv, edid, d, n)
            == if fv >= from_version {
            Some(0int)
        } else {
            None
        },
        d matches UnionDecider::BelowVersion { below_version } ==> version_choice(fv, edid, d, n)
            == if fv < below_version {
            Some(0int)
        } else {
            None
        },
        d matches UnionDecider::FormVersionThresholds { form_version_thresholds } ==> ({
            let t = form_version_thresholds@;
            version_choice(fv, edid, d, n) matches Some(i) && forall|k: int|
                0 <= k < t.len() && k < n - 1 && (forall|j: int| 0 <= j < k ==> t[j] <= fv) && fv
                    < #[trigger] t[k] ==> i == k
        }),
{
    if let UnionDecider::FormVersionThresholds { form_version_thresholds } = d {
        let t = form_version_thresholds@;
        assert forall|k: int|
            0 <= k < t.len() && k < n - 1 && (forall|j: int| 0 <= j < k ==> t[j] <= fv) && fv
                < #[trigger] t[k] implies version_choice(fv, edid, d, n)->Some_0 == k by {
            lemma_first_above(t, fv, k);
        }
    }
}

proof fn lemma_first_above(t: Seq<u16>, v: u16, k: int)
    requires
        0 <= k < t.len(),
        v < t[k],
        forall|j: int| 0 <= j < k ==> t[j] <= v,
    ensures
        first_above(t, v) == k,
    decreases t.len(),
{
    if k > 0 {
        assert(t[0] <= v);
        let rest = t.drop_first();
        assert forall|j: int| 0 <= j < k - 1 implies rest[j] <= v by {
            assert(rest[j] == t[j + 1]);
        }
        lemma_first_above(rest, v, k - 1);
    }
}

/// A field chooses a variant by its value, as a number or as it reads; where
/// masks are given, the first that has a bit in common with it decides, and
/// without either the default does.
pub proof fn law_choice_by_field(
    out: Entries,
    path: Seq<char>,
    map: Seq<(String, usize)>,
    default: Option<usize>,
)
    ensures
        ({
            let none = Seq::<BitChoice>::empty();
            choose_by_field(out, None, path, map, default, none) == match field_key(out, path) {
                Some(k) => match lookup(map, k) {
                    Some(i) => Some(i as int),
                    None => match default {
                        Some(i) => Some(i as int),
                        None => None,
                    },
                },
                None => match default {
                    Some(i) => Some(i as int),
                    None => None,
                },
            }
        }),
        forall|bits: Seq<BitChoice>|
            field_uint(out, path) is Some && bits.len() > 0 && (field_uint(out, path)->Some_0
                as u64) & bits[0].mask != 0 ==> #[trigger] choose_by_field(
                out,
                None,
                path,
                map,
                default,
                bits,
            ) == Some(bits[0].variant as int),
{
}

/// A number in the bytes chooses a variant by how it reads in decimal, and
/// without one the default does.
pub proof fn law_choice_by_bytes(
    data: Seq<u8>,
    at: int,
    map: Seq<(String, usize)>,
    default: Option<usize>,
)
    requires
        0 <= at,
    ensures
        forall|w: int|
            (w == 1 || w == 2 || w == 4 || w == 8) && at + w <= data.len() ==> #[trigger] le_uint(
                data,
                at,
                w,
            ) == Some(stored(data, at, w as nat)),
        forall|n: int| #[trigger]
            choose_by_number(Some(n), map, default) == match lookup(map, decimal(n)) {
                Some(i) => Some(i as int),
                None => match default {
                    Some(i) => Some(i as int),
                    None => None,
                },
            },
{
    reveal_with_fuel(stored, 9);
}

/// A union among the members of a record decodes the variant that was chosen,
/// and puts each of its fields in under a free name.
pub proof fn law_union_decodes_its_variant<R: FormIdRefResolver>(
    e: Env<R>,
    name: String,
    decider: UnionDecider,
    variants: Vec<MemberDef>,
    out: Entries,
    pool: Seq<Sub>,
    payload: Option<Seq<u8>>,
    i: int,
)
    requires
        member_choice(e, decider, variants.len() as int, out, pool, payload) == Some(i),
        0 <= i < variants.len(),
    ensures
        ({
            let m = MemberDef::Union { sig: None, name, decider, variants };
            let (tmp, rest) = member(e, variants@[i], nothing(), pool, payload);
            member(e, m, out, pool, payload) == (
                put_all_unique(out, tmp, name@, tmp.len()),
                rest,
            )
        }),
{
}

// ── Repeated groups ────────────────────────────────────────────────────────
/// An element of a repeated group: where it was read, what it gave, and what
/// it left.
pub ghost struct Element {
    pub next: int,
    pub pool: Seq<Sub>,
}

/// Whether element `k` was read from the `k`-th state to the next, in the
/// scope that its anchor gives, and took a subrecord.
pub open spec fn element_read<R: FormIdRefResolver>(
    e: Env<R>,
    element: MemberDef,
    items: Seq<Json>,
    at: Seq<Element>,
    k: int,
) -> bool {
    let (scope, next) = element_scope(e, element, at[k].pool, at[k].next);
    let (item, rest) = member(scope, element, nothing(), at[k].pool, None);
    &&& items[k] == Json::Obj(item)
    &&& at[k + 1].pool == rest
    &&& at[k + 1].next == next
    &&& rest.len() < at[k].pool.len()
}

/// Whether a repeated group ends before another element.
pub open spec fn group_ends<R: FormIdRefResolver>(
    e: Env<R>,
    element: MemberDef,
    count: Option<int>,
    stop_before: Seq<String>,
    done: int,
    last: Element,
) -> bool {
    ||| count matches Some(n) && done >= n
    ||| stop_before.len() > 0 && anchor_of(element) is Some && stops(
        last.pool,
        anchor_of(element)->Some_0,
        stop_before,
    )
    ||| ({
        let (scope, _) = element_scope(e, element, last.pool, last.next);
        member(scope, element, nothing(), last.pool, None).1.len() >= last.pool.len()
    })
}

/// What `step` gives until `ends` says so or nothing is taken, after `acc`.
spec fn taken_groups(
    step: spec_fn(Element) -> (Json, Element),
    ends: spec_fn(int, Element) -> bool,
    s: Element,
    acc: Seq<Json>,
) -> Seq<Json>
    decreases s.pool.len(),
{
    if ends(acc.len() as int, s) {
        acc
    } else {
        let (x, next) = step(s);
        if next.pool.len() < s.pool.len() {
            taken_groups(step, ends, next, acc.push(x))
        } else {
            acc
        }
    }
}

/// Whether `step` was made from the `k`-th of `at` to the next and gave the
/// `k`-th item.
spec fn stepped(
    step: spec_fn(Element) -> (Json, Element),
    items: Seq<Json>,
    at: Seq<Element>,
    k: int,
) -> bool {
    step(at[k]) == (items[k], at[k + 1]) && at[k + 1].pool.len() < at[k].pool.len()
}

proof fn lemma_taken_groups(
    step: spec_fn(Element) -> (Json, Element),
    ends: spec_fn(int, Element) -> bool,
    s: Element,
    acc: Seq<Json>,
) -> (at: Seq<Element>)
    ensures
        taken_groups(step, ends, s, acc).len() >= acc.len(),
        taken_groups(step, ends, s, acc).take(acc.len() as int) == acc,
        at.len() == taken_groups(step, ends, s, acc).len() - acc.len() + 1,
        at[0] == s,
        forall|k: int|
            0 <= k < at.len() - 1 ==> #[trigger] stepped(
                step,
                taken_groups(step, ends, s, acc).skip(acc.len() as int),
                at,
                k,
            ),
        ends(taken_groups(step, ends, s, acc).len() as int, at.last()) || step(
            at.last(),
        ).1.pool.len() >= at.last().pool.len(),
    decreases s.pool.len(),
{
    let items = taken_groups(step, ends, s, acc);
    let mine = items.skip(acc.len() as int);
    let (x, next) = step(s);
    if ends(acc.len() as int, s) || next.pool.len() >= s.pool.len() {
        assert(items.take(acc.len() as int) =~= acc);
        seq![s]
    } else {
        let more = lemma_taken_groups(step, ends, next, acc.push(x));
        let at = seq![s] + more;
        let rest = items.skip(acc.push(x).len() as int);
        let first = items.take(acc.push(x).len() as int);
        assert(first[acc.len() as int] == x);
        assert(items.take(acc.len() as int) =~= first.take(acc.len() as int));
        assert(acc.push(x).take(acc.len() as int) =~= acc);
        assert(at.last() == more.last());
        assert forall|k: int| 0 <= k < at.len() - 1 implies #[trigger] stepped(
            step,
            mine,
            at,
            k,
        ) by {
            if k > 0 {
                let h = k - 1;
                assert(stepped(step, rest, more, h));
                assert(at[k] == more[h] && at[k + 1] == more[h + 1]);
                assert(mine[k] == rest[h]);
            } else {
                assert(at[0] == s && at[1] == more[0]);
                assert(mine[0] == x);
            }
        }
        at
    }
}

/// One element of a repeated group.
spec fn one_element<R: FormIdRefResolver>(e: Env<R>, element: MemberDef) -> spec_fn(Element) -> (
    Json,
    Element,
) {
    |s: Element|
        {
            let (scope, next) = element_scope(e, element, s.pool, s.next);
            let (item, rest) = member(scope, element, nothing(), s.pool, None);
            (Json::Obj(item), Element { next, pool: rest })
        }
}

/// Whether a repeated group has enough elements, or a boundary comes first.
spec fn group_over(
    element: MemberDef,
    count: Option<int>,
    stop_before: Seq<String>,
) -> spec_fn(int, Element) -> bool {
    |done: int, s: Element|
        (count matches Some(n) && done >= n) || (stop_before.len() > 0 && anchor_of(element) is Some
            && stops(s.pool, anchor_of(element)->Some_0, stop_before))
}

proof fn lemma_groups_taken<R: FormIdRefResolver>(
    e: Env<R>,
    element: MemberDef,
    count: Option<int>,
    stop_before: Seq<String>,
    s: Element,
    acc: Seq<Json>,
)
    ensures
        groups(e, element, count, stop_before, s.pool, acc, s.next).0 == taken_groups(
            one_element(e, element),
            group_over(element, count, stop_before),
            s,
            acc,
        ),
    decreases s.pool.len(),
{
    let (x, next) = one_element(e, element)(s);
    if !group_over(element, count, stop_before)(acc.len() as int, s) && next.pool.len()
        < s.pool.len() {
        lemma_groups_taken(e, element, count, stop_before, next, acc.push(x));
    }
}

/// A repeated group has every element that waits: they are read one after the
/// other, until there are as many as its count says, a boundary comes first,
/// or an element takes no subrecord.
pub proof fn law_group_reads_every_element<R: FormIdRefResolver>(
    e: Env<R>,
    element: MemberDef,
    count: Option<int>,
    stop_before: Seq<String>,
    pool: Seq<Sub>,
    next: int,
) -> (at: Seq<Element>)
    ensures
        ({
            let items = groups(e, element, count, stop_before, pool, Seq::empty(), next).0;
            &&& at.len() == items.len() + 1
            &&& at[0] == (Element { next, pool })
            &&& forall|k: int|
                0 <= k < items.len() ==> #[trigger] element_read(e, element, items, at, k)
            &&& group_ends(e, element, count, stop_before, items.len() as int, at.last())
        }),
{
    let s = Element { next, pool };
    let items = groups(e, element, count, stop_before, pool, Seq::empty(), next).0;
    lemma_groups_taken(e, element, count, stop_before, s, Seq::empty());
    let step = one_element(e, element);
    let at = lemma_taken_groups(step, group_over(element, count, stop_before), s, Seq::empty());
    assert(items.skip(0) =~= items);
    assert forall|k: int| 0 <= k < items.len() implies #[trigger] element_read(
        e,
        element,
        items,
        at,
        k,
    ) by {
        assert(stepped(step, items.skip(0), at, k));
    }
    at
}

/// The attachment of a record is read by the type of the record: quests,
/// dialogue, packages, perks and terminals, and scenes have fragments of their
/// own.
pub proof fn law_attachment_by_type<R: FormIdRefResolver>(e: Env<R>, data: Seq<u8>)
    ensures
        ({
            let v = crate::decode::meaning::vmad_of(e, data);
            &&& e.record == Some("QUST"@) ==> v == vmad_qust(e, data)
            &&& e.record == Some("INFO"@) ==> v == vmad_by_flags(e, data, 2)
            &&& e.record == Some("PACK"@) ==> v == vmad_by_flags(e, data, 3)
            &&& e.record == Some("PERK"@) ==> v == vmad_perk(e, data)
            &&& e.record == Some("TERM"@) ==> v == vmad_perk(e, data)
            &&& e.record == Some("SCEN"@) ==> v == vmad_scen(e, data)
            &&& e.record == Some("WEAP"@) || e.record == Some("NPC_"@) || e.record == Some(
                "MGEF"@,
            ) || e.record is None ==> v == vmad(e, data)
        }),
{
    reveal_strlit("QUST");
    reveal_strlit("INFO");
    reveal_strlit("PACK");
    reveal_strlit("PERK");
    reveal_strlit("TERM");
    reveal_strlit("SCEN");
    reveal_strlit("WEAP");
    reveal_strlit("NPC_");
    reveal_strlit("MGEF");
    assert("QUST"@[0] == 'Q' && "INFO"@[0] == 'I' && "PACK"@[1] == 'A' && "PERK"@[1] == 'E');
    assert("PACK"@[0] == 'P' && "PERK"@[0] == 'P' && "TERM"@[0] == 'T' && "SCEN"@[0] == 'S');
    assert("WEAP"@[0] == 'W' && "NPC_"@[0] == 'N' && "MGEF"@[0] == 'M');
}

} // verus!
