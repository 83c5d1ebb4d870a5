//! What selections match, and what reports count.
use crate::carriers::{effect_hits, omod_matches, perk_matches, property_hits, HitView};
use crate::coverage::{markers_in, no_markers, record_markers, total_markers, Markers};
use crate::database::Database;
use crate::decode::context::ResolveDepth;
use crate::formid::FormId;
use crate::json::{field, get, Json};
use crate::picks::{holds_picks, lemma_picked, picked};
use crate::reader::RecordMeta;
use crate::selectors::{id_and_name, name_matches, scope_of_form_type, squeezed, Pick, PropScope};
use vstd::prelude::*;

verus! {

// ── Selections ─────────────────────────────────────────────────────────────
/// The value under a path of keys.
pub open spec fn under(v: Json, path: Seq<Seq<char>>) -> Option<Json>
    decreases path.len(),
{
    if path.len() == 0 {
        Some(v)
    } else {
        match v {
            Json::Obj(o) => match get(o, path[0]) {
                Some(w) => under(w, path.drop_first()),
                None => None,
            },
            _ => None,
        }
    }
}

/// The match that an effect is: the entry point of its entry point, where the
/// selection has its number or a pattern for its name.
pub open spec fn effect_match(effects: Seq<Json>, p: Pick) -> spec_fn(int) -> Option<HitView> {
    |i: int|
        match under(effects[i], seq!["Effect"@, "Entry Point"@, "Entry Point"@]) {
            Some(v) => match id_and_name(v) {
                Some((id, name)) => if match p {
                    Pick::Id(want) => id == want,
                    Pick::Name(pattern) => name is Some && name_matches(pattern, name->Some_0),
                } {
                    Some(HitView { scope: None, id, name })
                } else {
                    None
                },
                None => None,
            },
            None => None,
        }
}

/// The match that a property is: its own number, where the selection has it or
/// a pattern for its name, however either is spaced.
pub open spec fn property_match(list: Seq<Json>, scope: PropScope, p: Pick) -> spec_fn(
    int,
) -> Option<HitView> {
    |i: int|
        match under(list[i], seq!["Property"@]) {
            Some(v) => match id_and_name(v) {
                Some((id, name)) => if match p {
                    Pick::Id(want) => id == want,
                    Pick::Name(pattern) => name is Some && name_matches(
                        squeezed(pattern),
                        squeezed(name->Some_0),
                    ),
                } {
                    Some(HitView { scope: Some(scope), id, name })
                } else {
                    None
                },
                None => None,
            },
            None => None,
        }
}

proof fn lemma_under_one(v: Json, a: Seq<char>)
    ensures
        under(v, seq![a]) == field(v, a),
{
    reveal_with_fuel(under, 2);
    assert(seq![a].drop_first() =~= Seq::<Seq<char>>::empty());
}

proof fn lemma_under_more(v: Json, a: Seq<char>, rest: Seq<Seq<char>>)
    ensures
        under(v, seq![a] + rest) == match field(v, a) {
            Some(w) => under(w, rest),
            None => None,
        },
{
    assert((seq![a] + rest).drop_first() =~= rest);
}

proof fn lemma_effect_hits(effects: Seq<Json>, p: Pick, n: nat)
    requires
        n <= effects.len(),
    ensures
        effect_hits(effects, p, n) == picked(effect_match(effects, p), n),
    decreases n,
{
    if n > 0 {
        lemma_effect_hits(effects, p, (n - 1) as nat);
        let v = effects[n - 1];
        let point = "Entry Point"@;
        assert(seq!["Effect"@, point, point] =~= seq!["Effect"@] + (seq![point] + seq![point]));
        lemma_under_more(v, "Effect"@, seq![point] + seq![point]);
        if let Some(w) = field(v, "Effect"@) {
            lemma_under_more(w, point, seq![point]);
            if let Some(x) = field(w, point) {
                lemma_under_one(x, point);
            }
        }
        let f = effect_match(effects, p);
        let x = f(n - 1);
    }
}

proof fn lemma_property_hits(list: Seq<Json>, scope: PropScope, p: Pick, n: nat)
    requires
        n <= list.len(),
    ensures
        property_hits(list, scope, p, n) == picked(property_match(list, scope, p), n),
    decreases n,
{
    if n > 0 {
        lemma_property_hits(list, scope, p, (n - 1) as nat);
        lemma_under_one(list[n - 1], "Property"@);
        let f = property_match(list, scope, p);
        let x = f(n - 1);
    }
}

/// Every effect of a PERK that is a match is given, in order, and nothing
/// else.
pub proof fn law_perk_gives_every_match(fields: Json, p: Pick)
    ensures
        match under(fields, seq!["Effects"@]) {
            Some(Json::Arr(effects)) => holds_picks(
                perk_matches(fields, p),
                effect_match(effects, p),
                effects.len(),
            ),
            _ => perk_matches(fields, p).len() == 0,
        },
{
    lemma_under_one(fields, "Effects"@);
    if let Some(Json::Arr(effects)) = field(fields, "Effects"@) {
        lemma_effect_hits(effects, p, effects.len());
        let _ = lemma_picked(effect_match(effects, p), effects.len());
    }
}

/// Every property of an OMOD that is a match is given, in order, and nothing
/// else, where the OMOD is for the scope asked for, if one is.
pub proof fn law_omod_gives_every_match(fields: Json, want: Option<PropScope>, p: Pick)
    ensures
        match (
            under(fields, seq!["Data"@, "Form Type"@, "name"@]),
            under(fields, seq!["Data"@, "Properties"@]),
        ) {
            (Some(Json::Str(name)), Some(Json::Arr(list))) => match scope_of_form_type(name) {
                Some(scope) => if want is None || want == Some(scope) {
                    holds_picks(
                        omod_matches(fields, want, p),
                        property_match(list, scope, p),
                        list.len(),
                    )
                } else {
                    omod_matches(fields, want, p).len() == 0
                },
                None => omod_matches(fields, want, p).len() == 0,
            },
            _ => omod_matches(fields, want, p).len() == 0,
        },
{
    let kind = "Form Type"@;
    let name = "name"@;
    assert(seq!["Data"@, kind, name] =~= seq!["Data"@] + (seq![kind] + seq![name]));
    assert(seq!["Data"@, "Properties"@] =~= seq!["Data"@] + seq!["Properties"@]);
    lemma_under_more(fields, "Data"@, seq![kind] + seq![name]);
    lemma_under_more(fields, "Data"@, seq!["Properties"@]);
    if let Some(data) = field(fields, "Data"@) {
        lemma_under_more(data, kind, seq![name]);
        lemma_under_one(data, "Properties"@);
        if let Some(w) = field(data, kind) {
            lemma_under_one(w, name);
        }
        if let Some(Json::Arr(list)) = field(data, "Properties"@) {
            if let Some(w) = field(data, kind) {
                if let Some(Json::Str(s)) = field(w, name) {
                    if let Some(scope) = scope_of_form_type(s) {
                        lemma_property_hits(list, scope, p, list.len());
                        let _ = lemma_picked(property_match(list, scope, p), list.len());
                    }
                }
            }
        }
    }
}

// ── Counts ─────────────────────────────────────────────────────────────────
/// The sum of what `f` gives for the first `n` positions.
pub open spec fn sum_of(f: spec_fn(int) -> int, n: nat) -> int
    decreases n,
{
    if n == 0 {
        0
    } else {
        sum_of(f, (n - 1) as nat) + f(n - 1)
    }
}

/// A count that stops at the largest number.
pub open spec fn capped(n: int) -> int {
    if n <= u64::MAX {
        n
    } else {
        u64::MAX as int
    }
}

/// Which count of a report.
pub enum Which {
    UnknownRecord,
    RawFallback,
    Unmapped,
    Unresolved,
    Records,
}

/// One of the counts.
pub open spec fn count_of(m: Markers, w: Which) -> int {
    match w {
        Which::UnknownRecord => m.unknown_record as int,
        Which::RawFallback => m.raw_fallback as int,
        Which::Unmapped => m.unmapped as int,
        Which::Unresolved => m.unresolved as int,
        Which::Records => m.records as int,
    }
}

/// One of the counts of a type.
pub open spec fn type_count(list: Seq<(String, Markers)>, w: Which) -> spec_fn(int) -> int {
    |i: int| count_of(list[i].1, w)
}

/// What a record adds to one of the counts: one record where it can be read,
/// and the markers in its fields.
pub open spec fn record_count(
    db: Database,
    list: Seq<(FormId, RecordMeta)>,
    w: Which,
) -> spec_fn(int) -> int {
    |i: int|
        match db.esm.at(list[i].1.offset) {
            Some(r) => count_of(
                markers_in(db.result_of(r, ResolveDepth::Plain).fields, no_markers()),
                w,
            ) + if w is Records {
                1int
            } else {
                0
            },
            None => 0,
        }
}

proof fn lemma_sum_grows(f: spec_fn(int) -> int, n: nat)
    requires
        forall|i: int| 0 <= i < n ==> 0 <= #[trigger] f(i),
    ensures
        sum_of(f, n) >= 0,
    decreases n,
{
    if n > 0 {
        lemma_sum_grows(f, (n - 1) as nat);
        assert(0 <= f(n - 1));
    }
}

/// The totals of a report are the sums over its types.
pub proof fn law_totals_are_sums(list: Seq<(String, Markers)>, n: nat, w: Which)
    requires
        n <= list.len(),
    ensures
        count_of(total_markers(list, n), w) == capped(sum_of(type_count(list, w), n)),
    decreases n,
{
    let f = type_count(list, w);
    lemma_sum_grows(f, n);
    if n > 0 {
        law_totals_are_sums(list, (n - 1) as nat, w);
        lemma_sum_grows(f, (n - 1) as nat);
        let x = f(n - 1);
    }
}

/// The counts of a type are the sums over its records that can be read.
pub proof fn law_type_counts_are_sums(
    db: Database,
    list: Seq<(FormId, RecordMeta)>,
    n: nat,
    w: Which,
)
    requires
        n <= list.len(),
    ensures
        count_of(record_markers(db, list, n), w) == capped(
            sum_of(record_count(db, list, w), n),
        ),
    decreases n,
{
    let f = record_count(db, list, w);
    lemma_sum_grows(f, n);
    if n > 0 {
        law_type_counts_are_sums(db, list, (n - 1) as nat, w);
        lemma_sum_grows(f, (n - 1) as nat);
        let x = f(n - 1);
    }
}

} // verus!
