//! The records that carry a PERK entry point or an OMOD property.
use crate::formid::FormId;
use crate::json::{as_arr, as_text, field, views, Json, Value};
use crate::order::{
    law_text_order_irreflexive, law_text_order_total, law_text_order_transitive,
};
use crate::schema::{copy_opt, opt_text, own_opt};
use crate::selectors::{
    entry_point_name_matches, enum_id_name, id_and_name, name_matches, omod_property_name_matches,
    scope_of_form_type, squeezed, EntryPointSpec, OmodPropertySel, OmodPropertySpec, Pick,
    PropScope,
};
use crate::text::{concat, decimal, decimal_string, str_eq, str_lt, text_lt};
use vstd::prelude::*;

verus! {

/// What kind of selector a tag comes from.
#[derive(Debug, Clone, Copy, PartialEq, Eq, Structural)]
pub enum CarrierKind {
    EntryPoint,
    OmodProperty,
}

/// What a carrier matched under a selector.
#[derive(Debug, Clone)]
pub struct CarrierTag {
    pub kind: CarrierKind,
    pub id: u16,
    pub name: Option<String>,
    /// The short name of the scope that numbers the id, if it has one.
    pub scope: Option<String>,
}

/// A tag as mathematics.
#[verifier::ext_equal]
pub ghost struct TagView {
    pub kind: CarrierKind,
    pub id: u16,
    pub name: Option<Seq<char>>,
    pub scope: Option<Seq<char>>,
}

impl View for CarrierTag {
    type V = TagView;

    open spec fn view(&self) -> TagView {
        TagView {
            kind: self.kind,
            id: self.id,
            name: opt_text(self.name),
            scope: opt_text(self.scope),
        }
    }
}

/// Carriers, each with what it matched.
pub type Carriers = Vec<(FormId, Vec<CarrierTag>)>;

/// One match of a selector.
#[derive(Debug, Clone)]
pub struct Hit {
    pub scope: Option<PropScope>,
    pub id: u16,
    pub name: Option<String>,
}

/// A match as mathematics.
#[verifier::ext_equal]
pub ghost struct HitView {
    pub scope: Option<PropScope>,
    pub id: u16,
    pub name: Option<Seq<char>>,
}

impl View for Hit {
    type V = HitView;

    open spec fn view(&self) -> HitView {
        HitView { scope: self.scope, id: self.id, name: opt_text(self.name) }
    }
}

/// Matches as mathematics.
pub open spec fn hit_views(list: Seq<Hit>) -> Seq<HitView> {
    list.map_values(|h: Hit| h@)
}

impl Hit {
    /// A copy of this match.
    pub fn copy(&self) -> (r: Hit)
        ensures
            r@ == self@,
    {
        Hit { scope: self.scope, id: self.id, name: copy_opt(&self.name) }
    }

    /// Whether this is the same match as another.
    pub fn same(&self, other: &Hit) -> (r: bool)
        ensures
            r == (self@ == other@),
    {
        let names = match (&self.name, &other.name) {
            (Some(a), Some(b)) => str_eq(a, b),
            (None, None) => true,
            _ => false,
        };
        scope_rank(self.scope) == scope_rank(other.scope) && self.id == other.id && names
    }

    /// Whether this match comes before another.
    pub fn before(&self, other: &Hit) -> (r: bool)
        ensures
            r == hit_lt(self@, other@),
    {
        let a: u8 = scope_rank(self.scope);
        let b: u8 = scope_rank(other.scope);
        if a != b {
            a < b
        } else if self.id != other.id {
            self.id < other.id
        } else {
            match (&self.name, &other.name) {
                (None, Some(_)) => true,
                (Some(a), Some(b)) => str_lt(a, b),
                _ => false,
            }
        }
    }
}

/// The rank of a scope.
pub open spec fn rank(scope: Option<PropScope>) -> int {
    match scope {
        None => 0,
        Some(PropScope::Weap) => 1,
        Some(PropScope::Armo) => 2,
        Some(PropScope::Npc) => 3,
    }
}

/// The rank of a scope.
fn scope_rank(scope: Option<PropScope>) -> (r: u8)
    ensures
        r == rank(scope),
{
    match scope {
        None => 0,
        Some(PropScope::Weap) => 1,
        Some(PropScope::Armo) => 2,
        Some(PropScope::Npc) => 3,
    }
}

/// The order of matches: by scope, then by number, then by name, the unnamed
/// first.
pub open spec fn hit_lt(a: HitView, b: HitView) -> bool {
    if rank(a.scope) != rank(b.scope) {
        rank(a.scope) < rank(b.scope)
    } else if a.id != b.id {
        a.id < b.id
    } else {
        match (a.name, b.name) {
            (None, Some(_)) => true,
            (Some(x), Some(y)) => text_lt(x, y),
            _ => false,
        }
    }
}

/// Where a match stands in a sorted list, or where it would be put in.
pub open spec fn hit_place(list: Seq<HitView>, h: HitView) -> int
    decreases list.len(),
{
    if list.len() == 0 || !hit_lt(list[0], h) {
        0
    } else {
        1 + hit_place(list.drop_first(), h)
    }
}

/// A sorted list of matches with `h` among them.
pub open spec fn hit_joined(list: Seq<HitView>, h: HitView) -> Seq<HitView> {
    let i = hit_place(list, h);
    if 0 <= i < list.len() && list[i] == h {
        list
    } else {
        list.insert(i, h)
    }
}

/// The first `n` matches of `more` joined to `list`.
pub open spec fn hits_joined(list: Seq<HitView>, more: Seq<HitView>, n: nat) -> Seq<HitView>
    decreases n,
{
    if n == 0 || n > more.len() {
        list
    } else {
        hit_joined(hits_joined(list, more, (n - 1) as nat), more[n - 1])
    }
}

/// Puts a match in its place in a sorted list, unless it is there.
fn join_hit(list: &mut Vec<Hit>, h: &Hit)
    ensures
        hit_views(final(list)@) == hit_joined(hit_views(old(list)@), h@),
{
    let ghost all = hit_views(list@);
    let mut i: usize = 0;
    assert(all.skip(0) =~= all);
    while i < list.len() && list[i].before(h)
        invariant
            i <= list.len(),
            all == hit_views(list@),
            hit_place(all, h@) == i + hit_place(all.skip(i as int), h@),
        decreases list.len() - i,
    {
        assert(all.skip(i as int)[0] == list@[i as int]@);
        assert(all.skip(i as int).drop_first() =~= all.skip(i + 1));
        i += 1;
    }
    assert(i < all.len() ==> all.skip(i as int)[0] == list@[i as int]@);
    assert(hit_place(all, h@) == i);
    assert(i < all.len() ==> all[i as int] == list@[i as int]@);
    if i < list.len() && list[i].same(h) {
        return;
    }
    list.insert(i, h.copy());
    assert(hit_views(list@) =~= all.insert(i as int, h@));
}

/// Puts matches in their places in a sorted list.
fn join_hits(list: &mut Vec<Hit>, more: &Vec<Hit>)
    ensures
        hit_views(final(list)@) == hits_joined(
            hit_views(old(list)@),
            hit_views(more@),
            more@.len(),
        ),
{
    let mut i: usize = 0;
    while i < more.len()
        invariant
            i <= more.len(),
            hit_views(list@) == hits_joined(hit_views(old(list)@), hit_views(more@), i as nat),
        decreases more.len() - i,
    {
        assert(hit_views(more@)[i as int] == more@[i as int]@);
        join_hit(list, &more[i]);
        i += 1;
    }
}

// ── Matches in records ─────────────────────────────────────────────────────
/// Whether an entry point is selected.
pub open spec fn entry_point_selected(p: Pick, id: u16, name: Option<Seq<char>>) -> bool {
    match p {
        Pick::Id(want) => id == want,
        Pick::Name(pattern) => name is Some && name_matches(pattern, name->0),
    }
}

/// Whether an OMOD property is selected.
pub open spec fn property_selected(p: Pick, id: u16, name: Option<Seq<char>>) -> bool {
    match p {
        Pick::Id(want) => id == want,
        Pick::Name(pattern) => name is Some && name_matches(squeezed(pattern), squeezed(name->0)),
    }
}

/// The entry point of an effect.
pub open spec fn entry_point_of(effect: Json) -> Option<Json> {
    match field(effect, "Effect"@) {
        Some(a) => match field(a, "Entry Point"@) {
            Some(b) => field(b, "Entry Point"@),
            None => None,
        },
        None => None,
    }
}

/// The match that an effect is, if it is one.
pub open spec fn effect_hit(effect: Json, p: Pick) -> Option<HitView> {
    match entry_point_of(effect) {
        Some(v) => match id_and_name(v) {
            Some((id, name)) => if entry_point_selected(p, id, name) {
                Some(HitView { scope: None, id, name })
            } else {
                None
            },
            None => None,
        },
        None => None,
    }
}

/// The matches among the first `n` effects.
pub open spec fn effect_hits(effects: Seq<Json>, p: Pick, n: nat) -> Seq<HitView>
    decreases n,
{
    if n == 0 || n > effects.len() {
        Seq::empty()
    } else {
        let before = effect_hits(effects, p, (n - 1) as nat);
        match effect_hit(effects[n - 1], p) {
            Some(h) => before.push(h),
            None => before,
        }
    }
}

/// The matches among the effects of a PERK.
pub open spec fn perk_matches(fields: Json, p: Pick) -> Seq<HitView> {
    match field(fields, "Effects"@) {
        Some(v) => match as_arr(v) {
            Some(effects) => effect_hits(effects, p, effects.len()),
            None => Seq::empty(),
        },
        None => Seq::empty(),
    }
}

/// The match that an effect is, if it is one.
fn match_effect(effect: &Value, spec: &EntryPointSpec) -> (r: Option<Hit>)
    ensures
        match r {
            Some(h) => effect_hit(effect@, spec@) == Some(h@),
            None => effect_hit(effect@, spec@) is None,
        },
{
    if let Some(a) = effect.get("Effect") {
        if let Some(b) = a.get("Entry Point") {
            if let Some(v) = b.get("Entry Point") {
                if let Some((id, name)) = enum_id_name(v) {
                    let is_match = match spec {
                        EntryPointSpec::Id(want) => id == *want,
                        EntryPointSpec::Name(pattern) => match name {
                            Some(n) => entry_point_name_matches(pattern, n),
                            None => false,
                        },
                    };
                    if is_match {
                        return Some(Hit { scope: None, id, name: own_opt(name) });
                    }
                }
            }
        }
    }
    None
}

/// The matches among the effects of a PERK.
pub fn perk_hits(fields: &Value, spec: &EntryPointSpec) -> (r: Vec<Hit>)
    ensures
        hit_views(r@) == perk_matches(fields@, spec@),
{
    let mut out: Vec<Hit> = Vec::new();
    assert(hit_views(out@) =~= Seq::<HitView>::empty());
    let effects: &Vec<Value> = match fields.get("Effects") {
        Some(v) => match v.as_array() {
            Some(effects) => effects,
            None => {
                return out;
            },
        },
        None => {
            return out;
        },
    };
    let mut i: usize = 0;
    while i < effects.len()
        invariant
            i <= effects.len(),
            hit_views(out@) == effect_hits(views(effects@), spec@, i as nat),
        decreases effects.len() - i,
    {
        assert(views(effects@)[i as int] == effects@[i as int]@);
        if let Some(h) = match_effect(&effects[i], spec) {
            let ghost before = hit_views(out@);
            let ghost added = h@;
            out.push(h);
            assert(hit_views(out@) =~= before.push(added));
        }
        i += 1;
    }
    out
}

/// The match that a property is, if it is one.
pub open spec fn property_hit(property: Json, scope: PropScope, p: Pick) -> Option<HitView> {
    match field(property, "Property"@) {
        Some(v) => match id_and_name(v) {
            Some((id, name)) => if property_selected(p, id, name) {
                Some(HitView { scope: Some(scope), id, name })
            } else {
                None
            },
            None => None,
        },
        None => None,
    }
}

/// The matches among the first `n` properties.
pub open spec fn property_hits(
    properties: Seq<Json>,
    scope: PropScope,
    p: Pick,
    n: nat,
) -> Seq<HitView>
    decreases n,
{
    if n == 0 || n > properties.len() {
        Seq::empty()
    } else {
        let before = property_hits(properties, scope, p, (n - 1) as nat);
        match property_hit(properties[n - 1], scope, p) {
            Some(h) => before.push(h),
            None => before,
        }
    }
}

/// The scope of an OMOD.
pub open spec fn omod_scope(fields: Json) -> Option<PropScope> {
    match field(fields, "Data"@) {
        Some(data) => match field(data, "Form Type"@) {
            Some(form_type) => match field(form_type, "name"@) {
                Some(name) => match as_text(name) {
                    Some(s) => scope_of_form_type(s),
                    None => None,
                },
                None => None,
            },
            None => None,
        },
        None => None,
    }
}

/// The properties of an OMOD.
pub open spec fn omod_properties(fields: Json) -> Option<Seq<Json>> {
    match field(fields, "Data"@) {
        Some(data) => match field(data, "Properties"@) {
            Some(list) => as_arr(list),
            None => None,
        },
        None => None,
    }
}

/// The matches among the properties of an OMOD.
pub open spec fn omod_matches(fields: Json, want: Option<PropScope>, p: Pick) -> Seq<HitView> {
    match (omod_scope(fields), omod_properties(fields)) {
        (Some(scope), Some(properties)) => if want is None || want == Some(scope) {
            property_hits(properties, scope, p, properties.len())
        } else {
            Seq::empty()
        },
        _ => Seq::empty(),
    }
}

/// The match that a property is, if it is one.
fn match_property(property: &Value, scope: PropScope, sel: &OmodPropertySel) -> (r: Option<Hit>)
    ensures
        match r {
            Some(h) => property_hit(property@, scope, sel@) == Some(h@),
            None => property_hit(property@, scope, sel@) is None,
        },
{
    if let Some(v) = property.get("Property") {
        if let Some((id, name)) = enum_id_name(v) {
            let is_match = match sel {
                OmodPropertySel::Id(want) => id == *want,
                OmodPropertySel::Name(pattern) => match name {
                    Some(n) => omod_property_name_matches(pattern, n),
                    None => false,
                },
            };
            if is_match {
                return Some(Hit { scope: Some(scope), id, name: own_opt(name) });
            }
        }
    }
    None
}

/// The scope of an OMOD.
fn scope_of_omod(fields: &Value) -> (r: Option<PropScope>)
    ensures
        r == omod_scope(fields@),
{
    if let Some(data) = fields.get("Data") {
        if let Some(form_type) = data.get("Form Type") {
            if let Some(name) = form_type.get("name") {
                if let Some(s) = name.as_str() {
                    return PropScope::from_form_type_name(s);
                }
            }
        }
    }
    None
}

/// The matches among the properties of an OMOD.
pub fn omod_hits(fields: &Value, spec: &OmodPropertySpec) -> (r: Vec<Hit>)
    ensures
        hit_views(r@) == omod_matches(fields@, spec.scope, spec.sel@),
{
    let mut out: Vec<Hit> = Vec::new();
    assert(hit_views(out@) =~= Seq::<HitView>::empty());
    let scope: PropScope = match scope_of_omod(fields) {
        Some(scope) => scope,
        None => {
            return out;
        },
    };
    if let Some(want) = spec.scope {
        if want != scope {
            return out;
        }
    }
    let list: &Value = match fields.get("Data") {
        Some(data) => match data.get("Properties") {
            Some(list) => list,
            None => {
                return out;
            },
        },
        None => {
            return out;
        },
    };
    let properties: &Vec<Value> = match list.as_array() {
        Some(properties) => properties,
        None => {
            return out;
        },
    };
    let mut i: usize = 0;
    while i < properties.len()
        invariant
            i <= properties.len(),
            hit_views(out@) == property_hits(views(properties@), scope, spec.sel@, i as nat),
        decreases properties.len() - i,
    {
        assert(views(properties@)[i as int] == properties@[i as int]@);
        if let Some(h) = match_property(&properties[i], scope, &spec.sel) {
            let ghost before = hit_views(out@);
            let ghost added = h@;
            out.push(h);
            assert(hit_views(out@) =~= before.push(added));
        }
        i += 1;
    }
    out
}

// ── Carriers ───────────────────────────────────────────────────────────────
/// The tag of a match.
pub open spec fn tag_of(kind: CarrierKind, h: HitView) -> TagView {
    TagView {
        kind,
        id: h.id,
        name: h.name,
        scope: match h.scope {
            Some(s) => Some(s.tag()),
            None => None,
        },
    }
}

/// The tags of the first `n` matches of a sorted list. Of several matches of
/// one entry point only the first gives a tag.
pub open spec fn tags_of(kind: CarrierKind, set: Seq<HitView>, n: nat) -> Seq<TagView>
    decreases n,
{
    if n == 0 || n > set.len() {
        Seq::empty()
    } else {
        let before = tags_of(kind, set, (n - 1) as nat);
        if kind == CarrierKind::EntryPoint && n >= 2 && set[n - 2].id == set[n - 1].id {
            before
        } else {
            before.push(tag_of(kind, set[n - 1]))
        }
    }
}

/// Tags as mathematics.
pub open spec fn tag_views(tags: Seq<CarrierTag>) -> Seq<TagView> {
    tags.map_values(|t: CarrierTag| t@)
}

/// Carriers as mathematics.
pub type Seeds = Seq<(FormId, Seq<TagView>)>;

/// Carriers as mathematics.
pub open spec fn seed_views(list: Seq<(FormId, Vec<CarrierTag>)>) -> Seeds {
    list.map_values(|s: (FormId, Vec<CarrierTag>)| (s.0, tag_views(s.1@)))
}

/// The number by which a carrier is placed.
pub open spec fn primary(tags: Seq<TagView>) -> u16 {
    if tags.len() > 0 {
        tags[0].id
    } else {
        0
    }
}

/// Whether a carrier comes before another: by the smallest number it matched,
/// then by FormID.
pub open spec fn seed_lt(a: (FormId, Seq<TagView>), b: (FormId, Seq<TagView>)) -> bool {
    primary(a.1) < primary(b.1) || (primary(a.1) == primary(b.1) && a.0.0 < b.0.0)
}

/// Where a carrier is put in: before the first that comes after it.
pub open spec fn seed_place(list: Seeds, s: (FormId, Seq<TagView>)) -> int
    decreases list.len(),
{
    if list.len() == 0 || seed_lt(s, list[0]) {
        0
    } else {
        1 + seed_place(list.drop_first(), s)
    }
}

/// The records with their matches, as mathematics.
pub open spec fn match_views(list: Seq<(FormId, Vec<Hit>)>) -> Seq<(FormId, Seq<HitView>)> {
    list.map_values(|e: (FormId, Vec<Hit>)| (e.0, hit_views(e.1@)))
}

/// The carriers among the first `n` records.
pub open spec fn seeds(kind: CarrierKind, list: Seq<(FormId, Seq<HitView>)>, n: nat) -> Seeds
    decreases n,
{
    if n == 0 || n > list.len() {
        Seq::empty()
    } else {
        let before = seeds(kind, list, (n - 1) as nat);
        let hits = list[n - 1].1;
        if hits.len() == 0 {
            before
        } else {
            let set = hits_joined(Seq::empty(), hits, hits.len());
            let s = (list[n - 1].0, tags_of(kind, set, set.len()));
            before.insert(seed_place(before, s), s)
        }
    }
}

/// All matches of the first `n` records, sorted.
pub open spec fn all_matches(list: Seq<(FormId, Seq<HitView>)>, n: nat) -> Seq<HitView>
    decreases n,
{
    if n == 0 || n > list.len() {
        Seq::empty()
    } else {
        hits_joined(all_matches(list, (n - 1) as nat), list[n - 1].1, list[n - 1].1.len())
    }
}

/// How the number of a match reads.
pub open spec fn hit_key(h: HitView) -> Seq<char> {
    match h.scope {
        Some(s) => s.tag() + ":"@ + decimal(h.id as int),
        None => decimal(h.id as int),
    }
}

/// How a match reads in a list.
pub open spec fn hit_text(h: HitView) -> Seq<char> {
    match h.name {
        Some(n) => hit_key(h) + " "@ + n,
        None => hit_key(h),
    }
}

/// The first `n` matches of a list, with commas between them.
pub open spec fn legend(set: Seq<HitView>, n: nat) -> Seq<char>
    decreases n,
{
    if n == 0 || n > set.len() {
        Seq::empty()
    } else if n == 1 {
        hit_text(set[0])
    } else {
        legend(set, (n - 1) as nat) + ", "@ + hit_text(set[n - 1])
    }
}

/// What a selection has matched, in words.
pub open spec fn label(what: Seq<char>, shown: Seq<char>, set: Seq<HitView>) -> Seq<char> {
    if set.len() == 0 {
        what + " "@ + shown + " (no match)"@
    } else if set.len() == 1 {
        what + " "@ + hit_key(set[0]) + " ("@ + (match set[0].name {
            Some(n) => n,
            None => "unnamed"@,
        }) + ")"@
    } else {
        what + " "@ + shown + " ("@ + decimal(set.len() as int) + " matched: "@ + legend(
            set,
            set.len(),
        ) + ")"@
    }
}

/// How the number of a match reads.
fn key_text(h: &Hit) -> (r: String)
    ensures
        r@ == hit_key(h@),
{
    let id = decimal_string(h.id as i128);
    match h.scope {
        Some(s) => concat(&concat(s.tag_str(), ":"), &id),
        None => id,
    }
}

/// How a match reads in a list.
fn listed(h: &Hit) -> (r: String)
    ensures
        r@ == hit_text(h@),
{
    let key = key_text(h);
    match &h.name {
        Some(n) => concat(&concat(&key, " "), n),
        None => key,
    }
}

/// What a selection has matched, in words.
fn describe(what: &str, shown: &str, set: &Vec<Hit>) -> (r: String)
    ensures
        r@ == label(what@, shown@, hit_views(set@)),
{
    let head = concat(what, " ");
    if set.len() == 0 {
        return concat(&concat(&head, shown), " (no match)");
    }
    assert(hit_views(set@)[0] == set@[0]@);
    if set.len() == 1 {
        let name: &str = match &set[0].name {
            Some(n) => n.as_str(),
            None => "unnamed",
        };
        return concat(&concat(&concat(&concat(&head, &key_text(&set[0])), " ("), name), ")");
    }
    let mut list = listed(&set[0]);
    let mut i: usize = 1;
    while i < set.len()
        invariant
            1 <= i <= set.len(),
            list@ == legend(hit_views(set@), i as nat),
        decreases set.len() - i,
    {
        assert(hit_views(set@)[i as int] == set@[i as int]@);
        list = concat(&concat(&list, ", "), &listed(&set[i]));
        i += 1;
    }
    let count = decimal_string(set.len() as i128);
    concat(
        &concat(
            &concat(&concat(&concat(&concat(&head, shown), " ("), &count), " matched: "),
            &list,
        ),
        ")",
    )
}

/// The tags of a sorted list of matches.
fn make_tags(kind: CarrierKind, set: &Vec<Hit>) -> (r: Vec<CarrierTag>)
    ensures
        tag_views(r@) == tags_of(kind, hit_views(set@), set@.len()),
{
    let mut r: Vec<CarrierTag> = Vec::new();
    assert(tag_views(r@) =~= Seq::<TagView>::empty());
    let mut i: usize = 0;
    while i < set.len()
        invariant
            i <= set.len(),
            tag_views(r@) == tags_of(kind, hit_views(set@), i as nat),
        decreases set.len() - i,
    {
        assert(hit_views(set@)[i as int] == set@[i as int]@);
        assert(i > 0 ==> hit_views(set@)[i - 1] == set@[i - 1]@);
        if kind == CarrierKind::EntryPoint && i > 0 && set[i - 1].id == set[i].id {
        } else {
            let ghost before = tag_views(r@);
            let scope: Option<String> = match set[i].scope {
                Some(s) => Some(s.tag_str().to_owned()),
                None => None,
            };
            let tag = CarrierTag { kind, id: set[i].id, name: copy_opt(&set[i].name), scope };
            let ghost added = tag@;
            assert(added == tag_of(kind, set@[i as int]@));
            r.push(tag);
            assert(tag_views(r@) =~= before.push(added));
        }
        i += 1;
    }
    r
}

/// The smallest number that a carrier matched.
fn primary_id(tags: &Vec<CarrierTag>) -> (r: u16)
    ensures
        r == primary(tag_views(tags@)),
{
    if tags.len() > 0 {
        assert(tag_views(tags@)[0] == tags@[0]@);
        tags[0].id
    } else {
        0
    }
}

/// Puts a carrier in its place.
fn add_seed(list: &mut Carriers, id: FormId, tags: Vec<CarrierTag>)
    ensures
        ({
            let s = (id, tag_views(tags@));
            seed_views(final(list)@) == seed_views(old(list)@).insert(
                seed_place(seed_views(old(list)@), s),
                s,
            )
        }),
{
    let ghost all = seed_views(list@);
    let ghost s = (id, tag_views(tags@));
    let p: u16 = primary_id(&tags);
    let mut i: usize = 0;
    let mut found = false;
    assert(all.skip(0) =~= all);
    while i < list.len() && !found
        invariant
            i <= list.len(),
            all == seed_views(list@),
            s == (id, tag_views(tags@)),
            p == primary(tag_views(tags@)),
            seed_place(all, s) == i + seed_place(all.skip(i as int), s),
            found ==> seed_place(all.skip(i as int), s) == 0,
        decreases list.len() - i + if found {
            0int
        } else {
            1int
        },
    {
        assert(all.skip(i as int)[0] == (list@[i as int].0, tag_views(list@[i as int].1@)));
        let q: u16 = primary_id(&list[i].1);
        if p < q || (p == q && id.0 < list[i].0.0) {
            found = true;
        } else {
            assert(all.skip(i as int).drop_first() =~= all.skip(i + 1));
            i += 1;
        }
    }
    list.insert(i, (id, tags));
    assert(seed_views(list@) =~= all.insert(i as int, s));
}

/// The carriers among records with matches, and what has been matched in
/// words.
pub fn carriers(kind: CarrierKind, shown: &str, list: &Vec<(FormId, Vec<Hit>)>) -> (r: (
    String,
    Carriers,
))
    ensures
        ({
            let m = match_views(list@);
            let what = if kind == CarrierKind::EntryPoint {
                "entry point"@
            } else {
                "OMOD property"@
            };
            r.0@ == label(what, shown@, all_matches(m, m.len())) && seed_views(r.1@) == seeds(
                kind,
                m,
                m.len(),
            )
        }),
{
    let ghost m = match_views(list@);
    let mut out: Carriers = Vec::new();
    let mut set: Vec<Hit> = Vec::new();
    assert(seed_views(out@) =~= Seq::empty());
    assert(hit_views(set@) =~= Seq::<HitView>::empty());
    let mut i: usize = 0;
    while i < list.len()
        invariant
            i <= list.len(),
            m == match_views(list@),
            seed_views(out@) == seeds(kind, m, i as nat),
            hit_views(set@) == all_matches(m, i as nat),
        decreases list.len() - i,
    {
        assert(m[i as int] == (list@[i as int].0, hit_views(list@[i as int].1@)));
        join_hits(&mut set, &list[i].1);
        if list[i].1.len() > 0 {
            let mut own_set: Vec<Hit> = Vec::new();
            assert(hit_views(own_set@) =~= Seq::<HitView>::empty());
            join_hits(&mut own_set, &list[i].1);
            let tags = make_tags(kind, &own_set);
            add_seed(&mut out, list[i].0, tags);
        }
        i += 1;
    }
    let what = match kind {
        CarrierKind::EntryPoint => "entry point",
        CarrierKind::OmodProperty => "OMOD property",
    };
    (describe(what, shown, &set), out)
}

// ── Laws ───────────────────────────────────────────────────────────────────
/// Whether matches increase.
pub open spec fn hits_increase(list: Seq<HitView>) -> bool {
    forall|i: int, j: int|
        0 <= i < j < list.len() ==> hit_lt(#[trigger] list[i], #[trigger] list[j])
}

proof fn lemma_hit_order(a: HitView, b: HitView, c: HitView)
    ensures
        !hit_lt(a, a),
        hit_lt(a, b) && hit_lt(b, c) ==> hit_lt(a, c),
        hit_lt(a, b) || hit_lt(b, a) || a == b,
{
    match (a.name, b.name) {
        (Some(x), Some(y)) => {
            law_text_order_irreflexive(x);
            law_text_order_total(x, y);
            if let Some(z) = c.name {
                if text_lt(x, y) && text_lt(y, z) {
                    law_text_order_transitive(x, y, z);
                }
            }
        },
        (Some(x), None) => law_text_order_irreflexive(x),
        _ => {},
    }
    assert(rank(a.scope) == rank(b.scope) ==> a.scope == b.scope);
}

proof fn lemma_hit_place(list: Seq<HitView>, h: HitView)
    ensures
        0 <= hit_place(list, h) <= list.len(),
        hit_place(list, h) < list.len() ==> !hit_lt(list[hit_place(list, h)], h),
        forall|i: int| 0 <= i < hit_place(list, h) ==> hit_lt(#[trigger] list[i], h),
    decreases list.len(),
{
    if !(list.len() == 0 || !hit_lt(list[0], h)) {
        lemma_hit_place(list.drop_first(), h);
        assert forall|i: int| 0 <= i < hit_place(list, h) implies hit_lt(#[trigger] list[i], h) by {
            if i > 0 {
                assert(list[i] == list.drop_first()[i - 1]);
            }
        }
    }
}

proof fn lemma_hit_joined(list: Seq<HitView>, h: HitView)
    requires
        hits_increase(list),
    ensures
        hits_increase(hit_joined(list, h)),
        forall|x: HitView| #[trigger]
            hit_joined(list, h).contains(x) <==> (x == h || list.contains(x)),
{
    lemma_hit_place(list, h);
    let i = hit_place(list, h);
    let n = hit_joined(list, h);
    if !(i < list.len() && list[i] == h) {
        if i < list.len() {
            lemma_hit_order(list[i], h, h);
        }
        assert forall|a: int, b: int| 0 <= a < b < n.len() implies hit_lt(
            #[trigger] n[a],
            #[trigger] n[b],
        ) by {
            if a == i {
                assert(n[b] == list[b - 1]);
                if b - 1 > i {
                    assert(hit_lt(list[i], list[b - 1]));
                    lemma_hit_order(h, list[i], list[b - 1]);
                }
            } else if b == i {
                assert(n[a] == list[a]);
            } else {
                let p = if a < i {
                    a
                } else {
                    a - 1
                };
                let q = if b < i {
                    b
                } else {
                    b - 1
                };
                assert(n[a] == list[p] && n[b] == list[q]);
            }
        }
        assert forall|x: HitView| #[trigger] n.contains(x) <==> (x == h || list.contains(x)) by {
            if n.contains(x) && x != h {
                let j = choose|j: int| 0 <= j < n.len() && n[j] == x;
                if j < i {
                    assert(list[j] == x);
                } else {
                    assert(list[j - 1] == x);
                }
            }
            if x == h {
                assert(n[i] == h);
            } else if list.contains(x) {
                let j = choose|j: int| 0 <= j < list.len() && list[j] == x;
                if j < i {
                    assert(n[j] == x);
                } else {
                    assert(n[j + 1] == x);
                }
            }
        }
    } else {
        assert(list.contains(h));
    }
}

/// Matches that are joined to a sorted list leave it sorted, each match once,
/// and are all in it; no other match comes or goes.
pub proof fn law_hits_joined(list: Seq<HitView>, more: Seq<HitView>, n: nat)
    requires
        hits_increase(list),
        n <= more.len(),
    ensures
        hits_increase(hits_joined(list, more, n)),
        forall|x: HitView| #[trigger]
            hits_joined(list, more, n).contains(x) <==> (list.contains(x) || more.take(
                n as int,
            ).contains(x)),
    decreases n,
{
    if n == 0 {
        assert(more.take(0).len() == 0);
    } else {
        let before = hits_joined(list, more, (n - 1) as nat);
        law_hits_joined(list, more, (n - 1) as nat);
        lemma_hit_joined(before, more[n - 1]);
        let was = more.take(n - 1);
        let now = more.take(n as int);
        assert(now =~= was.push(more[n - 1]));
        assert forall|x: HitView| now.contains(x) <==> (was.contains(x) || x == more[n - 1]) by {
            if was.contains(x) {
                let j = choose|j: int| 0 <= j < was.len() && was[j] == x;
                assert(now[j] == x);
            }
            if x == more[n - 1] {
                assert(now[n - 1] == x);
            }
            if now.contains(x) && x != more[n - 1] {
                let j = choose|j: int| 0 <= j < now.len() && now[j] == x;
                assert(was[j] == x);
            }
        }
    }
}

/// Whether carriers are in order.
pub open spec fn seeds_ordered(list: Seeds) -> bool {
    forall|i: int, j: int|
        0 <= i < j < list.len() ==> !seed_lt(#[trigger] list[j], #[trigger] list[i])
}

proof fn lemma_seed_place(list: Seeds, s: (FormId, Seq<TagView>))
    ensures
        0 <= seed_place(list, s) <= list.len(),
        seed_place(list, s) < list.len() ==> seed_lt(s, list[seed_place(list, s)]),
        forall|i: int| 0 <= i < seed_place(list, s) ==> !seed_lt(s, #[trigger] list[i]),
    decreases list.len(),
{
    if !(list.len() == 0 || seed_lt(s, list[0])) {
        lemma_seed_place(list.drop_first(), s);
        assert forall|i: int| 0 <= i < seed_place(list, s) implies !seed_lt(
            s,
            #[trigger] list[i],
        ) by {
            if i > 0 {
                assert(list[i] == list.drop_first()[i - 1]);
            }
        }
    }
}

/// Carriers come by the smallest number that they matched, and those with the
/// same number by FormID.
pub proof fn law_seeds_ordered(kind: CarrierKind, list: Seq<(FormId, Seq<HitView>)>, n: nat)
    ensures
        seeds_ordered(seeds(kind, list, n)),
    decreases n,
{
    if n > 0 && n <= list.len() {
        law_seeds_ordered(kind, list, (n - 1) as nat);
        let before = seeds(kind, list, (n - 1) as nat);
        let hits = list[n - 1].1;
        if hits.len() > 0 {
            let set = hits_joined(Seq::empty(), hits, hits.len());
            let s = (list[n - 1].0, tags_of(kind, set, set.len()));
            lemma_seed_place(before, s);
            let i = seed_place(before, s);
            let after = before.insert(i, s);
            assert forall|a: int, b: int| 0 <= a < b < after.len() implies !seed_lt(
                #[trigger] after[b],
                #[trigger] after[a],
            ) by {
                if a == i {
                    assert(after[b] == before[b - 1]);
                    if b - 1 > i {
                        assert(!seed_lt(before[b - 1], before[i]));
                    }
                } else if b == i {
                    assert(after[a] == before[a]);
                } else {
                    let p = if a < i {
                        a
                    } else {
                        a - 1
                    };
                    let q = if b < i {
                        b
                    } else {
                        b - 1
                    };
                    assert(after[a] == before[p] && after[b] == before[q]);
                }
            }
        }
    }
}

/// Whether one of the first `n` records is `id` and has a match.
pub open spec fn some_match(list: Seq<(FormId, Seq<HitView>)>, id: FormId, n: nat) -> bool {
    exists|i: int| 0 <= i < n && (#[trigger] list[i]).0 == id && list[i].1.len() > 0
}

/// Whether `id` is among carriers.
pub open spec fn is_seed(list: Seeds, id: FormId) -> bool {
    exists|j: int| 0 <= j < list.len() && (#[trigger] list[j]).0 == id
}

/// A record is a carrier exactly where it has a match.
pub proof fn law_seeds_are_the_matching_records(
    kind: CarrierKind,
    list: Seq<(FormId, Seq<HitView>)>,
    n: nat,
    id: FormId,
)
    requires
        n <= list.len(),
    ensures
        some_match(list, id, n) <==> is_seed(seeds(kind, list, n), id),
    decreases n,
{
    if n > 0 {
        law_seeds_are_the_matching_records(kind, list, (n - 1) as nat, id);
        let before = seeds(kind, list, (n - 1) as nat);
        let after = seeds(kind, list, n);
        let hits = list[n - 1].1;
        if some_match(list, id, n) {
            let i = choose|i: int|
                0 <= i < n && (#[trigger] list[i]).0 == id && list[i].1.len() > 0;
            if i < n - 1 {
                assert(some_match(list, id, (n - 1) as nat));
            }
        }
        if some_match(list, id, (n - 1) as nat) {
            let i = choose|i: int|
                0 <= i < n - 1 && (#[trigger] list[i]).0 == id && list[i].1.len() > 0;
            assert(0 <= i < n && list[i].0 == id);
            assert(some_match(list, id, n));
        }
        if hits.len() > 0 {
            let set = hits_joined(Seq::empty(), hits, hits.len());
            let s = (list[n - 1].0, tags_of(kind, set, set.len()));
            lemma_seed_place(before, s);
            let p = seed_place(before, s);
            assert(after[p] == s);
            if is_seed(before, id) {
                let j = choose|j: int| 0 <= j < before.len() && (#[trigger] before[j]).0 == id;
                if j < p {
                    assert(after[j].0 == id);
                } else {
                    assert(after[j + 1].0 == id);
                }
            }
            if is_seed(after, id) && list[n - 1].0 != id {
                let j = choose|j: int| 0 <= j < after.len() && (#[trigger] after[j]).0 == id;
                let q = if j < p {
                    j
                } else {
                    j - 1
                };
                assert(before[q].0 == id);
            }
            if list[n - 1].0 == id {
                assert(after[p].0 == id);
            }
        }
    }
}

} // verus!
