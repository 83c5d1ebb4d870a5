//! What holds of the decoder as a whole.
use crate::decode::context::{Env, FormIdRefResolver};
use crate::decode::meaning::{
    any_needs_outer, array_count, common_size, decoded, element_scope, field_choice, field_size,
    field_step, fields_from, free_number, from_either, from_pool, groups, leftover, leftovers,
    member, member_choice, members_from, numbered, packed, put_all_unique, put_unique,
    record_fields, struct_fields, sum_sizes, variant_size,
};
use crate::decode::rules::crafting_quantity;
use crate::decode::scalars::{version_choice, version_ok};
use crate::decode::scope::{scoped_sig, scoped_taken, taken};
use crate::json::{get, has_key, key_index, lemma_key_index, nothing, put, Entries, Json};
use crate::order::{keys_increase, law_get_after_put, law_put_keeps_order};
use crate::reader::{find_sig, first_sig, lemma_find_sig, Sub};
use crate::schema::{ArrayCount, FieldDef, MemberDef, Schema};
use crate::text::decimal;
use vstd::prelude::*;

verus! {

// ── Keys ───────────────────────────────────────────────────────────────────
/// The keys of an object.
spec fn key_set(o: Entries) -> Set<Seq<char>>
    decreases o.len(),
{
    if o.len() == 0 {
        Set::empty()
    } else {
        key_set(o.drop_last()).insert(o.last().0)
    }
}

proof fn lemma_key_set(o: Entries)
    ensures
        key_set(o).finite(),
        key_set(o).len() <= o.len(),
        forall|i: int| 0 <= i < o.len() ==> key_set(o).contains((#[trigger] o[i]).0),
    decreases o.len(),
{
    if o.len() > 0 {
        lemma_key_set(o.drop_last());
        assert forall|i: int| 0 <= i < o.len() implies key_set(o).contains((#[trigger] o[i]).0) by {
            if i < o.len() - 1 {
                assert(o.drop_last()[i] == o[i]);
            }
        }
    }
}

/// `key` and its first `m` numbered forms from two on.
spec fn taken_names(key: Seq<char>, m: nat) -> Set<Seq<char>>
    decreases m,
{
    if m == 0 {
        set![key]
    } else {
        taken_names(key, (m - 1) as nat).insert(numbered(key, (m + 1) as int))
    }
}

proof fn lemma_numbered(key: Seq<char>, a: nat, b: nat)
    requires
        a != b,
    ensures
        numbered(key, a as int) != numbered(key, b as int),
        numbered(key, a as int) != key,
{
    crate::selectors::lemma_decimal(a);
    crate::selectors::lemma_decimal(b);
    let x = numbered(key, a as int);
    let y = numbered(key, b as int);
    assert(x.len() > key.len());
    if x == y {
        assert(x.skip((key.len() + 1) as int) =~= decimal(a as int));
        assert(y.skip((key.len() + 1) as int) =~= decimal(b as int));
    }
}

proof fn lemma_taken_names(key: Seq<char>, m: nat)
    ensures
        taken_names(key, m).finite(),
        taken_names(key, m).len() == m + 1,
        forall|n: nat| n >= m + 2 ==> !taken_names(key, m).contains(#[trigger] numbered(key, n as int)),
    decreases m,
{
    if m > 0 {
        lemma_taken_names(key, (m - 1) as nat);
        let before = taken_names(key, (m - 1) as nat);
        assert(!before.contains(numbered(key, (m + 1) as int)));
        assert forall|n: nat| n >= m + 2 implies !taken_names(key, m).contains(
            #[trigger] numbered(key, n as int),
        ) by {
            lemma_numbered(key, n, (m + 1) as nat);
            assert(!before.contains(numbered(key, n as int)));
        }
    } else {
        assert forall|n: nat| n >= 2 implies !taken_names(key, 0).contains(
            #[trigger] numbered(key, n as int),
        ) by {
            lemma_numbered(key, n, 0);
        }
    }
}

/// Whether the numbered keys from two on up to `n` are all there.
spec fn all_taken(o: Entries, key: Seq<char>, n: int) -> bool {
    has_key(o, key) && forall|i: int| 2 <= i < n ==> has_key(o, #[trigger] numbered(key, i))
}

proof fn lemma_too_many(o: Entries, key: Seq<char>, m: nat)
    requires
        all_taken(o, key, (m + 2) as int),
    ensures
        m < o.len(),
{
    lemma_key_set(o);
    lemma_taken_names(key, m);
    lemma_subset(o, key, m);
    vstd::set_lib::lemma_len_subset(taken_names(key, m), key_set(o));
}

proof fn lemma_subset(o: Entries, key: Seq<char>, m: nat)
    requires
        all_taken(o, key, (m + 2) as int),
    ensures
        taken_names(key, m).subset_of(key_set(o)),
    decreases m,
{
    lemma_key_set(o);
    lemma_key_index(o, key);
    assert(key_set(o).contains(o[key_index(o, key)].0));
    if m > 0 {
        lemma_subset(o, key, (m - 1) as nat);
        let k = numbered(key, (m + 1) as int);
        assert(has_key(o, k));
        lemma_key_index(o, k);
        assert(key_set(o).contains(o[key_index(o, k)].0));
    }
}

proof fn lemma_free_number(o: Entries, key: Seq<char>, n: int, tries: nat)
    requires
        2 <= n,
        all_taken(o, key, n),
        n - 2 + tries == o.len(),
    ensures
        !has_key(o, numbered(key, free_number(o, key, n, tries))),
    decreases tries,
{
    if has_key(o, numbered(key, n)) {
        assert(all_taken(o, key, n + 1)) by {
            assert forall|i: int| 2 <= i < n + 1 implies has_key(
                o,
                #[trigger] numbered(key, i),
            ) by {
                if i == n {
                    assert(has_key(o, numbered(key, n)));
                }
            }
        }
        if tries == 0 {
            lemma_too_many(o, key, (n - 1) as nat);
        } else {
            lemma_free_number(o, key, n + 1, (tries - 1) as nat);
        }
    }
}

/// A field that is put in under its own or a numbered key overwrites no other:
/// all fields keep their values, and the new one is there.
pub proof fn law_put_unique_overwrites_nothing(o: Entries, key: Seq<char>, v: Json)
    ensures
        forall|k: Seq<char>| has_key(o, k) ==> #[trigger] get(put_unique(o, key, v), k) == get(o, k),
        exists|k: Seq<char>| !has_key(o, k) && #[trigger] get(put_unique(o, key, v), k) == Some(v),
{
    let name = if !has_key(o, key) {
        key
    } else {
        numbered(key, free_number(o, key, 2, o.len()))
    };
    if has_key(o, key) {
        lemma_free_number(o, key, 2, o.len());
    }
    assert(!has_key(o, name));
    assert forall|k: Seq<char>| has_key(o, k) implies #[trigger] get(put_unique(o, key, v), k)
        == get(o, k) by {
        law_get_after_put(o, name, v, k);
    }
    law_get_after_put(o, name, v, name);
    assert(get(put_unique(o, key, v), name) == Some(v));
}

// ── Order ──────────────────────────────────────────────────────────────────
proof fn lemma_put_unique_order(o: Entries, key: Seq<char>, v: Json)
    requires
        keys_increase(o),
    ensures
        keys_increase(put_unique(o, key, v)),
{
    law_put_keeps_order(o, key, v);
    law_put_keeps_order(o, numbered(key, free_number(o, key, 2, o.len())), v);
}

proof fn lemma_put_all_order(o: Entries, more: Entries, unnamed: Seq<char>, n: nat)
    requires
        keys_increase(o),
    ensures
        keys_increase(put_all_unique(o, more, unnamed, n)),
    decreases n,
{
    if n > 0 && n <= more.len() {
        lemma_put_all_order(o, more, unnamed, (n - 1) as nat);
        let (k, v) = more[n - 1];
        lemma_put_unique_order(
            put_all_unique(o, more, unnamed, (n - 1) as nat),
            if k.len() == 0 {
                unnamed
            } else {
                k
            },
            v,
        );
    }
}

/// Whether the keys of an object increase, kept as one fact.
#[verifier::opaque]
spec fn tidy(o: Entries) -> bool {
    keys_increase(o)
}

/// A field that is put in leaves the fields in order, whatever its value.
proof fn lemma_put_tidy(out: Entries, name: Seq<char>)
    requires
        tidy(out),
    ensures
        forall|v: Json| tidy(#[trigger] put(out, name, v)),
{
    reveal(tidy);
    assert forall|v: Json| tidy(#[trigger] put(out, name, v)) by {
        law_put_keeps_order(out, name, v);
    }
}

proof fn lemma_put_all_tidy(o: Entries, more: Entries, unnamed: Seq<char>, n: nat)
    requires
        tidy(o),
    ensures
        tidy(put_all_unique(o, more, unnamed, n)),
{
    reveal(tidy);
    lemma_put_all_order(o, more, unnamed, n);
}

proof fn lemma_number_tidy<R: FormIdRefResolver>(
    e: Env<R>,
    m: MemberDef,
    out: Entries,
    pool: Seq<Sub>,
    payload: Option<Seq<u8>>,
)
    requires
        m is Integer || m is Float || m is FormId || m is ByteRgba || m is Vec3,
        tidy(out),
    ensures
        tidy(member(e, m, out, pool, payload).0),
{
    match m {
        MemberDef::Integer { name, .. } => lemma_put_tidy(out, name@),
        MemberDef::Float { name, .. } => lemma_put_tidy(out, name@),
        MemberDef::FormId { name, .. } => lemma_put_tidy(out, name@),
        MemberDef::ByteRgba { name, .. } => lemma_put_tidy(out, name@),
        MemberDef::Vec3 { name, .. } => lemma_put_tidy(out, name@),
        _ => {},
    }
}

proof fn lemma_text_tidy<R: FormIdRefResolver>(
    e: Env<R>,
    m: MemberDef,
    out: Entries,
    pool: Seq<Sub>,
    payload: Option<Seq<u8>>,
)
    requires
        m is String || m is LString || m is Bytes || m is Unknown || m is RawFallback,
        tidy(out),
    ensures
        tidy(member(e, m, out, pool, payload).0),
{
    match m {
        MemberDef::String { name, .. } => lemma_put_tidy(out, name@),
        MemberDef::LString { name, .. } => lemma_put_tidy(out, name@),
        MemberDef::Bytes { name, .. } => lemma_put_tidy(out, name@),
        MemberDef::Unknown { name, .. } => lemma_put_tidy(out, name@),
        MemberDef::RawFallback { name, .. } => lemma_put_tidy(out, name@),
        _ => {},
    }
}

proof fn lemma_group_tidy<R: FormIdRefResolver>(
    e: Env<R>,
    m: MemberDef,
    out: Entries,
    pool: Seq<Sub>,
    payload: Option<Seq<u8>>,
)
    requires
        m is RStruct || m is RArray || m is Array || m is Empty,
        tidy(out),
    ensures
        tidy(member(e, m, out, pool, payload).0),
{
    match m {
        MemberDef::RStruct { name, .. } => lemma_put_tidy(out, name@),
        MemberDef::RArray { name, .. } => lemma_put_tidy(out, name@),
        MemberDef::Array { name, .. } => lemma_put_tidy(out, name@),
        MemberDef::Empty { name, .. } => lemma_put_tidy(out, name@),
        _ => {},
    }
}

proof fn lemma_blob_tidy<R: FormIdRefResolver>(
    e: Env<R>,
    m: MemberDef,
    out: Entries,
    pool: Seq<Sub>,
    payload: Option<Seq<u8>>,
)
    requires
        m is Vmad || m is Ctda || m is ModelInfo || m is Unused,
        tidy(out),
    ensures
        tidy(member(e, m, out, pool, payload).0),
{
    match m {
        MemberDef::Vmad { name, .. } => lemma_put_tidy(out, name@),
        MemberDef::Ctda { name, .. } => lemma_put_tidy(out, name@),
        MemberDef::ModelInfo { name, .. } => lemma_put_tidy(out, name@),
        _ => {},
    }
}

proof fn lemma_struct_tidy<R: FormIdRefResolver>(
    e: Env<R>,
    m: MemberDef,
    out: Entries,
    pool: Seq<Sub>,
    payload: Option<Seq<u8>>,
)
    requires
        m is Struct,
        tidy(out),
    ensures
        tidy(member(e, m, out, pool, payload).0),
{
    if let MemberDef::Struct { sig, name, fields, .. } = m {
        let src = from_either(e, sig, pool, payload).0;
        let e2 = if payload is None && any_needs_outer(fields@) {
            e.within(out)
        } else {
            e
        };
        if let Some(data) = src {
            lemma_struct_fields_tidy(e2, name@, fields, data, out);
        }
        let now = member(e, m, out, pool, payload).0;
        assert(now == out || src is Some && now == struct_fields(
            e2,
            name@,
            fields,
            src->0,
            out,
        ).0);
    }
}

proof fn lemma_struct_fields_tidy<R: FormIdRefResolver>(
    e: Env<R>,
    name: Seq<char>,
    fields: Vec<FieldDef>,
    data: Seq<u8>,
    out: Entries,
)
    requires
        tidy(out),
    ensures
        tidy(struct_fields(e, name, fields, data, out).0),
{
    lemma_put_tidy(out, name);
    let inner = fields_from(e, fields, 0, data, 0, nothing()).0;
    let done = crafting_quantity(inner);
    assert(tidy(put(out, name, Json::Obj(done))));
}

proof fn lemma_union_tidy<R: FormIdRefResolver>(
    e: Env<R>,
    m: MemberDef,
    out: Entries,
    pool: Seq<Sub>,
    payload: Option<Seq<u8>>,
)
    requires
        m is Union,
        tidy(out),
    ensures
        tidy(member(e, m, out, pool, payload).0),
{
    if let MemberDef::Union { sig, name, decider, variants } = m {
        lemma_put_tidy(out, name@);
        let (src, pool2) = from_pool(e, sig, pool);
        let bytes = if src is Some {
            src
        } else {
            payload
        };
        let choice = member_choice(e, decider, variants.len() as int, out, pool2, bytes);
        if choice is Some && 0 <= choice->0 < variants.len() {
            let tmp = member(e, variants@[choice->0], nothing(), pool2, bytes).0;
            lemma_put_all_tidy(out, tmp, name@, tmp.len());
        }
    }
}

/// Decoding a member keeps the fields in the order of their names.
pub proof fn law_member_keeps_order<R: FormIdRefResolver>(
    e: Env<R>,
    m: MemberDef,
    out: Entries,
    pool: Seq<Sub>,
    payload: Option<Seq<u8>>,
)
    requires
        keys_increase(out),
    ensures
        keys_increase(member(e, m, out, pool, payload).0),
{
    assert(tidy(out)) by {
        reveal(tidy);
    }
    match m {
        MemberDef::Integer { .. } => lemma_number_tidy(e, m, out, pool, payload),
        MemberDef::Float { .. } => lemma_number_tidy(e, m, out, pool, payload),
        MemberDef::FormId { .. } => lemma_number_tidy(e, m, out, pool, payload),
        MemberDef::ByteRgba { .. } => lemma_number_tidy(e, m, out, pool, payload),
        MemberDef::Vec3 { .. } => lemma_number_tidy(e, m, out, pool, payload),
        MemberDef::String { .. } => lemma_text_tidy(e, m, out, pool, payload),
        MemberDef::LString { .. } => lemma_text_tidy(e, m, out, pool, payload),
        MemberDef::Bytes { .. } => lemma_text_tidy(e, m, out, pool, payload),
        MemberDef::Unknown { .. } => lemma_text_tidy(e, m, out, pool, payload),
        MemberDef::RawFallback { .. } => lemma_text_tidy(e, m, out, pool, payload),
        MemberDef::RStruct { .. } => lemma_group_tidy(e, m, out, pool, payload),
        MemberDef::RArray { .. } => lemma_group_tidy(e, m, out, pool, payload),
        MemberDef::Array { .. } => lemma_group_tidy(e, m, out, pool, payload),
        MemberDef::Empty { .. } => lemma_group_tidy(e, m, out, pool, payload),
        MemberDef::Vmad { .. } => lemma_blob_tidy(e, m, out, pool, payload),
        MemberDef::Ctda { .. } => lemma_blob_tidy(e, m, out, pool, payload),
        MemberDef::ModelInfo { .. } => lemma_blob_tidy(e, m, out, pool, payload),
        MemberDef::Unused { .. } => lemma_blob_tidy(e, m, out, pool, payload),
        MemberDef::Struct { .. } => lemma_struct_tidy(e, m, out, pool, payload),
        MemberDef::Union { .. } => lemma_union_tidy(e, m, out, pool, payload),
    }
    reveal(tidy);
}

proof fn lemma_members_order<R: FormIdRefResolver>(
    e: Env<R>,
    members: Vec<MemberDef>,
    i: nat,
    out: Entries,
    pool: Seq<Sub>,
)
    requires
        keys_increase(out),
    ensures
        keys_increase(members_from(e, members, i, out, pool).0),
    decreases members.len() - i,
{
    if i < members.len() {
        law_member_keeps_order(e, members@[i as int], out, pool, None);
        let (out2, pool2) = member(e, members@[i as int], out, pool, None);
        lemma_members_order(e, members, i + 1, out2, pool2);
    }
}

/// A decoded record is an object with its fields in the order of their names.
pub proof fn law_decoded_is_ordered<R: FormIdRefResolver>(
    e: Env<R>,
    schema: Schema,
    sig: Seq<char>,
    list: Seq<Sub>,
)
    ensures
        decoded(e, schema, sig, list) is Obj,
        keys_increase(decoded(e, schema, sig, list)->Obj_0),
{
    assert(keys_increase(nothing()));
    let def = crate::schema::lookup(schema.records@, sig);
    let (out, pool) = record_fields(e, def, sig, list);
    match def {
        Some(def) => {
            let first = put(nothing(), "_record_type"@, Json::Str(def.name@));
            law_put_keeps_order(nothing(), "_record_type"@, Json::Str(def.name@));
            lemma_members_order(
                crate::decode::meaning::record_env(e, sig, list),
                def.members,
                0,
                first,
                list,
            );
        },
        None => {
            law_put_keeps_order(nothing(), "_record_type"@, Json::Str(sig));
            law_put_keeps_order(
                put(nothing(), "_record_type"@, Json::Str(sig)),
                "_unknown_record"@,
                Json::Bool(true),
            );
        },
    }
    let rest = Json::Obj(leftovers(pool, pool.len()));
    law_put_keeps_order(out, "_unmapped"@, rest);
    let all = if pool.len() == 0 {
        out
    } else {
        put(out, "_unmapped"@, rest)
    };
    assert forall|v: Json| keys_increase(#[trigger] put(all, "Bash Damage"@, v)) by {
        law_put_keeps_order(all, "Bash Damage"@, v);
    }
}

// ── Subrecords ─────────────────────────────────────────────────────────────
/// Whether all of `part` is in `whole`, and `part` is not longer.
pub open spec fn within(part: Seq<Sub>, whole: Seq<Sub>) -> bool {
    part.len() <= whole.len() && forall|s: Sub| #[trigger] part.contains(s) ==> whole.contains(s)
}

proof fn lemma_within_trans(a: Seq<Sub>, b: Seq<Sub>, c: Seq<Sub>)
    requires
        within(a, b),
        within(b, c),
    ensures
        within(a, c),
{
    assert forall|s: Sub| #[trigger] a.contains(s) implies c.contains(s) by {
        assert(b.contains(s));
    }
}

proof fn lemma_taken_within(pool: Seq<Sub>, sig: Seq<char>)
    ensures
        within(taken(pool, sig), pool),
{
    lemma_find_sig(pool, sig);
    let i = find_sig(pool, sig);
    if first_sig(pool, sig) is Some {
        let rest = pool.remove(i);
        assert forall|s: Sub| #[trigger] rest.contains(s) implies pool.contains(s) by {
            let j = choose|j: int| 0 <= j < rest.len() && rest[j] == s;
            if j < i {
                assert(pool[j] == s);
            } else {
                assert(pool[j + 1] == s);
            }
        }
    }
}

proof fn lemma_filter_within(pool: Seq<Sub>, keep: spec_fn(Sub) -> bool)
    ensures
        within(pool.filter(keep), pool),
    decreases pool.len(),
{
    reveal(Seq::filter);
    if pool.len() > 0 {
        let head = pool.drop_last();
        lemma_filter_within(head, keep);
        let kept = pool.filter(keep);
        let before = head.filter(keep);
        assert forall|s: Sub| #[trigger] kept.contains(s) implies pool.contains(s) by {
            let j = choose|j: int| 0 <= j < kept.len() && kept[j] == s;
            if j < before.len() {
                assert(before[j] == s);
                assert(before.contains(s));
                assert(head.contains(s));
                let i = choose|i: int| 0 <= i < head.len() && head[i] == s;
                assert(pool[i] == s);
            } else {
                assert(pool[pool.len() - 1] == s);
            }
        }
    }
}

proof fn lemma_from_pool_within<R>(e: Env<R>, sig: Option<String>, pool: Seq<Sub>)
    ensures
        within(from_pool(e, sig, pool).1, pool),
{
    if let Some(s) = sig {
        lemma_taken_within(pool, s@);
    }
}

/// Decoding a member takes subrecords from those that wait, and adds none.
pub proof fn law_member_takes_from_pool<R: FormIdRefResolver>(
    e: Env<R>,
    m: MemberDef,
    out: Entries,
    pool: Seq<Sub>,
    payload: Option<Seq<u8>>,
)
    ensures
        within(member(e, m, out, pool, payload).1, pool),
    decreases m, 1nat, 0nat,
{
    if version_ok(e.form_version, m) {
        match m {
            MemberDef::Struct { sig, .. } => lemma_from_pool_within(e, sig, pool),
            MemberDef::Integer { sig, .. } => lemma_from_pool_within(e, sig, pool),
            MemberDef::Float { sig, .. } => lemma_from_pool_within(e, sig, pool),
            MemberDef::String { sig, .. } => lemma_from_pool_within(e, sig, pool),
            MemberDef::LString { sig, .. } => lemma_from_pool_within(e, sig, pool),
            MemberDef::FormId { sig, .. } => lemma_from_pool_within(e, sig, pool),
            MemberDef::Bytes { sig, .. } => lemma_from_pool_within(e, sig, pool),
            MemberDef::ByteRgba { sig, .. } => lemma_from_pool_within(e, sig, pool),
            MemberDef::Vec3 { sig, .. } => lemma_from_pool_within(e, sig, pool),
            MemberDef::Unused { sig, .. } => lemma_from_pool_within(e, sig, pool),
            MemberDef::Unknown { sig, .. } => lemma_from_pool_within(e, sig, pool),
            MemberDef::RawFallback { sig, .. } => lemma_from_pool_within(e, sig, pool),
            MemberDef::Vmad { sig, .. } => lemma_from_pool_within(e, sig, pool),
            MemberDef::Ctda { sig, .. } => lemma_from_pool_within(e, sig, pool),
            MemberDef::ModelInfo { sig, .. } => lemma_from_pool_within(e, sig, pool),
            MemberDef::Empty { sig, .. } => {
                if let Some(s) = sig {
                    lemma_taken_within(pool, s@);
                }
            },
            MemberDef::Array { sig, .. } => {
                if let Some(s) = sig {
                    lemma_filter_within(pool, |x: Sub| x.sig != s@);
                }
            },
            MemberDef::RStruct { members, .. } => {
                let (lo, hi) = crate::decode::scope::group_scope(pool, members);
                lemma_members_within(e.scoped(lo, hi), members, 0, nothing(), pool);
            },
            MemberDef::RArray { element, count, stop_before, .. } => {
                lemma_groups_within(
                    e,
                    *element,
                    crate::decode::scope::group_count(count, out, e),
                    stop_before@,
                    pool,
                    Seq::empty(),
                    0,
                );
            },
            MemberDef::Union { sig, decider, variants, .. } => {
                lemma_from_pool_within(e, sig, pool);
                let (src, pool2) = from_pool(e, sig, pool);
                let bytes = if src is Some {
                    src
                } else {
                    payload
                };
                let choice = member_choice(e, decider, variants.len() as int, out, pool2, bytes);
                if choice is Some && 0 <= choice->0 < variants.len() {
                    law_member_takes_from_pool(e, variants@[choice->0], nothing(), pool2, bytes);
                    lemma_within_trans(
                        member(e, variants@[choice->0], nothing(), pool2, bytes).1,
                        pool2,
                        pool,
                    );
                }
            },
        }
    }
}

proof fn lemma_members_within<R: FormIdRefResolver>(
    e: Env<R>,
    members: Vec<MemberDef>,
    i: nat,
    out: Entries,
    pool: Seq<Sub>,
)
    ensures
        within(members_from(e, members, i, out, pool).1, pool),
    decreases members, 1nat, members.len() - i,
{
    if i < members.len() {
        law_member_takes_from_pool(e, members@[i as int], out, pool, None);
        let (out2, pool2) = member(e, members@[i as int], out, pool, None);
        lemma_members_within(e, members, i + 1, out2, pool2);
        lemma_within_trans(members_from(e, members, i + 1, out2, pool2).1, pool2, pool);
    }
}

proof fn lemma_groups_within<R: FormIdRefResolver>(
    e: Env<R>,
    element: MemberDef,
    count: Option<int>,
    stop_before: Seq<String>,
    pool: Seq<Sub>,
    acc: Seq<Json>,
    next: int,
)
    ensures
        within(groups(e, element, count, stop_before, pool, acc, next).1, pool),
    decreases element, 4nat, pool.len(),
{
    let (e2, next2) = element_scope(e, element, pool, next);
    let (item, pool2) = member(e2, element, nothing(), pool, None);
    law_member_takes_from_pool(e2, element, nothing(), pool, None);
    if pool2.len() < pool.len() {
        let acc2 = acc.push(Json::Obj(item));
        lemma_groups_within(e, element, count, stop_before, pool2, acc2, next2);
        lemma_within_trans(
            groups(e, element, count, stop_before, pool2, acc2, next2).1,
            pool2,
            pool,
        );
    }
}

/// A subrecord is taken only where it lies in the scope of the member.
pub proof fn law_only_the_scope_is_taken_from<R>(e: Env<R>, sig: Option<String>, pool: Seq<Sub>)
    ensures
        ({
            let (data, rest) = from_pool(e, sig, pool);
            match data {
                Some(d) => exists|i: int|
                    0 <= i < pool.len() && e.in_scope((#[trigger] pool[i]).doc) && pool[i].data == d
                        && rest == pool.remove(i),
                None => rest == pool,
            }
        }),
{
    if let Some(s) = sig {
        lemma_find_sig(pool, s@);
        let i = find_sig(pool, s@);
        if scoped_sig(e, pool, s@) is Some {
            assert(e.in_scope(pool[i].doc) && scoped_taken(e, pool, s@) == pool.remove(i));
        }
    }
}

/// Every subrecord that no member took is listed under its signature.
pub proof fn law_nothing_is_lost(pool: Seq<Sub>, n: nat, i: int)
    requires
        0 <= i < n <= pool.len(),
    ensures
        get(leftovers(pool, n), pool[i].sig) matches Some(Json::Arr(list)) && list.contains(
            leftover(pool[i]),
        ),
    decreases n,
{
    let o = leftovers(pool, (n - 1) as nat);
    let s = pool[n - 1];
    let before = match get(o, s.sig) {
        Some(Json::Arr(list)) => list,
        _ => Seq::empty(),
    };
    let now = before.push(leftover(s));
    law_get_after_put(o, s.sig, Json::Arr(now), pool[i].sig);
    if i == n - 1 {
        assert(now[now.len() - 1] == leftover(s));
    } else {
        law_nothing_is_lost(pool, (n - 1) as nat, i);
        if pool[i].sig == s.sig {
            let j = choose|j: int| 0 <= j < before.len() && before[j] == leftover(pool[i]);
            assert(now[j] == leftover(pool[i]));
        }
    }
}

// ── Bytes ──────────────────────────────────────────────────────────────────
proof fn lemma_packed_end<R: FormIdRefResolver>(
    e: Env<R>,
    element: FieldDef,
    data: Seq<u8>,
    pos: int,
    size: int,
    count: nat,
    acc: Seq<Json>,
)
    requires
        0 <= pos <= data.len(),
        size >= 0,
    ensures
        pos <= packed(e, element, data, pos, size, count, acc).1 <= data.len(),
    decreases count,
{
    if !(count == 0 || pos + size > data.len()) {
        lemma_packed_end(
            e,
            element,
            data,
            pos + size,
            size,
            (count - 1) as nat,
            acc.push(
                crate::decode::meaning::value(e, element, data.subrange(pos, pos + size)),
            ),
        );
    }
}

proof fn lemma_before_nul(data: Seq<u8>)
    ensures
        crate::text::before_nul(data).len() <= data.len(),
    decreases data.len(),
{
    if data.len() > 0 {
        lemma_before_nul(data.drop_first());
    }
}

proof fn lemma_size_positive(fv: u16, edid: Option<char>, f: FieldDef)
    ensures
        field_size(fv, edid, f) matches Some(s) ==> s >= 0,
    decreases f, 0nat,
{
    if version_ok(fv, f) {
        match f {
            MemberDef::Struct { fields, .. } => lemma_sum_positive(fv, edid, fields, 0, 0),
            MemberDef::Array { element, count: Some(ArrayCount::Fixed(n)), .. } => {
                lemma_size_positive(fv, edid, *element);
                if let Some(s) = field_size(fv, edid, *element) {
                    assert(s * n >= 0) by (nonlinear_arith)
                        requires
                            s >= 0,
                            n >= 0,
                    ;
                }
            },
            MemberDef::Union { decider, variants, .. } => {
                if variants.len() > 0 {
                    lemma_size_positive(fv, edid, variants@[0]);
                }
                assert(common_size(fv, edid, variants) matches Some(s) ==> s >= 0);
                match version_choice(fv, edid, decider, variants.len() as int) {
                    Some(i) => {
                        if 0 <= i < variants.len() {
                            lemma_size_positive(fv, edid, variants@[i]);
                        }
                    },
                    None => {},
                }
            },
            _ => {},
        }
    }
}

proof fn lemma_sum_positive(
    fv: u16,
    edid: Option<char>,
    fields: Vec<FieldDef>,
    i: nat,
    total: int,
)
    requires
        total >= 0,
    ensures
        sum_sizes(fv, edid, fields, i, total) matches Some(s) ==> s >= 0,
    decreases fields, fields.len() - i,
{
    if i < fields.len() {
        lemma_size_positive(fv, edid, fields@[i as int]);
        if let Some(s) = field_size(fv, edid, fields@[i as int]) {
            if total + s <= usize::MAX {
                lemma_sum_positive(fv, edid, fields, i + 1, total + s);
            }
        }
    }
}

proof fn lemma_step_end<R: FormIdRefResolver>(
    e: Env<R>,
    f: FieldDef,
    data: Seq<u8>,
    pos: int,
    o: Entries,
)
    requires
        0 <= pos <= data.len(),
    ensures
        pos <= field_step(e, f, data, pos, o).1 <= data.len(),
    decreases f, 1nat, 0nat,
{
    let tail = data.skip(pos);
    match f {
        MemberDef::String { .. } => lemma_before_nul(tail),
        MemberDef::Struct { name, fields, .. } => {
            law_struct_stays_within_its_bytes(e, name@, fields, tail, o);
        },
        MemberDef::Union { decider, variants, .. } => {
            if let Some(i) = field_choice(e, decider, variants.len() as int, o, data, pos) {
                if 0 <= i < variants.len() {
                    lemma_variant_size(e, variants@[i], tail);
                }
            }
        },
        MemberDef::Array { element, count, .. } => {
            lemma_size_positive(e.form_version, e.edid, *element);
            let (n, start) = array_count(count, data, pos, o);
            if let Some(size) = field_size(e.form_version, e.edid, *element) {
                lemma_packed_end(e.within(o), *element, data, start, size, n, Seq::empty());
            }
        },
        _ => {},
    }
}

proof fn lemma_variant_size<R: FormIdRefResolver>(e: Env<R>, variant: MemberDef, data: Seq<u8>)
    ensures
        0 <= variant_size(e, variant, data) <= data.len(),
    decreases variant, 1nat, 0nat,
{
    match variant {
        MemberDef::Struct { name, fields, .. } => {
            law_struct_stays_within_its_bytes(e, name@, fields, data, nothing());
        },
        _ => lemma_size_positive(e.form_version, e.edid, variant),
    }
}

/// Decoding a struct takes no more bytes than there are.
pub proof fn law_struct_stays_within_its_bytes<R: FormIdRefResolver>(
    e: Env<R>,
    name: Seq<char>,
    fields: Vec<FieldDef>,
    data: Seq<u8>,
    out: Entries,
)
    ensures
        0 <= struct_fields(e, name, fields, data, out).1 <= data.len(),
    decreases fields, 2nat, 0nat,
{
    lemma_fields_end(e, fields, 0, data, 0, nothing());
}

proof fn lemma_fields_end<R: FormIdRefResolver>(
    e: Env<R>,
    fields: Vec<FieldDef>,
    i: nat,
    data: Seq<u8>,
    pos: int,
    o: Entries,
)
    requires
        0 <= pos <= data.len(),
    ensures
        pos <= fields_from(e, fields, i, data, pos, o).1 <= data.len(),
    decreases fields, 1nat, fields.len() - i,
{
    if i < fields.len() {
        lemma_step_end(e, fields@[i as int], data, pos, o);
        let (o2, pos2, stop) = field_step(e, fields@[i as int], data, pos, o);
        if !stop {
            lemma_fields_end(e, fields, i + 1, data, pos2, o2);
        }
    }
}

} // verus!
