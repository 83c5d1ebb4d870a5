//! The decoder itself: it walks the schema and the subrecords together.
use crate::decode::context::{DecodeContext, FormIdRefResolver};
use crate::decode::meaning::{
    any_needs_outer, array_count, bit_choice, choose_by_field, choose_by_number, choose_by_presence,
    choose_by_target, common_size, decoded, earliest, edid_char, element_scope, field_choice,
    field_size, field_step, fields_from, first_in_scope, free_number, from_either, from_pool,
    from_sig_first, groups, le_bytes, leftovers, lstring, member, member_choice, members_from,
    needs_outer, numbered, packed, packed_structs, packed_sub, packed_subs, put_all_unique,
    put_unique, record_env, same_sizes, set_opt, struct_fields, sum_sizes, table_kind, value,
    variant_size, vmad_of,
};
use crate::decode::model_info::decode_model_info;
use crate::decode::rules::{apply_crafting_quantity, apply_weapon_bash_curve};
use crate::decode::scalars::{
    choose_union_variant, field_int_value, field_value_key, int_size, least, member_from_size_ok,
    member_version_ok, opt_index, opt_val, raw_reason_value, raw_value, read_le_uint, scalar_bytes,
    scalar_float, scalar_formid, scalar_int, scalar_rgba, scalar_string, scalar_vec3,
    sibling_target_sig, version_ok,
};
use crate::decode::scope::{
    anchor_sig, element_terminator_sig, rarray_count, rstruct_present_signature_scope,
    stop_before_check, taken, Pool,
};
use crate::decode::vmad::{
    decode_vmad, decode_vmad_info, decode_vmad_pack, decode_vmad_perk, decode_vmad_qust,
    decode_vmad_scen,
};
use crate::format::read_u32;
use crate::json::{get, nothing, put, text, views, Json, Object, Value};
use crate::reader::{find_subrecord, read_inline, subs, OwnedSubrecord};
use crate::schema::{
    lookup_usize, ArrayCount, BitChoice, FieldDef, LStringTable, MemberDef, UnionDecider,
};
use crate::strings::StringKind;
use crate::text::{
    chars_of, concat, decimal_string, encode, find_nul, from_utf8, hex8_string, opt_slice, str_eq,
    trim_nuls_string,
};
use vstd::prelude::*;
use vstd::slice::slice_subrange;

verus! {

/// Bytes that may be absent.
pub open spec fn opt_bytes(data: Option<&[u8]>) -> Option<Seq<u8>> {
    match data {
        Some(d) => Some(d@),
        None => None,
    }
}

/// Takes the bytes of the first subrecord `sig` in scope.
fn take_source<'a, R>(
    ctx: &DecodeContext<'_, R>,
    sig: &Option<String>,
    pool: &mut Pool<'a>,
) -> (r: Option<&'a [u8]>)
    ensures
        (opt_bytes(r), final(pool)@) == from_pool(ctx.env(), *sig, old(pool)@),
        final(pool)@.len() <= old(pool)@.len(),
{
    match sig {
        Some(s) => match pool.take_first_in_scope(s, ctx) {
            Some(sr) => Some(sr.data.as_slice()),
            None => None,
        },
        None => None,
    }
}

/// The bytes handed in, or else those of the first subrecord `sig` in scope.
fn fetch<'a, R>(
    ctx: &DecodeContext<'_, R>,
    sig: &Option<String>,
    pool: &mut Pool<'a>,
    payload: Option<&'a [u8]>,
) -> (r: Option<&'a [u8]>)
    ensures
        (opt_bytes(r), final(pool)@) == from_either(
            ctx.env(),
            *sig,
            old(pool)@,
            opt_bytes(payload),
        ),
        final(pool)@.len() <= old(pool)@.len(),
{
    match payload {
        Some(d) => Some(d),
        None => take_source(ctx, sig, pool),
    }
}

/// The bytes of the first subrecord `sig` in scope, or without a signature
/// those handed in.
fn fetch_sig_first<'a, R>(
    ctx: &DecodeContext<'_, R>,
    sig: &Option<String>,
    pool: &mut Pool<'a>,
    payload: Option<&'a [u8]>,
) -> (r: Option<&'a [u8]>)
    ensures
        (opt_bytes(r), final(pool)@) == from_sig_first(
            ctx.env(),
            *sig,
            old(pool)@,
            opt_bytes(payload),
        ),
        final(pool)@.len() <= old(pool)@.len(),
{
    match sig {
        Some(_) => take_source(ctx, sig, pool),
        None => payload,
    }
}

/// Sets `name` where there is a value for it.
fn set(out: &mut Object, name: &str, v: Option<Value>)
    ensures
        final(out)@ == set_opt(old(out)@, name@, opt_val(v)),
{
    match v {
        Some(v) => out.insert(name.to_owned(), v),
        None => {},
    }
}

/// Puts `v` under `key`, or where that is taken under the first free one of
/// `key 2`, `key 3` and so on.
pub fn insert_unique(out: &mut Object, key: &str, v: Value)
    ensures
        final(out)@ == put_unique(old(out)@, key@, v@),
{
    if !out.contains_key(key) {
        out.insert(key.to_owned(), v);
        return;
    }
    let tries: usize = out.len();
    let spaced = concat(key, " ");
    proof {
        reveal_strlit(" ");
        assert(" "@ =~= seq![' ']);
    }
    let mut i: usize = 0;
    let mut candidate = concat(&spaced, &decimal_string(2));
    while i < tries && out.contains_key(&candidate)
        invariant
            i <= tries,
            out@ == old(out)@,
            tries == out@.len(),
            spaced@ == key@ + seq![' '],
            candidate@ == numbered(key@, 2 + i),
            free_number(out@, key@, 2, tries as nat) == free_number(
                out@,
                key@,
                2 + i,
                (tries - i) as nat,
            ),
        decreases tries - i,
    {
        i += 1;
        candidate = concat(&spaced, &decimal_string(2 + i as i128));
    }
    out.insert(candidate, v);
}

/// Puts the entries of `more` in; an empty key becomes `unnamed`.
fn insert_all_unique(out: &mut Object, more: &Object, unnamed: &str)
    ensures
        final(out)@ == put_all_unique(old(out)@, more@, unnamed@, more@.len()),
{
    let mut i: usize = 0;
    while i < more.entries.len()
        invariant
            i <= more.entries.len(),
            out@ == put_all_unique(old(out)@, more@, unnamed@, i as nat),
        decreases more.entries.len() - i,
    {
        let key: &str = &more.entries[i].0;
        assert(more@[i as int] == (key@, more.entries@[i as int].1@));
        if key.is_empty() {
            insert_unique(out, unnamed, more.entries[i].1.copy());
        } else {
            insert_unique(out, key, more.entries[i].1.copy());
        }
        i += 1;
    }
}

// ── Sizes ──────────────────────────────────────────────────────────────────
/// The number of bytes that a field always takes, where there is one.
pub fn field_byte_size(form_version: u16, edid: Option<char>, field: &FieldDef) -> (r: Option<
    usize,
>)
    ensures
        opt_index(r) == field_size(form_version, edid, *field),
    decreases field, 0nat,
{
    if !member_version_ok(form_version, field) {
        return Some(0);
    }
    match field {
        MemberDef::Integer { width, .. } => Some(int_size(*width)),
        MemberDef::Float { .. } => Some(4),
        MemberDef::FormId { .. } => Some(4),
        MemberDef::ByteRgba { .. } => Some(4),
        MemberDef::Vec3 { .. } => Some(12),
        MemberDef::Unused { bytes, .. } => Some(*bytes),
        MemberDef::Empty { .. } => Some(0),
        MemberDef::Bytes { len, .. } => *len,
        MemberDef::Struct { fields, .. } => total_size(form_version, edid, fields),
        MemberDef::Array { element, count, .. } => match count {
            Some(ArrayCount::Fixed(n)) => match field_byte_size(form_version, edid, element) {
                Some(s) => s.checked_mul(*n),
                None => None,
            },
            _ => None,
        },
        MemberDef::Union { decider, variants, .. } => match decider {
            UnionDecider::ByteAtOffset { .. } => shared_size(form_version, edid, variants),
            UnionDecider::FieldValue { .. } => shared_size(form_version, edid, variants),
            _ => match choose_union_variant(form_version, edid, decider, variants.len()) {
                Some(i) => if i < variants.len() {
                    field_byte_size(form_version, edid, &variants[i])
                } else {
                    None
                },
                None => None,
            },
        },
        _ => None,
    }
}

/// The sum of the sizes of all fields.
fn total_size(form_version: u16, edid: Option<char>, fields: &Vec<FieldDef>) -> (r: Option<usize>)
    ensures
        opt_index(r) == sum_sizes(form_version, edid, *fields, 0, 0),
    decreases fields, fields.len() + 1,
{
    let mut total: usize = 0;
    let mut i: usize = 0;
    while i < fields.len()
        invariant
            i <= fields.len(),
            sum_sizes(form_version, edid, *fields, 0, 0) == sum_sizes(
                form_version,
                edid,
                *fields,
                i as nat,
                total as int,
            ),
        decreases fields.len() - i,
    {
        match field_byte_size(form_version, edid, &fields[i]) {
            Some(s) => match total.checked_add(s) {
                Some(t) => {
                    total = t;
                },
                None => {
                    return None;
                },
            },
            None => {
                return None;
            },
        }
        i += 1;
    }
    Some(total)
}

/// The size of all variants, where they have one and the same.
fn shared_size(form_version: u16, edid: Option<char>, variants: &Vec<FieldDef>) -> (r: Option<
    usize,
>)
    ensures
        opt_index(r) == common_size(form_version, edid, *variants),
    decreases variants, variants.len() + 1,
{
    if variants.len() == 0 {
        return None;
    }
    let first: usize = match field_byte_size(form_version, edid, &variants[0]) {
        Some(s) => s,
        None => {
            return None;
        },
    };
    let mut i: usize = 0;
    while i < variants.len()
        invariant
            i <= variants.len(),
            variants.len() > 0,
            field_size(form_version, edid, variants@[0]) == Some(first as int),
            same_sizes(form_version, edid, *variants, 0, first as int) == same_sizes(
                form_version,
                edid,
                *variants,
                i as nat,
                first as int,
            ),
        decreases variants.len() - i,
    {
        match field_byte_size(form_version, edid, &variants[i]) {
            Some(s) => if s != first {
                return None;
            },
            None => {
                return None;
            },
        }
        i += 1;
    }
    Some(first)
}

/// Whether a member, or a field within it, is a union that a field decides.
pub fn contains_field_value_union(m: &MemberDef) -> (b: bool)
    ensures
        b == needs_outer(*m),
    decreases m, 0nat,
{
    match m {
        MemberDef::Union { decider, variants, .. } => match decider {
            UnionDecider::FieldValue { .. } => true,
            _ => any_field_value_union(variants),
        },
        MemberDef::Struct { fields, .. } => any_field_value_union(fields),
        MemberDef::Array { element, .. } => contains_field_value_union(element),
        _ => false,
    }
}

/// Whether one of the fields needs the enclosing struct.
fn any_field_value_union(fields: &Vec<FieldDef>) -> (b: bool)
    ensures
        b == any_needs_outer(fields@),
    decreases fields, fields.len() + 1,
{
    let mut i: usize = 0;
    while i < fields.len()
        invariant
            i <= fields.len(),
            forall|j: int| 0 <= j < i ==> !needs_outer(#[trigger] fields@[j]),
        decreases fields.len() - i,
    {
        if contains_field_value_union(&fields[i]) {
            return true;
        }
        i += 1;
    }
    false
}

// ── Choosing a variant ─────────────────────────────────────────────────────
/// The variant of the first mask that has a bit in common with `v`.
fn choose_bit(v: u64, bits: &Vec<BitChoice>) -> (r: Option<usize>)
    ensures
        opt_index(r) == bit_choice(v, bits@),
{
    let mut i: usize = 0;
    assert(bits@.skip(0) =~= bits@);
    while i < bits.len()
        invariant
            i <= bits.len(),
            bit_choice(v, bits@) == bit_choice(v, bits@.skip(i as int)),
        decreases bits.len() - i,
    {
        if v & bits[i].mask != 0 {
            return Some(bits[i].variant);
        }
        assert(bits@.skip(i as int).drop_first() =~= bits@.skip(i + 1));
        i += 1;
    }
    None
}

/// The variant that the value of a field chooses.
fn choose_field<R>(
    ctx: &DecodeContext<'_, R>,
    out: &Object,
    path: &str,
    map: &Vec<(String, usize)>,
    default: Option<usize>,
    bits: &Vec<BitChoice>,
) -> (r: Option<usize>)
    ensures
        opt_index(r) == choose_by_field(out@, ctx.env().outer, path@, map@, default, bits@),
{
    let mut number = field_int_value(out, path);
    let mut key = field_value_key(out, path);
    if let Some(o) = &ctx.outer_struct {
        if number.is_none() {
            number = field_int_value(o, path);
        }
        if key.is_none() {
            key = field_value_key(o, path);
        }
    }
    if let Some(n) = number {
        if let Some(i) = choose_bit(n, bits) {
            return Some(i);
        }
    }
    if let Some(k) = key {
        if let Some(i) = lookup_usize(map, &k) {
            return Some(i);
        }
    }
    default
}

/// The variant that the target of a reference chooses.
fn choose_target<R: FormIdRefResolver>(
    ctx: &DecodeContext<'_, R>,
    out: &Object,
    name: &str,
    map: &Vec<(String, usize)>,
    default: Option<usize>,
) -> (r: Option<usize>)
    ensures
        opt_index(r) == choose_by_target(ctx.env(), out@, name@, map@, default),
{
    let mut v = out.get(name);
    if v.is_none() {
        if let Some(o) = &ctx.outer_struct {
            v = o.get(name);
        }
    }
    if let Some(v) = v {
        if let Some(t) = sibling_target_sig(v, ctx) {
            if let Some(i) = lookup_usize(map, &t) {
                return Some(i);
            }
        }
    }
    default
}

/// The variant that a number chooses.
fn choose_number(n: Option<u64>, map: &Vec<(String, usize)>, default: Option<usize>) -> (r: Option<
    usize,
>)
    ensures
        opt_index(r) == choose_by_number(
            match n {
                Some(n) => Some(n as int),
                None => None,
            },
            map@,
            default,
        ),
{
    if let Some(n) = n {
        if let Some(i) = lookup_usize(map, &decimal_string(n as i128)) {
            return Some(i);
        }
    }
    default
}

/// The place of the first waiting subrecord `sig` that is in scope.
fn find_in_scope<R>(ctx: &DecodeContext<'_, R>, pool: &Pool<'_>, sig: &str) -> (r: Option<usize>)
    ensures
        opt_index(r) == first_in_scope(ctx.env(), pool@, sig@),
{
    let mut i: usize = 0;
    assert(pool@.skip(0) =~= pool@);
    while i < pool.items.len()
        invariant
            i <= pool.items.len(),
            first_in_scope(ctx.env(), pool@, sig@) == first_in_scope(
                ctx.env(),
                pool@.skip(i as int),
                sig@,
            ),
        decreases pool.items.len() - i,
    {
        let s = pool.items[i];
        assert(pool@.skip(i as int)[0] == s@);
        if str_eq(s.signature.as_str(), sig) && ctx.in_scope(s.doc_index) {
            return Some(s.doc_index);
        }
        assert(pool@.skip(i as int).drop_first() =~= pool@.skip(i + 1));
        i += 1;
    }
    None
}

/// The earliest place of one of the signatures.
fn find_earliest<R>(ctx: &DecodeContext<'_, R>, pool: &Pool<'_>, sigs: &Vec<String>) -> (r: Option<
    usize,
>)
    ensures
        opt_index(r) == earliest(ctx.env(), pool@, sigs@, sigs.len() as nat),
{
    let mut best: Option<usize> = None;
    let mut i: usize = 0;
    while i < sigs.len()
        invariant
            i <= sigs.len(),
            opt_index(best) == earliest(ctx.env(), pool@, sigs@, i as nat),
        decreases sigs.len() - i,
    {
        let here = find_in_scope(ctx, pool, &sigs[i]);
        best = match (best, here) {
            (Some(a), Some(b)) => Some(
                if a <= b {
                    a
                } else {
                    b
                },
            ),
            (Some(a), None) => Some(a),
            (None, b) => b,
        };
        i += 1;
    }
    best
}

/// The variant whose signatures come first.
fn choose_presence<R>(
    ctx: &DecodeContext<'_, R>,
    pool: &Pool<'_>,
    present: &Vec<Vec<String>>,
) -> (r: Option<usize>)
    ensures
        opt_index(r) == match choose_by_presence(
            ctx.env(),
            pool@,
            present@,
            present.len() as nat,
        ) {
            Some((i, _)) => Some(i),
            None => None,
        },
{
    let mut best: Option<(usize, usize)> = None;
    let mut i: usize = 0;
    while i < present.len()
        invariant
            i <= present.len(),
            choose_by_presence(ctx.env(), pool@, present@, i as nat) == (match best {
                Some((j, d)) => Some((j as int, d as int)),
                None => None,
            }),
        decreases present.len() - i,
    {
        if let Some(d) = find_earliest(ctx, pool, &present[i]) {
            best = match best {
                Some((j, b)) => if d < b {
                    Some((i, d))
                } else {
                    Some((j, b))
                },
                None => Some((i, d)),
            };
        }
        i += 1;
    }
    match best {
        Some((j, _)) => Some(j),
        None => None,
    }
}

/// The variant of a union among the members of a record.
fn choose_member<R: FormIdRefResolver>(
    ctx: &DecodeContext<'_, R>,
    decider: &UnionDecider,
    n: usize,
    out: &Object,
    pool: &Pool<'_>,
    payload: Option<&[u8]>,
) -> (r: Option<usize>)
    ensures
        opt_index(r) == member_choice(
            ctx.env(),
            *decider,
            n as int,
            out@,
            pool@,
            opt_bytes(payload),
        ),
{
    match decider {
        UnionDecider::FieldValue { field, map, default_variant, bits } => choose_field(
            ctx,
            out,
            field,
            map,
            *default_variant,
            bits,
        ),
        UnionDecider::ByteAtOffset { byte_offset, map, default_variant, width_bytes } => {
            let v = match payload {
                Some(p) => read_le_uint(p, *byte_offset, *width_bytes),
                None => None,
            };
            choose_number(v, map, *default_variant)
        },
        UnionDecider::PayloadSize { payload_size, default_variant } => {
            let v = match payload {
                Some(p) => Some(p.len() as u64),
                None => None,
            };
            choose_number(v, payload_size, *default_variant)
        },
        UnionDecider::PresentSignature { present_signature } => choose_presence(
            ctx,
            pool,
            present_signature,
        ),
        UnionDecider::FormIdTargetType {
            form_id_target_type,
            map,
            default_variant,
        } => choose_target(ctx, out, form_id_target_type, map, *default_variant),
        _ => choose_union_variant(ctx.form_version, ctx.record_edid_char, decider, n),
    }
}

/// The variant of a union among the fields of a struct.
fn choose_struct<R: FormIdRefResolver>(
    ctx: &DecodeContext<'_, R>,
    decider: &UnionDecider,
    n: usize,
    out: &Object,
    data: &[u8],
    pos: usize,
) -> (r: Option<usize>)
    requires
        pos <= data.len(),
    ensures
        opt_index(r) == field_choice(ctx.env(), *decider, n as int, out@, data@, pos as int),
{
    match decider {
        UnionDecider::FieldValue { field, map, default_variant, bits } => choose_field(
            ctx,
            out,
            field,
            map,
            *default_variant,
            bits,
        ),
        UnionDecider::ByteAtOffset { byte_offset, map, default_variant, width_bytes } => {
            let v = if *byte_offset <= data.len() - pos {
                read_le_uint(data, pos + *byte_offset, *width_bytes)
            } else {
                None
            };
            choose_number(v, map, *default_variant)
        },
        UnionDecider::FormIdTargetType {
            form_id_target_type,
            map,
            default_variant,
        } => choose_target(ctx, out, form_id_target_type, map, *default_variant),
        _ => choose_union_variant(ctx.form_version, ctx.record_edid_char, decider, n),
    }
}

// ── Text and scripts ───────────────────────────────────────────────────────
/// The string table of an LString.
pub fn lstring_table_to_kind(table: &LStringTable, record: Option<&str>, sig: &str) -> (r:
    StringKind)
    ensures
        r == table_kind(*table, opt_slice(record), sig@),
{
    match table {
        LStringTable::Dlstrings => StringKind::DlStrings,
        LStringTable::Ilstrings => StringKind::IlStrings,
        LStringTable::Strings => match record {
            Some(r) => if str_eq(sig, "DESC") && !str_eq(r, "LSCR") {
                StringKind::DlStrings
            } else if str_eq(r, "QUST") && str_eq(sig, "CNAM") {
                StringKind::DlStrings
            } else if str_eq(r, "BOOK") && str_eq(sig, "CNAM") {
                StringKind::DlStrings
            } else if str_eq(r, "INFO") && !str_eq(sig, "RNAM") {
                StringKind::IlStrings
            } else {
                StringKind::Strings
            },
            None => StringKind::Strings,
        },
    }
}

/// The text of an LString.
fn lstring_value<R>(
    ctx: &DecodeContext<'_, R>,
    table: &LStringTable,
    sig: &str,
    data: &[u8],
) -> (v: Value)
    ensures
        v@ == lstring(ctx.env(), *table, sig@, data@),
{
    if ctx.is_localized {
        if data.len() < 4 {
            return Value::Null;
        }
        let id: u32 = read_u32(data, 0);
        if id == 0 {
            return Value::Null;
        }
        if let Some(loc) = ctx.localization {
            let kind = lstring_table_to_kind(table, ctx.record_signature, sig);
            if let Some(s) = loc.lookup(kind, id) {
                return text(s);
            }
        }
        Value::Object(
            Object::new().with("lstring_id", Value::String(hex8_string(id))).with(
                "_unresolved",
                Value::Bool(true),
            ),
        )
    } else {
        let s = read_inline(data);
        if s.as_str().is_empty() {
            Value::Null
        } else {
            Value::String(s)
        }
    }
}

/// A script attachment, by the type of its record.
fn vmad_value<R: FormIdRefResolver>(ctx: &DecodeContext<'_, R>, data: &[u8]) -> (v: Value)
    ensures
        v@ == vmad_of(ctx.env(), data@),
{
    if let Some(r) = ctx.record_signature {
        proof {
            reveal_strlit("QUST");
            reveal_strlit("INFO");
            reveal_strlit("PACK");
            reveal_strlit("PERK");
            reveal_strlit("TERM");
            reveal_strlit("SCEN");
        }
        if str_eq(r, "QUST") {
            return decode_vmad_qust(ctx, data);
        }
        if str_eq(r, "INFO") {
            return decode_vmad_info(ctx, data);
        }
        if str_eq(r, "PACK") {
            return decode_vmad_pack(ctx, data);
        }
        if str_eq(r, "PERK") || str_eq(r, "TERM") {
            return decode_vmad_perk(ctx, data);
        }
        if str_eq(r, "SCEN") {
            return decode_vmad_scen(ctx, data);
        }
    }
    decode_vmad(ctx, data)
}

// ── Members ────────────────────────────────────────────────────────────────
/// Decodes a member that is a number, a reference, a colour or a vector.
fn decode_number_member<'a, R: FormIdRefResolver>(
    ctx: &DecodeContext<'_, R>,
    m: &MemberDef,
    out: &mut Object,
    pool: &mut Pool<'a>,
    payload: Option<&'a [u8]>,
)
    requires
        version_ok(ctx.env().form_version, *m),
        m is Integer || m is Float || m is FormId || m is ByteRgba || m is Vec3,
    ensures
        (final(out)@, final(pool)@) == member(
            ctx.env(),
            *m,
            old(out)@,
            old(pool)@,
            opt_bytes(payload),
        ),
        final(pool)@.len() <= old(pool)@.len(),
{
    match m {
        MemberDef::Integer { sig, name, width, signed, format, stop_before, .. } => {
            if payload.is_none() && stop_before.len() > 0 {
                if let Some(s) = sig {
                    if stop_before_check(pool, s, stop_before) {
                        return;
                    }
                }
            }
            let v = match fetch(ctx, sig, pool, payload) {
                Some(data) => scalar_int(data, *width, *signed, format),
                None => None,
            };
            set(out, name, v);
        },
        MemberDef::Float { sig, name, .. } => {
            let v = match fetch(ctx, sig, pool, payload) {
                Some(data) => scalar_float(data),
                None => None,
            };
            set(out, name, v);
        },
        MemberDef::FormId { sig, name, valid_refs, .. } => {
            let v = match fetch(ctx, sig, pool, payload) {
                Some(data) => scalar_formid(ctx, valid_refs, data),
                None => None,
            };
            set(out, name, v);
        },
        MemberDef::ByteRgba { sig, name, .. } => {
            let v = match take_source(ctx, sig, pool) {
                Some(data) => scalar_rgba(data),
                None => None,
            };
            set(out, name, v);
        },
        MemberDef::Vec3 { sig, name } => {
            let v = match fetch(ctx, sig, pool, payload) {
                Some(data) => scalar_vec3(data),
                None => None,
            };
            set(out, name, v);
        },
        _ => {},
    }
}

/// Decodes a member that is text or bytes.
fn decode_text_member<'a, R: FormIdRefResolver>(
    ctx: &DecodeContext<'_, R>,
    m: &MemberDef,
    out: &mut Object,
    pool: &mut Pool<'a>,
    payload: Option<&'a [u8]>,
)
    requires
        version_ok(ctx.env().form_version, *m),
        m is String || m is LString || m is Bytes || m is Unknown || m is RawFallback,
    ensures
        (final(out)@, final(pool)@) == member(
            ctx.env(),
            *m,
            old(out)@,
            old(pool)@,
            opt_bytes(payload),
        ),
        final(pool)@.len() <= old(pool)@.len(),
{
    match m {
        MemberDef::String { sig, name, sized } => {
            let v = match take_source(ctx, sig, pool) {
                Some(data) => Some(scalar_string(data, sized)),
                None => None,
            };
            set(out, name, v);
        },
        MemberDef::LString { sig, name, table } => {
            if let Some(s) = sig {
                let v = match take_source(ctx, sig, pool) {
                    Some(data) => Some(lstring_value(ctx, table, s, data)),
                    None => None,
                };
                set(out, name, v);
            }
        },
        MemberDef::Bytes { sig, name, len, .. } => {
            let v = match fetch(ctx, sig, pool, payload) {
                Some(data) => {
                    let n: usize = match len {
                        Some(n) => if *n <= data.len() {
                            *n
                        } else {
                            data.len()
                        },
                        None => data.len(),
                    };
                    let part = slice_subrange(data, 0, n);
                    assert(part@ =~= data@.take(n as int));
                    assert(data@.take(data@.len() as int) =~= data@);
                    Some(scalar_bytes(part))
                },
                None => None,
            };
            set(out, name, v);
        },
        MemberDef::Unknown { sig, name } => {
            let v = match take_source(ctx, sig, pool) {
                Some(data) => Some(raw_value(data)),
                None => None,
            };
            set(out, name, v);
        },
        MemberDef::RawFallback { sig, name, reason } => {
            let v = match take_source(ctx, sig, pool) {
                Some(data) => Some(raw_reason_value(data, reason)),
                None => if sig.is_none() {
                    Some(
                        Value::Object(
                            Object::new().with("_raw", Value::Bool(true)).with(
                                "reason",
                                text(reason),
                            ),
                        ),
                    )
                } else {
                    None
                },
            };
            set(out, name, v);
        },
        _ => {},
    }
}

/// Decodes a member with a layout of its own, or without a value.
fn decode_blob_member<'a, R: FormIdRefResolver>(
    ctx: &DecodeContext<'_, R>,
    m: &MemberDef,
    out: &mut Object,
    pool: &mut Pool<'a>,
    payload: Option<&'a [u8]>,
)
    requires
        version_ok(ctx.env().form_version, *m),
        m is Vmad || m is Ctda || m is ModelInfo || m is Empty || m is Unused,
    ensures
        (final(out)@, final(pool)@) == member(
            ctx.env(),
            *m,
            old(out)@,
            old(pool)@,
            opt_bytes(payload),
        ),
        final(pool)@.len() <= old(pool)@.len(),
{
    match m {
        MemberDef::Vmad { sig, name } => {
            let v = match take_source(ctx, sig, pool) {
                Some(data) => Some(vmad_value(ctx, data)),
                None => None,
            };
            set(out, name, v);
        },
        MemberDef::Ctda { sig, name } => {
            let v = match fetch_sig_first(ctx, sig, pool, payload) {
                Some(data) => Some(Value::Condition(vstd::slice::slice_to_vec(data))),
                None => None,
            };
            set(out, name, v);
        },
        MemberDef::ModelInfo { sig, name } => {
            let v = match fetch_sig_first(ctx, sig, pool, payload) {
                Some(data) => Some(decode_model_info(data)),
                None => None,
            };
            set(out, name, v);
        },
        MemberDef::Empty { sig, name, .. } => {
            if let Some(s) = sig {
                if pool.take_first(s).is_some() {
                    out.insert(name.clone(), Value::Null);
                }
            }
        },
        MemberDef::Unused { sig, .. } => {
            let _skipped = fetch(ctx, sig, pool, payload);
        },
        _ => {},
    }
}

/// Decodes a member: takes its subrecords from `pool`, or its bytes from
/// `payload`, and puts its value into `out`.
pub fn decode_member<'a, R: FormIdRefResolver>(
    ctx: &DecodeContext<'_, R>,
    m: &MemberDef,
    out: &mut Object,
    pool: &mut Pool<'a>,
    payload: Option<&'a [u8]>,
)
    ensures
        (final(out)@, final(pool)@) == member(
            ctx.env(),
            *m,
            old(out)@,
            old(pool)@,
            opt_bytes(payload),
        ),
        final(pool)@.len() <= old(pool)@.len(),
    decreases m, 1nat, 0nat,
{
    if !member_version_ok(ctx.form_version, m) {
        return;
    }
    match m {
        MemberDef::Struct { sig, name, fields, .. } => {
            let from_payload = payload.is_some();
            if let Some(data) = fetch(ctx, sig, pool, payload) {
                if !from_payload && any_field_value_union(fields) {
                    let child = ctx.with_outer_struct(out.copy());
                    let _n: usize = decode_struct_fields(&child, name, fields, data, out);
                } else {
                    let _n: usize = decode_struct_fields(ctx, name, fields, data, out);
                }
            }
        },
        MemberDef::RStruct { name, members } => {
            let (lo, hi) = rstruct_present_signature_scope(pool, members);
            let scoped = ctx.with_scope(lo, hi);
            let mut group = Object::new();
            decode_members(&scoped, members, &mut group, pool);
            if group.len() > 0 {
                out.insert(name.clone(), Value::Object(group));
            }
        },
        MemberDef::RArray { name, element, count, stop_before } => {
            let target = rarray_count(count, out, ctx);
            let items = decode_rarray_member(ctx, element, target, stop_before, pool);
            if items.len() > 0 {
                out.insert(name.clone(), Value::Array(items));
            }
        },
        MemberDef::Array { sig, name, element, count } => {
            let size = field_byte_size(ctx.form_version, ctx.record_edid_char, element);
            match sig {
                Some(s) => {
                    let list = pool.take_all(s);
                    let mut items = decode_array_member(ctx, element, size, &list);
                    let ghost all = views(items@);
                    if let Some(ArrayCount::Fixed(n)) = count {
                        items.truncate(*n);
                        assert(views(items@) =~= all.take(least(all.len() as int, *n as int)));
                    }
                    if items.len() > 0 {
                        out.insert(name.clone(), Value::Array(items));
                    }
                },
                None => {
                    if let (Some(data), Some(ArrayCount::Fixed(n)), Some(size)) = (
                        payload,
                        count,
                        size,
                    ) {
                        let (items, _end) = decode_packed(ctx, element, data, 0, size, *n as u64);
                        if items.len() > 0 {
                            out.insert(name.clone(), Value::Array(items));
                        }
                    }
                },
            }
        },
        MemberDef::Union { sig, name, decider, variants } => {
            decode_union_member(ctx, sig, name, decider, variants, out, pool, payload);
        },
        MemberDef::Integer { .. } => decode_number_member(ctx, m, out, pool, payload),
        MemberDef::Float { .. } => decode_number_member(ctx, m, out, pool, payload),
        MemberDef::FormId { .. } => decode_number_member(ctx, m, out, pool, payload),
        MemberDef::ByteRgba { .. } => decode_number_member(ctx, m, out, pool, payload),
        MemberDef::Vec3 { .. } => decode_number_member(ctx, m, out, pool, payload),
        MemberDef::String { .. } => decode_text_member(ctx, m, out, pool, payload),
        MemberDef::LString { .. } => decode_text_member(ctx, m, out, pool, payload),
        MemberDef::Bytes { .. } => decode_text_member(ctx, m, out, pool, payload),
        MemberDef::Unknown { .. } => decode_text_member(ctx, m, out, pool, payload),
        MemberDef::RawFallback { .. } => decode_text_member(ctx, m, out, pool, payload),
        MemberDef::Vmad { .. } => decode_blob_member(ctx, m, out, pool, payload),
        MemberDef::Ctda { .. } => decode_blob_member(ctx, m, out, pool, payload),
        MemberDef::ModelInfo { .. } => decode_blob_member(ctx, m, out, pool, payload),
        MemberDef::Empty { .. } => decode_blob_member(ctx, m, out, pool, payload),
        MemberDef::Unused { .. } => decode_blob_member(ctx, m, out, pool, payload),
    }
}

/// Decodes the members of a group.
fn decode_members<'a, R: FormIdRefResolver>(
    ctx: &DecodeContext<'_, R>,
    members: &Vec<MemberDef>,
    out: &mut Object,
    pool: &mut Pool<'a>,
)
    ensures
        (final(out)@, final(pool)@) == members_from(
            ctx.env(),
            *members,
            0,
            old(out)@,
            old(pool)@,
        ),
        final(pool)@.len() <= old(pool)@.len(),
    decreases members, 1nat, members.len() + 1,
{
    let mut i: usize = 0;
    while i < members.len()
        invariant
            i <= members.len(),
            pool@.len() <= old(pool)@.len(),
            members_from(ctx.env(), *members, 0, old(out)@, old(pool)@) == members_from(
                ctx.env(),
                *members,
                i as nat,
                out@,
                pool@,
            ),
        decreases members.len() - i,
    {
        decode_member(ctx, &members[i], out, pool, None);
        i += 1;
    }
}

/// The context of the next element of a repeated group.
fn scope_element<'c, R>(
    ctx: &DecodeContext<'c, R>,
    element: &MemberDef,
    pool: &Pool<'_>,
    next: usize,
) -> (r: (DecodeContext<'c, R>, usize))
    ensures
        (r.0.env(), r.1 as int) == element_scope(ctx.env(), *element, pool@, next as int),
{
    if let Some(a) = anchor_sig(element) {
        let i: usize = pool.find(a);
        if i < pool.items.len() {
            let here: usize = pool.items[i].doc_index;
            let mut others = Pool { items: Vec::new() };
            let mut j: usize = 0;
            while j < pool.items.len()
                invariant
                    j <= pool.items.len(),
                    i < pool.items.len(),
                    others.items@ =~= if j <= i {
                        pool.items@.take(j as int)
                    } else {
                        pool.items@.take(j as int).remove(i as int)
                    },
                decreases pool.items.len() - j,
            {
                if j != i {
                    others.items.push(pool.items[j]);
                }
                j += 1;
            }
            assert(pool.items@.take(pool.items@.len() as int) =~= pool.items@);
            assert(others@ =~= taken(pool@, a@));
            return match others.front_doc(a) {
                Some(d) => (ctx.with_scope(Some(here), Some(d)), d),
                None => (ctx.with_scope(Some(here), None), next),
            };
        }
    }
    if let Some(t) = element_terminator_sig(element) {
        if let Some(d) = pool.front_doc(t) {
            let stop: usize = if d < usize::MAX {
                d + 1
            } else {
                d
            };
            return (ctx.with_scope(Some(next), Some(stop)), stop);
        }
    }
    (ctx.copy(), next)
}

/// Decodes the elements of a repeated group.
#[verifier::loop_isolation(false)]
pub fn decode_rarray_member<'a, R: FormIdRefResolver>(
    ctx: &DecodeContext<'_, R>,
    element: &MemberDef,
    count: Option<u64>,
    stop_before: &Vec<String>,
    pool: &mut Pool<'a>,
) -> (items: Vec<Value>)
    ensures
        (views(items@), final(pool)@) == groups(
            ctx.env(),
            *element,
            match count {
                Some(n) => Some(n as int),
                None => None,
            },
            stop_before@,
            old(pool)@,
            Seq::empty(),
            0,
        ),
        final(pool)@.len() <= old(pool)@.len(),
    decreases element, 4nat, old(pool)@.len(),
{
    let ghost limit: Option<int> = match count {
        Some(n) => Some(n as int),
        None => None,
    };
    let mut items: Vec<Value> = Vec::new();
    assert(views(items@) =~= Seq::<Json>::empty());
    let mut next: usize = 0;
    loop
        invariant
            pool@.len() <= old(pool)@.len(),
            groups(ctx.env(), *element, limit, stop_before@, old(pool)@, Seq::empty(), 0)
                == groups(
                ctx.env(),
                *element,
                limit,
                stop_before@,
                pool@,
                views(items@),
                next as int,
            ),
        decreases pool@.len(),
    {
        if let Some(n) = count {
            if items.len() as u64 >= n {
                return items;
            }
        }
        if stop_before.len() > 0 {
            if let Some(a) = anchor_sig(element) {
                if stop_before_check(pool, a, stop_before) {
                    return items;
                }
            }
        }
        let before: usize = pool.len();
        let (scoped, after_next) = scope_element(ctx, element, pool, next);
        let mut item = Object::new();
        decode_member(&scoped, element, &mut item, pool, None);
        if pool.len() == before {
            return items;
        }
        let ghost prior = views(items@);
        let ghost added = Json::Obj(item@);
        items.push(Value::Object(item));
        assert(views(items@) =~= prior.push(added));
        next = after_next;
    }
}

/// Decodes a field by itself.
pub fn decode_field_value<R: FormIdRefResolver>(
    ctx: &DecodeContext<'_, R>,
    field: &FieldDef,
    data: &[u8],
) -> (v: Value)
    ensures
        v@ == value(ctx.env(), *field, data@),
    decreases field, 2nat, 0nat,
{
    let mut m = Object::new();
    let mut pool = Pool::empty();
    decode_member(ctx, field, &mut m, &mut pool, Some(data));
    if m.len() == 1 {
        assert(m@[0].1 == m.entries@[0].1@);
        m.entries[0].1.copy()
    } else {
        Value::Object(m)
    }
}

/// Decodes up to `count` elements of `size` bytes each.
#[verifier::loop_isolation(false)]
fn decode_packed<R: FormIdRefResolver>(
    ctx: &DecodeContext<'_, R>,
    element: &FieldDef,
    data: &[u8],
    start: usize,
    size: usize,
    count: u64,
) -> (r: (Vec<Value>, usize))
    requires
        start <= data.len(),
    ensures
        (views(r.0@), r.1 as int) == packed(
            ctx.env(),
            *element,
            data@,
            start as int,
            size as int,
            count as nat,
            Seq::empty(),
        ),
        start <= r.1 <= data.len(),
    decreases element, 3nat, count + 1,
{
    let mut items: Vec<Value> = Vec::new();
    assert(views(items@) =~= Seq::<Json>::empty());
    let mut pos: usize = start;
    let mut i: u64 = 0;
    while i < count
        invariant
            i <= count,
            start <= pos <= data.len(),
            packed(
                ctx.env(),
                *element,
                data@,
                start as int,
                size as int,
                count as nat,
                Seq::empty(),
            ) == packed(
                ctx.env(),
                *element,
                data@,
                pos as int,
                size as int,
                (count - i) as nat,
                views(items@),
            ),
        decreases count - i,
    {
        if size > data.len() - pos {
            return (items, pos);
        }
        let v = decode_field_value(ctx, element, slice_subrange(data, pos, pos + size));
        let ghost prior = views(items@);
        let ghost added = v@;
        items.push(v);
        assert(views(items@) =~= prior.push(added));
        pos += size;
        i += 1;
    }
    (items, pos)
}

/// Decodes the elements that the subrecords hold.
#[verifier::loop_isolation(false)]
pub fn decode_array_member<'a, R: FormIdRefResolver>(
    ctx: &DecodeContext<'_, R>,
    element: &FieldDef,
    size: Option<usize>,
    list: &Vec<&'a OwnedSubrecord>,
) -> (items: Vec<Value>)
    ensures
        views(items@) == packed_subs(
            ctx.env(),
            *element,
            opt_index(size),
            list@.map_values(|s: &OwnedSubrecord| s@),
            0,
            Seq::empty(),
        ),
    decreases element, 5nat, list.len() + 1,
{
    let ghost all = list@.map_values(|s: &OwnedSubrecord| s@);
    let mut items: Vec<Value> = Vec::new();
    assert(views(items@) =~= Seq::<Json>::empty());
    let mut i: usize = 0;
    while i < list.len()
        invariant
            i <= list.len(),
            packed_subs(ctx.env(), *element, opt_index(size), all, 0, Seq::empty())
                == packed_subs(
                ctx.env(),
                *element,
                opt_index(size),
                all,
                i as nat,
                views(items@),
            ),
        decreases list.len() - i,
    {
        assert(all[i as int] == list@[i as int]@);
        decode_packed_sub(ctx, element, size, list[i].data.as_slice(), &mut items);
        i += 1;
    }
    items
}

/// Decodes the elements that one subrecord holds.
#[verifier::loop_isolation(false)]
fn decode_packed_sub<R: FormIdRefResolver>(
    ctx: &DecodeContext<'_, R>,
    element: &FieldDef,
    size: Option<usize>,
    data: &[u8],
    items: &mut Vec<Value>,
)
    ensures
        views(final(items)@) == packed_sub(
            ctx.env(),
            *element,
            opt_index(size),
            data@,
            views(old(items)@),
        ),
    decreases element, 4nat, 0nat,
{
    let ghost acc = views(items@);
    match size {
        Some(s) => {
            if s > 0 && data.len() > s {
                let mut pos: usize = 0;
                let mut left: usize = data.len();
                while s <= data.len() - pos
                    invariant
                        pos <= data.len(),
                        left + pos >= data.len(),
                        s > 0,
                        packed(
                            ctx.env(),
                            *element,
                            data@,
                            0,
                            s as int,
                            data@.len(),
                            acc,
                        ) == packed(
                            ctx.env(),
                            *element,
                            data@,
                            pos as int,
                            s as int,
                            left as nat,
                            views(items@),
                        ),
                    decreases data.len() - pos,
                {
                    let v = decode_field_value(ctx, element, slice_subrange(data, pos, pos + s));
                    let ghost prior = views(items@);
                    let ghost added = v@;
                    items.push(v);
                    assert(views(items@) =~= prior.push(added));
                    pos += s;
                    left -= 1;
                }
                return;
            }
        },
        None => {
            if let MemberDef::Struct { name, fields, .. } = element {
                let mut pos: usize = 0;
                while pos < data.len()
                    invariant
                        pos <= data.len(),
                        packed_structs(ctx.env(), name@, *fields, data@, 0, acc)
                            == packed_structs(
                            ctx.env(),
                            name@,
                            *fields,
                            data@,
                            pos as int,
                            views(items@),
                        ),
                    decreases data.len() - pos,
                {
                    let tail = slice_subrange(data, pos, data.len());
                    assert(tail@ =~= data@.skip(pos as int));
                    let mut o = Object::new();
                    let consumed: usize = decode_struct_fields(ctx, name, fields, tail, &mut o);
                    if consumed == 0 {
                        return;
                    }
                    if let Some(v) = o.get(name) {
                        let c = v.copy();
                        let ghost prior = views(items@);
                        let ghost added = c@;
                        items.push(c);
                        assert(views(items@) =~= prior.push(added));
                    }
                    pos += consumed;
                }
                return;
            }
        },
    }
    let v = decode_field_value(ctx, element, data);
    let ghost added = v@;
    items.push(v);
    assert(views(items@) =~= acc.push(added));
}

/// Decodes a union: its variant is decoded by itself, and what it gives is
/// put in without overwriting.
pub fn decode_union_member<'a, R: FormIdRefResolver>(
    ctx: &DecodeContext<'_, R>,
    sig: &Option<String>,
    name: &String,
    decider: &UnionDecider,
    variants: &Vec<MemberDef>,
    out: &mut Object,
    pool: &mut Pool<'a>,
    payload: Option<&'a [u8]>,
)
    ensures
        ({
            let e = ctx.env();
            let (src, pool2) = from_pool(e, *sig, old(pool)@);
            let bytes = if src is Some {
                src
            } else {
                opt_bytes(payload)
            };
            let choice = member_choice(
                e,
                *decider,
                variants.len() as int,
                old(out)@,
                pool2,
                bytes,
            );
            (final(out)@, final(pool)@) == if choice is Some && 0 <= choice->0 < variants.len() {
                let (tmp, pool3) = member(e, variants@[choice->0], nothing(), pool2, bytes);
                (put_all_unique(old(out)@, tmp, name@, tmp.len()), pool3)
            } else if choice is None && decider is PresentSignature {
                (old(out)@, pool2)
            } else {
                (
                    put(
                        old(out)@,
                        name@,
                        Json::Obj(
                            crate::json::obj2(
                                "_raw"@,
                                Json::Bool(true),
                                "reason"@,
                                Json::Str("union decider unresolved"@),
                            ),
                        ),
                    ),
                    pool2,
                )
            }
        }),
        final(pool)@.len() <= old(pool)@.len(),
    decreases variants, 1nat, 0nat,
{
    let source = take_source(ctx, sig, pool);
    let bytes = match source {
        Some(d) => Some(d),
        None => payload,
    };
    let choice = choose_member(ctx, decider, variants.len(), out, pool, bytes);
    match choice {
        Some(i) => {
            if i < variants.len() {
                let mut tmp = Object::new();
                decode_member(ctx, &variants[i], &mut tmp, pool, bytes);
                insert_all_unique(out, &tmp, name);
                return;
            }
        },
        None => {
            if let UnionDecider::PresentSignature { .. } = decider {
                return;
            }
        },
    }
    out.insert(
        name.clone(),
        Value::Object(
            Object::new().with("_raw", Value::Bool(true)).with(
                "reason",
                text("union decider unresolved"),
            ),
        ),
    );
}

/// The number that `width` bytes from `pos` on write, or the largest number
/// where they write a larger one.
fn read_le_bytes(data: &[u8], pos: usize, width: usize) -> (r: u64)
    requires
        width <= data.len(),
        pos <= data.len() - width,
    ensures
        r as int == least(le_bytes(data@, pos as int, width as nat), u64::MAX as int),
{
    let mut k: usize = width;
    let mut v: u64 = 0;
    while k > 0
        invariant
            k <= width,
            width <= data.len(),
            pos <= data.len() - width,
            v as int == least(
                le_bytes(data@, pos + k, (width - k) as nat),
                u64::MAX as int,
            ),
            le_bytes(data@, pos + k, (width - k) as nat) >= 0,
        decreases k,
    {
        k -= 1;
        let ghost high = le_bytes(data@, pos + k + 1, (width - k - 1) as nat);
        let n: u128 = data[pos + k] as u128 + 256 * (v as u128);
        assert(le_bytes(data@, pos + k, (width - k) as nat) == data@[pos + k] + 256 * high);
        v = if n > u64::MAX as u128 {
            u64::MAX
        } else {
            n as u64
        };
    }
    v
}

/// How many elements an array in a struct has, and where they start.
fn read_array_count(count: &Option<ArrayCount>, data: &[u8], pos: usize, o: &Object) -> (r: (
    u64,
    usize,
))
    requires
        pos <= data.len(),
    ensures
        (r.0 as nat, r.1 as int) == array_count(*count, data@, pos as int, o@),
        pos <= r.1 <= data.len(),
{
    match count {
        Some(ArrayCount::CountPrefix(w)) => if *w > 0 && *w <= data.len() - pos {
            (read_le_bytes(data, pos, *w), pos + *w)
        } else {
            (0, pos)
        },
        Some(ArrayCount::CountPath(path)) => {
            let n: u64 = match o.get(path) {
                Some(v) => match v.as_u64() {
                    Some(n) => n,
                    None => 0,
                },
                None => 0,
            };
            (n, pos)
        },
        Some(ArrayCount::Fixed(n)) => (*n as u64, pos),
        _ => (0, pos),
    }
}

/// Decodes a struct into `out` and returns the number of bytes it took.
#[verifier::loop_isolation(false)]
pub fn decode_struct_fields<R: FormIdRefResolver>(
    ctx: &DecodeContext<'_, R>,
    name: &str,
    fields: &Vec<FieldDef>,
    data: &[u8],
    out: &mut Object,
) -> (n: usize)
    ensures
        (final(out)@, n as int) == struct_fields(ctx.env(), name@, *fields, data@, old(out)@),
        n <= data.len(),
    decreases fields, 2nat, 0nat,
{
    let mut pos: usize = 0;
    let mut o = Object::new();
    let mut i: usize = 0;
    let mut open = true;
    while open && i < fields.len()
        invariant
            i <= fields.len(),
            pos <= data.len(),
            fields_from(ctx.env(), *fields, 0, data@, 0, nothing()) == if open {
                fields_from(ctx.env(), *fields, i as nat, data@, pos as int, o@)
            } else {
                (o@, pos as int)
            },
        decreases fields.len() - i,
    {
        let (end, stop) = decode_field_step(ctx, &fields[i], data, pos, &mut o);
        pos = end;
        if stop {
            open = false;
        }
        i += 1;
    }
    apply_crafting_quantity(&mut o);
    if o.len() > 0 {
        out.insert(name.to_owned(), Value::Object(o));
    }
    pos
}

/// Puts a value of `size` bytes at `pos` in, where they are there.
fn sized_field(
    o: &mut Object,
    name: &str,
    v: Option<Value>,
    data: &[u8],
    pos: usize,
    size: usize,
) -> (r: (usize, bool))
    requires
        pos <= data.len(),
    ensures
        (final(o)@, r.0 as int, r.1) == crate::decode::meaning::sized_step(
            old(o)@,
            name@,
            opt_val(v),
            data@,
            pos as int,
            size as int,
        ),
        pos <= r.0 <= data.len(),
{
    if size <= data.len() - pos {
        set(o, name, v);
        (pos + size, false)
    } else {
        (pos, false)
    }
}

/// Decodes one field of a struct at `pos`. Returns the position after it and
/// whether the struct ends with it.
fn decode_field_step<R: FormIdRefResolver>(
    ctx: &DecodeContext<'_, R>,
    f: &FieldDef,
    data: &[u8],
    pos: usize,
    o: &mut Object,
) -> (r: (usize, bool))
    requires
        pos <= data.len(),
    ensures
        (final(o)@, r.0 as int, r.1) == field_step(ctx.env(), *f, data@, pos as int, old(o)@),
        r.0 <= data.len(),
    decreases f, 1nat, 0nat,
{
    if !member_version_ok(ctx.form_version, f) || !member_from_size_ok(data.len(), f) {
        return (pos, false);
    }
    let tail = slice_subrange(data, pos, data.len());
    assert(tail@ =~= data@.skip(pos as int));
    match f {
        MemberDef::Unused { bytes, .. } => {
            let end: usize = if *bytes <= data.len() - pos {
                pos + *bytes
            } else {
                data.len()
            };
            (end, false)
        },
        MemberDef::Integer { name, width, signed, format, .. } => {
            let v = scalar_int(tail, *width, *signed, format);
            sized_field(o, name, v, data, pos, int_size(*width))
        },
        MemberDef::Float { name, .. } => sized_field(o, name, scalar_float(tail), data, pos, 4),
        MemberDef::FormId { name, valid_refs, .. } => {
            let v = scalar_formid(ctx, valid_refs, tail);
            sized_field(o, name, v, data, pos, 4)
        },
        MemberDef::ByteRgba { name, .. } => sized_field(o, name, scalar_rgba(tail), data, pos, 4),
        MemberDef::Vec3 { name, .. } => sized_field(o, name, scalar_vec3(tail), data, pos, 12),
        MemberDef::String { name, sized, .. } => match sized {
            Some(n) if *n > 0 => {
                let end: usize = if (*n as u64) <= (data.len() - pos) as u64 {
                    pos + *n as usize
                } else {
                    data.len()
                };
                o.insert(name.clone(), scalar_string(slice_subrange(data, pos, end), sized));
                (end, false)
            },
            _ => {
                let end: usize = pos + find_nul(tail);
                o.insert(name.clone(), scalar_string(tail, sized));
                if end < data.len() {
                    (end + 1, false)
                } else {
                    (end, false)
                }
            },
        },
        MemberDef::Bytes { name, len, .. } => {
            let end: usize = match len {
                Some(n) => if *n <= data.len() - pos {
                    pos + *n
                } else {
                    data.len()
                },
                None => data.len(),
            };
            o.insert(name.clone(), scalar_bytes(slice_subrange(data, pos, end)));
            (end, false)
        },
        MemberDef::RawFallback { name, reason, .. } => {
            if pos < data.len() {
                o.insert(name.clone(), raw_reason_value(tail, reason));
            }
            (data.len(), true)
        },
        MemberDef::Struct { name, fields, .. } => {
            let consumed: usize = decode_struct_fields(ctx, name, fields, tail, o);
            (pos + consumed, false)
        },
        MemberDef::Union { name, decider, variants, .. } => {
            match choose_struct(ctx, decider, variants.len(), o, data, pos) {
                Some(i) => {
                    if i < variants.len() {
                        let mut tmp = Object::new();
                        let mut none = Pool::empty();
                        decode_member(ctx, &variants[i], &mut tmp, &mut none, Some(tail));
                        proof {
                            reveal_strlit("");
                            assert(""@ =~= Seq::<char>::empty());
                        }
                        insert_all_unique(o, &tmp, "");
                        (pos + advance_union(ctx, &variants[i], tail), false)
                    } else {
                        (pos, false)
                    }
                },
                None => {
                    o.insert(name.clone(), raw_value(tail));
                    (data.len(), true)
                },
            }
        },
        MemberDef::Array { name, element, count, .. } => {
            let (n, start) = read_array_count(count, data, pos, o);
            match field_byte_size(ctx.form_version, ctx.record_edid_char, element) {
                Some(size) => {
                    let child = ctx.with_outer_struct(o.copy());
                    let (items, end) = decode_packed(&child, element, data, start, size, n);
                    if items.len() > 0 {
                        o.insert(name.clone(), Value::Array(items));
                    }
                    (end, false)
                },
                None => (start, false),
            }
        },
        MemberDef::Unknown { name, .. } => {
            if pos < data.len() {
                insert_unique(o, name, raw_value(tail));
            }
            (pos, true)
        },
        _ => (pos, false),
    }
}

/// How many bytes a variant takes at the start of `data`.
fn advance_union<R: FormIdRefResolver>(
    ctx: &DecodeContext<'_, R>,
    variant: &MemberDef,
    data: &[u8],
) -> (n: usize)
    ensures
        n as int == variant_size(ctx.env(), *variant, data@),
        n <= data.len(),
    decreases variant, 1nat, 0nat,
{
    match variant {
        MemberDef::Struct { name, fields, .. } => {
            let mut tmp = Object::new();
            decode_struct_fields(ctx, name, fields, data, &mut tmp)
        },
        _ => match field_byte_size(ctx.form_version, ctx.record_edid_char, variant) {
            Some(s) => if s <= data.len() {
                s
            } else {
                data.len()
            },
            None => 0,
        },
    }
}

// ── Records ────────────────────────────────────────────────────────────────
/// The first character of the EditorID among `list`.
fn read_edid_char(list: &Vec<OwnedSubrecord>) -> (r: Option<char>)
    ensures
        r == edid_char(subs(list@)),
{
    let i: usize = find_subrecord(list, "EDID");
    if i < list.len() {
        match from_utf8(&list[i].data) {
            Some(s) => {
                let v = chars_of(&trim_nuls_string(s));
                if v.len() > 0 {
                    Some(v[0])
                } else {
                    None
                }
            },
            None => None,
        }
    } else {
        None
    }
}

/// The subrecords that no member took, by signature.
fn collect_leftovers(pool: &Pool<'_>) -> (r: Object)
    ensures
        r@ == leftovers(pool@, pool@.len()),
{
    let mut out = Object::new();
    let mut i: usize = 0;
    while i < pool.items.len()
        invariant
            i <= pool.items.len(),
            out@ == leftovers(pool@, i as nat),
        decreases pool.items.len() - i,
    {
        let s = pool.items[i];
        assert(pool@[i as int] == s@);
        let sig = s.signature.as_str();
        let entry = Value::Object(
            Object::new().with("signature", text(sig)).with(
                "hex",
                Value::String(encode(&s.data)),
            ).with("_raw", Value::Bool(true)),
        );
        let mut list: Vec<Value> = match out.get(sig) {
            Some(v) => match v {
                Value::Array(items) => crate::json::copy_all(items),
                _ => Vec::new(),
            },
            None => Vec::new(),
        };
        let ghost prior = views(list@);
        assert(prior == (match get(out@, sig@) {
            Some(Json::Arr(l)) => l,
            _ => Seq::empty(),
        })) by {
            assert(views(Seq::<Value>::empty()) =~= Seq::<Json>::empty());
        }
        let ghost added = entry@;
        list.push(entry);
        assert(views(list@) =~= prior.push(added));
        out.insert(sig.to_owned(), Value::Array(list));
        i += 1;
    }
    out
}

/// Decodes a record.
pub fn decode_record<R: FormIdRefResolver>(
    ctx: &DecodeContext<'_, R>,
    signature: &str,
    subrecords: &Vec<OwnedSubrecord>,
) -> (v: Value)
    ensures
        v@ == decoded(ctx.env(), *ctx.schema, signature@, subs(subrecords@)),
{
    let edid = read_edid_char(subrecords);
    let same_type = match ctx.record_signature {
        Some(s) => str_eq(s, signature),
        None => false,
    };
    let same_edid = match (edid, ctx.record_edid_char) {
        (Some(a), Some(b)) => a == b,
        (None, None) => true,
        _ => false,
    };
    let mut out = Object::new();
    let mut pool = Pool::new(subrecords);
    match ctx.schema.record(signature) {
        Some(def) => {
            out.insert("_record_type".to_owned(), text(&def.name));
            if same_type && same_edid {
                decode_members(ctx, &def.members, &mut out, &mut pool);
            } else {
                let here = DecodeContext {
                    schema: ctx.schema,
                    form_version: ctx.form_version,
                    is_localized: ctx.is_localized,
                    localization: ctx.localization,
                    curves: ctx.curves,
                    resolve_depth: ctx.resolve_depth,
                    resolver: ctx.resolver,
                    outer_struct: None,
                    record_signature: Some(signature),
                    record_edid_char: edid,
                    scope_min_doc_index: ctx.scope_min_doc_index,
                    scope_max_doc_index: ctx.scope_max_doc_index,
                };
                assert(here.env() == record_env(ctx.env(), signature@, subs(subrecords@)));
                decode_members(&here, &def.members, &mut out, &mut pool);
            }
        },
        None => {
            out.insert("_record_type".to_owned(), text(signature));
            out.insert("_unknown_record".to_owned(), Value::Bool(true));
        },
    }
    if pool.len() > 0 {
        let left = collect_leftovers(&pool);
        out.insert("_unmapped".to_owned(), Value::Object(left));
    }
    if str_eq(signature, "WEAP") {
        apply_weapon_bash_curve(&mut out);
    }
    Value::Object(out)
}

} // verus!
