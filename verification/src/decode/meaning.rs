//! What the members of a record mean: the specification of the decoder.
//!
//! Decoding a member takes the fields decoded so far and the subrecords that
//! are still waiting, and gives both as they are afterwards.
use crate::decode::context::{earlier, Env, FormIdRefResolver};
use crate::decode::model_info::model_info;
use crate::decode::rules::{crafting_quantity, weapon_bash};
use crate::decode::scalars::{
    bytes_json, field_key, field_uint, float_at, formid_at, int_json, le_uint, least, raw_json,
    raw_reason_json, rgba_at, size_ok, string_json, target_type, vec3_at, version_choice,
    version_ok, width_size,
};
use crate::decode::scope::{
    anchor_of, group_count, group_scope, scoped_sig, scoped_taken, stops, taken, terminator_of,
    with_sig, without_sig,
};
use crate::decode::vmad::{rest, vmad, vmad_by_flags, vmad_perk, vmad_qust, vmad_scen};
use crate::format::le4;
use crate::json::{as_uint, get, has_key, nothing, obj2, obj3, put, Entries, Json};
use crate::reader::{first_sig, inline_text, Sub};
use crate::schema::{
    lookup, ArrayCount, BitChoice, FieldDef, LStringTable, MemberDef, RecordDef, Schema,
    UnionDecider,
};
use crate::strings::StringKind;
use crate::text::{before_nul, decimal, hex8, hex_of, trim_nuls};
use vstd::prelude::*;
use vstd::utf8::*;

verus! {

// ── Plumbing ───────────────────────────────────────────────────────────────
/// The bytes of the first subrecord `sig` in scope, and what is left.
pub open spec fn from_pool<R>(e: Env<R>, sig: Option<String>, pool: Seq<Sub>) -> (
    Option<Seq<u8>>,
    Seq<Sub>,
) {
    match sig {
        Some(s) => (
            match scoped_sig(e, pool, s@) {
                Some(sub) => Some(sub.data),
                None => None,
            },
            scoped_taken(e, pool, s@),
        ),
        None => (None, pool),
    }
}

/// The bytes handed in, or else those of the first subrecord `sig` in scope.
pub open spec fn from_either<R>(
    e: Env<R>,
    sig: Option<String>,
    pool: Seq<Sub>,
    payload: Option<Seq<u8>>,
) -> (Option<Seq<u8>>, Seq<Sub>) {
    match payload {
        Some(d) => (Some(d), pool),
        None => from_pool(e, sig, pool),
    }
}

/// The bytes of the first subrecord `sig` in scope, or without a signature
/// those handed in.
pub open spec fn from_sig_first<R>(
    e: Env<R>,
    sig: Option<String>,
    pool: Seq<Sub>,
    payload: Option<Seq<u8>>,
) -> (Option<Seq<u8>>, Seq<Sub>) {
    match sig {
        Some(s) => from_pool(e, sig, pool),
        None => (payload, pool),
    }
}

/// The fields with `name` set, where there is a value for it.
pub open spec fn set_opt(out: Entries, name: Seq<char>, v: Option<Json>) -> Entries {
    match v {
        Some(v) => put(out, name, v),
        None => out,
    }
}

/// `key`, a space and `n`.
pub open spec fn numbered(key: Seq<char>, n: int) -> Seq<char> {
    key + seq![' '] + decimal(n)
}

/// The first number from `n` on, trying `tries` of them, whose numbered key
/// is not in `o`.
pub open spec fn free_number(o: Entries, key: Seq<char>, n: int, tries: nat) -> int
    decreases tries,
{
    if tries == 0 || !has_key(o, numbered(key, n)) {
        n
    } else {
        free_number(o, key, n + 1, (tries - 1) as nat)
    }
}

/// `o` with `v` under `key`, or where that is taken under the first free one
/// of `key 2`, `key 3` and so on.
pub open spec fn put_unique(o: Entries, key: Seq<char>, v: Json) -> Entries {
    if !has_key(o, key) {
        put(o, key, v)
    } else {
        put(o, numbered(key, free_number(o, key, 2, o.len())), v)
    }
}

/// `o` with the first `n` entries of `more` put in; an empty key becomes
/// `unnamed`.
pub open spec fn put_all_unique(
    o: Entries,
    more: Entries,
    unnamed: Seq<char>,
    n: nat,
) -> Entries
    decreases n,
{
    if n == 0 || n > more.len() {
        o
    } else {
        let (k, v) = more[n - 1];
        put_unique(
            put_all_unique(o, more, unnamed, (n - 1) as nat),
            if k.len() == 0 {
                unnamed
            } else {
                k
            },
            v,
        )
    }
}

/// The number that `width` bytes from `pos` on write.
pub open spec fn le_bytes(data: Seq<u8>, pos: int, width: nat) -> int
    decreases width,
{
    if width == 0 {
        0
    } else {
        data[pos] + 256 * le_bytes(data, pos + 1, (width - 1) as nat)
    }
}

// ── Sizes ──────────────────────────────────────────────────────────────────
/// The number of bytes that a field always takes, where there is one.
pub open spec fn field_size(fv: u16, edid: Option<char>, f: FieldDef) -> Option<int>
    decreases f, 0nat,
{
    if !version_ok(fv, f) {
        Some(0)
    } else {
        match f {
            MemberDef::Integer { width, .. } => Some(width_size(width)),
            MemberDef::Float { .. } => Some(4),
            MemberDef::FormId { .. } => Some(4),
            MemberDef::ByteRgba { .. } => Some(4),
            MemberDef::Vec3 { .. } => Some(12),
            MemberDef::Unused { bytes, .. } => Some(bytes as int),
            MemberDef::Empty { .. } => Some(0),
            MemberDef::Bytes { len: Some(n), .. } => Some(n as int),
            MemberDef::Struct { fields, .. } => sum_sizes(fv, edid, fields, 0, 0),
            MemberDef::Array { element, count: Some(ArrayCount::Fixed(n)), .. } => match field_size(
                fv,
                edid,
                *element,
            ) {
                Some(s) => if s * n > usize::MAX {
                    None
                } else {
                    Some(s * n)
                },
                None => None,
            },
            MemberDef::Union { decider, variants, .. } => match decider {
                UnionDecider::ByteAtOffset { .. } => common_size(fv, edid, variants),
                UnionDecider::FieldValue { .. } => common_size(fv, edid, variants),
                _ => match version_choice(fv, edid, decider, variants.len() as int) {
                    Some(i) => if 0 <= i < variants.len() {
                        field_size(fv, edid, variants@[i])
                    } else {
                        None
                    },
                    None => None,
                },
            },
            _ => None,
        }
    }
}

/// `total` and the sizes of the fields from `i` on.
pub open spec fn sum_sizes(
    fv: u16,
    edid: Option<char>,
    fields: Vec<FieldDef>,
    i: nat,
    total: int,
) -> Option<int>
    decreases fields, fields.len() - i,
{
    if i >= fields.len() {
        Some(total)
    } else {
        match field_size(fv, edid, fields@[i as int]) {
            Some(s) => if total + s > usize::MAX {
                None
            } else {
                sum_sizes(fv, edid, fields, i + 1, total + s)
            },
            None => None,
        }
    }
}

/// The size of all variants, where they have one and the same.
pub open spec fn common_size(fv: u16, edid: Option<char>, variants: Vec<FieldDef>) -> Option<int>
    decreases variants, variants.len() + 1,
{
    if variants.len() == 0 {
        None
    } else {
        match field_size(fv, edid, variants@[0]) {
            Some(first) => if same_sizes(fv, edid, variants, 0, first) {
                Some(first)
            } else {
                None
            },
            None => None,
        }
    }
}

/// Whether the variants from `i` on have the size `size`.
pub open spec fn same_sizes(
    fv: u16,
    edid: Option<char>,
    variants: Vec<FieldDef>,
    i: nat,
    size: int,
) -> bool
    decreases variants, variants.len() - i,
{
    i >= variants.len() || (field_size(fv, edid, variants@[i as int]) == Some(size) && same_sizes(
        fv,
        edid,
        variants,
        i + 1,
        size,
    ))
}

/// Whether a member, or a field within it, is a union that a field decides.
pub open spec fn needs_outer(m: MemberDef) -> bool
    decreases m,
{
    match m {
        MemberDef::Union { decider: UnionDecider::FieldValue { .. }, .. } => true,
        MemberDef::Struct { fields, .. } => exists|i: int|
            0 <= i < fields.len() && needs_outer(#[trigger] fields@[i]),
        MemberDef::Union { variants, .. } => exists|i: int|
            0 <= i < variants.len() && needs_outer(#[trigger] variants@[i]),
        MemberDef::Array { element, .. } => needs_outer(*element),
        _ => false,
    }
}

/// Whether one of the fields needs the enclosing struct.
pub open spec fn any_needs_outer(fields: Seq<FieldDef>) -> bool {
    exists|i: int| 0 <= i < fields.len() && needs_outer(#[trigger] fields[i])
}

// ── Choosing a variant ─────────────────────────────────────────────────────
/// The variant of the first mask that has a bit in common with `v`.
pub open spec fn bit_choice(v: u64, bits: Seq<BitChoice>) -> Option<int>
    decreases bits.len(),
{
    if bits.len() == 0 {
        None
    } else if v & bits[0].mask != 0 {
        Some(bits[0].variant as int)
    } else {
        bit_choice(v, bits.drop_first())
    }
}

/// An optional index as a number.
pub open spec fn idx(i: Option<usize>) -> Option<int> {
    match i {
        Some(i) => Some(i as int),
        None => None,
    }
}

/// The first of two choices that is made.
pub open spec fn or_else(a: Option<int>, b: Option<int>) -> Option<int> {
    if a is Some {
        a
    } else {
        b
    }
}

/// The variant that the value of a field chooses: by its bits, by its value,
/// or the default. The field is one of `out`, or of the enclosing struct.
pub open spec fn choose_by_field(
    out: Entries,
    outer: Option<Entries>,
    path: Seq<char>,
    map: Seq<(String, usize)>,
    default: Option<usize>,
    bits: Seq<BitChoice>,
) -> Option<int> {
    let number = if field_uint(out, path) is Some || outer is None {
        field_uint(out, path)
    } else {
        field_uint(outer->0, path)
    };
    let key = if field_key(out, path) is Some || outer is None {
        field_key(out, path)
    } else {
        field_key(outer->0, path)
    };
    let by_bits = match number {
        Some(n) => bit_choice(n as u64, bits),
        None => None,
    };
    let by_value = match key {
        Some(k) => idx(lookup(map, k)),
        None => None,
    };
    or_else(by_bits, or_else(by_value, idx(default)))
}

/// The variant that the target of a reference chooses, or the default.
pub open spec fn choose_by_target<R: FormIdRefResolver>(
    e: Env<R>,
    out: Entries,
    name: Seq<char>,
    map: Seq<(String, usize)>,
    default: Option<usize>,
) -> Option<int> {
    let v = if get(out, name) is Some || e.outer is None {
        get(out, name)
    } else {
        get(e.outer->0, name)
    };
    let by_type = match v {
        Some(v) => match target_type(v, e) {
            Some(t) => idx(lookup(map, t)),
            None => None,
        },
        None => None,
    };
    or_else(by_type, idx(default))
}

/// The variant that a number chooses, or the default.
pub open spec fn choose_by_number(
    n: Option<int>,
    map: Seq<(String, usize)>,
    default: Option<usize>,
) -> Option<int> {
    let by_number = match n {
        Some(n) => idx(lookup(map, decimal(n))),
        None => None,
    };
    or_else(by_number, idx(default))
}

/// The place of the first waiting subrecord `sig` that is in scope.
pub open spec fn first_in_scope<R>(e: Env<R>, pool: Seq<Sub>, sig: Seq<char>) -> Option<int>
    decreases pool.len(),
{
    if pool.len() == 0 {
        None
    } else if pool[0].sig == sig && e.in_scope(pool[0].doc) {
        Some(pool[0].doc)
    } else {
        first_in_scope(e, pool.drop_first(), sig)
    }
}

/// The earliest place of the first `n` signatures.
pub open spec fn earliest<R>(e: Env<R>, pool: Seq<Sub>, sigs: Seq<String>, n: nat) -> Option<int>
    decreases n,
{
    if n == 0 || n > sigs.len() {
        None
    } else {
        earlier(
            earliest(e, pool, sigs, (n - 1) as nat),
            first_in_scope(e, pool, sigs[n - 1]@),
        )
    }
}

/// Of the first `n` variants the one whose signatures come first, with its
/// place.
pub open spec fn choose_by_presence<R>(
    e: Env<R>,
    pool: Seq<Sub>,
    present: Seq<Vec<String>>,
    n: nat,
) -> Option<(int, int)>
    decreases n,
{
    if n == 0 || n > present.len() {
        None
    } else {
        let before = choose_by_presence(e, pool, present, (n - 1) as nat);
        let here = earliest(e, pool, present[n - 1]@, present[n - 1].len() as nat);
        match (before, here) {
            (_, None) => before,
            (None, Some(d)) => Some((n - 1, d)),
            (Some((_, b)), Some(d)) => if d < b {
                Some((n - 1, d))
            } else {
                before
            },
        }
    }
}

/// The variant of a union among the members of a record.
pub open spec fn member_choice<R: FormIdRefResolver>(
    e: Env<R>,
    decider: UnionDecider,
    n: int,
    out: Entries,
    pool: Seq<Sub>,
    payload: Option<Seq<u8>>,
) -> Option<int> {
    match decider {
        UnionDecider::FieldValue { field, map, default_variant, bits } => choose_by_field(
            out,
            e.outer,
            field@,
            map@,
            default_variant,
            bits@,
        ),
        UnionDecider::ByteAtOffset { byte_offset, map, default_variant, width_bytes } => {
            let n = match payload {
                Some(p) => le_uint(p, byte_offset as int, width_bytes as int),
                None => None,
            };
            choose_by_number(n, map@, default_variant)
        },
        UnionDecider::PayloadSize { payload_size, default_variant } => {
            let n = match payload {
                Some(p) => Some(p.len() as int),
                None => None,
            };
            choose_by_number(n, payload_size@, default_variant)
        },
        UnionDecider::PresentSignature { present_signature } => match choose_by_presence(
            e,
            pool,
            present_signature@,
            present_signature.len() as nat,
        ) {
            Some((i, _)) => Some(i),
            None => None,
        },
        UnionDecider::FormIdTargetType {
            form_id_target_type,
            map,
            default_variant,
        } => choose_by_target(e, out, form_id_target_type@, map@, default_variant),
        _ => version_choice(e.form_version, e.edid, decider, n),
    }
}

/// The variant of a union among the fields of a struct.
pub open spec fn field_choice<R: FormIdRefResolver>(
    e: Env<R>,
    decider: UnionDecider,
    n: int,
    out: Entries,
    data: Seq<u8>,
    pos: int,
) -> Option<int> {
    match decider {
        UnionDecider::FieldValue { field, map, default_variant, bits } => choose_by_field(
            out,
            e.outer,
            field@,
            map@,
            default_variant,
            bits@,
        ),
        UnionDecider::ByteAtOffset { byte_offset, map, default_variant, width_bytes } =>
        choose_by_number(
            le_uint(data, pos + byte_offset, width_bytes as int),
            map@,
            default_variant,
        ),
        UnionDecider::FormIdTargetType {
            form_id_target_type,
            map,
            default_variant,
        } => choose_by_target(e, out, form_id_target_type@, map@, default_variant),
        _ => version_choice(e.form_version, e.edid, decider, n),
    }
}

// ── Text and scripts ───────────────────────────────────────────────────────
/// The string table of an LString. Descriptions are long strings except on
/// load screens, as are the log entries of quests and the text of books;
/// dialogue has a table of its own, except for prompts.
pub open spec fn table_kind(
    table: LStringTable,
    record: Option<Seq<char>>,
    sig: Seq<char>,
) -> StringKind {
    match table {
        LStringTable::Dlstrings => StringKind::DlStrings,
        LStringTable::Ilstrings => StringKind::IlStrings,
        LStringTable::Strings => if record matches Some(r) && sig == "DESC"@ && r != "LSCR"@ {
            StringKind::DlStrings
        } else if record == Some("QUST"@) && sig == "CNAM"@ {
            StringKind::DlStrings
        } else if record == Some("BOOK"@) && sig == "CNAM"@ {
            StringKind::DlStrings
        } else if record == Some("INFO"@) && sig != "RNAM"@ {
            StringKind::IlStrings
        } else {
            StringKind::Strings
        },
    }
}

/// The text of an LString: null where there is none, and a marker with the id
/// where no table holds it.
pub open spec fn lstring<R>(e: Env<R>, table: LStringTable, sig: Seq<char>, data: Seq<u8>) -> Json {
    if e.localized {
        let id = le4(data, 0) as u32;
        if data.len() < 4 || id == 0 {
            Json::Null
        } else {
            let found = match e.strings {
                Some(loc) => loc.text_of(table_kind(table, e.record, sig), id),
                None => None,
            };
            match found {
                Some(s) => Json::Str(s),
                None => Json::Obj(
                    obj2("lstring_id"@, Json::Str(hex8(id)), "_unresolved"@, Json::Bool(true)),
                ),
            }
        }
    } else if inline_text(data).len() == 0 {
        Json::Null
    } else {
        Json::Str(inline_text(data))
    }
}

/// A script attachment, by the type of its record. Terminals have the
/// fragments of perks.
pub open spec fn vmad_of<R: FormIdRefResolver>(e: Env<R>, data: Seq<u8>) -> Json {
    if e.record == Some("QUST"@) {
        vmad_qust(e, data)
    } else if e.record == Some("INFO"@) {
        vmad_by_flags(e, data, 2)
    } else if e.record == Some("PACK"@) {
        vmad_by_flags(e, data, 3)
    } else if e.record == Some("PERK"@) || e.record == Some("TERM"@) {
        vmad_perk(e, data)
    } else if e.record == Some("SCEN"@) {
        vmad_scen(e, data)
    } else {
        vmad(e, data)
    }
}

// ── Members ────────────────────────────────────────────────────────────────
/// What decoding a member makes of the fields `out` and the waiting
/// subrecords `pool`. Within a struct, `payload` holds its bytes.
pub open spec fn member<R: FormIdRefResolver>(
    e: Env<R>,
    m: MemberDef,
    out: Entries,
    pool: Seq<Sub>,
    payload: Option<Seq<u8>>,
) -> (Entries, Seq<Sub>)
    decreases m, 1nat, 0nat,
{
    if !version_ok(e.form_version, m) {
        (out, pool)
    } else {
        match m {
            MemberDef::Struct { sig, name, fields, .. } => {
                let (src, pool2) = from_either(e, sig, pool, payload);
                let e2 = if payload is None && any_needs_outer(fields@) {
                    e.within(out)
                } else {
                    e
                };
                match src {
                    Some(data) => (struct_fields(e2, name@, fields, data, out).0, pool2),
                    None => (out, pool2),
                }
            },
            MemberDef::Integer { sig, name, width, format, stop_before, .. } => if payload is None
                && sig is Some && stop_before.len() > 0 && stops(
                pool,
                sig->0@,
                stop_before@,
            ) {
                (out, pool)
            } else {
                let (src, pool2) = from_either(e, sig, pool, payload);
                let v = match src {
                    Some(data) => int_json(data, width, format),
                    None => None,
                };
                (set_opt(out, name@, v), pool2)
            },
            MemberDef::Float { sig, name, .. } => {
                let (src, pool2) = from_either(e, sig, pool, payload);
                let v = match src {
                    Some(data) => float_at(data),
                    None => None,
                };
                (set_opt(out, name@, v), pool2)
            },
            MemberDef::String { sig, name, sized } => {
                let (src, pool2) = from_pool(e, sig, pool);
                let v = match src {
                    Some(data) => Some(string_json(data, sized)),
                    None => None,
                };
                (set_opt(out, name@, v), pool2)
            },
            MemberDef::LString { sig, name, table } => {
                let (src, pool2) = from_pool(e, sig, pool);
                let v = match src {
                    Some(data) => Some(lstring(e, table, sig->0@, data)),
                    None => None,
                };
                (set_opt(out, name@, v), pool2)
            },
            MemberDef::FormId { sig, name, valid_refs, .. } => {
                let (src, pool2) = from_either(e, sig, pool, payload);
                let v = match src {
                    Some(data) => formid_at(e, valid_refs@, data),
                    None => None,
                };
                (set_opt(out, name@, v), pool2)
            },
            MemberDef::Bytes { sig, name, len, .. } => {
                let (src, pool2) = from_either(e, sig, pool, payload);
                let v = match src {
                    Some(data) => Some(
                        bytes_json(
                            match len {
                                Some(n) => data.take(least(data.len() as int, n as int)),
                                None => data,
                            },
                        ),
                    ),
                    None => None,
                };
                (set_opt(out, name@, v), pool2)
            },
            MemberDef::ByteRgba { sig, name, .. } => {
                let (src, pool2) = from_pool(e, sig, pool);
                let v = match src {
                    Some(data) => rgba_at(data),
                    None => None,
                };
                (set_opt(out, name@, v), pool2)
            },
            MemberDef::Vec3 { sig, name } => {
                let (src, pool2) = from_either(e, sig, pool, payload);
                let v = match src {
                    Some(data) => vec3_at(data),
                    None => None,
                };
                (set_opt(out, name@, v), pool2)
            },
            MemberDef::RStruct { name, members } => {
                let (lo, hi) = group_scope(pool, members);
                let (group, pool2) = members_from(
                    e.scoped(lo, hi),
                    members,
                    0,
                    nothing(),
                    pool,
                );
                (
                    if group.len() == 0 {
                        out
                    } else {
                        put(out, name@, Json::Obj(group))
                    },
                    pool2,
                )
            },
            MemberDef::RArray { name, element, count, stop_before } => {
                let (items, pool2) = groups(
                    e,
                    *element,
                    group_count(count, out, e),
                    stop_before@,
                    pool,
                    Seq::empty(),
                    0,
                );
                (
                    if items.len() == 0 {
                        out
                    } else {
                        put(out, name@, Json::Arr(items))
                    },
                    pool2,
                )
            },
            MemberDef::Array { sig, name, element, count } => match sig {
                Some(s) => {
                    let items = packed_subs(
                        e,
                        *element,
                        field_size(e.form_version, e.edid, *element),
                        with_sig(pool, s@),
                        0,
                        Seq::empty(),
                    );
                    let kept = match count {
                        Some(ArrayCount::Fixed(n)) => items.take(
                            least(items.len() as int, n as int),
                        ),
                        _ => items,
                    };
                    (
                        if kept.len() == 0 {
                            out
                        } else {
                            put(out, name@, Json::Arr(kept))
                        },
                        without_sig(pool, s@),
                    )
                },
                None => match (payload, count, field_size(e.form_version, e.edid, *element)) {
                    (Some(data), Some(ArrayCount::Fixed(n)), Some(size)) => {
                        let items = packed(
                            e,
                            *element,
                            data,
                            0,
                            size,
                            n as nat,
                            Seq::empty(),
                        ).0;
                        (
                            if items.len() == 0 {
                                out
                            } else {
                                put(out, name@, Json::Arr(items))
                            },
                            pool,
                        )
                    },
                    _ => (out, pool),
                },
            },
            MemberDef::Union { sig, name, decider, variants } => {
                let (src, pool2) = from_pool(e, sig, pool);
                let bytes = if src is Some {
                    src
                } else {
                    payload
                };
                let choice = member_choice(
                    e,
                    decider,
                    variants.len() as int,
                    out,
                    pool2,
                    bytes,
                );
                if choice is Some && 0 <= choice->0 < variants.len() {
                    let (tmp, pool3) = member(
                        e,
                        variants@[choice->0],
                        nothing(),
                        pool2,
                        bytes,
                    );
                    (put_all_unique(out, tmp, name@, tmp.len()), pool3)
                } else if choice is None && decider is PresentSignature {
                    (out, pool2)
                } else {
                    (
                        put(
                            out,
                            name@,
                            Json::Obj(
                                obj2(
                                    "_raw"@,
                                    Json::Bool(true),
                                    "reason"@,
                                    Json::Str("union decider unresolved"@),
                                ),
                            ),
                        ),
                        pool2,
                    )
                }
            },
            MemberDef::Empty { sig, name, .. } => match sig {
                Some(s) => if first_sig(pool, s@) is Some {
                    (put(out, name@, Json::Null), taken(pool, s@))
                } else {
                    (out, pool)
                },
                None => (out, pool),
            },
            MemberDef::Unused { sig, .. } => (out, from_either(e, sig, pool, payload).1),
            MemberDef::Unknown { sig, name } => {
                let (src, pool2) = from_pool(e, sig, pool);
                let v = match src {
                    Some(data) => Some(raw_json(data)),
                    None => None,
                };
                (set_opt(out, name@, v), pool2)
            },
            MemberDef::RawFallback { sig, name, reason } => {
                let (src, pool2) = from_pool(e, sig, pool);
                let v = match src {
                    Some(data) => Some(raw_reason_json(data, reason@)),
                    None => if sig is None {
                        Some(
                            Json::Obj(
                                obj2("_raw"@, Json::Bool(true), "reason"@, Json::Str(reason@)),
                            ),
                        )
                    } else {
                        None
                    },
                };
                (set_opt(out, name@, v), pool2)
            },
            MemberDef::Vmad { sig, name } => {
                let (src, pool2) = from_pool(e, sig, pool);
                let v = match src {
                    Some(data) => Some(vmad_of(e, data)),
                    None => None,
                };
                (set_opt(out, name@, v), pool2)
            },
            MemberDef::Ctda { sig, name } => {
                let (src, pool2) = from_sig_first(e, sig, pool, payload);
                let v = match src {
                    Some(data) => Some(Json::Condition(data)),
                    None => None,
                };
                (set_opt(out, name@, v), pool2)
            },
            MemberDef::ModelInfo { sig, name } => {
                let (src, pool2) = from_sig_first(e, sig, pool, payload);
                let v = match src {
                    Some(data) => Some(model_info(data)),
                    None => None,
                };
                (set_opt(out, name@, v), pool2)
            },
        }
    }
}

/// What decoding the members from `i` on makes of `out` and `pool`.
pub open spec fn members_from<R: FormIdRefResolver>(
    e: Env<R>,
    members: Vec<MemberDef>,
    i: nat,
    out: Entries,
    pool: Seq<Sub>,
) -> (Entries, Seq<Sub>)
    decreases members, 1nat, members.len() - i,
{
    if i >= members.len() {
        (out, pool)
    } else {
        let (out2, pool2) = member(e, members@[i as int], out, pool, None);
        members_from(e, members, i + 1, out2, pool2)
    }
}

/// The place after `doc`.
pub open spec fn after(doc: int) -> int {
    if doc < usize::MAX {
        doc + 1
    } else {
        doc
    }
}

/// The context of the next element of a repeated group, and where the element
/// after it starts. An element lies from its own anchor up to the next one.
/// Without an anchor waiting, it lies from `next` up to its end marker.
pub open spec fn element_scope<R>(
    e: Env<R>,
    element: MemberDef,
    pool: Seq<Sub>,
    next: int,
) -> (Env<R>, int) {
    let here = match anchor_of(element) {
        Some(a) => first_sig(pool, a),
        None => None,
    };
    let end = match terminator_of(element) {
        Some(t) => first_sig(pool, t),
        None => None,
    };
    if here is Some {
        let a = anchor_of(element)->0;
        match first_sig(taken(pool, a), a) {
            Some(s) => (e.scoped(Some(here->0.doc), Some(s.doc)), s.doc),
            None => (e.scoped(Some(here->0.doc), None), next),
        }
    } else if end is Some {
        let stop = after(end->0.doc);
        (e.scoped(Some(next), Some(stop)), stop)
    } else {
        (e, next)
    }
}

/// The elements of a repeated group after `acc`: up to `count` of them, until
/// a boundary comes first or an element takes no subrecord.
pub open spec fn groups<R: FormIdRefResolver>(
    e: Env<R>,
    element: MemberDef,
    count: Option<int>,
    stop_before: Seq<String>,
    pool: Seq<Sub>,
    acc: Seq<Json>,
    next: int,
) -> (Seq<Json>, Seq<Sub>)
    decreases element, 4nat, pool.len(),
{
    if count matches Some(n) && acc.len() >= n {
        (acc, pool)
    } else if stop_before.len() > 0 && anchor_of(element) is Some && stops(
        pool,
        anchor_of(element)->0,
        stop_before,
    ) {
        (acc, pool)
    } else {
        let (e2, next2) = element_scope(e, element, pool, next);
        let (item, pool2) = member(e2, element, nothing(), pool, None);
        if pool2.len() < pool.len() {
            groups(e, element, count, stop_before, pool2, acc.push(Json::Obj(item)), next2)
        } else {
            (acc, pool2)
        }
    }
}

/// The value of a field by itself: the one value that it gives, or all of
/// them as an object.
pub open spec fn value<R: FormIdRefResolver>(e: Env<R>, f: FieldDef, data: Seq<u8>) -> Json
    decreases f, 2nat, 0nat,
{
    let m = member(e, f, nothing(), Seq::empty(), Some(data)).0;
    if m.len() == 1 {
        m[0].1
    } else {
        Json::Obj(m)
    }
}

/// Up to `count` elements of `size` bytes each from `pos` on after `acc`, and
/// the position after them.
pub open spec fn packed<R: FormIdRefResolver>(
    e: Env<R>,
    element: FieldDef,
    data: Seq<u8>,
    pos: int,
    size: int,
    count: nat,
    acc: Seq<Json>,
) -> (Seq<Json>, int)
    decreases element, 3nat, count,
{
    if count == 0 || pos + size > data.len() {
        (acc, pos)
    } else {
        packed(
            e,
            element,
            data,
            pos + size,
            size,
            (count - 1) as nat,
            acc.push(value(e, element, data.subrange(pos, pos + size))),
        )
    }
}

/// The elements of a struct without a fixed size, one behind the other from
/// `pos` on, after `acc`.
pub open spec fn packed_structs<R: FormIdRefResolver>(
    e: Env<R>,
    name: Seq<char>,
    fields: Vec<FieldDef>,
    data: Seq<u8>,
    pos: int,
    acc: Seq<Json>,
) -> Seq<Json>
    decreases fields, 3nat, rest(data, pos),
{
    if pos < 0 || pos >= data.len() {
        acc
    } else {
        let (o, consumed) = struct_fields(e, name, fields, data.skip(pos), nothing());
        if consumed <= 0 {
            acc
        } else {
            let acc2 = match get(o, name) {
                Some(v) => acc.push(v),
                None => acc,
            };
            packed_structs(e, name, fields, data, pos + consumed, acc2)
        }
    }
}

/// The elements that one subrecord holds, after `acc`: as many as fit where
/// an element has a fixed size, else one.
pub open spec fn packed_sub<R: FormIdRefResolver>(
    e: Env<R>,
    element: FieldDef,
    size: Option<int>,
    data: Seq<u8>,
    acc: Seq<Json>,
) -> Seq<Json>
    decreases element, 4nat, 0nat,
{
    match size {
        Some(s) => if s > 0 && data.len() > s {
            packed(e, element, data, 0, s, data.len(), acc).0
        } else {
            acc.push(value(e, element, data))
        },
        None => match element {
            MemberDef::Struct { name, fields, .. } => packed_structs(
                e,
                name@,
                fields,
                data,
                0,
                acc,
            ),
            _ => acc.push(value(e, element, data)),
        },
    }
}

/// The elements that the subrecords from `i` on hold, after `acc`.
pub open spec fn packed_subs<R: FormIdRefResolver>(
    e: Env<R>,
    element: FieldDef,
    size: Option<int>,
    subs: Seq<Sub>,
    i: nat,
    acc: Seq<Json>,
) -> Seq<Json>
    decreases element, 5nat, subs.len() - i,
{
    if i >= subs.len() {
        acc
    } else {
        packed_subs(
            e,
            element,
            size,
            subs,
            i + 1,
            packed_sub(e, element, size, subs[i as int].data, acc),
        )
    }
}

/// What decoding a struct from `data` makes of `out`, and the bytes it took.
pub open spec fn struct_fields<R: FormIdRefResolver>(
    e: Env<R>,
    name: Seq<char>,
    fields: Vec<FieldDef>,
    data: Seq<u8>,
    out: Entries,
) -> (Entries, int)
    decreases fields, 2nat, 0nat,
{
    let (inner, pos) = fields_from(e, fields, 0, data, 0, nothing());
    let done = crafting_quantity(inner);
    (
        if done.len() == 0 {
            out
        } else {
            put(out, name, Json::Obj(done))
        },
        pos,
    )
}

/// What decoding the fields from `i` on makes of the fields `o` and the
/// position `pos`.
pub open spec fn fields_from<R: FormIdRefResolver>(
    e: Env<R>,
    fields: Vec<FieldDef>,
    i: nat,
    data: Seq<u8>,
    pos: int,
    o: Entries,
) -> (Entries, int)
    decreases fields, 1nat, fields.len() - i,
{
    if i >= fields.len() {
        (o, pos)
    } else {
        let (o2, pos2, stop) = field_step(e, fields@[i as int], data, pos, o);
        if stop {
            (o2, pos2)
        } else {
            fields_from(e, fields, i + 1, data, pos2, o2)
        }
    }
}

/// A value of `size` bytes at `pos`, where they are there.
pub open spec fn sized_step(
    o: Entries,
    name: Seq<char>,
    v: Option<Json>,
    data: Seq<u8>,
    pos: int,
    size: int,
) -> (Entries, int, bool) {
    if pos + size <= data.len() {
        (set_opt(o, name, v), pos + size, false)
    } else {
        (o, pos, false)
    }
}

/// How many elements an array in a struct has, and where they start.
pub open spec fn array_count(
    count: Option<ArrayCount>,
    data: Seq<u8>,
    pos: int,
    o: Entries,
) -> (nat, int) {
    match count {
        Some(ArrayCount::CountPrefix(w)) => if w > 0 && pos + w <= data.len() {
            (least(le_bytes(data, pos, w as nat), u64::MAX as int) as nat, pos + w)
        } else {
            (0, pos)
        },
        Some(ArrayCount::CountPath(path)) => (
            match get(o, path@) {
                Some(v) => match as_uint(v) {
                    Some(n) => n as nat,
                    None => 0,
                },
                None => 0,
            },
            pos,
        ),
        Some(ArrayCount::Fixed(n)) => (n as nat, pos),
        _ => (0, pos),
    }
}

/// What decoding one field at `pos` makes of the fields `o` and the position,
/// and whether the struct ends with it.
pub open spec fn field_step<R: FormIdRefResolver>(
    e: Env<R>,
    f: FieldDef,
    data: Seq<u8>,
    pos: int,
    o: Entries,
) -> (Entries, int, bool)
    decreases f, 1nat, 0nat,
{
    let tail = data.skip(pos);
    if !version_ok(e.form_version, f) || !size_ok(data.len() as int, f) {
        (o, pos, false)
    } else {
        match f {
            MemberDef::Unused { bytes, .. } => (
                o,
                least(pos + bytes, data.len() as int),
                false,
            ),
            MemberDef::Integer { name, width, format, .. } => sized_step(
                o,
                name@,
                int_json(tail, width, format),
                data,
                pos,
                width_size(width),
            ),
            MemberDef::Float { name, .. } => sized_step(o, name@, float_at(tail), data, pos, 4),
            MemberDef::FormId { name, valid_refs, .. } => sized_step(
                o,
                name@,
                formid_at(e, valid_refs@, tail),
                data,
                pos,
                4,
            ),
            MemberDef::ByteRgba { name, .. } => sized_step(o, name@, rgba_at(tail), data, pos, 4),
            MemberDef::Vec3 { name, .. } => sized_step(o, name@, vec3_at(tail), data, pos, 12),
            MemberDef::String { name, sized, .. } => match sized {
                Some(n) if n > 0 => {
                    let end = least(pos + n, data.len() as int);
                    (put(o, name@, string_json(data.subrange(pos, end), sized)), end, false)
                },
                _ => {
                    let end = pos + before_nul(tail).len();
                    (
                        put(o, name@, string_json(tail, sized)),
                        if end < data.len() {
                            end + 1
                        } else {
                            end
                        },
                        false,
                    )
                },
            },
            MemberDef::Bytes { name, len, .. } => {
                let end = match len {
                    Some(n) => least(pos + n, data.len() as int),
                    None => data.len() as int,
                };
                (put(o, name@, bytes_json(data.subrange(pos, end))), end, false)
            },
            MemberDef::RawFallback { name, reason, .. } => (
                if pos < data.len() {
                    put(o, name@, raw_reason_json(tail, reason@))
                } else {
                    o
                },
                data.len() as int,
                true,
            ),
            MemberDef::Struct { name, fields, .. } => {
                let (o2, consumed) = struct_fields(e, name@, fields, tail, o);
                (o2, least(pos + consumed, data.len() as int), false)
            },
            MemberDef::Union { name, decider, variants, .. } => match field_choice(
                e,
                decider,
                variants.len() as int,
                o,
                data,
                pos,
            ) {
                Some(i) => if 0 <= i < variants.len() {
                    let tmp = member(e, variants@[i], nothing(), Seq::empty(), Some(tail)).0;
                    (
                        put_all_unique(o, tmp, Seq::empty(), tmp.len()),
                        pos + variant_size(e, variants@[i], tail),
                        false,
                    )
                } else {
                    (o, pos, false)
                },
                None => (put(o, name@, raw_json(tail)), data.len() as int, true),
            },
            MemberDef::Array { name, element, count, .. } => {
                let (n, start) = array_count(count, data, pos, o);
                match field_size(e.form_version, e.edid, *element) {
                    Some(size) => {
                        let (items, end) = packed(
                            e.within(o),
                            *element,
                            data,
                            start,
                            size,
                            n,
                            Seq::empty(),
                        );
                        (
                            if items.len() == 0 {
                                o
                            } else {
                                put(o, name@, Json::Arr(items))
                            },
                            end,
                            false,
                        )
                    },
                    None => (o, start, false),
                }
            },
            MemberDef::Unknown { name, .. } => (
                if pos < data.len() {
                    put_unique(o, name@, raw_json(tail))
                } else {
                    o
                },
                pos,
                true,
            ),
            _ => (o, pos, false),
        }
    }
}

/// How many bytes a variant takes at the start of `data`.
pub open spec fn variant_size<R: FormIdRefResolver>(
    e: Env<R>,
    variant: MemberDef,
    data: Seq<u8>,
) -> int
    decreases variant, 1nat, 0nat,
{
    match variant {
        MemberDef::Struct { name, fields, .. } => struct_fields(
            e,
            name@,
            fields,
            data,
            nothing(),
        ).1,
        _ => match field_size(e.form_version, e.edid, variant) {
            Some(s) => least(s, data.len() as int),
            None => 0,
        },
    }
}

// ── Records ────────────────────────────────────────────────────────────────
/// The first character of the EditorID among `list`.
pub open spec fn edid_char(list: Seq<Sub>) -> Option<char> {
    match first_sig(list, "EDID"@) {
        Some(s) => if valid_utf8(s.data) && trim_nuls(decode_utf8(s.data)).len() > 0 {
            Some(trim_nuls(decode_utf8(s.data))[0])
        } else {
            None
        },
        None => None,
    }
}

/// The context of a record: its type and the first character of its EditorID.
pub open spec fn record_env<R>(e: Env<R>, sig: Seq<char>, list: Seq<Sub>) -> Env<R> {
    if edid_char(list) != e.edid || e.record != Some(sig) {
        Env { record: Some(sig), edid: edid_char(list), outer: None, ..e }
    } else {
        e
    }
}

/// A subrecord that no member took.
pub open spec fn leftover(s: Sub) -> Json {
    Json::Obj(
        obj3(
            "signature"@,
            Json::Str(s.sig),
            "hex"@,
            Json::Str(hex_of(s.data)),
            "_raw"@,
            Json::Bool(true),
        ),
    )
}

/// The first `n` subrecords that no member took, by signature.
pub open spec fn leftovers(pool: Seq<Sub>, n: nat) -> Entries
    decreases n,
{
    if n == 0 || n > pool.len() {
        nothing()
    } else {
        let o = leftovers(pool, (n - 1) as nat);
        let s = pool[n - 1];
        let before = match get(o, s.sig) {
            Some(Json::Arr(list)) => list,
            _ => Seq::empty(),
        };
        put(o, s.sig, Json::Arr(before.push(leftover(s))))
    }
}

/// The fields of a record and the subrecords that no member took.
pub open spec fn record_fields<R: FormIdRefResolver>(
    e: Env<R>,
    def: Option<RecordDef>,
    sig: Seq<char>,
    list: Seq<Sub>,
) -> (Entries, Seq<Sub>) {
    match def {
        Some(def) => members_from(
            record_env(e, sig, list),
            def.members,
            0,
            put(nothing(), "_record_type"@, Json::Str(def.name@)),
            list,
        ),
        None => (
            put(
                put(nothing(), "_record_type"@, Json::Str(sig)),
                "_unknown_record"@,
                Json::Bool(true),
            ),
            list,
        ),
    }
}

/// A record as JSON: its members, the subrecords that no member took, and for
/// a weapon its bash damage.
pub open spec fn decoded<R: FormIdRefResolver>(
    e: Env<R>,
    schema: Schema,
    sig: Seq<char>,
    list: Seq<Sub>,
) -> Json {
    let (out, pool) = record_fields(e, lookup(schema.records@, sig), sig, list);
    let all = if pool.len() == 0 {
        out
    } else {
        put(out, "_unmapped"@, Json::Obj(leftovers(pool, pool.len())))
    };
    Json::Obj(
        if sig == "WEAP"@ {
            weapon_bash(all)
        } else {
            all
        },
    )
}

} // verus!
