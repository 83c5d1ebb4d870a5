//! The leaves of the decoder: single values out of bytes, and the choices
//! that depend on values already decoded.
use crate::curves::{float_json, json_f32};
use crate::decode::context::{
    resolve_formid, resolved, DecodeContext, Env, FormIdRefResolver,
};
use crate::format::{le2, le4, le8, read_u16, read_u32, read_u64, signed};
use crate::formid::{form_id_of, hex_prefixed, parse_formid, FormId};
use crate::json::{
    as_sint, as_text, as_uint, field, get, obj1, obj2, obj3, obj4, opt_view, text, views, Entries,
    Json, Object, Value,
};
use crate::schema::{
    lookup, lookup_index, lookup_usize, EnumFormat, IntegerWidth, MemberDef, UnionDecider,
    ValueFormat,
};
use crate::text::{
    before_nul, chars_of, contains_text, decimal, decimal_string, encode, find_nul, from_lossy,
    hex_of, hex_upper, hex_upper_string, lossy, parse_chars, parse_uint, split_once,
    split_once_str, trim_nuls, trim_nuls_string,
};
use vstd::prelude::*;
use vstd::slice::slice_subrange;

verus! {

/// The number of bytes of a stored integer.
pub open spec fn width_size(w: IntegerWidth) -> int {
    match w {
        IntegerWidth::U8 | IntegerWidth::S8 => 1,
        IntegerWidth::U16 | IntegerWidth::S16 => 2,
        IntegerWidth::U32 | IntegerWidth::S32 => 4,
        IntegerWidth::U64 | IntegerWidth::S64 => 8,
    }
}

/// The number of bytes of a stored integer.
pub fn int_size(w: IntegerWidth) -> (n: usize)
    ensures
        n == width_size(w),
{
    match w {
        IntegerWidth::U8 | IntegerWidth::S8 => 1,
        IntegerWidth::U16 | IntegerWidth::S16 => 2,
        IntegerWidth::U32 | IntegerWidth::S32 => 4,
        IntegerWidth::U64 | IntegerWidth::S64 => 8,
    }
}

/// The integer at the start of `data`, as a signed 64-bit number.
pub open spec fn int_at(data: Seq<u8>, w: IntegerWidth) -> Option<int> {
    if data.len() < width_size(w) {
        None
    } else {
        Some(
            match w {
                IntegerWidth::U8 => data[0] as int,
                IntegerWidth::S8 => signed(data[0] as int, 128),
                IntegerWidth::U16 => le2(data, 0),
                IntegerWidth::S16 => signed(le2(data, 0), 0x8000),
                IntegerWidth::U32 => le4(data, 0),
                IntegerWidth::S32 => signed(le4(data, 0), 0x8000_0000),
                IntegerWidth::U64 | IntegerWidth::S64 => signed(
                    le8(data, 0),
                    0x8000_0000_0000_0000,
                ),
            },
        )
    }
}

/// The integer at the start of `data`. A width fixes its sign by itself;
/// `signed` changes nothing, and the upper half of the unsigned 64-bit range
/// reads as negative.
pub fn read_int(data: &[u8], width: IntegerWidth, signed_field: bool) -> (r: Option<i64>)
    ensures
        match r {
            Some(n) => int_at(data@, width) == Some(n as int),
            None => int_at(data@, width) is None,
        },
{
    let size: usize = int_size(width);
    if data.len() < size {
        return None;
    }
    let v: i64 = match width {
        IntegerWidth::U8 => data[0] as i64,
        IntegerWidth::S8 => if data[0] >= 128 {
            data[0] as i64 - 256
        } else {
            data[0] as i64
        },
        IntegerWidth::U16 => read_u16(data, 0) as i64,
        IntegerWidth::S16 => {
            let n: u16 = read_u16(data, 0);
            if n >= 0x8000 {
                n as i64 - 0x1_0000
            } else {
                n as i64
            }
        },
        IntegerWidth::U32 => read_u32(data, 0) as i64,
        IntegerWidth::S32 => {
            let n: u32 = read_u32(data, 0);
            if n >= 0x8000_0000 {
                n as i64 - 0x1_0000_0000
            } else {
                n as i64
            }
        },
        IntegerWidth::U64 | IntegerWidth::S64 => {
            let n: u64 = read_u64(data, 0);
            if n >= 0x8000_0000_0000_0000 {
                (n as i128 - 0x1_0000_0000_0000_0000) as i64
            } else {
                n as i64
            }
        },
    };
    Some(v)
}

/// The pattern of a signed 64-bit number as an unsigned one.
pub open spec fn pattern64(v: int) -> int {
    if v < 0 {
        v + 0x1_0000_0000_0000_0000
    } else {
        v
    }
}

/// The pattern of a signed 64-bit number as an unsigned one.
pub fn to_pattern(v: i64) -> (r: u64)
    ensures
        r as int == pattern64(v as int),
{
    if v < 0 {
        (v as i128 + 0x1_0000_0000_0000_0000) as u64
    } else {
        v as u64
    }
}

/// The names of the bits that are set in `v`.
pub open spec fn set_flags(v: u64, flags: Seq<String>, n: int) -> Seq<Json>
    decreases n,
{
    if n <= 0 {
        Seq::empty()
    } else if n <= 64 && (v >> ((n - 1) as u64)) & 1 == 1 {
        set_flags(v, flags, n - 1).push(Json::Str(flags[n - 1]@))
    } else {
        set_flags(v, flags, n - 1)
    }
}

/// A number with its name.
pub open spec fn named(v: int, name: Seq<char>) -> Json {
    Json::Obj(obj2("value"@, Json::Int(v), "name"@, Json::Str(name)))
}

/// An integer as it is presented.
pub open spec fn formatted(v: int, format: Option<ValueFormat>) -> Json {
    match format {
        Some(ValueFormat::Enum { values }) => match values {
            EnumFormat::Dense(names) => if 0 <= v < names.len() {
                named(v, names@[v]@)
            } else {
                Json::Int(v)
            },
            EnumFormat::Sparse(map) => {
                let low = (pattern64(v) % 0x1_0000_0000) as nat;
                if lookup(map@, decimal(v)) is Some {
                    named(v, lookup(map@, decimal(v))->0@)
                } else if lookup(map@, hex_upper(low)) is Some {
                    named(v, lookup(map@, hex_upper(low))->0@)
                } else {
                    Json::Int(v)
                }
            },
        },
        Some(ValueFormat::Flags { flags }) => Json::Obj(
            obj2(
                "value"@,
                Json::Str(hex_upper(pattern64(v) as nat)),
                "flags"@,
                Json::Arr(set_flags(pattern64(v) as u64, flags@, flags.len() as int)),
            ),
        ),
        _ => Json::Int(v),
    }
}

/// A number with its name.
fn named_value(v: i64, name: &str) -> (r: Value)
    ensures
        r@ == named(v as int, name@),
{
    Value::Object(Object::new().with("value", Value::Int(v as i128)).with("name", text(name)))
}

/// An integer as it is presented.
pub fn format_int(v: i64, format: &Option<ValueFormat>) -> (r: Value)
    ensures
        r@ == formatted(v as int, *format),
{
    match format {
        Some(ValueFormat::Enum { values }) => match values {
            EnumFormat::Dense(names) => {
                if v >= 0 && (v as u128) < names.len() as u128 {
                    named_value(v, &names[v as usize])
                } else {
                    Value::Int(v as i128)
                }
            },
            EnumFormat::Sparse(map) => {
                let i: usize = lookup_index(map, &decimal_string(v as i128));
                if i < map.len() {
                    return named_value(v, &map[i].1);
                }
                let low: u64 = to_pattern(v) % 0x1_0000_0000;
                let j: usize = lookup_index(map, &hex_upper_string(low));
                if j < map.len() {
                    named_value(v, &map[j].1)
                } else {
                    Value::Int(v as i128)
                }
            },
        },
        Some(ValueFormat::Flags { flags }) => {
            let bits: u64 = to_pattern(v);
            let mut set: Vec<Value> = Vec::new();
            let mut i: usize = 0;
            while i < flags.len()
                invariant
                    i <= flags.len(),
                    views(set@) =~= set_flags(bits, flags@, i as int),
                decreases flags.len() - i,
            {
                if i < 64 && (bits >> (i as u64)) & 1 == 1 {
                    set.push(text(&flags[i]));
                }
                i += 1;
            }
            Value::Object(
                Object::new().with("value", Value::String(hex_upper_string(bits))).with(
                    "flags",
                    Value::Array(set),
                ),
            )
        },
        _ => Value::Int(v as i128),
    }
}

/// The integer at the start of `data` as it is presented.
pub open spec fn int_json(
    data: Seq<u8>,
    w: IntegerWidth,
    format: Option<ValueFormat>,
) -> Option<Json> {
    match int_at(data, w) {
        Some(v) => Some(formatted(v, format)),
        None => None,
    }
}

/// The view of an optional value.
pub open spec fn opt_val(v: Option<Value>) -> Option<Json> {
    match v {
        Some(v) => Some(v@),
        None => None,
    }
}

/// The integer at the start of `bytes` as it is presented.
pub fn scalar_int(
    bytes: &[u8],
    width: IntegerWidth,
    signed_field: bool,
    format: &Option<ValueFormat>,
) -> (r: Option<Value>)
    ensures
        opt_val(r) == int_json(bytes@, width, *format),
{
    match read_int(bytes, width, signed_field) {
        Some(v) => Some(format_int(v, format)),
        None => None,
    }
}

/// The single-precision number at the start of `data`.
pub open spec fn float_at(data: Seq<u8>) -> Option<Json> {
    if data.len() < 4 {
        None
    } else {
        Some(float_json(le4(data, 0) as u32))
    }
}

/// The single-precision number at the start of `bytes`.
pub fn scalar_float(bytes: &[u8]) -> (r: Option<Value>)
    ensures
        opt_val(r) == float_at(bytes@),
{
    if bytes.len() < 4 {
        None
    } else {
        Some(json_f32(read_u32(bytes, 0)))
    }
}

/// The reference at the start of `data`.
pub open spec fn formid_at<R: FormIdRefResolver>(
    e: Env<R>,
    refs: Seq<String>,
    data: Seq<u8>,
) -> Option<Json> {
    if data.len() < 4 {
        None
    } else {
        Some(resolved(e, contains_text(refs, "CURV"@), le4(data, 0) as u32))
    }
}

/// The reference at the start of `bytes`.
pub fn scalar_formid<R: FormIdRefResolver>(
    ctx: &DecodeContext<'_, R>,
    valid_refs: &Vec<String>,
    bytes: &[u8],
) -> (r: Option<Value>)
    ensures
        opt_val(r) == formid_at(ctx.env(), valid_refs@, bytes@),
{
    if bytes.len() < 4 {
        None
    } else {
        Some(resolve_formid(ctx, valid_refs, FormId::new(read_u32(bytes, 0))))
    }
}

/// Bytes as an object with their hexadecimal digits.
pub open spec fn bytes_json(data: Seq<u8>) -> Json {
    Json::Obj(obj1("hex"@, Json::Str(hex_of(data))))
}

/// Bytes as an object with their hexadecimal digits.
pub fn scalar_bytes(bytes: &[u8]) -> (v: Value)
    ensures
        v@ == bytes_json(bytes@),
{
    Value::Object(Object::new().with("hex", Value::String(encode(bytes))))
}

/// Bytes that could not be read as more than bytes.
pub open spec fn raw_json(data: Seq<u8>) -> Json {
    Json::Obj(obj2("hex"@, Json::Str(hex_of(data)), "_raw"@, Json::Bool(true)))
}

/// Bytes that could not be read as more than bytes.
pub fn raw_value(bytes: &[u8]) -> (v: Value)
    ensures
        v@ == raw_json(bytes@),
{
    Value::Object(
        Object::new().with("hex", Value::String(encode(bytes))).with("_raw", Value::Bool(true)),
    )
}

/// Bytes that could not be read as more than bytes, and why.
pub open spec fn raw_reason_json(data: Seq<u8>, reason: Seq<char>) -> Json {
    Json::Obj(
        obj3(
            "hex"@,
            Json::Str(hex_of(data)),
            "_raw"@,
            Json::Bool(true),
            "reason"@,
            Json::Str(reason),
        ),
    )
}

/// Bytes that could not be read as more than bytes, and why.
pub fn raw_reason_value(bytes: &[u8], reason: &str) -> (v: Value)
    ensures
        v@ == raw_reason_json(bytes@, reason@),
{
    Value::Object(
        Object::new().with("hex", Value::String(encode(bytes))).with(
            "_raw",
            Value::Bool(true),
        ).with("reason", text(reason)),
    )
}

/// The colour at the start of `data`.
pub open spec fn rgba_at(data: Seq<u8>) -> Option<Json> {
    if data.len() < 4 {
        None
    } else {
        Some(
            Json::Obj(
                obj4(
                    "r"@,
                    Json::Int(data[0] as int),
                    "g"@,
                    Json::Int(data[1] as int),
                    "b"@,
                    Json::Int(data[2] as int),
                    "a"@,
                    Json::Int(data[3] as int),
                ),
            ),
        )
    }
}

/// The colour at the start of `bytes`.
pub fn scalar_rgba(bytes: &[u8]) -> (r: Option<Value>)
    ensures
        opt_val(r) == rgba_at(bytes@),
{
    if bytes.len() < 4 {
        None
    } else {
        Some(
            Value::Object(
                Object::new().with("r", Value::Int(bytes[0] as i128)).with(
                    "g",
                    Value::Int(bytes[1] as i128),
                ).with("b", Value::Int(bytes[2] as i128)).with("a", Value::Int(bytes[3] as i128)),
            ),
        )
    }
}

/// The vector at the start of `data`.
pub open spec fn vec3_at(data: Seq<u8>) -> Option<Json> {
    if data.len() < 12 {
        None
    } else {
        Some(
            Json::Obj(
                obj3(
                    "x"@,
                    float_json(le4(data, 0) as u32),
                    "y"@,
                    float_json(le4(data, 4) as u32),
                    "z"@,
                    float_json(le4(data, 8) as u32),
                ),
            ),
        )
    }
}

/// The vector at the start of `bytes`.
pub fn scalar_vec3(bytes: &[u8]) -> (r: Option<Value>)
    ensures
        opt_val(r) == vec3_at(bytes@),
{
    if bytes.len() < 12 {
        None
    } else {
        Some(
            Value::Object(
                Object::new().with("x", json_f32(read_u32(bytes, 0))).with(
                    "y",
                    json_f32(read_u32(bytes, 4)),
                ).with("z", json_f32(read_u32(bytes, 8))),
            ),
        )
    }
}

/// The text up to the first zero byte.
pub fn read_zstring(data: &[u8]) -> (s: String)
    ensures
        s@ == lossy(before_nul(data@)),
{
    let n: usize = find_nul(data);
    let part = slice_subrange(data, 0, n);
    assert(part@ =~= data@.take(n as int));
    from_lossy(part)
}

/// The smaller of two numbers.
pub open spec fn least(a: int, b: int) -> int {
    if a <= b {
        a
    } else {
        b
    }
}

/// A string: of a fixed size without trailing zeros, or up to the first zero.
pub open spec fn string_json(data: Seq<u8>, sized: Option<u32>) -> Json {
    match sized {
        Some(n) if n > 0 => Json::Str(trim_nuls(lossy(data.take(least(data.len() as int, n as int))))),
        _ => Json::Str(lossy(before_nul(data))),
    }
}

/// A string: of a fixed size without trailing zeros, or up to the first zero.
pub fn scalar_string(bytes: &[u8], sized: &Option<u32>) -> (v: Value)
    ensures
        v@ == string_json(bytes@, *sized),
{
    match sized {
        Some(n) if *n > 0 => {
            let end: usize = if (*n as u64) < bytes.len() as u64 {
                *n as usize
            } else {
                bytes.len()
            };
            let part = slice_subrange(bytes, 0, end);
            assert(part@ =~= bytes@.take(end as int));
            let s = from_lossy(part);
            Value::String(trim_nuls_string(&s))
        },
        _ => Value::String(read_zstring(bytes)),
    }
}

/// The unsigned integer of `width` bytes at `offset`, for the widths 1, 2, 4
/// and 8.
pub open spec fn le_uint(data: Seq<u8>, offset: int, width: int) -> Option<int> {
    if offset + width > data.len() {
        None
    } else if width == 1 {
        Some(data[offset] as int)
    } else if width == 2 {
        Some(le2(data, offset))
    } else if width == 4 {
        Some(le4(data, offset))
    } else if width == 8 {
        Some(le8(data, offset))
    } else {
        None
    }
}

/// The unsigned integer of `width` bytes at `offset`.
pub fn read_le_uint(data: &[u8], offset: usize, width: usize) -> (r: Option<u64>)
    ensures
        match r {
            Some(n) => le_uint(data@, offset as int, width as int) == Some(n as int),
            None => le_uint(data@, offset as int, width as int) is None,
        },
{
    if offset > data.len() || width > data.len() - offset {
        return None;
    }
    if width == 1 {
        Some(data[offset] as u64)
    } else if width == 2 {
        Some(read_u16(data, offset) as u64)
    } else if width == 4 {
        Some(read_u32(data, offset) as u64)
    } else if width == 8 {
        Some(read_u64(data, offset))
    } else {
        None
    }
}

/// The number that a text writes, in decimal or after `0x` in hexadecimal.
pub open spec fn uint_text(s: Seq<char>) -> Option<int> {
    if hex_prefixed(s) {
        parse_uint(s.skip(2), 16, u64::MAX as int)
    } else {
        parse_uint(s, 10, u64::MAX as int)
    }
}

/// The number that a text writes, in decimal or after `0x` in hexadecimal.
pub fn parse_uint_str(s: &str) -> (r: Option<u64>)
    ensures
        match r {
            Some(n) => uint_text(s@) == Some(n as int),
            None => uint_text(s@) is None,
        },
{
    let v = chars_of(s);
    assert(v@.skip(0) =~= v@);
    if v.len() >= 2 && v[0] == '0' && (v[1] == 'x' || v[1] == 'X') {
        parse_chars(&v, 2, 16, u64::MAX)
    } else {
        parse_chars(&v, 0, 10, u64::MAX)
    }
}

/// The value of a field, or of a field of a field after a dot.
pub open spec fn dotted(out: Entries, path: Seq<char>) -> Option<Json> {
    match split_once(path, '.') {
        Some((parent, child)) => match get(out, parent) {
            Some(v) => field(v, child),
            None => None,
        },
        None => get(out, path),
    }
}

/// The value of a field, or of a field of a field after a dot.
pub fn get_dotted<'a>(out: &'a Object, path: &str) -> (r: Option<&'a Value>)
    ensures
        opt_view(r) == dotted(out@, path@),
{
    match split_once_str(path, '.') {
        Some((parent, child)) => match out.get(&parent) {
            Some(v) => v.get(&child),
            None => None,
        },
        None => out.get(path),
    }
}

/// The unsigned number that a scalar is or writes.
pub open spec fn scalar_uint(v: Json) -> Option<int> {
    match v {
        Json::Int(_) => as_uint(v),
        Json::Str(s) => uint_text(s),
        _ => None,
    }
}

/// The unsigned number of a value: of a plain number, a text, or the number
/// of an enum or flags object.
pub open spec fn value_uint(v: Json) -> Option<int> {
    match v {
        Json::Obj(o) => match get(o, "value"@) {
            Some(w) => scalar_uint(w),
            None => None,
        },
        _ => scalar_uint(v),
    }
}

/// The unsigned number of a decoded field.
pub open spec fn field_uint(out: Entries, path: Seq<char>) -> Option<int> {
    match dotted(out, path) {
        Some(v) => value_uint(v),
        None => None,
    }
}

/// The unsigned number that a scalar is or writes.
fn scalar_u64(v: &Value) -> (r: Option<u64>)
    ensures
        match r {
            Some(n) => scalar_uint(v@) == Some(n as int),
            None => scalar_uint(v@) is None,
        },
{
    match v {
        Value::Int(_) => v.as_u64(),
        Value::String(s) => parse_uint_str(s),
        _ => None,
    }
}

/// The unsigned number of a decoded field.
pub fn field_int_value(out: &Object, path: &str) -> (r: Option<u64>)
    ensures
        match r {
            Some(n) => field_uint(out@, path@) == Some(n as int),
            None => field_uint(out@, path@) is None,
        },
{
    match get_dotted(out, path) {
        Some(v) => match v {
            Value::Object(o) => match o.get("value") {
                Some(w) => scalar_u64(w),
                None => None,
            },
            _ => scalar_u64(v),
        },
        None => None,
    }
}

/// The key by which a decoded value is looked up: nothing for a fraction, an
/// array, and an object without a number.
pub open spec fn value_key(v: Json) -> Option<Seq<char>> {
    match v {
        Json::Null => Some("null"@),
        Json::Bool(b) => Some(if b {
            "true"@
        } else {
            "false"@
        }),
        Json::Int(n) => Some(decimal(n)),
        Json::Str(s) => if s.len() > 0 {
            Some(s)
        } else {
            None
        },
        Json::Obj(o) => match get(o, "value"@) {
            Some(w) => match as_sint(w) {
                Some(n) => Some(decimal(n)),
                None => None,
            },
            None => None,
        },
        _ => None,
    }
}

/// The key by which a decoded field is looked up.
pub open spec fn field_key(out: Entries, path: Seq<char>) -> Option<Seq<char>> {
    match dotted(out, path) {
        Some(v) => value_key(v),
        None => None,
    }
}

/// An optional text.
pub open spec fn opt_string(s: Option<String>) -> Option<Seq<char>> {
    match s {
        Some(s) => Some(s@),
        None => None,
    }
}

/// The key by which a decoded field is looked up.
pub fn field_value_key(out: &Object, path: &str) -> (r: Option<String>)
    ensures
        opt_string(r) == field_key(out@, path@),
{
    match get_dotted(out, path) {
        Some(v) => match v {
            Value::Null => Some("null".to_owned()),
            Value::Bool(b) => if *b {
                Some("true".to_owned())
            } else {
                Some("false".to_owned())
            },
            Value::Int(n) => Some(decimal_string(*n)),
            Value::String(s) => if s.as_str().is_empty() {
                None
            } else {
                Some(s.clone())
            },
            Value::Object(o) => match o.get("value") {
                Some(w) => match w {
                    Value::Int(n) => if i64::MIN as i128 <= *n && *n <= i64::MAX as i128 {
                        Some(decimal_string(*n))
                    } else {
                        None
                    },
                    _ => None,
                },
                None => None,
            },
            _ => None,
        },
        None => None,
    }
}

/// The record type that a decoded reference leads to: the one written in it,
/// or the one that the resolver knows.
pub open spec fn target_type<R: FormIdRefResolver>(v: Json, e: Env<R>) -> Option<Seq<char>> {
    let written = match field(v, "record_type"@) {
        Some(t) => as_text(t),
        None => None,
    };
    let id = match v {
        Json::Str(s) => form_id_of(s),
        _ => match field(v, "formid"@) {
            Some(f) => match as_text(f) {
                Some(s) => form_id_of(s),
                None => None,
            },
            None => None,
        },
    };
    if written is Some {
        written
    } else {
        match (id, e.resolver) {
            (Some(id), Some(resolver)) => match resolver.stub_of(id.0) {
                Some(stub) => Some(stub.record_type),
                None => None,
            },
            _ => None,
        }
    }
}

/// The FormID that a text names.
fn formid_text(s: Option<&str>) -> (r: Option<FormId>)
    ensures
        r == match s {
            Some(s) => form_id_of(s@),
            None => None,
        },
{
    match s {
        Some(s) => match parse_formid(s) {
            Ok(id) => Some(id),
            Err(_) => None,
        },
        None => None,
    }
}

/// The record type that a decoded reference leads to.
pub fn sibling_target_sig<R: FormIdRefResolver>(value: &Value, ctx: &DecodeContext<'_, R>) -> (r:
    Option<String>)
    ensures
        opt_string(r) == target_type(value@, ctx.env()),
{
    if let Some(t) = value.get("record_type") {
        if let Some(s) = t.as_str() {
            return Some(s.to_owned());
        }
    }
    let id = match value {
        Value::String(s) => formid_text(Some(s.as_str())),
        _ => match value.get("formid") {
            Some(f) => formid_text(f.as_str()),
            None => None,
        },
    };
    match (id, ctx.resolver) {
        (Some(id), Some(resolver)) => match resolver.stub(id) {
            Some(stub) => Some(stub.record_type),
            None => None,
        },
        _ => None,
    }
}

/// The position of the first threshold above `v`, or the number of them.
pub open spec fn first_above(thresholds: Seq<u16>, v: u16) -> int
    decreases thresholds.len(),
{
    if thresholds.len() == 0 || v < thresholds[0] {
        0
    } else {
        1 + first_above(thresholds.drop_first(), v)
    }
}

/// `v`, or the last of `n` variants where `v` is beyond it.
pub open spec fn capped(v: int, n: int) -> int {
    least(v, if n > 0 {
        n - 1
    } else {
        0
    })
}

/// The variant that the form version or the EditorID chooses. A form version
/// within the range chooses the second variant, one outside the first.
pub open spec fn version_choice(
    form_version: u16,
    edid: Option<char>,
    decider: UnionDecider,
    n: int,
) -> Option<int> {
    match decider {
        UnionDecider::FormVersion { form_version: range } => if form_version >= range.min && (
        range.max matches Some(m) ==> form_version <= m) {
            Some(capped(1, n))
        } else {
            Some(0)
        },
        UnionDecider::FormVersionThresholds { form_version_thresholds } => Some(
            capped(first_above(form_version_thresholds@, form_version), n),
        ),
        UnionDecider::EdidPrefix { edid_prefix, edid_default } => {
            let by_char = match edid {
                Some(c) => lookup(edid_prefix@, seq![c]),
                None => None,
            };
            match by_char {
                Some(v) => Some(capped(v as int, n)),
                None => match edid_default {
                    Some(v) => Some(capped(v as int, n)),
                    None => None,
                },
            }
        },
        UnionDecider::FromVersion { from_version } => if form_version >= from_version {
            Some(0)
        } else {
            None
        },
        UnionDecider::BelowVersion { below_version } => if form_version < below_version {
            Some(0)
        } else {
            None
        },
        _ => None,
    }
}

/// `v`, or the last of `n` variants where `v` is beyond it.
fn cap(v: usize, n: usize) -> (r: usize)
    ensures
        r == capped(v as int, n as int),
{
    let last: usize = if n > 0 {
        n - 1
    } else {
        0
    };
    if v <= last {
        v
    } else {
        last
    }
}

/// An optional index as a number.
pub open spec fn opt_index(i: Option<usize>) -> Option<int> {
    match i {
        Some(i) => Some(i as int),
        None => None,
    }
}

/// The variant that the form version or the EditorID chooses.
pub fn choose_union_variant(
    form_version: u16,
    record_edid: Option<char>,
    decider: &UnionDecider,
    n: usize,
) -> (r: Option<usize>)
    ensures
        opt_index(r) == version_choice(form_version, record_edid, *decider, n as int),
{
    match decider {
        UnionDecider::FormVersion { form_version: range } => {
            let below_end = match range.max {
                Some(m) => form_version <= m,
                None => true,
            };
            if form_version >= range.min && below_end {
                Some(cap(1, n))
            } else {
                Some(0)
            }
        },
        UnionDecider::FormVersionThresholds { form_version_thresholds } => {
            let t = form_version_thresholds;
            let mut i: usize = 0;
            assert(t@.skip(0) =~= t@);
            while i < t.len() && form_version >= t[i]
                invariant
                    i <= t.len(),
                    first_above(t@, form_version) == i + first_above(
                        t@.skip(i as int),
                        form_version,
                    ),
                decreases t.len() - i,
            {
                assert(t@.skip(i as int).drop_first() =~= t@.skip(i + 1));
                i += 1;
            }
            Some(cap(i, n))
        },
        UnionDecider::EdidPrefix { edid_prefix, edid_default } => {
            let by_char = match record_edid {
                Some(c) => {
                    let mut key = String::new();
                    key.push(c);
                    assert(key@ =~= seq![c]);
                    lookup_usize(edid_prefix, &key)
                },
                None => None,
            };
            match by_char {
                Some(v) => Some(cap(v, n)),
                None => match edid_default {
                    Some(v) => Some(cap(*v, n)),
                    None => None,
                },
            }
        },
        UnionDecider::FromVersion { from_version } => if form_version >= *from_version {
            Some(0)
        } else {
            None
        },
        UnionDecider::BelowVersion { below_version } => if form_version < *below_version {
            Some(0)
        } else {
            None
        },
        _ => None,
    }
}

/// The form versions between which a member exists: from the first number on,
/// and before the second.
pub open spec fn version_bounds(member: MemberDef) -> (Option<u16>, Option<u16>) {
    match member {
        MemberDef::Struct { from_version, below_version, .. } => (from_version, below_version),
        MemberDef::Integer { from_version, below_version, .. } => (from_version, below_version),
        MemberDef::Float { from_version, below_version, .. } => (from_version, below_version),
        MemberDef::Unused { from_version, below_version, .. } => (from_version, below_version),
        MemberDef::Empty { from_version, below_version, .. } => (from_version, below_version),
        MemberDef::Bytes { from_version, below_version, .. } => (from_version, below_version),
        MemberDef::FormId { from_version, below_version, .. } => (from_version, below_version),
        _ => (None, None),
    }
}

/// Whether a member exists at a form version.
pub open spec fn version_ok(form_version: u16, member: MemberDef) -> bool {
    let (from, below) = version_bounds(member);
    (from matches Some(v) ==> form_version >= v) && (below matches Some(v) ==> form_version < v)
}

/// The form versions between which a member exists.
pub fn member_version_bounds(member: &MemberDef) -> (r: (Option<u16>, Option<u16>))
    ensures
        r == version_bounds(*member),
{
    match member {
        MemberDef::Struct { from_version, below_version, .. } => (*from_version, *below_version),
        MemberDef::Integer { from_version, below_version, .. } => (*from_version, *below_version),
        MemberDef::Float { from_version, below_version, .. } => (*from_version, *below_version),
        MemberDef::Unused { from_version, below_version, .. } => (*from_version, *below_version),
        MemberDef::Empty { from_version, below_version, .. } => (*from_version, *below_version),
        MemberDef::Bytes { from_version, below_version, .. } => (*from_version, *below_version),
        MemberDef::FormId { from_version, below_version, .. } => (*from_version, *below_version),
        _ => (None, None),
    }
}

/// Whether a member exists at a form version.
pub fn member_version_ok(form_version: u16, member: &MemberDef) -> (b: bool)
    ensures
        b == version_ok(form_version, *member),
{
    let (from, below) = member_version_bounds(member);
    let started = match from {
        Some(v) => form_version >= v,
        None => true,
    };
    let open = match below {
        Some(v) => form_version < v,
        None => true,
    };
    started && open
}

/// Whether a field exists in a struct of `len` bytes.
pub open spec fn size_ok(len: int, member: MemberDef) -> bool {
    let from = match member {
        MemberDef::Integer { from_size, .. } => from_size,
        MemberDef::Float { from_size, .. } => from_size,
        MemberDef::FormId { from_size, .. } => from_size,
        MemberDef::Bytes { from_size, .. } => from_size,
        MemberDef::ByteRgba { from_size, .. } => from_size,
        _ => None,
    };
    from matches Some(n) ==> len >= n
}

/// Whether a field exists in a struct of `data_len` bytes.
pub fn member_from_size_ok(data_len: usize, member: &MemberDef) -> (b: bool)
    ensures
        b == size_ok(data_len as int, *member),
{
    let from: Option<usize> = match member {
        MemberDef::Integer { from_size, .. } => *from_size,
        MemberDef::Float { from_size, .. } => *from_size,
        MemberDef::FormId { from_size, .. } => *from_size,
        MemberDef::Bytes { from_size, .. } => *from_size,
        MemberDef::ByteRgba { from_size, .. } => *from_size,
        _ => None,
    };
    match from {
        Some(n) => data_len >= n,
        None => true,
    }
}

} // verus!
