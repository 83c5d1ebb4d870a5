//! Script attachments (VMAD subrecords).
//!
//! A read at a position gives `Ok` with what was read and the position after
//! it, or `Err` with the position at which the bytes ran out.
use crate::curves::{float_json, json_f32};
use crate::decode::context::{
    resolve_formid, resolved, DecodeContext, Env, FormIdRefResolver,
};
use crate::format::{le2, le4, read_i32, read_u16, read_u32, signed};
use crate::formid::FormId;
use crate::json::{obj2, obj3, obj4, text, views, Json, Object, Value};
use crate::text::{encode, from_lossy, hex_of, lossy};
use vstd::prelude::*;
use vstd::slice::slice_subrange;

verus! {

/// What is left of `data` from `pos` on.
pub open spec fn rest(data: Seq<u8>, pos: int) -> nat {
    if 0 <= pos <= data.len() {
        (data.len() - pos) as nat
    } else {
        0
    }
}

/// The position `q` where it lies from `p` on within the data, else `p`.
pub open spec fn onward(p: int, q: int, len: int) -> int {
    if p <= q <= len {
        q
    } else {
        p
    }
}

/// A read that ended in a value, as mathematics.
pub open spec fn read_one(r: Result<(Value, usize), usize>) -> Result<(Json, int), int> {
    match r {
        Ok((v, p)) => Ok((v@, p as int)),
        Err(p) => Err(p as int),
    }
}

/// A read that ended in a list of values, as mathematics.
pub open spec fn read_many(r: Result<(Vec<Value>, usize), usize>) -> Result<
    (Seq<Json>, int),
    int,
> {
    match r {
        Ok((v, p)) => Ok((views(v@), p as int)),
        Err(p) => Err(p as int),
    }
}

/// The position at which a read of a value ended.
pub open spec fn end_one(r: Result<(Value, usize), usize>) -> usize {
    match r {
        Ok((_, p)) => p,
        Err(p) => p,
    }
}

/// The position at which a read of a list ended.
pub open spec fn end_many(r: Result<(Vec<Value>, usize), usize>) -> usize {
    match r {
        Ok((_, p)) => p,
        Err(p) => p,
    }
}

/// Text with its length in two bytes before it.
pub open spec fn wstring(data: Seq<u8>, pos: int) -> Result<(Seq<char>, int), int> {
    if pos + 2 > data.len() {
        Err(pos)
    } else {
        let n = le2(data, pos);
        if pos + 2 + n > data.len() {
            Err(pos + 2)
        } else {
            Ok((lossy(data.subrange(pos + 2, pos + 2 + n)), pos + 2 + n))
        }
    }
}

/// Reads text with its length in two bytes before it.
pub fn read_wstring(data: &[u8], pos: usize) -> (r: Result<(String, usize), usize>)
    requires
        pos <= data.len(),
    ensures
        match r {
            Ok((s, p)) => wstring(data@, pos as int) == Ok::<(Seq<char>, int), int>(
                (s@, p as int),
            ) && pos + 2 <= p <= data.len(),
            Err(p) => wstring(data@, pos as int) == Err::<(Seq<char>, int), int>(p as int) && pos
                <= p <= data.len(),
        },
{
    if data.len() - pos < 2 {
        return Err(pos);
    }
    let n: usize = read_u16(data, pos) as usize;
    let start: usize = pos + 2;
    if data.len() - start < n {
        return Err(start);
    }
    Ok((from_lossy(slice_subrange(data, start, start + n)), start + n))
}

/// The value of a property of a type that is not built from others, or of a
/// variable that holds one.
pub open spec fn scalar<R: FormIdRefResolver>(
    e: Env<R>,
    data: Seq<u8>,
    pos: int,
    ty: u8,
    fmt: u16,
) -> Result<(Json, int), int>
    decreases rest(data, pos), 2nat,
{
    if ty == 1 {
        if pos + 8 > data.len() {
            Err(pos)
        } else {
            let at = if fmt == 1 {
                pos
            } else {
                pos + 4
            };
            Ok((resolved(e, false, le4(data, at) as u32), pos + 8))
        }
    } else if ty == 2 {
        match wstring(data, pos) {
            Ok((s, p)) => Ok((Json::Str(s), p)),
            Err(p) => Err(p),
        }
    } else if ty == 3 {
        if pos + 4 > data.len() {
            Err(pos)
        } else {
            Ok((Json::Int(signed(le4(data, pos), 0x8000_0000)), pos + 4))
        }
    } else if ty == 4 {
        if pos + 4 > data.len() {
            Err(pos)
        } else {
            Ok((float_json(le4(data, pos) as u32), pos + 4))
        }
    } else if ty == 5 {
        if pos >= data.len() {
            Err(pos)
        } else {
            Ok((Json::Bool(data[pos] != 0), pos + 1))
        }
    } else if ty == 6 {
        if pos < 0 || pos >= data.len() {
            Err(pos)
        } else {
            scalar(e, data, pos + 1, data[pos], fmt)
        }
    } else if ty == 7 {
        structure(e, data, pos, fmt)
    } else {
        Ok(
            (
                Json::Obj(obj2("_raw"@, Json::Bool(true), "type"@, Json::Int(ty as int))),
                pos,
            ),
        )
    }
}

/// The members of a structure: a count and the members.
pub open spec fn structure<R: FormIdRefResolver>(
    e: Env<R>,
    data: Seq<u8>,
    pos: int,
    fmt: u16,
) -> Result<(Json, int), int>
    decreases rest(data, pos), 1nat,
{
    if pos < 0 || pos + 4 > data.len() {
        Err(pos)
    } else {
        match members(e, data, pos + 4, fmt, le4(data, pos), Seq::empty()) {
            Err(p) => Err(p),
            Ok((items, p)) => Ok((Json::Arr(items), p)),
        }
    }
}

/// A property as it is presented.
pub open spec fn property_json(name: Seq<char>, ty: u8, value: Json) -> Json {
    Json::Obj(obj3("name"@, Json::Str(name), "type"@, Json::Int(ty as int), "value"@, value))
}

/// `count` members of a structure after `acc`. They end early at a member of
/// an unknown type, whose value takes no bytes.
pub open spec fn members<R: FormIdRefResolver>(
    e: Env<R>,
    data: Seq<u8>,
    pos: int,
    fmt: u16,
    count: int,
    acc: Seq<Json>,
) -> Result<(Seq<Json>, int), int>
    decreases rest(data, pos), 0nat,
{
    if count <= 0 || pos < 0 {
        Ok((acc, pos))
    } else {
        match wstring(data, pos) {
            Err(p) => Err(p),
            Ok((name, p1)) => if p1 >= data.len() {
                Err(p1)
            } else if p1 + 1 >= data.len() {
                Err(p1 + 1)
            } else {
                let ty = data[p1];
                match property(e, data, p1 + 2, ty, fmt) {
                    Err(q) => Err(q),
                    Ok((v, q)) => {
                        let p3 = onward(p1 + 2, q, data.len() as int);
                        if ty != 0 && p3 == p1 + 2 {
                            Ok((acc, p3))
                        } else {
                            members(
                                e,
                                data,
                                p3,
                                fmt,
                                count - 1,
                                acc.push(property_json(name, ty, v)),
                            )
                        }
                    },
                }
            },
        }
    }
}

/// `count` elements of type `ty` after `acc`. They end early after an element
/// that takes no bytes.
pub open spec fn elements<R: FormIdRefResolver>(
    e: Env<R>,
    data: Seq<u8>,
    pos: int,
    ty: u8,
    fmt: u16,
    count: int,
    acc: Seq<Json>,
) -> Result<(Seq<Json>, int), int>
    decreases rest(data, pos), 3nat,
{
    if count <= 0 {
        Ok((acc, pos))
    } else {
        match scalar(e, data, pos, ty, fmt) {
            Err(q) => Err(q),
            Ok((v, q)) => if pos < q <= data.len() && pos >= 0 {
                elements(e, data, q, ty, fmt, count - 1, acc.push(v))
            } else {
                Ok((acc.push(v), q))
            },
        }
    }
}

/// `count` variables after `acc`, each with its type before it. They end early
/// after a variable whose value takes no bytes.
pub open spec fn variables<R: FormIdRefResolver>(
    e: Env<R>,
    data: Seq<u8>,
    pos: int,
    fmt: u16,
    count: int,
    acc: Seq<Json>,
) -> Result<(Seq<Json>, int), int>
    decreases rest(data, pos), 3nat,
{
    if count <= 0 {
        Ok((acc, pos))
    } else if pos < 0 || pos >= data.len() {
        Err(pos)
    } else {
        match property(e, data, pos + 1, data[pos], fmt) {
            Err(q) => Err(q),
            Ok((v, q)) => if pos + 1 < q <= data.len() {
                variables(e, data, q, fmt, count - 1, acc.push(v))
            } else {
                Ok((acc.push(v), q))
            },
        }
    }
}

/// The value of a property of type `ty` at `pos`, and the position after it.
pub open spec fn property<R: FormIdRefResolver>(
    e: Env<R>,
    data: Seq<u8>,
    pos: int,
    ty: u8,
    fmt: u16,
) -> Result<(Json, int), int>
    decreases rest(data, pos), 3nat,
{
    if ty == 0 {
        Ok((Json::Null, pos))
    } else if 11 <= ty <= 15 || ty == 17 {
        if pos < 0 || pos + 4 > data.len() {
            Err(pos)
        } else {
            match elements(
                e,
                data,
                pos + 4,
                (ty - 10) as u8,
                fmt,
                le4(data, pos),
                Seq::empty(),
            ) {
                Err(p) => Err(p),
                Ok((items, p)) => Ok((Json::Arr(items), p)),
            }
        }
    } else if ty == 16 {
        if pos < 0 || pos + 4 > data.len() {
            Err(pos)
        } else {
            match variables(e, data, pos + 4, fmt, le4(data, pos), Seq::empty()) {
                Err(p) => Err(p),
                Ok((items, p)) => Ok(
                    (
                        Json::Obj(
                            obj2(
                                "_variable_array"@,
                                Json::Bool(true),
                                "items"@,
                                Json::Arr(items),
                            ),
                        ),
                        p,
                    ),
                ),
            }
        }
    } else {
        scalar(e, data, pos, ty, fmt)
    }
}

/// Reads the value of a property of a simple type.
fn read_scalar<R: FormIdRefResolver>(
    ctx: &DecodeContext<'_, R>,
    data: &[u8],
    pos: usize,
    ty: u8,
    fmt: u16,
) -> (r: Result<(Value, usize), usize>)
    requires
        pos <= data.len(),
    ensures
        read_one(r) == scalar(ctx.env(), data@, pos as int, ty, fmt),
        pos <= end_one(r) <= data.len(),
    decreases rest(data@, pos as int), 2nat,
{
    let left: usize = data.len() - pos;
    if ty == 1 {
        if left < 8 {
            return Err(pos);
        }
        let at: usize = if fmt == 1 {
            pos
        } else {
            pos + 4
        };
        let none: Vec<String> = Vec::new();
        let v = resolve_formid(ctx, &none, FormId::new(read_u32(data, at)));
        Ok((v, pos + 8))
    } else if ty == 2 {
        match read_wstring(data, pos) {
            Ok((s, p)) => Ok((Value::String(s), p)),
            Err(p) => Err(p),
        }
    } else if ty == 3 {
        if left < 4 {
            return Err(pos);
        }
        Ok((Value::Int(read_i32(data, pos) as i128), pos + 4))
    } else if ty == 4 {
        if left < 4 {
            return Err(pos);
        }
        Ok((json_f32(read_u32(data, pos)), pos + 4))
    } else if ty == 5 {
        if left == 0 {
            return Err(pos);
        }
        Ok((Value::Bool(data[pos] != 0), pos + 1))
    } else if ty == 6 {
        if left == 0 {
            return Err(pos);
        }
        read_scalar(ctx, data, pos + 1, data[pos], fmt)
    } else if ty == 7 {
        read_structure(ctx, data, pos, fmt)
    } else {
        Ok(
            (
                Value::Object(
                    Object::new().with("_raw", Value::Bool(true)).with(
                        "type",
                        Value::Int(ty as i128),
                    ),
                ),
                pos,
            ),
        )
    }
}

/// Reads a structure.
#[verifier::loop_isolation(false)]
fn read_structure<R: FormIdRefResolver>(
    ctx: &DecodeContext<'_, R>,
    data: &[u8],
    start: usize,
    fmt: u16,
) -> (r: Result<(Value, usize), usize>)
    requires
        start <= data.len(),
    ensures
        read_one(r) == structure(ctx.env(), data@, start as int, fmt),
        start <= end_one(r) <= data.len(),
    decreases rest(data@, start as int), 1nat,
{
    if data.len() - start < 4 {
        return Err(start);
    }
    let count: u32 = read_u32(data, start);
    let mut pos: usize = start + 4;
    let mut items: Vec<Value> = Vec::new();
    assert(views(items@) =~= Seq::<Json>::empty());
    let mut i: u32 = 0;
    while i < count
        invariant
            i <= count,
            start + 4 <= pos <= data.len(),
            members(ctx.env(), data@, start + 4, fmt, count as int, Seq::empty()) == members(
                ctx.env(),
                data@,
                pos as int,
                fmt,
                count - i,
                views(items@),
            ),
        decreases count - i,
    {
        let (name, p1) = match read_wstring(data, pos) {
            Ok(x) => x,
            Err(p) => {
                return Err(p);
            },
        };
        if p1 >= data.len() {
            return Err(p1);
        }
        let ty: u8 = data[p1];
        if p1 + 1 >= data.len() {
            return Err(p1 + 1);
        }
        let (v, p3) = match decode_vmad_property(ctx, data, p1 + 2, ty, fmt) {
            Ok(x) => x,
            Err(p) => {
                return Err(p);
            },
        };
        if ty != 0 && p3 == p1 + 2 {
            return Ok((Value::Array(items), p3));
        }
        let ghost before = views(items@);
        let item = property_value(&name, ty, v);
        let ghost added = item@;
        items.push(item);
        assert(views(items@) =~= before.push(added));
        pos = p3;
        i += 1;
    }
    Ok((Value::Array(items), pos))
}

/// A property as it is presented.
fn property_value(name: &str, ty: u8, value: Value) -> (v: Value)
    ensures
        v@ == property_json(name@, ty, value@),
{
    Value::Object(
        Object::new().with("name", text(name)).with("type", Value::Int(ty as i128)).with(
            "value",
            value,
        ),
    )
}

/// Reads the elements of an array.
#[verifier::loop_isolation(false)]
fn read_elements<R: FormIdRefResolver>(
    ctx: &DecodeContext<'_, R>,
    data: &[u8],
    start: usize,
    ty: u8,
    fmt: u16,
    count: u32,
) -> (r: Result<(Vec<Value>, usize), usize>)
    requires
        start <= data.len(),
    ensures
        read_many(r) == elements(
            ctx.env(),
            data@,
            start as int,
            ty,
            fmt,
            count as int,
            Seq::empty(),
        ),
        start <= end_many(r) <= data.len(),
    decreases rest(data@, start as int), 3nat,
{
    let mut pos: usize = start;
    let mut items: Vec<Value> = Vec::new();
    assert(views(items@) =~= Seq::<Json>::empty());
    let mut i: u32 = 0;
    while i < count
        invariant
            i <= count,
            start <= pos <= data.len(),
            elements(ctx.env(), data@, start as int, ty, fmt, count as int, Seq::empty())
                == elements(ctx.env(), data@, pos as int, ty, fmt, count - i, views(items@)),
        decreases count - i,
    {
        let (v, q) = match read_scalar(ctx, data, pos, ty, fmt) {
            Ok(x) => x,
            Err(p) => {
                return Err(p);
            },
        };
        let ghost before = views(items@);
        let ghost added = v@;
        items.push(v);
        assert(views(items@) =~= before.push(added));
        if q == pos {
            return Ok((items, q));
        }
        pos = q;
        i += 1;
    }
    Ok((items, pos))
}

/// Reads the variables of an array.
#[verifier::loop_isolation(false)]
fn read_variables<R: FormIdRefResolver>(
    ctx: &DecodeContext<'_, R>,
    data: &[u8],
    start: usize,
    fmt: u16,
    count: u32,
) -> (r: Result<(Vec<Value>, usize), usize>)
    requires
        start <= data.len(),
    ensures
        read_many(r) == variables(
            ctx.env(),
            data@,
            start as int,
            fmt,
            count as int,
            Seq::empty(),
        ),
        start <= end_many(r) <= data.len(),
    decreases rest(data@, start as int), 3nat,
{
    let mut pos: usize = start;
    let mut items: Vec<Value> = Vec::new();
    assert(views(items@) =~= Seq::<Json>::empty());
    let mut i: u32 = 0;
    while i < count
        invariant
            i <= count,
            start <= pos <= data.len(),
            variables(ctx.env(), data@, start as int, fmt, count as int, Seq::empty())
                == variables(ctx.env(), data@, pos as int, fmt, count - i, views(items@)),
        decreases count - i,
    {
        if pos >= data.len() {
            return Err(pos);
        }
        let (v, q) = match decode_vmad_property(ctx, data, pos + 1, data[pos], fmt) {
            Ok(x) => x,
            Err(p) => {
                return Err(p);
            },
        };
        let ghost before = views(items@);
        let ghost added = v@;
        items.push(v);
        assert(views(items@) =~= before.push(added));
        if q == pos + 1 {
            return Ok((items, q));
        }
        pos = q;
        i += 1;
    }
    Ok((items, pos))
}

/// Reads the value of a property of type `ty` at `pos`, and the position
/// after it.
pub fn decode_vmad_property<R: FormIdRefResolver>(
    ctx: &DecodeContext<'_, R>,
    data: &[u8],
    pos: usize,
    ty: u8,
    fmt: u16,
) -> (r: Result<(Value, usize), usize>)
    requires
        pos <= data.len(),
    ensures
        read_one(r) == property(ctx.env(), data@, pos as int, ty, fmt),
        pos <= end_one(r) <= data.len(),
    decreases rest(data@, pos as int), 3nat,
{
    if ty == 0 {
        Ok((Value::Null, pos))
    } else if (11 <= ty && ty <= 15) || ty == 17 {
        if data.len() - pos < 4 {
            return Err(pos);
        }
        match read_elements(ctx, data, pos + 4, ty - 10, fmt, read_u32(data, pos)) {
            Err(p) => Err(p),
            Ok((items, p)) => Ok((Value::Array(items), p)),
        }
    } else if ty == 16 {
        if data.len() - pos < 4 {
            return Err(pos);
        }
        match read_variables(ctx, data, pos + 4, fmt, read_u32(data, pos)) {
            Err(p) => Err(p),
            Ok((items, p)) => Ok(
                (
                    Value::Object(
                        Object::new().with("_variable_array", Value::Bool(true)).with(
                            "items",
                            Value::Array(items),
                        ),
                    ),
                    p,
                ),
            ),
        }
    } else {
        read_scalar(ctx, data, pos, ty, fmt)
    }
}

// ── Scripts ────────────────────────────────────────────────────────────────
/// `count` properties after `acc`.
pub open spec fn properties<R: FormIdRefResolver>(
    e: Env<R>,
    data: Seq<u8>,
    pos: int,
    fmt: u16,
    count: int,
    acc: Seq<Json>,
) -> Result<(Seq<Json>, int), int>
    decreases count,
{
    if count <= 0 {
        Ok((acc, pos))
    } else {
        match wstring(data, pos) {
            Err(p) => Err(p),
            Ok((name, p)) => if p + 2 > data.len() {
                Err(p)
            } else {
                match property(e, data, p + 2, data[p], fmt) {
                    Err(q) => Err(q),
                    Ok((v, q)) => properties(
                        e,
                        data,
                        q,
                        fmt,
                        count - 1,
                        acc.push(property_json(name, data[p], v)),
                    ),
                }
            },
        }
    }
}

/// A script as it is presented.
pub open spec fn script_json(name: Seq<char>, status: u8, props: Seq<Json>) -> Json {
    Json::Obj(
        obj3(
            "name"@,
            Json::Str(name),
            "status"@,
            Json::Int(status as int),
            "properties"@,
            Json::Arr(props),
        ),
    )
}

/// A script: its name, its status and its properties.
pub open spec fn script<R: FormIdRefResolver>(
    e: Env<R>,
    data: Seq<u8>,
    pos: int,
    fmt: u16,
) -> Result<(Json, int), int> {
    match wstring(data, pos) {
        Err(p) => Err(p),
        Ok((name, p)) => if p + 1 > data.len() {
            Err(p)
        } else if p + 3 > data.len() {
            Err(p + 1)
        } else {
            match properties(e, data, p + 3, fmt, le2(data, p + 1), Seq::empty()) {
                Err(q) => Err(q),
                Ok((props, q)) => Ok((script_json(name, data[p], props), q)),
            }
        },
    }
}

/// `count` scripts after `acc`.
pub open spec fn scripts<R: FormIdRefResolver>(
    e: Env<R>,
    data: Seq<u8>,
    pos: int,
    fmt: u16,
    count: int,
    acc: Seq<Json>,
) -> Result<(Seq<Json>, int), int>
    decreases count,
{
    if count <= 0 {
        Ok((acc, pos))
    } else {
        match script(e, data, pos, fmt) {
            Err(p) => Err(p),
            Ok((s, p)) => scripts(e, data, p, fmt, count - 1, acc.push(s)),
        }
    }
}

/// Reads `count` properties.
#[verifier::loop_isolation(false)]
fn read_properties<R: FormIdRefResolver>(
    ctx: &DecodeContext<'_, R>,
    data: &[u8],
    start: usize,
    fmt: u16,
    count: u16,
) -> (r: Result<(Vec<Value>, usize), usize>)
    requires
        start <= data.len(),
    ensures
        read_many(r) == properties(
            ctx.env(),
            data@,
            start as int,
            fmt,
            count as int,
            Seq::empty(),
        ),
        start <= end_many(r) <= data.len(),
{
    let mut pos: usize = start;
    let mut items: Vec<Value> = Vec::new();
    assert(views(items@) =~= Seq::<Json>::empty());
    let mut i: u16 = 0;
    while i < count
        invariant
            i <= count,
            start <= pos <= data.len(),
            properties(ctx.env(), data@, start as int, fmt, count as int, Seq::empty())
                == properties(ctx.env(), data@, pos as int, fmt, count - i, views(items@)),
        decreases count - i,
    {
        let (name, p) = match read_wstring(data, pos) {
            Ok(x) => x,
            Err(p) => {
                return Err(p);
            },
        };
        if data.len() - p < 2 {
            return Err(p);
        }
        let ty: u8 = data[p];
        let (v, q) = match decode_vmad_property(ctx, data, p + 2, ty, fmt) {
            Ok(x) => x,
            Err(q) => {
                return Err(q);
            },
        };
        let ghost before = views(items@);
        let item = property_value(&name, ty, v);
        let ghost added = item@;
        items.push(item);
        assert(views(items@) =~= before.push(added));
        pos = q;
        i += 1;
    }
    Ok((items, pos))
}

/// Reads a script.
pub fn vmad_read_script_entry<R: FormIdRefResolver>(
    ctx: &DecodeContext<'_, R>,
    data: &[u8],
    pos: usize,
    fmt: u16,
) -> (r: Result<(Value, usize), usize>)
    requires
        pos <= data.len(),
    ensures
        read_one(r) == script(ctx.env(), data@, pos as int, fmt),
        pos <= end_one(r) <= data.len(),
{
    let (name, p) = match read_wstring(data, pos) {
        Ok(x) => x,
        Err(p) => {
            return Err(p);
        },
    };
    if data.len() - p < 1 {
        return Err(p);
    }
    if data.len() - p < 3 {
        return Err(p + 1);
    }
    match read_properties(ctx, data, p + 3, fmt, read_u16(data, p + 1)) {
        Err(q) => Err(q),
        Ok((props, q)) => Ok(
            (
                Value::Object(
                    Object::new().with("name", Value::String(name)).with(
                        "status",
                        Value::Int(data[p] as i128),
                    ).with("properties", Value::Array(props)),
                ),
                q,
            ),
        ),
    }
}

/// Reads `count` scripts.
#[verifier::loop_isolation(false)]
fn read_scripts<R: FormIdRefResolver>(
    ctx: &DecodeContext<'_, R>,
    data: &[u8],
    start: usize,
    fmt: u16,
    count: u16,
) -> (r: Result<(Vec<Value>, usize), usize>)
    requires
        start <= data.len(),
    ensures
        read_many(r) == scripts(
            ctx.env(),
            data@,
            start as int,
            fmt,
            count as int,
            Seq::empty(),
        ),
        start <= end_many(r) <= data.len(),
{
    let mut pos: usize = start;
    let mut items: Vec<Value> = Vec::new();
    assert(views(items@) =~= Seq::<Json>::empty());
    let mut i: u16 = 0;
    while i < count
        invariant
            i <= count,
            start <= pos <= data.len(),
            scripts(ctx.env(), data@, start as int, fmt, count as int, Seq::empty())
                == scripts(ctx.env(), data@, pos as int, fmt, count - i, views(items@)),
        decreases count - i,
    {
        match vmad_read_script_entry(ctx, data, pos, fmt) {
            Err(p) => {
                return Err(p);
            },
            Ok((item, p)) => {
                let ghost before = views(items@);
                let ghost added = item@;
                items.push(item);
                assert(views(items@) =~= before.push(added));
                pos = p;
            },
        }
        i += 1;
    }
    Ok((items, pos))
}

/// What every attachment starts with.
pub struct Header {
    pub version: u16,
    pub obj_format: u16,
    pub scripts: Vec<Value>,
}

/// The start of an attachment as mathematics.
pub struct Head {
    pub version: int,
    pub fmt: u16,
    pub scripts: Seq<Json>,
}

/// The start of every attachment: version, object format and scripts.
pub open spec fn head<R: FormIdRefResolver>(e: Env<R>, data: Seq<u8>) -> Result<
    (Head, int),
    int,
> {
    if data.len() < 2 {
        Err(0)
    } else if data.len() < 4 {
        Err(2)
    } else if data.len() < 6 {
        Err(4)
    } else {
        let fmt = le2(data, 2) as u16;
        match scripts(e, data, 6, fmt, le2(data, 4), Seq::empty()) {
            Err(p) => Err(p),
            Ok((list, p)) => Ok((Head { version: le2(data, 0), fmt, scripts: list }, p)),
        }
    }
}

/// Reads the start of an attachment.
pub fn vmad_parse_header<R: FormIdRefResolver>(ctx: &DecodeContext<'_, R>, data: &[u8]) -> (r:
    Result<(Header, usize), usize>)
    ensures
        match r {
            Ok((h, p)) => p <= data.len() && head(ctx.env(), data@) == Ok::<(Head, int), int>(
                (
                    Head {
                        version: h.version as int,
                        fmt: h.obj_format,
                        scripts: views(h.scripts@),
                    },
                    p as int,
                ),
            ),
            Err(p) => p <= data.len() && head(ctx.env(), data@) == Err::<(Head, int), int>(
                p as int,
            ),
        },
{
    if data.len() < 2 {
        return Err(0);
    }
    if data.len() < 4 {
        return Err(2);
    }
    if data.len() < 6 {
        return Err(4);
    }
    let version: u16 = read_u16(data, 0);
    let obj_format: u16 = read_u16(data, 2);
    match read_scripts(ctx, data, 6, obj_format, read_u16(data, 4)) {
        Err(p) => Err(p),
        Ok((scripts, p)) => Ok((Header { version, obj_format, scripts }, p)),
    }
}

/// What stands for an attachment whose bytes ran out at `pos`.
pub open spec fn truncated(data: Seq<u8>, pos: int) -> Json {
    Json::Obj(
        obj3(
            "_raw"@,
            Json::Bool(true),
            "reason"@,
            Json::Str("VMAD truncated"@),
            "hex"@,
            Json::Str(hex_of(data.skip(pos))),
        ),
    )
}

/// What stands for an attachment whose bytes ran out at `pos`.
fn truncated_value(data: &[u8], pos: usize) -> (v: Value)
    requires
        pos <= data.len(),
    ensures
        v@ == truncated(data@, pos as int),
{
    let tail = slice_subrange(data, pos, data.len());
    assert(tail@ =~= data@.skip(pos as int));
    Value::Object(
        Object::new().with("_raw", Value::Bool(true)).with("reason", text("VMAD truncated")).with(
            "hex",
            Value::String(encode(tail)),
        ),
    )
}

/// An attachment without fragments.
pub open spec fn plain_json(h: Head) -> Json {
    Json::Obj(obj2("version"@, Json::Int(h.version), "scripts"@, Json::Arr(h.scripts)))
}

/// An attachment with fragments.
pub open spec fn fragment_json(h: Head, fragments: Json) -> Json {
    Json::Obj(
        obj3(
            "version"@,
            Json::Int(h.version),
            "scripts"@,
            Json::Arr(h.scripts),
            "script_fragments"@,
            fragments,
        ),
    )
}

/// An attachment without fragments.
fn plain_value(h: Header) -> (v: Value)
    ensures
        v@ == plain_json(
            Head { version: h.version as int, fmt: h.obj_format, scripts: views(h.scripts@) },
        ),
{
    Value::Object(
        Object::new().with("version", Value::Int(h.version as i128)).with(
            "scripts",
            Value::Array(h.scripts),
        ),
    )
}

/// An attachment with fragments.
fn fragment_value(h: Header, fragments: Value) -> (v: Value)
    ensures
        v@ == fragment_json(
            Head { version: h.version as int, fmt: h.obj_format, scripts: views(h.scripts@) },
            fragments@,
        ),
{
    Value::Object(
        Object::new().with("version", Value::Int(h.version as i128)).with(
            "scripts",
            Value::Array(h.scripts),
        ).with("script_fragments", fragments),
    )
}

/// A script attachment without fragments. Where the bytes run out, the bytes
/// from there on stand for all of it.
pub open spec fn vmad<R: FormIdRefResolver>(e: Env<R>, data: Seq<u8>) -> Json {
    match head(e, data) {
        Err(p) => truncated(data, p),
        Ok((h, p)) => plain_json(h),
    }
}

/// Decodes a script attachment without fragments.
pub fn decode_vmad<R: FormIdRefResolver>(ctx: &DecodeContext<'_, R>, data: &[u8]) -> (v: Value)
    ensures
        v@ == vmad(ctx.env(), data@),
{
    match vmad_parse_header(ctx, data) {
        Err(p) => truncated_value(data, p),
        Ok((h, p)) => plain_value(h),
    }
}

// ── Quests ─────────────────────────────────────────────────────────────────
/// `count` quest stage fragments after `acc`.
pub open spec fn stage_fragments(
    data: Seq<u8>,
    pos: int,
    count: int,
    acc: Seq<Json>,
) -> Result<(Seq<Json>, int), int>
    decreases count,
{
    if count <= 0 {
        Ok((acc, pos))
    } else if pos + 4 > data.len() {
        Err(pos)
    } else if pos + 8 > data.len() {
        Err(pos + 4)
    } else if pos + 9 > data.len() {
        Err(pos + 8)
    } else {
        match wstring(data, pos + 9) {
            Err(p) => Err(p),
            Ok((script_name, p)) => match wstring(data, p) {
                Err(q) => Err(q),
                Ok((fragment_name, q)) => stage_fragments(
                    data,
                    q,
                    count - 1,
                    acc.push(
                        Json::Obj(
                            obj4(
                                "quest_stage"@,
                                Json::Int(le4(data, pos)),
                                "quest_stage_index"@,
                                Json::Int(le4(data, pos + 4)),
                                "script_name"@,
                                Json::Str(script_name),
                                "fragment_name"@,
                                Json::Str(fragment_name),
                            ),
                        ),
                    ),
                ),
            },
        }
    }
}

/// The script of the fragments: nothing without a name, else its flags and
/// properties.
pub open spec fn fragment_script<R: FormIdRefResolver>(
    e: Env<R>,
    data: Seq<u8>,
    pos: int,
    fmt: u16,
    name: Seq<char>,
) -> Result<(Json, int), int> {
    if name.len() == 0 {
        Ok((Json::Null, pos))
    } else if pos + 3 > data.len() {
        Err(pos)
    } else {
        match properties(e, data, pos + 3, fmt, le2(data, pos + 1), Seq::empty()) {
            Err(p) => Err(p),
            Ok((props, p)) => Ok(
                (
                    Json::Obj(
                        obj2(
                            "flags"@,
                            Json::Int(data[pos] as int),
                            "properties"@,
                            Json::Arr(props),
                        ),
                    ),
                    p,
                ),
            ),
        }
    }
}

/// The fragments of a quest.
pub open spec fn quest_fragments<R: FormIdRefResolver>(
    e: Env<R>,
    data: Seq<u8>,
    pos: int,
    fmt: u16,
) -> Result<(Json, int), int> {
    if pos + 1 > data.len() {
        Err(pos)
    } else if pos + 3 > data.len() {
        Err(pos + 1)
    } else {
        match wstring(data, pos + 3) {
            Err(p) => Err(p),
            Ok((name, p)) => match fragment_script(e, data, p, fmt, name) {
                Err(q) => Err(q),
                Ok((script_data, q)) => match stage_fragments(
                    data,
                    q,
                    le2(data, pos + 1),
                    Seq::empty(),
                ) {
                    Err(t) => Err(t),
                    Ok((list, t)) => Ok(
                        (
                            Json::Obj(
                                obj4(
                                    "extra_bind_data_version"@,
                                    Json::Int(signed(data[pos] as int, 128)),
                                    "script_name"@,
                                    Json::Str(name),
                                    "script_data"@,
                                    script_data,
                                    "fragments"@,
                                    Json::Arr(list),
                                ),
                            ),
                            t,
                        ),
                    ),
                },
            },
        }
    }
}

/// A quest alias: its number and its form, then its scripts, which have an
/// object format of their own. Object format 1 has no number.
pub open spec fn alias<R: FormIdRefResolver>(
    e: Env<R>,
    data: Seq<u8>,
    pos: int,
    fmt: u16,
) -> Result<(Json, int), int> {
    let size = if fmt >= 2 {
        8int
    } else {
        4int
    };
    if pos + size > data.len() {
        Err(pos)
    } else if pos + size + 4 > data.len() {
        Err(pos + size)
    } else if pos + size + 6 > data.len() {
        Err(pos + size + 4)
    } else {
        let number = if fmt >= 2 {
            le2(data, pos)
        } else {
            0
        };
        let form = if fmt >= 2 {
            le4(data, pos + 4)
        } else {
            le4(data, pos)
        };
        match scripts(
            e,
            data,
            pos + size + 6,
            le2(data, pos + size + 2) as u16,
            le2(data, pos + size + 4),
            Seq::empty(),
        ) {
            Err(p) => Err(p),
            Ok((list, p)) => Ok(
                (
                    Json::Obj(
                        obj3(
                            "alias_id"@,
                            Json::Int(number),
                            "form_id"@,
                            resolved(e, false, form as u32),
                            "alias_scripts"@,
                            Json::Arr(list),
                        ),
                    ),
                    p,
                ),
            ),
        }
    }
}

/// `count` quest aliases after `acc`.
pub open spec fn aliases<R: FormIdRefResolver>(
    e: Env<R>,
    data: Seq<u8>,
    pos: int,
    fmt: u16,
    count: int,
    acc: Seq<Json>,
) -> Result<(Seq<Json>, int), int>
    decreases count,
{
    if count <= 0 {
        Ok((acc, pos))
    } else {
        match alias(e, data, pos, fmt) {
            Err(p) => Err(p),
            Ok((a, p)) => aliases(e, data, p, fmt, count - 1, acc.push(a)),
        }
    }
}

/// The script attachment of a quest: scripts, and unless the bytes end there,
/// stage fragments and aliases.
pub open spec fn vmad_qust<R: FormIdRefResolver>(e: Env<R>, data: Seq<u8>) -> Json {
    match head(e, data) {
        Err(p) => truncated(data, p),
        Ok((h, p)) => if p >= data.len() {
            plain_json(h)
        } else {
            match quest_fragments(e, data, p, h.fmt) {
                Err(q) => truncated(data, q),
                Ok((fragments, q)) => if q + 2 > data.len() {
                    truncated(data, q)
                } else {
                    match aliases(e, data, q + 2, h.fmt, le2(data, q), Seq::empty()) {
                        Err(t) => truncated(data, t),
                        Ok((list, t)) => Json::Obj(
                            obj4(
                                "version"@,
                                Json::Int(h.version),
                                "scripts"@,
                                Json::Arr(h.scripts),
                                "script_fragments"@,
                                fragments,
                                "aliases"@,
                                Json::Arr(list),
                            ),
                        ),
                    }
                },
            }
        },
    }
}

/// Reads `count` quest stage fragments.
#[verifier::loop_isolation(false)]
fn read_stage_fragments(data: &[u8], start: usize, count: u16) -> (r: Result<
    (Vec<Value>, usize),
    usize,
>)
    requires
        start <= data.len(),
    ensures
        read_many(r) == stage_fragments(data@, start as int, count as int, Seq::empty()),
        start <= end_many(r) <= data.len(),
{
    let mut pos: usize = start;
    let mut items: Vec<Value> = Vec::new();
    assert(views(items@) =~= Seq::<Json>::empty());
    let mut i: u16 = 0;
    while i < count
        invariant
            i <= count,
            start <= pos <= data.len(),
            stage_fragments(data@, start as int, count as int, Seq::empty()) == stage_fragments(
                data@,
                pos as int,
                count - i,
                views(items@),
            ),
        decreases count - i,
    {
        let left: usize = data.len() - pos;
        if left < 4 {
            return Err(pos);
        }
        if left < 8 {
            return Err(pos + 4);
        }
        if left < 9 {
            return Err(pos + 8);
        }
        let (script_name, p) = match read_wstring(data, pos + 9) {
            Ok(x) => x,
            Err(p) => {
                return Err(p);
            },
        };
        let (fragment_name, q) = match read_wstring(data, p) {
            Ok(x) => x,
            Err(q) => {
                return Err(q);
            },
        };
        let item = Value::Object(
            Object::new().with("quest_stage", Value::Int(read_u32(data, pos) as i128)).with(
                "quest_stage_index",
                Value::Int(read_u32(data, pos + 4) as i128),
            ).with("script_name", Value::String(script_name)).with(
                "fragment_name",
                Value::String(fragment_name),
            ),
        );
        let ghost before = views(items@);
        let ghost added = item@;
        items.push(item);
        assert(views(items@) =~= before.push(added));
        pos = q;
        i += 1;
    }
    Ok((items, pos))
}

/// Reads the script of the fragments.
fn read_fragment_script<R: FormIdRefResolver>(
    ctx: &DecodeContext<'_, R>,
    data: &[u8],
    pos: usize,
    fmt: u16,
    name: &str,
) -> (r: Result<(Value, usize), usize>)
    requires
        pos <= data.len(),
    ensures
        read_one(r) == fragment_script(ctx.env(), data@, pos as int, fmt, name@),
        pos <= end_one(r) <= data.len(),
{
    if name.is_empty() {
        return Ok((Value::Null, pos));
    }
    if data.len() - pos < 3 {
        return Err(pos);
    }
    match read_properties(ctx, data, pos + 3, fmt, read_u16(data, pos + 1)) {
        Err(p) => Err(p),
        Ok((props, p)) => Ok(
            (
                Value::Object(
                    Object::new().with("flags", Value::Int(data[pos] as i128)).with(
                        "properties",
                        Value::Array(props),
                    ),
                ),
                p,
            ),
        ),
    }
}

/// A signed byte.
fn signed_byte(b: u8) -> (r: i128)
    ensures
        r as int == signed(b as int, 128),
{
    if b >= 128 {
        b as i128 - 256
    } else {
        b as i128
    }
}

/// Reads the fragments of a quest.
fn read_quest_fragments<R: FormIdRefResolver>(
    ctx: &DecodeContext<'_, R>,
    data: &[u8],
    pos: usize,
    fmt: u16,
) -> (r: Result<(Value, usize), usize>)
    requires
        pos <= data.len(),
    ensures
        read_one(r) == quest_fragments(ctx.env(), data@, pos as int, fmt),
        pos <= end_one(r) <= data.len(),
{
    if data.len() - pos < 1 {
        return Err(pos);
    }
    if data.len() - pos < 3 {
        return Err(pos + 1);
    }
    let count: u16 = read_u16(data, pos + 1);
    let (name, p) = match read_wstring(data, pos + 3) {
        Ok(x) => x,
        Err(p) => {
            return Err(p);
        },
    };
    let (script_data, q) = match read_fragment_script(ctx, data, p, fmt, &name) {
        Ok(x) => x,
        Err(q) => {
            return Err(q);
        },
    };
    match read_stage_fragments(data, q, count) {
        Err(t) => Err(t),
        Ok((list, t)) => Ok(
            (
                Value::Object(
                    Object::new().with(
                        "extra_bind_data_version",
                        Value::Int(signed_byte(data[pos])),
                    ).with("script_name", Value::String(name)).with(
                        "script_data",
                        script_data,
                    ).with("fragments", Value::Array(list)),
                ),
                t,
            ),
        ),
    }
}

/// Reads a quest alias.
fn read_alias<R: FormIdRefResolver>(
    ctx: &DecodeContext<'_, R>,
    data: &[u8],
    pos: usize,
    fmt: u16,
) -> (r: Result<(Value, usize), usize>)
    requires
        pos <= data.len(),
    ensures
        read_one(r) == alias(ctx.env(), data@, pos as int, fmt),
        pos <= end_one(r) <= data.len(),
{
    let size: usize = if fmt >= 2 {
        8
    } else {
        4
    };
    let left: usize = data.len() - pos;
    if left < size {
        return Err(pos);
    }
    if left < size + 4 {
        return Err(pos + size);
    }
    if left < size + 6 {
        return Err(pos + size + 4);
    }
    let number: u16 = if fmt >= 2 {
        read_u16(data, pos)
    } else {
        0
    };
    let form: u32 = if fmt >= 2 {
        read_u32(data, pos + 4)
    } else {
        read_u32(data, pos)
    };
    let alias_format: u16 = read_u16(data, pos + size + 2);
    let count: u16 = read_u16(data, pos + size + 4);
    match read_scripts(ctx, data, pos + size + 6, alias_format, count) {
        Err(p) => Err(p),
        Ok((list, p)) => {
            let none: Vec<String> = Vec::new();
            Ok(
                (
                    Value::Object(
                        Object::new().with("alias_id", Value::Int(number as i128)).with(
                            "form_id",
                            resolve_formid(ctx, &none, FormId::new(form)),
                        ).with("alias_scripts", Value::Array(list)),
                    ),
                    p,
                ),
            )
        },
    }
}

/// Reads `count` quest aliases.
#[verifier::loop_isolation(false)]
fn read_aliases<R: FormIdRefResolver>(
    ctx: &DecodeContext<'_, R>,
    data: &[u8],
    start: usize,
    fmt: u16,
    count: u16,
) -> (r: Result<(Vec<Value>, usize), usize>)
    requires
        start <= data.len(),
    ensures
        read_many(r) == aliases(
            ctx.env(),
            data@,
            start as int,
            fmt,
            count as int,
            Seq::empty(),
        ),
        start <= end_many(r) <= data.len(),
{
    let mut pos: usize = start;
    let mut items: Vec<Value> = Vec::new();
    assert(views(items@) =~= Seq::<Json>::empty());
    let mut i: u16 = 0;
    while i < count
        invariant
            i <= count,
            start <= pos <= data.len(),
            aliases(ctx.env(), data@, start as int, fmt, count as int, Seq::empty())
                == aliases(ctx.env(), data@, pos as int, fmt, count - i, views(items@)),
        decreases count - i,
    {
        match read_alias(ctx, data, pos, fmt) {
            Err(p) => {
                return Err(p);
            },
            Ok((item, p)) => {
                let ghost before = views(items@);
                let ghost added = item@;
                items.push(item);
                assert(views(items@) =~= before.push(added));
                pos = p;
            },
        }
        i += 1;
    }
    Ok((items, pos))
}

/// Decodes the script attachment of a quest.
pub fn decode_vmad_qust<R: FormIdRefResolver>(ctx: &DecodeContext<'_, R>, data: &[u8]) -> (v:
    Value)
    ensures
        v@ == vmad_qust(ctx.env(), data@),
{
    let (h, p) = match vmad_parse_header(ctx, data) {
        Ok(x) => x,
        Err(p) => {
            return truncated_value(data, p);
        },
    };
    if p >= data.len() {
        return plain_value(h);
    }
    let (fragments, q) = match read_quest_fragments(ctx, data, p, h.obj_format) {
        Ok(x) => x,
        Err(q) => {
            return truncated_value(data, q);
        },
    };
    if data.len() - q < 2 {
        return truncated_value(data, q);
    }
    match read_aliases(ctx, data, q + 2, h.obj_format, read_u16(data, q)) {
        Err(t) => truncated_value(data, t),
        Ok((list, t)) => Value::Object(
            Object::new().with("version", Value::Int(h.version as i128)).with(
                "scripts",
                Value::Array(h.scripts),
            ).with("script_fragments", fragments).with("aliases", Value::Array(list)),
        ),
    }
}

// ── Fragments by flags ─────────────────────────────────────────────────────
/// How many of the lowest `n` bits of `b` are set.
pub open spec fn low_ones(b: int, n: nat) -> int
    decreases n,
{
    if n == 0 {
        0
    } else {
        b % 2 + low_ones(b / 2, (n - 1) as nat)
    }
}

/// How many of the lowest `n` bits of `b` are set.
fn count_low_ones(b: u8, n: u8) -> (r: u16)
    ensures
        r as int == low_ones(b as int, n as nat),
        r <= n,
    decreases n,
{
    if n == 0 {
        0
    } else {
        (b % 2) as u16 + count_low_ones(b / 2, n - 1)
    }
}

/// `count` named fragments after `acc`.
pub open spec fn named_fragments(
    data: Seq<u8>,
    pos: int,
    version: int,
    count: int,
    acc: Seq<Json>,
) -> Result<(Seq<Json>, int), int>
    decreases count,
{
    if count <= 0 {
        Ok((acc, pos))
    } else if pos >= data.len() {
        Err(pos)
    } else {
        match wstring(data, pos + 1) {
            Err(p) => Err(p),
            Ok((script_name, p)) => match wstring(data, p) {
                Err(q) => Err(q),
                Ok((fragment_name, q)) => named_fragments(
                    data,
                    q,
                    version,
                    count - 1,
                    acc.push(
                        Json::Obj(
                            obj3(
                                "extra_bind_data_version"@,
                                Json::Int(version),
                                "script_name"@,
                                Json::Str(script_name),
                                "fragment_name"@,
                                Json::Str(fragment_name),
                            ),
                        ),
                    ),
                ),
            },
        }
    }
}

/// What the fragments by flags hold.
pub struct FlagFragments {
    pub flags: u8,
    pub script_entry: Value,
    pub fragments: Vec<Value>,
}

/// What the fragments by flags hold, as mathematics.
pub struct ByFlags {
    pub flags: int,
    pub script_entry: Json,
    pub fragments: Seq<Json>,
}

impl View for FlagFragments {
    type V = ByFlags;

    open spec fn view(&self) -> ByFlags {
        ByFlags {
            flags: self.flags as int,
            script_entry: self.script_entry@,
            fragments: views(self.fragments@),
        }
    }
}

/// Fragments by flags: one fragment for each of the lowest `bits` flags that
/// is set.
pub open spec fn flag_fragments<R: FormIdRefResolver>(
    e: Env<R>,
    data: Seq<u8>,
    pos: int,
    fmt: u16,
    bits: nat,
) -> Result<(ByFlags, int), int> {
    if pos >= data.len() {
        Err(pos)
    } else if pos + 1 >= data.len() {
        Err(pos + 1)
    } else {
        match script(e, data, pos + 2, fmt) {
            Err(p) => Err(p),
            Ok((entry, p)) => match named_fragments(
                data,
                p,
                signed(data[pos] as int, 128),
                low_ones(data[pos + 1] as int, bits),
                Seq::empty(),
            ) {
                Err(q) => Err(q),
                Ok((list, q)) => Ok(
                    (
                        ByFlags {
                            flags: data[pos + 1] as int,
                            script_entry: entry,
                            fragments: list,
                        },
                        q,
                    ),
                ),
            },
        }
    }
}

/// Reads `count` named fragments.
#[verifier::loop_isolation(false)]
fn read_named_fragments(data: &[u8], start: usize, version: i128, count: u16) -> (r: Result<
    (Vec<Value>, usize),
    usize,
>)
    requires
        start <= data.len(),
    ensures
        read_many(r) == named_fragments(
            data@,
            start as int,
            version as int,
            count as int,
            Seq::empty(),
        ),
        start <= end_many(r) <= data.len(),
{
    let mut pos: usize = start;
    let mut items: Vec<Value> = Vec::new();
    assert(views(items@) =~= Seq::<Json>::empty());
    let mut i: u16 = 0;
    while i < count
        invariant
            i <= count,
            start <= pos <= data.len(),
            named_fragments(data@, start as int, version as int, count as int, Seq::empty())
                == named_fragments(
                data@,
                pos as int,
                version as int,
                count - i,
                views(items@),
            ),
        decreases count - i,
    {
        if pos >= data.len() {
            return Err(pos);
        }
        let (script_name, p) = match read_wstring(data, pos + 1) {
            Ok(x) => x,
            Err(p) => {
                return Err(p);
            },
        };
        let (fragment_name, q) = match read_wstring(data, p) {
            Ok(x) => x,
            Err(q) => {
                return Err(q);
            },
        };
        let item = Value::Object(
            Object::new().with("extra_bind_data_version", Value::Int(version)).with(
                "script_name",
                Value::String(script_name),
            ).with("fragment_name", Value::String(fragment_name)),
        );
        let ghost before = views(items@);
        let ghost added = item@;
        items.push(item);
        assert(views(items@) =~= before.push(added));
        pos = q;
        i += 1;
    }
    Ok((items, pos))
}

/// Reads fragments by flags.
pub fn vmad_read_flags_fragments<R: FormIdRefResolver>(
    ctx: &DecodeContext<'_, R>,
    data: &[u8],
    pos: usize,
    fmt: u16,
    bits: u8,
) -> (r: Result<(FlagFragments, usize), usize>)
    requires
        pos <= data.len(),
    ensures
        match r {
            Ok((f, p)) => pos <= p <= data.len() && flag_fragments(
                ctx.env(),
                data@,
                pos as int,
                fmt,
                bits as nat,
            ) == Ok::<(ByFlags, int), int>((f@, p as int)),
            Err(p) => pos <= p <= data.len() && flag_fragments(
                ctx.env(),
                data@,
                pos as int,
                fmt,
                bits as nat,
            ) == Err::<(ByFlags, int), int>(p as int),
        },
{
    if pos >= data.len() {
        return Err(pos);
    }
    if data.len() - pos < 2 {
        return Err(pos + 1);
    }
    let flags: u8 = data[pos + 1];
    let (script_entry, p) = match vmad_read_script_entry(ctx, data, pos + 2, fmt) {
        Ok(x) => x,
        Err(p) => {
            return Err(p);
        },
    };
    match read_named_fragments(data, p, signed_byte(data[pos]), count_low_ones(flags, bits)) {
        Err(q) => Err(q),
        Ok((fragments, q)) => Ok((FlagFragments { flags, script_entry, fragments }, q)),
    }
}

/// A script attachment with fragments for the lowest `bits` flags.
pub open spec fn vmad_by_flags<R: FormIdRefResolver>(e: Env<R>, data: Seq<u8>, bits: nat) -> Json {
    match head(e, data) {
        Err(p) => truncated(data, p),
        Ok((h, p)) => if p >= data.len() {
            plain_json(h)
        } else {
            match flag_fragments(e, data, p, h.fmt, bits) {
                Err(q) => truncated(data, q),
                Ok((f, q)) => fragment_json(
                    h,
                    Json::Obj(
                        obj3(
                            "flags"@,
                            Json::Int(f.flags),
                            "script_entry"@,
                            f.script_entry,
                            "fragments"@,
                            Json::Arr(f.fragments),
                        ),
                    ),
                ),
            }
        },
    }
}

/// Decodes a script attachment with fragments for the lowest `bits` flags.
fn decode_by_flags<R: FormIdRefResolver>(
    ctx: &DecodeContext<'_, R>,
    data: &[u8],
    bits: u8,
) -> (v: Value)
    ensures
        v@ == vmad_by_flags(ctx.env(), data@, bits as nat),
{
    let (h, p) = match vmad_parse_header(ctx, data) {
        Ok(x) => x,
        Err(p) => {
            return truncated_value(data, p);
        },
    };
    if p >= data.len() {
        return plain_value(h);
    }
    match vmad_read_flags_fragments(ctx, data, p, h.obj_format, bits) {
        Err(q) => truncated_value(data, q),
        Ok((f, q)) => fragment_value(
            h,
            Value::Object(
                Object::new().with("flags", Value::Int(f.flags as i128)).with(
                    "script_entry",
                    f.script_entry,
                ).with("fragments", Value::Array(f.fragments)),
            ),
        ),
    }
}

/// Decodes the script attachment of a dialogue line: two flags.
pub fn decode_vmad_info<R: FormIdRefResolver>(ctx: &DecodeContext<'_, R>, data: &[u8]) -> (v:
    Value)
    ensures
        v@ == vmad_by_flags(ctx.env(), data@, 2),
{
    decode_by_flags(ctx, data, 2)
}

/// Decodes the script attachment of a package: three flags.
pub fn decode_vmad_pack<R: FormIdRefResolver>(ctx: &DecodeContext<'_, R>, data: &[u8]) -> (v:
    Value)
    ensures
        v@ == vmad_by_flags(ctx.env(), data@, 3),
{
    decode_by_flags(ctx, data, 3)
}

// ── Perks ──────────────────────────────────────────────────────────────────
/// `count` indexed fragments after `acc`.
pub open spec fn indexed_fragments(
    data: Seq<u8>,
    pos: int,
    count: int,
    acc: Seq<Json>,
) -> Result<(Seq<Json>, int), int>
    decreases count,
{
    if count <= 0 {
        Ok((acc, pos))
    } else if pos + 4 > data.len() {
        Err(pos)
    } else if pos + 4 >= data.len() {
        Err(pos + 4)
    } else {
        match wstring(data, pos + 5) {
            Err(p) => Err(p),
            Ok((script_name, p)) => match wstring(data, p) {
                Err(q) => Err(q),
                Ok((fragment_name, q)) => indexed_fragments(
                    data,
                    q,
                    count - 1,
                    acc.push(
                        Json::Obj(
                            obj3(
                                "fragment_index"@,
                                Json::Int(le4(data, pos)),
                                "script_name"@,
                                Json::Str(script_name),
                                "fragment_name"@,
                                Json::Str(fragment_name),
                            ),
                        ),
                    ),
                ),
            },
        }
    }
}

/// The script attachment of a perk: a script of its own, and indexed
/// fragments. What follows them is ignored.
pub open spec fn vmad_perk<R: FormIdRefResolver>(e: Env<R>, data: Seq<u8>) -> Json {
    match head(e, data) {
        Err(p) => truncated(data, p),
        Ok((h, p)) => if p >= data.len() {
            plain_json(h)
        } else {
            match script(e, data, p + 1, h.fmt) {
                Err(q) => truncated(data, q),
                Ok((entry, q)) => if q + 2 > data.len() {
                    truncated(data, q)
                } else {
                    match indexed_fragments(data, q + 2, le2(data, q), Seq::empty()) {
                        Err(t) => truncated(data, t),
                        Ok((list, t)) => fragment_json(
                            h,
                            Json::Obj(
                                obj3(
                                    "extra_bind_data_version"@,
                                    Json::Int(signed(data[p] as int, 128)),
                                    "script_entry"@,
                                    entry,
                                    "fragments"@,
                                    Json::Arr(list),
                                ),
                            ),
                        ),
                    }
                },
            }
        },
    }
}

/// Reads `count` indexed fragments.
#[verifier::loop_isolation(false)]
fn read_indexed_fragments(data: &[u8], start: usize, count: u16) -> (r: Result<
    (Vec<Value>, usize),
    usize,
>)
    requires
        start <= data.len(),
    ensures
        read_many(r) == indexed_fragments(data@, start as int, count as int, Seq::empty()),
        start <= end_many(r) <= data.len(),
{
    let mut pos: usize = start;
    let mut items: Vec<Value> = Vec::new();
    assert(views(items@) =~= Seq::<Json>::empty());
    let mut i: u16 = 0;
    while i < count
        invariant
            i <= count,
            start <= pos <= data.len(),
            indexed_fragments(data@, start as int, count as int, Seq::empty())
                == indexed_fragments(data@, pos as int, count - i, views(items@)),
        decreases count - i,
    {
        let left: usize = data.len() - pos;
        if left < 4 {
            return Err(pos);
        }
        if left < 5 {
            return Err(pos + 4);
        }
        let (script_name, p) = match read_wstring(data, pos + 5) {
            Ok(x) => x,
            Err(p) => {
                return Err(p);
            },
        };
        let (fragment_name, q) = match read_wstring(data, p) {
            Ok(x) => x,
            Err(q) => {
                return Err(q);
            },
        };
        let item = Value::Object(
            Object::new().with("fragment_index", Value::Int(read_u32(data, pos) as i128)).with(
                "script_name",
                Value::String(script_name),
            ).with("fragment_name", Value::String(fragment_name)),
        );
        let ghost before = views(items@);
        let ghost added = item@;
        items.push(item);
        assert(views(items@) =~= before.push(added));
        pos = q;
        i += 1;
    }
    Ok((items, pos))
}

/// Decodes the script attachment of a perk.
pub fn decode_vmad_perk<R: FormIdRefResolver>(ctx: &DecodeContext<'_, R>, data: &[u8]) -> (v:
    Value)
    ensures
        v@ == vmad_perk(ctx.env(), data@),
{
    let (h, p) = match vmad_parse_header(ctx, data) {
        Ok(x) => x,
        Err(p) => {
            return truncated_value(data, p);
        },
    };
    if p >= data.len() {
        return plain_value(h);
    }
    let (script_entry, q) = match vmad_read_script_entry(ctx, data, p + 1, h.obj_format) {
        Ok(x) => x,
        Err(q) => {
            return truncated_value(data, q);
        },
    };
    if data.len() - q < 2 {
        return truncated_value(data, q);
    }
    match read_indexed_fragments(data, q + 2, read_u16(data, q)) {
        Err(t) => truncated_value(data, t),
        Ok((list, t)) => fragment_value(
            h,
            Value::Object(
                Object::new().with(
                    "extra_bind_data_version",
                    Value::Int(signed_byte(data[p])),
                ).with("script_entry", script_entry).with("fragments", Value::Array(list)),
            ),
        ),
    }
}

// ── Scenes ─────────────────────────────────────────────────────────────────
/// `count` phase fragments after `acc`.
pub open spec fn phase_fragments(
    data: Seq<u8>,
    pos: int,
    count: int,
    acc: Seq<Json>,
) -> Result<(Seq<Json>, int), int>
    decreases count,
{
    if count <= 0 {
        Ok((acc, pos))
    } else if pos >= data.len() {
        Err(pos)
    } else if pos + 5 > data.len() {
        Err(pos + 1)
    } else if pos + 5 >= data.len() {
        Err(pos + 5)
    } else {
        match wstring(data, pos + 6) {
            Err(p) => Err(p),
            Ok((script_name, p)) => match wstring(data, p) {
                Err(q) => Err(q),
                Ok((fragment_name, q)) => phase_fragments(
                    data,
                    q,
                    count - 1,
                    acc.push(
                        Json::Obj(
                            obj4(
                                "phase_flag"@,
                                Json::Int(data[pos] as int),
                                "phase_index"@,
                                Json::Int(le4(data, pos + 1)),
                                "script_name"@,
                                Json::Str(script_name),
                                "fragment_name"@,
                                Json::Str(fragment_name),
                            ),
                        ),
                    ),
                ),
            },
        }
    }
}

/// The script attachment of a scene: fragments for two flags, and phase
/// fragments.
pub open spec fn vmad_scen<R: FormIdRefResolver>(e: Env<R>, data: Seq<u8>) -> Json {
    match head(e, data) {
        Err(p) => truncated(data, p),
        Ok((h, p)) => if p >= data.len() {
            plain_json(h)
        } else {
            match flag_fragments(e, data, p, h.fmt, 2) {
                Err(q) => truncated(data, q),
                Ok((f, q)) => if q + 2 > data.len() {
                    truncated(data, q)
                } else {
                    match phase_fragments(data, q + 2, le2(data, q), Seq::empty()) {
                        Err(t) => truncated(data, t),
                        Ok((list, t)) => fragment_json(
                            h,
                            Json::Obj(
                                obj4(
                                    "flags"@,
                                    Json::Int(f.flags),
                                    "script_entry"@,
                                    f.script_entry,
                                    "fragments"@,
                                    Json::Arr(f.fragments),
                                    "phase_fragments"@,
                                    Json::Arr(list),
                                ),
                            ),
                        ),
                    }
                },
            }
        },
    }
}

/// Reads `count` phase fragments.
#[verifier::loop_isolation(false)]
fn read_phase_fragments(data: &[u8], start: usize, count: u16) -> (r: Result<
    (Vec<Value>, usize),
    usize,
>)
    requires
        start <= data.len(),
    ensures
        read_many(r) == phase_fragments(data@, start as int, count as int, Seq::empty()),
        start <= end_many(r) <= data.len(),
{
    let mut pos: usize = start;
    let mut items: Vec<Value> = Vec::new();
    assert(views(items@) =~= Seq::<Json>::empty());
    let mut i: u16 = 0;
    while i < count
        invariant
            i <= count,
            start <= pos <= data.len(),
            phase_fragments(data@, start as int, count as int, Seq::empty()) == phase_fragments(
                data@,
                pos as int,
                count - i,
                views(items@),
            ),
        decreases count - i,
    {
        let left: usize = data.len() - pos;
        if left < 1 {
            return Err(pos);
        }
        if left < 5 {
            return Err(pos + 1);
        }
        if left < 6 {
            return Err(pos + 5);
        }
        let (script_name, p) = match read_wstring(data, pos + 6) {
            Ok(x) => x,
            Err(p) => {
                return Err(p);
            },
        };
        let (fragment_name, q) = match read_wstring(data, p) {
            Ok(x) => x,
            Err(q) => {
                return Err(q);
            },
        };
        let item = Value::Object(
            Object::new().with("phase_flag", Value::Int(data[pos] as i128)).with(
                "phase_index",
                Value::Int(read_u32(data, pos + 1) as i128),
            ).with("script_name", Value::String(script_name)).with(
                "fragment_name",
                Value::String(fragment_name),
            ),
        );
        let ghost before = views(items@);
        let ghost added = item@;
        items.push(item);
        assert(views(items@) =~= before.push(added));
        pos = q;
        i += 1;
    }
    Ok((items, pos))
}

/// Decodes the script attachment of a scene.
pub fn decode_vmad_scen<R: FormIdRefResolver>(ctx: &DecodeContext<'_, R>, data: &[u8]) -> (v:
    Value)
    ensures
        v@ == vmad_scen(ctx.env(), data@),
{
    let (h, p) = match vmad_parse_header(ctx, data) {
        Ok(x) => x,
        Err(p) => {
            return truncated_value(data, p);
        },
    };
    if p >= data.len() {
        return plain_value(h);
    }
    let (f, q) = match vmad_read_flags_fragments(ctx, data, p, h.obj_format, 2) {
        Ok(x) => x,
        Err(q) => {
            return truncated_value(data, q);
        },
    };
    if data.len() - q < 2 {
        return truncated_value(data, q);
    }
    match read_phase_fragments(data, q + 2, read_u16(data, q)) {
        Err(t) => truncated_value(data, t),
        Ok((list, t)) => fragment_value(
            h,
            Value::Object(
                Object::new().with("flags", Value::Int(f.flags as i128)).with(
                    "script_entry",
                    f.script_entry,
                ).with("fragments", Value::Array(f.fragments)).with(
                    "phase_fragments",
                    Value::Array(list),
                ),
            ),
        ),
    }
}

} // verus!
