//! The file tables of a model: counters, then the entries that they count.
use crate::decode::scalars::{raw_json, raw_value};
use crate::format::{le4, read_u32};
use crate::json::{nothing, obj3, obj4, put, text, views, Entries, Json, Object, Value};
use crate::text::{from_lossy, hex8, hex8_string, lossy, trim_nuls, trim_nuls_string};
use vstd::prelude::*;
use vstd::slice::slice_subrange;

verus! {

/// The name of the counter at place `i`.
pub open spec fn counter_name(i: int) -> Seq<char> {
    if i == 0 {
        "Textures"@
    } else if i == 1 {
        "Addon Nodes"@
    } else if i == 2 {
        "SRGB"@
    } else if i == 3 {
        "Materials"@
    } else {
        "Unknown"@
    }
}

/// The counter at place `i` of `n`; zero where there is none.
pub open spec fn counter(data: Seq<u8>, n: int, i: int) -> int {
    if i < n {
        le4(data, 4 + 4 * i)
    } else {
        0
    }
}

/// The first `n` counters by name.
pub open spec fn counters(data: Seq<u8>, n: int) -> Entries
    decreases n,
{
    if n <= 0 {
        nothing()
    } else {
        put(counters(data, n - 1), counter_name(n - 1), Json::Int(le4(data, 4 + 4 * (n - 1))))
    }
}

/// A file entry: the hash of its name, its extension, the hash of its folder.
pub open spec fn file_entry(data: Seq<u8>, off: int) -> Json {
    Json::Obj(
        obj3(
            "File Hash"@,
            Json::Str(hex8(le4(data, off) as u32)),
            "Extension"@,
            Json::Str(trim_nuls(lossy(data.subrange(off + 4, off + 8)))),
            "Folder Hash"@,
            Json::Str(hex8(le4(data, off + 8) as u32)),
        ),
    )
}

/// `count` file entries from `off` on.
pub open spec fn file_entries(data: Seq<u8>, off: int, count: int) -> Seq<Json> {
    Seq::new(count as nat, |i: int| file_entry(data, off + 12 * i))
}

/// `count` numbers from `off` on.
pub open spec fn numbers(data: Seq<u8>, off: int, count: int) -> Seq<Json> {
    Seq::new(count as nat, |i: int| Json::Int(le4(data, off + 4 * i)))
}

/// The file tables of a model, or the bytes where the counters do not account
/// for all of them.
pub open spec fn model_info(data: Seq<u8>) -> Json {
    let n = le4(data, 0);
    let base = 4 + 4 * n;
    let t = counter(data, n, 0);
    let a = counter(data, n, 1);
    let m = counter(data, n, 3);
    if data.len() < 4 || !(1 <= n <= 8) || data.len() < base || base + 12 * t + 4 * a + 12 * m
        != data.len() {
        raw_json(data)
    } else {
        Json::Obj(
            obj4(
                "Counters"@,
                Json::Obj(counters(data, n)),
                "Textures"@,
                Json::Arr(file_entries(data, base, t)),
                "Addon Nodes"@,
                Json::Arr(numbers(data, base + 12 * t, a)),
                "Materials"@,
                Json::Arr(file_entries(data, base + 12 * t + 4 * a, m)),
            ),
        )
    }
}

/// The counter at place `i` of `n`.
fn read_counter(data: &[u8], n: u32, i: u32) -> (r: u32)
    requires
        4 + 4 * n <= data.len(),
        n <= 8,
        i < 8,
    ensures
        r as int == counter(data@, n as int, i as int),
{
    if i < n {
        read_u32(data, 4 + 4 * (i as usize))
    } else {
        0
    }
}

/// Reads `count` file entries.
fn read_file_entries(data: &[u8], off: usize, count: usize) -> (r: Vec<Value>)
    requires
        off + 12 * count <= data.len(),
    ensures
        views(r@) == file_entries(data@, off as int, count as int),
{
    let mut items: Vec<Value> = Vec::new();
    let mut i: usize = 0;
    let mut at: usize = off;
    while i < count
        invariant
            i <= count,
            at == off + 12 * i,
            off + 12 * count <= data.len(),
            items@.len() == i,
            forall|j: int| 0 <= j < i ==> (#[trigger] items@[j])@ == file_entry(
                data@,
                off + 12 * j,
            ),
        decreases count - i,
    {
        let ext = from_lossy(slice_subrange(data, at + 4, at + 8));
        items.push(
            Value::Object(
                Object::new().with(
                    "File Hash",
                    Value::String(hex8_string(read_u32(data, at))),
                ).with("Extension", Value::String(trim_nuls_string(&ext))).with(
                    "Folder Hash",
                    Value::String(hex8_string(read_u32(data, at + 8))),
                ),
            ),
        );
        i += 1;
        at += 12;
    }
    assert(views(items@) =~= file_entries(data@, off as int, count as int));
    items
}

/// Reads `count` numbers.
fn read_numbers(data: &[u8], off: usize, count: usize) -> (r: Vec<Value>)
    requires
        off + 4 * count <= data.len(),
    ensures
        views(r@) == numbers(data@, off as int, count as int),
{
    let mut items: Vec<Value> = Vec::new();
    let mut i: usize = 0;
    let mut at: usize = off;
    while i < count
        invariant
            i <= count,
            at == off + 4 * i,
            off + 4 * count <= data.len(),
            items@.len() == i,
            forall|j: int| 0 <= j < i ==> (#[trigger] items@[j])@ == Json::Int(
                le4(data@, off + 4 * j),
            ),
        decreases count - i,
    {
        items.push(Value::Int(read_u32(data, at) as i128));
        i += 1;
        at += 4;
    }
    assert(views(items@) =~= numbers(data@, off as int, count as int));
    items
}

/// Decodes the file tables of a model.
#[verifier::loop_isolation(false)]
pub fn decode_model_info(data: &[u8]) -> (v: Value)
    ensures
        v@ == model_info(data@),
{
    if data.len() < 4 {
        return raw_value(data);
    }
    let n: u32 = read_u32(data, 0);
    if n < 1 || n > 8 {
        return raw_value(data);
    }
    let base: usize = 4 + 4 * (n as usize);
    if data.len() < base {
        return raw_value(data);
    }
    let t: u32 = read_counter(data, n, 0);
    let a: u32 = read_counter(data, n, 1);
    let m: u32 = read_counter(data, n, 3);
    let total: u128 = base as u128 + 12 * (t as u128) + 4 * (a as u128) + 12 * (m as u128);
    if total != data.len() as u128 {
        return raw_value(data);
    }
    let mut by_name = Object::new();
    let mut i: u32 = 0;
    while i < n
        invariant
            i <= n,
            by_name@ == counters(data@, i as int),
        decreases n - i,
    {
        let name: &str = if i == 0 {
            "Textures"
        } else if i == 1 {
            "Addon Nodes"
        } else if i == 2 {
            "SRGB"
        } else if i == 3 {
            "Materials"
        } else {
            "Unknown"
        };
        let c: u32 = read_counter(data, n, i);
        by_name.insert(name.to_owned(), Value::Int(c as i128));
        i += 1;
    }
    let addon_at: usize = base + 12 * (t as usize);
    let material_at: usize = addon_at + 4 * (a as usize);
    Value::Object(
        Object::new().with("Counters", Value::Object(by_name)).with(
            "Textures",
            Value::Array(read_file_entries(data, base, t as usize)),
        ).with("Addon Nodes", Value::Array(read_numbers(data, addon_at, a as usize))).with(
            "Materials",
            Value::Array(read_file_entries(data, material_at, m as usize)),
        ),
    )
}

} // verus!
