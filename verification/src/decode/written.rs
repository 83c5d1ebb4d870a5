//! Script attachments as they are written, and that reading gives back what
//! was written.
use crate::curves::float_json;
use crate::decode::context::{resolved, Env, FormIdRefResolver};
use crate::decode::vmad::{
    alias, aliases, elements, flag_fragments, head, indexed_fragments, low_ones, members,
    named_fragments, phase_fragments, properties, property, quest_fragments, scalar, script,
    scripts, stage_fragments, structure, variables, vmad, vmad_by_flags, vmad_perk, vmad_qust,
    vmad_scen, wstring, Head,
};
use crate::format::{le2, le4};
use crate::json::{obj2, obj3, obj4, Json};
use crate::text::{hex_of, lossy};
use vstd::prelude::*;

verus! {

// ── Bytes ──────────────────────────────────────────────────────────────────
/// Whether `s` stands in `data` at `pos`.
pub open spec fn holds_at(data: Seq<u8>, pos: int, s: Seq<u8>) -> bool {
    0 <= pos && pos + s.len() <= data.len() && data.subrange(pos, pos + s.len()) == s
}

/// A number in two bytes, the lower one first.
pub open spec fn bytes2(n: int) -> Seq<u8> {
    seq![(n % 256) as u8, (n / 256 % 256) as u8]
}

/// A number in four bytes, the lowest one first.
pub open spec fn bytes4(n: int) -> Seq<u8> {
    bytes2(n % 65536) + bytes2(n / 65536)
}

/// A text with its length before it.
pub open spec fn text_bytes(s: Seq<u8>) -> Seq<u8> {
    bytes2(s.len() as int) + s
}

/// What stands somewhere in two parts stands there part by part.
pub proof fn lemma_split(data: Seq<u8>, pos: int, a: Seq<u8>, b: Seq<u8>)
    requires
        holds_at(data, pos, a + b),
    ensures
        holds_at(data, pos, a),
        holds_at(data, pos + a.len(), b),
{
    let whole = data.subrange(pos, pos + (a + b).len());
    assert(data.subrange(pos, pos + a.len()) =~= whole.subrange(0, a.len() as int));
    assert((a + b).subrange(0, a.len() as int) =~= a);
    assert(data.subrange(pos + a.len(), pos + a.len() + b.len()) =~= whole.subrange(
        a.len() as int,
        (a + b).len() as int,
    ));
    assert((a + b).subrange(a.len() as int, (a + b).len() as int) =~= b);
}

proof fn lemma_byte(data: Seq<u8>, pos: int, s: Seq<u8>, i: int)
    requires
        holds_at(data, pos, s),
        0 <= i < s.len(),
    ensures
        data[pos + i] == s[i],
{
    assert(data.subrange(pos, pos + s.len())[i] == s[i]);
}

/// A number in two bytes reads back.
pub proof fn lemma_bytes2(data: Seq<u8>, pos: int, n: int)
    requires
        holds_at(data, pos, bytes2(n)),
        0 <= n < 0x1_0000,
    ensures
        le2(data, pos) == n,
{
    lemma_byte(data, pos, bytes2(n), 0);
    lemma_byte(data, pos, bytes2(n), 1);
}

/// A number in four bytes reads back.
pub proof fn lemma_bytes4(data: Seq<u8>, pos: int, n: int)
    requires
        holds_at(data, pos, bytes4(n)),
        0 <= n < 0x1_0000_0000,
    ensures
        le4(data, pos) == n,
{
    lemma_split(data, pos, bytes2(n % 65536), bytes2(n / 65536));
    lemma_bytes2(data, pos, n % 65536);
    lemma_bytes2(data, pos + 2, n / 65536);
}

proof fn lemma_text(data: Seq<u8>, pos: int, s: Seq<u8>)
    requires
        holds_at(data, pos, text_bytes(s)),
        s.len() < 0x1_0000,
    ensures
        wstring(data, pos) == Ok::<(Seq<char>, int), int>((lossy(s), pos + 2 + s.len())),
{
    lemma_split(data, pos, bytes2(s.len() as int), s);
    lemma_bytes2(data, pos, s.len() as int);
    assert(data.subrange(pos + 2, pos + 2 + s.len()) == s);
}

// ── Values ─────────────────────────────────────────────────────────────────
/// A value that a script property holds.
pub ghost enum Papyrus {
    Nothing,
    /// A form, and the four bytes that stand beside it.
    Object { form: u32, beside: u32 },
    Text(Seq<u8>),
    /// A number by its pattern.
    Number(u32),
    /// A float by its pattern.
    Float(u32),
    Truth(u8),
    /// A value with its type written before it.
    Variable(Box<Papyrus>),
    /// Members with their names and a byte of status each.
    Struct(Seq<(Seq<u8>, u8, Papyrus)>),
    /// Values of one type.
    List { kind: u8, items: Seq<Papyrus> },
    /// Values with their types written before them.
    Variables(Seq<Papyrus>),
}

/// The number of a type.
pub open spec fn type_of(p: Papyrus) -> u8 {
    match p {
        Papyrus::Nothing => 0,
        Papyrus::Object { .. } => 1,
        Papyrus::Text(_) => 2,
        Papyrus::Number(_) => 3,
        Papyrus::Float(_) => 4,
        Papyrus::Truth(_) => 5,
        Papyrus::Variable(_) => 6,
        Papyrus::Struct(_) => 7,
        Papyrus::List { kind, .. } => (kind + 10) as u8,
        Papyrus::Variables(_) => 16,
    }
}

/// The bytes of a value. The object format says which half of an object comes
/// first.
pub open spec fn bytes_of(p: Papyrus, fmt: u16) -> Seq<u8>
    decreases p, 0nat,
{
    match p {
        Papyrus::Nothing => Seq::empty(),
        Papyrus::Object { form, beside } => if fmt == 1 {
            bytes4(form as int) + bytes4(beside as int)
        } else {
            bytes4(beside as int) + bytes4(form as int)
        },
        Papyrus::Text(s) => text_bytes(s),
        Papyrus::Number(n) => bytes4(n as int),
        Papyrus::Float(b) => bytes4(b as int),
        Papyrus::Truth(b) => seq![b],
        Papyrus::Variable(v) => seq![type_of(*v)] + bytes_of(*v, fmt),
        Papyrus::Struct(items) => bytes4(items.len() as int) + member_bytes(items, 0, fmt),
        Papyrus::List { items, .. } => bytes4(items.len() as int) + item_bytes(items, 0, fmt),
        Papyrus::Variables(items) => bytes4(items.len() as int) + variable_bytes(items, 0, fmt),
    }
}

/// The bytes of the members from `i` on: name, type, status, value.
pub open spec fn member_bytes(items: Seq<(Seq<u8>, u8, Papyrus)>, i: nat, fmt: u16) -> Seq<u8>
    decreases items, items.len() - i,
{
    if i >= items.len() {
        Seq::empty()
    } else {
        let (name, status, v) = items[i as int];
        text_bytes(name) + (seq![type_of(v), status] + (bytes_of(v, fmt) + member_bytes(
            items,
            i + 1,
            fmt,
        )))
    }
}

/// The bytes of the values from `i` on.
pub open spec fn item_bytes(items: Seq<Papyrus>, i: nat, fmt: u16) -> Seq<u8>
    decreases items, items.len() - i,
{
    if i >= items.len() {
        Seq::empty()
    } else {
        bytes_of(items[i as int], fmt) + item_bytes(items, i + 1, fmt)
    }
}

/// The bytes of the values from `i` on, with their types before them.
pub open spec fn variable_bytes(items: Seq<Papyrus>, i: nat, fmt: u16) -> Seq<u8>
    decreases items, items.len() - i,
{
    if i >= items.len() {
        Seq::empty()
    } else {
        seq![type_of(items[i as int])] + (bytes_of(items[i as int], fmt) + variable_bytes(
            items,
            i + 1,
            fmt,
        ))
    }
}

/// A value as it is presented.
pub open spec fn shown<R: FormIdRefResolver>(e: Env<R>, p: Papyrus) -> Json
    decreases p, 0nat,
{
    match p {
        Papyrus::Nothing => Json::Null,
        Papyrus::Object { form, .. } => resolved(e, false, form),
        Papyrus::Text(s) => Json::Str(lossy(s)),
        Papyrus::Number(n) => Json::Int(
            if n < 0x8000_0000 {
                n as int
            } else {
                n - 0x1_0000_0000
            },
        ),
        Papyrus::Float(b) => float_json(b),
        Papyrus::Truth(b) => Json::Bool(b != 0),
        Papyrus::Variable(v) => shown(e, *v),
        Papyrus::Struct(items) => Json::Arr(shown_members(e, items, 0)),
        Papyrus::List { items, .. } => Json::Arr(shown_items(e, items, 0)),
        Papyrus::Variables(items) => Json::Obj(
            obj2("_variable_array"@, Json::Bool(true), "items"@, Json::Arr(shown_items(e, items, 0))),
        ),
    }
}

/// The members from `i` on as they are presented.
pub open spec fn shown_members<R: FormIdRefResolver>(
    e: Env<R>,
    items: Seq<(Seq<u8>, u8, Papyrus)>,
    i: nat,
) -> Seq<Json>
    decreases items, items.len() - i,
{
    if i >= items.len() {
        Seq::empty()
    } else {
        let (name, _, v) = items[i as int];
        seq![
            Json::Obj(
                obj3(
                    "name"@,
                    Json::Str(lossy(name)),
                    "type"@,
                    Json::Int(type_of(v) as int),
                    "value"@,
                    shown(e, v),
                ),
            ),
        ] + shown_members(e, items, i + 1)
    }
}

/// The values from `i` on as they are presented.
pub open spec fn shown_items<R: FormIdRefResolver>(e: Env<R>, items: Seq<Papyrus>, i: nat) -> Seq<
    Json,
>
    decreases items, items.len() - i,
{
    if i >= items.len() {
        Seq::empty()
    } else {
        seq![shown(e, items[i as int])] + shown_items(e, items, i + 1)
    }
}

/// Whether a value can be written: its lengths fit, a list holds values of its
/// type, and a variable holds something.
pub open spec fn writable(p: Papyrus) -> bool
    decreases p, 0nat,
{
    match p {
        Papyrus::Text(s) => s.len() < 0x1_0000,
        Papyrus::Variable(v) => 1 <= type_of(*v) <= 7 && writable(*v),
        Papyrus::Struct(items) => items.len() < 0x1_0000_0000 && members_writable(items, 0),
        Papyrus::List { kind, items } => (1 <= kind <= 5 || kind == 7) && items.len()
            < 0x1_0000_0000 && items_writable(items, kind, 0),
        Papyrus::Variables(items) => items.len() < 0x1_0000_0000 && variables_writable(items, 0),
        _ => true,
    }
}

/// Whether the members from `i` on can be written.
pub open spec fn members_writable(items: Seq<(Seq<u8>, u8, Papyrus)>, i: nat) -> bool
    decreases items, items.len() - i,
{
    i >= items.len() || (items[i as int].0.len() < 0x1_0000 && writable(items[i as int].2)
        && members_writable(items, i + 1))
}

/// Whether the values from `i` on can be written and have one type.
pub open spec fn items_writable(items: Seq<Papyrus>, kind: u8, i: nat) -> bool
    decreases items, items.len() - i,
{
    i >= items.len() || (type_of(items[i as int]) == kind && writable(items[i as int])
        && items_writable(items, kind, i + 1))
}

/// Whether the values from `i` on can be written and are something.
pub open spec fn variables_writable(items: Seq<Papyrus>, i: nat) -> bool
    decreases items, items.len() - i,
{
    i >= items.len() || (!(items[i as int] is Nothing) && writable(items[i as int])
        && variables_writable(items, i + 1))
}

proof fn lemma_has_bytes(p: Papyrus, fmt: u16)
    requires
        !(p is Nothing),
    ensures
        bytes_of(p, fmt).len() > 0,
{
}

proof fn lemma_read_object<R: FormIdRefResolver>(
    e: Env<R>,
    data: Seq<u8>,
    pos: int,
    fmt: u16,
    form: u32,
    beside: u32,
)
    requires
        holds_at(data, pos, bytes_of(Papyrus::Object { form, beside }, fmt)),
    ensures
        scalar(e, data, pos, 1, fmt) == Ok::<(Json, int), int>((resolved(e, false, form), pos + 8)),
        bytes_of(Papyrus::Object { form, beside }, fmt).len() == 8,
{
    if fmt == 1 {
        lemma_split(data, pos, bytes4(form as int), bytes4(beside as int));
        lemma_bytes4(data, pos, form as int);
    } else {
        lemma_split(data, pos, bytes4(beside as int), bytes4(form as int));
        lemma_bytes4(data, pos + 4, form as int);
    }
}

proof fn lemma_read_plain<R: FormIdRefResolver>(
    e: Env<R>,
    data: Seq<u8>,
    pos: int,
    fmt: u16,
    p: Papyrus,
)
    requires
        writable(p),
        p is Object || p is Text || p is Number || p is Float || p is Truth,
        holds_at(data, pos, bytes_of(p, fmt)),
    ensures
        scalar(e, data, pos, type_of(p), fmt) == Ok::<(Json, int), int>(
            (shown(e, p), pos + bytes_of(p, fmt).len()),
        ),
{
    match p {
        Papyrus::Object { form, beside } => {
            lemma_read_object(e, data, pos, fmt, form, beside);
        },
        Papyrus::Text(s) => {
            lemma_text(data, pos, s);
        },
        Papyrus::Number(n) => {
            lemma_bytes4(data, pos, n as int);
        },
        Papyrus::Float(b) => {
            lemma_bytes4(data, pos, b as int);
        },
        Papyrus::Truth(b) => {
            lemma_byte(data, pos, seq![b], 0);
        },
        _ => {},
    }
}

proof fn lemma_read_struct<R: FormIdRefResolver>(
    e: Env<R>,
    data: Seq<u8>,
    pos: int,
    fmt: u16,
    items: Seq<(Seq<u8>, u8, Papyrus)>,
)
    requires
        items.len() < 0x1_0000_0000,
        members_writable(items, 0),
        holds_at(data, pos, bytes4(items.len() as int) + member_bytes(items, 0, fmt)),
    ensures
        structure(e, data, pos, fmt) == Ok::<(Json, int), int>(
            (
                Json::Arr(shown_members(e, items, 0)),
                pos + 4 + member_bytes(items, 0, fmt).len(),
            ),
        ),
    decreases items, 1nat, 0nat,
{
    lemma_split(data, pos, bytes4(items.len() as int), member_bytes(items, 0, fmt));
    lemma_bytes4(data, pos, items.len() as int);
    lemma_read_members(e, data, pos + 4, fmt, items, 0, Seq::empty());
    assert(Seq::<Json>::empty() + shown_members(e, items, 0) =~= shown_members(e, items, 0));
}

proof fn lemma_read_scalar<R: FormIdRefResolver>(
    e: Env<R>,
    data: Seq<u8>,
    pos: int,
    fmt: u16,
    p: Papyrus,
)
    requires
        writable(p),
        1 <= type_of(p) <= 7,
        holds_at(data, pos, bytes_of(p, fmt)),
    ensures
        scalar(e, data, pos, type_of(p), fmt) == Ok::<(Json, int), int>(
            (shown(e, p), pos + bytes_of(p, fmt).len()),
        ),
    decreases p, 1nat, 0nat,
{
    match p {
        Papyrus::Variable(v) => {
            lemma_split(data, pos, seq![type_of(*v)], bytes_of(*v, fmt));
            lemma_byte(data, pos, seq![type_of(*v)], 0);
            lemma_read_scalar(e, data, pos + 1, fmt, *v);
        },
        Papyrus::Struct(items) => {
            lemma_read_struct(e, data, pos, fmt, items);
        },
        Papyrus::List { .. } => {},
        _ => {
            lemma_read_plain(e, data, pos, fmt, p);
        },
    }
}

proof fn lemma_read_members<R: FormIdRefResolver>(
    e: Env<R>,
    data: Seq<u8>,
    pos: int,
    fmt: u16,
    items: Seq<(Seq<u8>, u8, Papyrus)>,
    i: nat,
    acc: Seq<Json>,
)
    requires
        i <= items.len(),
        members_writable(items, i),
        holds_at(data, pos, member_bytes(items, i, fmt)),
    ensures
        members(e, data, pos, fmt, items.len() - i, acc) == Ok::<(Seq<Json>, int), int>(
            (acc + shown_members(e, items, i), pos + member_bytes(items, i, fmt).len()),
        ),
        properties(e, data, pos, fmt, items.len() - i, acc) == Ok::<(Seq<Json>, int), int>(
            (acc + shown_members(e, items, i), pos + member_bytes(items, i, fmt).len()),
        ),
    decreases items, 0nat, items.len() - i,
{
    if i < items.len() {
        let (name, status, v) = items[i as int];
        let t = seq![type_of(v), status];
        let value = bytes_of(v, fmt);
        let others = member_bytes(items, i + 1, fmt);
        lemma_split(data, pos, text_bytes(name), t + (value + others));
        let p1 = pos + text_bytes(name).len();
        lemma_split(data, p1, t, value + others);
        lemma_split(data, p1 + 2, value, others);
        lemma_text(data, pos, name);
        lemma_byte(data, p1, t, 0);
        lemma_read_property(e, data, p1 + 2, fmt, v);
        if !(v is Nothing) {
            lemma_has_bytes(v, fmt);
        }
        let x = Json::Obj(
            obj3(
                "name"@,
                Json::Str(lossy(name)),
                "type"@,
                Json::Int(type_of(v) as int),
                "value"@,
                shown(e, v),
            ),
        );
        lemma_read_members(e, data, p1 + 2 + value.len(), fmt, items, i + 1, acc.push(x));
        assert(acc.push(x) + shown_members(e, items, i + 1) =~= acc + shown_members(e, items, i));
        assert(member_bytes(items, i, fmt).len() == text_bytes(name).len() + 2 + value.len()
            + others.len());
        assert(type_of(v) == 0 ==> v is Nothing);
    } else {
        assert(acc + shown_members(e, items, i) =~= acc);
    }
}

proof fn lemma_read_items<R: FormIdRefResolver>(
    e: Env<R>,
    data: Seq<u8>,
    pos: int,
    fmt: u16,
    kind: u8,
    items: Seq<Papyrus>,
    i: nat,
    acc: Seq<Json>,
)
    requires
        i <= items.len(),
        1 <= kind <= 5 || kind == 7,
        items_writable(items, kind, i),
        holds_at(data, pos, item_bytes(items, i, fmt)),
    ensures
        elements(e, data, pos, kind, fmt, items.len() - i, acc) == Ok::<(Seq<Json>, int), int>(
            (acc + shown_items(e, items, i), pos + item_bytes(items, i, fmt).len()),
        ),
    decreases items, 0nat, items.len() - i,
{
    if i < items.len() {
        let v = items[i as int];
        let value = bytes_of(v, fmt);
        let others = item_bytes(items, i + 1, fmt);
        lemma_split(data, pos, value, others);
        lemma_read_scalar(e, data, pos, fmt, v);
        lemma_has_bytes(v, fmt);
        let x = shown(e, v);
        lemma_read_items(e, data, pos + value.len(), fmt, kind, items, i + 1, acc.push(x));
        assert(acc.push(x) + shown_items(e, items, i + 1) =~= acc + shown_items(e, items, i));
    } else {
        assert(acc + shown_items(e, items, i) =~= acc);
    }
}

proof fn lemma_read_variables<R: FormIdRefResolver>(
    e: Env<R>,
    data: Seq<u8>,
    pos: int,
    fmt: u16,
    items: Seq<Papyrus>,
    i: nat,
    acc: Seq<Json>,
)
    requires
        i <= items.len(),
        variables_writable(items, i),
        holds_at(data, pos, variable_bytes(items, i, fmt)),
    ensures
        variables(e, data, pos, fmt, items.len() - i, acc) == Ok::<(Seq<Json>, int), int>(
            (acc + shown_items(e, items, i), pos + variable_bytes(items, i, fmt).len()),
        ),
    decreases items, 0nat, items.len() - i,
{
    if i < items.len() {
        let v = items[i as int];
        let t = seq![type_of(v)];
        let value = bytes_of(v, fmt);
        let others = variable_bytes(items, i + 1, fmt);
        lemma_split(data, pos, t, value + others);
        lemma_split(data, pos + 1, value, others);
        lemma_byte(data, pos, t, 0);
        lemma_read_property(e, data, pos + 1, fmt, v);
        lemma_has_bytes(v, fmt);
        let x = shown(e, v);
        lemma_read_variables(e, data, pos + 1 + value.len(), fmt, items, i + 1, acc.push(x));
        assert(acc.push(x) + shown_items(e, items, i + 1) =~= acc + shown_items(e, items, i));
    } else {
        assert(acc + shown_items(e, items, i) =~= acc);
    }
}

proof fn lemma_read_property<R: FormIdRefResolver>(
    e: Env<R>,
    data: Seq<u8>,
    pos: int,
    fmt: u16,
    p: Papyrus,
)
    requires
        writable(p),
        holds_at(data, pos, bytes_of(p, fmt)),
    ensures
        property(e, data, pos, type_of(p), fmt) == Ok::<(Json, int), int>(
            (shown(e, p), pos + bytes_of(p, fmt).len()),
        ),
    decreases p, 2nat, 0nat,
{
    match p {
        Papyrus::Nothing => {},
        Papyrus::List { kind, items } => {
            lemma_split(data, pos, bytes4(items.len() as int), item_bytes(items, 0, fmt));
            lemma_bytes4(data, pos, items.len() as int);
            lemma_read_items(e, data, pos + 4, fmt, kind, items, 0, Seq::empty());
            assert(Seq::<Json>::empty() + shown_items(e, items, 0) =~= shown_items(e, items, 0));
        },
        Papyrus::Variables(items) => {
            lemma_split(data, pos, bytes4(items.len() as int), variable_bytes(items, 0, fmt));
            lemma_bytes4(data, pos, items.len() as int);
            lemma_read_variables(e, data, pos + 4, fmt, items, 0, Seq::empty());
            assert(Seq::<Json>::empty() + shown_items(e, items, 0) =~= shown_items(e, items, 0));
        },
        _ => {
            lemma_read_scalar(e, data, pos, fmt, p);
        },
    }
}

/// Reading a value gives back what was written, and ends behind it.
pub proof fn law_value_reads_back<R: FormIdRefResolver>(
    e: Env<R>,
    data: Seq<u8>,
    pos: int,
    fmt: u16,
    p: Papyrus,
)
    requires
        writable(p),
        holds_at(data, pos, bytes_of(p, fmt)),
    ensures
        property(e, data, pos, type_of(p), fmt) == Ok::<(Json, int), int>(
            (shown(e, p), pos + bytes_of(p, fmt).len()),
        ),
{
    lemma_read_property(e, data, pos, fmt, p);
}

// ── Scripts ────────────────────────────────────────────────────────────────
/// A script: its name, its status, and its properties with their names, a byte
/// of status and their values.
pub ghost struct Script {
    pub name: Seq<u8>,
    pub status: u8,
    pub properties: Seq<(Seq<u8>, u8, Papyrus)>,
}

/// The bytes of a script.
pub open spec fn script_bytes(s: Script, fmt: u16) -> Seq<u8> {
    text_bytes(s.name) + (seq![s.status] + (bytes2(s.properties.len() as int) + member_bytes(
        s.properties,
        0,
        fmt,
    )))
}

/// The bytes of the scripts from `i` on.
pub open spec fn scripts_bytes(list: Seq<Script>, i: nat, fmt: u16) -> Seq<u8>
    decreases list.len() - i,
{
    if i >= list.len() {
        Seq::empty()
    } else {
        script_bytes(list[i as int], fmt) + scripts_bytes(list, i + 1, fmt)
    }
}

/// A script as it is presented.
pub open spec fn shown_script<R: FormIdRefResolver>(e: Env<R>, s: Script) -> Json {
    Json::Obj(
        obj3(
            "name"@,
            Json::Str(lossy(s.name)),
            "status"@,
            Json::Int(s.status as int),
            "properties"@,
            Json::Arr(shown_members(e, s.properties, 0)),
        ),
    )
}

/// Scripts as they are presented.
pub open spec fn shown_scripts<R: FormIdRefResolver>(e: Env<R>, list: Seq<Script>) -> Seq<Json> {
    Seq::new(list.len(), |i: int| shown_script(e, list[i]))
}

/// Whether a script can be written.
pub open spec fn script_writable(s: Script) -> bool {
    s.name.len() < 0x1_0000 && s.properties.len() < 0x1_0000 && members_writable(s.properties, 0)
}

/// Whether scripts can be written.
pub open spec fn scripts_writable(list: Seq<Script>) -> bool {
    list.len() < 0x1_0000 && forall|i: int|
        0 <= i < list.len() ==> script_writable(#[trigger] list[i])
}

proof fn lemma_read_script<R: FormIdRefResolver>(
    e: Env<R>,
    data: Seq<u8>,
    pos: int,
    fmt: u16,
    s: Script,
)
    requires
        script_writable(s),
        holds_at(data, pos, script_bytes(s, fmt)),
    ensures
        script(e, data, pos, fmt) == Ok::<(Json, int), int>(
            (shown_script(e, s), pos + script_bytes(s, fmt).len()),
        ),
{
    let props = member_bytes(s.properties, 0, fmt);
    let n = bytes2(s.properties.len() as int);
    let st = seq![s.status];
    lemma_split(data, pos, text_bytes(s.name), st + (n + props));
    let p = pos + text_bytes(s.name).len();
    lemma_split(data, p, st, n + props);
    lemma_split(data, p + 1, n, props);
    lemma_text(data, pos, s.name);
    lemma_byte(data, p, st, 0);
    lemma_bytes2(data, p + 1, s.properties.len() as int);
    lemma_read_members(e, data, p + 3, fmt, s.properties, 0, Seq::empty());
    assert(Seq::<Json>::empty() + shown_members(e, s.properties, 0) =~= shown_members(
        e,
        s.properties,
        0,
    ));
}

proof fn lemma_read_scripts<R: FormIdRefResolver>(
    e: Env<R>,
    data: Seq<u8>,
    pos: int,
    fmt: u16,
    list: Seq<Script>,
    i: nat,
    acc: Seq<Json>,
)
    requires
        i <= list.len(),
        scripts_writable(list),
        holds_at(data, pos, scripts_bytes(list, i, fmt)),
    ensures
        scripts(e, data, pos, fmt, list.len() - i, acc) == Ok::<(Seq<Json>, int), int>(
            (acc + shown_scripts(e, list).skip(i as int), pos + scripts_bytes(list, i, fmt).len()),
        ),
    decreases list.len() - i,
{
    let all = shown_scripts(e, list);
    if i < list.len() {
        let s = list[i as int];
        lemma_split(data, pos, script_bytes(s, fmt), scripts_bytes(list, i + 1, fmt));
        lemma_read_script(e, data, pos, fmt, s);
        let x = shown_script(e, s);
        lemma_read_scripts(
            e,
            data,
            pos + script_bytes(s, fmt).len(),
            fmt,
            list,
            i + 1,
            acc.push(x),
        );
        assert(acc.push(x) + all.skip(i as int + 1) =~= acc + all.skip(i as int));
    } else {
        assert(acc + all.skip(i as int) =~= acc);
    }
}

/// The bytes of the start of an attachment.
pub open spec fn head_bytes(version: u16, fmt: u16, list: Seq<Script>) -> Seq<u8> {
    bytes2(version as int) + (bytes2(fmt as int) + (bytes2(list.len() as int) + scripts_bytes(
        list,
        0,
        fmt,
    )))
}

/// Reading the start of an attachment gives back the version, the object
/// format and every script that was written, and ends behind the last.
pub proof fn law_head_reads_back<R: FormIdRefResolver>(
    e: Env<R>,
    data: Seq<u8>,
    version: u16,
    fmt: u16,
    list: Seq<Script>,
)
    requires
        scripts_writable(list),
        holds_at(data, 0, head_bytes(version, fmt, list)),
    ensures
        head(e, data) == Ok::<(Head, int), int>(
            (
                Head { version: version as int, fmt, scripts: shown_scripts(e, list) },
                head_bytes(version, fmt, list).len() as int,
            ),
        ),
{
    let v = bytes2(version as int);
    let f = bytes2(fmt as int);
    let n = bytes2(list.len() as int);
    let s = scripts_bytes(list, 0, fmt);
    lemma_split(data, 0, v, f + (n + s));
    lemma_split(data, 2, f, n + s);
    lemma_split(data, 4, n, s);
    lemma_bytes2(data, 0, version as int);
    lemma_bytes2(data, 2, fmt as int);
    lemma_bytes2(data, 4, list.len() as int);
    lemma_read_scripts(e, data, 6, fmt, list, 0, Seq::empty());
    assert(Seq::<Json>::empty() + shown_scripts(e, list).skip(0) =~= shown_scripts(e, list));
}

/// Whether `read` gave the items of `list` one behind the other from `pos` to
/// `end`; `at` says where each of them starts.
pub open spec fn read_in_turn(
    read: spec_fn(int) -> Result<(Json, int), int>,
    pos: int,
    list: Seq<Json>,
    end: int,
    at: Seq<int>,
) -> bool {
    &&& at.len() == list.len() + 1
    &&& at[0] == pos
    &&& at[list.len() as int] == end
    &&& forall|i: int|
        0 <= i < list.len() ==> read(at[i]) == Ok::<(Json, int), int>(
            (#[trigger] list[i], at[i + 1]),
        )
}

/// What `read` gives `count` times from `pos` on, after `acc`.
spec fn repeated(
    read: spec_fn(int) -> Result<(Json, int), int>,
    pos: int,
    count: int,
    acc: Seq<Json>,
) -> Result<(Seq<Json>, int), int>
    decreases count,
{
    if count <= 0 {
        Ok((acc, pos))
    } else {
        match read(pos) {
            Err(p) => Err(p),
            Ok((x, p)) => repeated(read, p, count - 1, acc.push(x)),
        }
    }
}

proof fn lemma_repeated(
    read: spec_fn(int) -> Result<(Json, int), int>,
    pos: int,
    count: int,
    acc: Seq<Json>,
) -> (at: Seq<int>)
    requires
        count >= 0,
        repeated(read, pos, count, acc) is Ok,
    ensures
        repeated(read, pos, count, acc)->Ok_0.0.len() == acc.len() + count,
        repeated(read, pos, count, acc)->Ok_0.0.take(acc.len() as int) == acc,
        read_in_turn(
            read,
            pos,
            repeated(read, pos, count, acc)->Ok_0.0.skip(acc.len() as int),
            repeated(read, pos, count, acc)->Ok_0.1,
            at,
        ),
    decreases count,
{
    let list = repeated(read, pos, count, acc)->Ok_0.0;
    let mine = list.skip(acc.len() as int);
    if count == 0 {
        assert(acc.take(acc.len() as int) =~= acc);
        assert(mine =~= Seq::<Json>::empty());
        seq![pos]
    } else {
        let (x, p) = read(pos)->Ok_0;
        let at = lemma_repeated(read, p, count - 1, acc.push(x));
        let more = list.skip(acc.push(x).len() as int);
        let all = seq![pos] + at;
        let first = list.take(acc.push(x).len() as int);
        assert(first[acc.len() as int] == x);
        assert(mine[0] == x);
        assert(list.take(acc.len() as int) =~= first.take(acc.len() as int));
        assert(acc.push(x).take(acc.len() as int) =~= acc);
        assert forall|i: int| 0 <= i < mine.len() implies read(all[i]) == Ok::<(Json, int), int>(
            (#[trigger] mine[i], all[i + 1]),
        ) by {
            if i > 0 {
                assert(all[i] == at[i - 1] && all[i + 1] == at[i]);
                assert(mine[i] == more[i - 1]);
            }
        }
        all
    }
}

/// Reads a script at a position.
pub open spec fn script_reader<R: FormIdRefResolver>(
    e: Env<R>,
    data: Seq<u8>,
    fmt: u16,
) -> spec_fn(int) -> Result<(Json, int), int> {
    |p: int| script(e, data, p, fmt)
}

proof fn lemma_scripts_repeat<R: FormIdRefResolver>(
    e: Env<R>,
    data: Seq<u8>,
    pos: int,
    fmt: u16,
    count: int,
    acc: Seq<Json>,
    read: spec_fn(int) -> Result<(Json, int), int>,
)
    requires
        read == script_reader(e, data, fmt),
    ensures
        scripts(e, data, pos, fmt, count, acc) == repeated(read, pos, count, acc),
    decreases count,
{
    if count > 0 {
        if let Ok((x, p)) = read(pos) {
            lemma_scripts_repeat(e, data, p, fmt, count - 1, acc.push(x), read);
        }
    }
}

/// Where the start of an attachment can be read, there are as many scripts as
/// the number at its fifth byte says; they were read one behind the other, the
/// first behind that number, and the end is behind the last.
pub proof fn law_head_has_every_script<R: FormIdRefResolver>(e: Env<R>, data: Seq<u8>)
    ensures
        head(e, data) matches Ok((h, end)) ==> {
            &&& data.len() >= 6
            &&& h.version == data[0] + 256 * data[1]
            &&& h.fmt as int == data[2] + 256 * data[3]
            &&& h.scripts.len() == data[4] + 256 * data[5]
            &&& exists|at: Seq<int>| #[trigger]
                read_in_turn(script_reader(e, data, h.fmt), 6, h.scripts, end, at)
        },
{
    if let Ok((h, end)) = head(e, data) {
        let read = script_reader(e, data, h.fmt);
        lemma_scripts_repeat(e, data, 6, h.fmt, le2(data, 4), Seq::empty(), read);
        let at = lemma_repeated(read, 6, le2(data, 4), Seq::empty());
        assert(h.scripts.skip(0) =~= h.scripts);
        assert(read_in_turn(read, 6, h.scripts, end, at));
    }
}

/// Whether a value stands for bytes that could not be read.
pub open spec fn stands_for_bytes(v: Json, data: Seq<u8>) -> bool {
    exists|p: int|
        v == Json::Obj(
            obj3(
                "_raw"@,
                Json::Bool(true),
                "reason"@,
                Json::Str("VMAD truncated"@),
                "hex"@,
                Json::Str(#[trigger] hex_of(data.skip(p))),
            ),
        )
}

/// An attachment without fragments shows its version and its scripts, whatever
/// follows them. One that cannot be read stands as bytes.
pub proof fn law_plain_attachment_reads_back<R: FormIdRefResolver>(
    e: Env<R>,
    data: Seq<u8>,
    version: u16,
    fmt: u16,
    list: Seq<Script>,
)
    ensures
        scripts_writable(list) && holds_at(data, 0, head_bytes(version, fmt, list)) ==> vmad(
            e,
            data,
        ) == Json::Obj(
            obj2(
                "version"@,
                Json::Int(version as int),
                "scripts"@,
                Json::Arr(shown_scripts(e, list)),
            ),
        ),
        head(e, data) is Err ==> stands_for_bytes(vmad(e, data), data) && stands_for_bytes(
            vmad_qust(e, data),
            data,
        ) && stands_for_bytes(vmad_perk(e, data), data) && stands_for_bytes(
            vmad_scen(e, data),
            data,
        ) && forall|bits: nat| stands_for_bytes(#[trigger] vmad_by_flags(e, data, bits), data),
{
    if scripts_writable(list) && holds_at(data, 0, head_bytes(version, fmt, list)) {
        law_head_reads_back(e, data, version, fmt, list);
    }
    if let Err(p) = head(e, data) {
        let h = hex_of(data.skip(p));
        assert(stands_for_bytes(vmad(e, data), data));
        assert forall|bits: nat| stands_for_bytes(#[trigger] vmad_by_flags(e, data, bits), data) by {
            assert(vmad_by_flags(e, data, bits) == vmad(e, data));
        }
    }
}

// ── Fragments ──────────────────────────────────────────────────────────────
/// A fragment: what stands before its names, the name of its script, and its
/// own name.
pub ghost struct Fragment {
    pub number: u32,
    pub index: u32,
    pub flag: u8,
    pub unused: u8,
    pub script: Seq<u8>,
    pub name: Seq<u8>,
}

/// How fragments are laid out.
pub ghost enum Layout {
    /// One unused byte.
    Named,
    /// A number and an unused byte.
    Indexed,
    /// A stage, an index and an unused byte.
    Stage,
    /// A flag, a number and an unused byte.
    Phase,
}

/// What stands before the names of a fragment.
pub open spec fn fragment_lead(f: Fragment, l: Layout) -> Seq<u8> {
    match l {
        Layout::Named => seq![f.unused],
        Layout::Indexed => bytes4(f.number as int) + seq![f.unused],
        Layout::Stage => bytes4(f.number as int) + (bytes4(f.index as int) + seq![f.unused]),
        Layout::Phase => seq![f.flag] + (bytes4(f.number as int) + seq![f.unused]),
    }
}

/// The bytes of the fragments from `i` on.
pub open spec fn fragments_bytes(list: Seq<Fragment>, l: Layout, i: nat) -> Seq<u8>
    decreases list.len() - i,
{
    if i >= list.len() {
        Seq::empty()
    } else {
        let f = list[i as int];
        fragment_lead(f, l) + (text_bytes(f.script) + (text_bytes(f.name) + fragments_bytes(
            list,
            l,
            i + 1,
        )))
    }
}

/// A fragment as it is presented. `version` is that of the attachment.
pub open spec fn shown_fragment(f: Fragment, l: Layout, version: int) -> Json {
    let script_name = Json::Str(lossy(f.script));
    let fragment_name = Json::Str(lossy(f.name));
    Json::Obj(
        match l {
            Layout::Named => obj3(
                "extra_bind_data_version"@,
                Json::Int(version),
                "script_name"@,
                script_name,
                "fragment_name"@,
                fragment_name,
            ),
            Layout::Indexed => obj3(
                "fragment_index"@,
                Json::Int(f.number as int),
                "script_name"@,
                script_name,
                "fragment_name"@,
                fragment_name,
            ),
            Layout::Stage => obj4(
                "quest_stage"@,
                Json::Int(f.number as int),
                "quest_stage_index"@,
                Json::Int(f.index as int),
                "script_name"@,
                script_name,
                "fragment_name"@,
                fragment_name,
            ),
            Layout::Phase => obj4(
                "phase_flag"@,
                Json::Int(f.flag as int),
                "phase_index"@,
                Json::Int(f.number as int),
                "script_name"@,
                script_name,
                "fragment_name"@,
                fragment_name,
            ),
        },
    )
}

/// Fragments as they are presented.
pub open spec fn shown_fragments(list: Seq<Fragment>, l: Layout, version: int) -> Seq<Json> {
    Seq::new(list.len(), |i: int| shown_fragment(list[i], l, version))
}

/// Whether fragments can be written.
pub open spec fn fragments_writable(list: Seq<Fragment>) -> bool {
    list.len() < 0x1_0000 && forall|i: int|
        0 <= i < list.len() ==> (#[trigger] list[i]).script.len() < 0x1_0000 && list[i].name.len()
            < 0x1_0000
}

/// What reading `count` fragments of a layout gives.
spec fn read_layout(
    data: Seq<u8>,
    pos: int,
    l: Layout,
    version: int,
    count: int,
    acc: Seq<Json>,
) -> Result<(Seq<Json>, int), int> {
    match l {
        Layout::Named => named_fragments(data, pos, version, count, acc),
        Layout::Indexed => indexed_fragments(data, pos, count, acc),
        Layout::Stage => stage_fragments(data, pos, count, acc),
        Layout::Phase => phase_fragments(data, pos, count, acc),
    }
}

proof fn lemma_read_lead(data: Seq<u8>, pos: int, l: Layout, f: Fragment)
    requires
        holds_at(data, pos, fragment_lead(f, l)),
    ensures
        l is Indexed ==> le4(data, pos) == f.number,
        l is Stage ==> le4(data, pos) == f.number && le4(data, pos + 4) == f.index,
        l is Phase ==> data[pos] == f.flag && le4(data, pos + 1) == f.number,
{
    match l {
        Layout::Named => {},
        Layout::Indexed => {
            lemma_split(data, pos, bytes4(f.number as int), seq![f.unused]);
            lemma_bytes4(data, pos, f.number as int);
        },
        Layout::Stage => {
            let tail = bytes4(f.index as int) + seq![f.unused];
            lemma_split(data, pos, bytes4(f.number as int), tail);
            lemma_split(data, pos + 4, bytes4(f.index as int), seq![f.unused]);
            lemma_bytes4(data, pos, f.number as int);
            lemma_bytes4(data, pos + 4, f.index as int);
        },
        Layout::Phase => {
            lemma_split(data, pos, seq![f.flag], bytes4(f.number as int) + seq![f.unused]);
            lemma_split(data, pos + 1, bytes4(f.number as int), seq![f.unused]);
            lemma_byte(data, pos, seq![f.flag], 0);
            lemma_bytes4(data, pos + 1, f.number as int);
        },
    }
}

proof fn lemma_named_step(
    data: Seq<u8>,
    pos: int,
    version: int,
    f: Fragment,
    count: int,
    acc: Seq<Json>,
    q: int,
    r: int,
)
    requires
        count > 0,
        wstring(data, pos + 1) == Ok::<(Seq<char>, int), int>((lossy(f.script), q)),
        wstring(data, q) == Ok::<(Seq<char>, int), int>((lossy(f.name), r)),
    ensures
        named_fragments(data, pos, version, count, acc) == named_fragments(
            data,
            r,
            version,
            count - 1,
            acc.push(shown_fragment(f, Layout::Named, version)),
        ),
{
}

proof fn lemma_indexed_step(
    data: Seq<u8>,
    pos: int,
    f: Fragment,
    count: int,
    acc: Seq<Json>,
    q: int,
    r: int,
)
    requires
        count > 0,
        le4(data, pos) == f.number,
        wstring(data, pos + 5) == Ok::<(Seq<char>, int), int>((lossy(f.script), q)),
        wstring(data, q) == Ok::<(Seq<char>, int), int>((lossy(f.name), r)),
    ensures
        indexed_fragments(data, pos, count, acc) == indexed_fragments(
            data,
            r,
            count - 1,
            acc.push(shown_fragment(f, Layout::Indexed, 0)),
        ),
{
}

proof fn lemma_stage_step(
    data: Seq<u8>,
    pos: int,
    f: Fragment,
    count: int,
    acc: Seq<Json>,
    q: int,
    r: int,
)
    requires
        count > 0,
        le4(data, pos) == f.number,
        le4(data, pos + 4) == f.index,
        wstring(data, pos + 9) == Ok::<(Seq<char>, int), int>((lossy(f.script), q)),
        wstring(data, q) == Ok::<(Seq<char>, int), int>((lossy(f.name), r)),
    ensures
        stage_fragments(data, pos, count, acc) == stage_fragments(
            data,
            r,
            count - 1,
            acc.push(shown_fragment(f, Layout::Stage, 0)),
        ),
{
}

proof fn lemma_phase_step(
    data: Seq<u8>,
    pos: int,
    f: Fragment,
    count: int,
    acc: Seq<Json>,
    q: int,
    r: int,
)
    requires
        count > 0,
        data[pos] == f.flag,
        le4(data, pos + 1) == f.number,
        wstring(data, pos + 6) == Ok::<(Seq<char>, int), int>((lossy(f.script), q)),
        wstring(data, q) == Ok::<(Seq<char>, int), int>((lossy(f.name), r)),
    ensures
        phase_fragments(data, pos, count, acc) == phase_fragments(
            data,
            r,
            count - 1,
            acc.push(shown_fragment(f, Layout::Phase, 0)),
        ),
{
}

proof fn lemma_read_fragment(
    data: Seq<u8>,
    pos: int,
    l: Layout,
    version: int,
    f: Fragment,
    count: int,
    acc: Seq<Json>,
)
    requires
        count > 0,
        f.script.len() < 0x1_0000,
        f.name.len() < 0x1_0000,
        holds_at(data, pos, fragment_lead(f, l)),
        holds_at(data, pos + fragment_lead(f, l).len(), text_bytes(f.script)),
        holds_at(
            data,
            pos + fragment_lead(f, l).len() + text_bytes(f.script).len(),
            text_bytes(f.name),
        ),
    ensures
        read_layout(data, pos, l, version, count, acc) == read_layout(
            data,
            pos + fragment_lead(f, l).len() + text_bytes(f.script).len() + text_bytes(f.name).len(),
            l,
            version,
            count - 1,
            acc.push(shown_fragment(f, l, version)),
        ),
{
    let p = pos + fragment_lead(f, l).len();
    let q = p + text_bytes(f.script).len();
    let r = q + text_bytes(f.name).len();
    lemma_read_lead(data, pos, l, f);
    lemma_text(data, p, f.script);
    lemma_text(data, q, f.name);
    match l {
        Layout::Named => lemma_named_step(data, pos, version, f, count, acc, q, r),
        Layout::Indexed => lemma_indexed_step(data, pos, f, count, acc, q, r),
        Layout::Stage => lemma_stage_step(data, pos, f, count, acc, q, r),
        Layout::Phase => lemma_phase_step(data, pos, f, count, acc, q, r),
    }
}

proof fn lemma_read_fragments(
    data: Seq<u8>,
    pos: int,
    l: Layout,
    version: int,
    list: Seq<Fragment>,
    i: nat,
    acc: Seq<Json>,
)
    requires
        i <= list.len(),
        fragments_writable(list),
        holds_at(data, pos, fragments_bytes(list, l, i)),
    ensures
        read_layout(data, pos, l, version, list.len() - i, acc) == Ok::<(Seq<Json>, int), int>(
            (
                acc + shown_fragments(list, l, version).skip(i as int),
                pos + fragments_bytes(list, l, i).len(),
            ),
        ),
    decreases list.len() - i,
{
    let all = shown_fragments(list, l, version);
    if i < list.len() {
        let f = list[i as int];
        let lead = fragment_lead(f, l);
        let a = text_bytes(f.script);
        let b = text_bytes(f.name);
        let others = fragments_bytes(list, l, i + 1);
        lemma_split(data, pos, lead, a + (b + others));
        let p = pos + lead.len();
        lemma_split(data, p, a, b + others);
        let q = p + a.len();
        lemma_split(data, q, b, others);
        let x = shown_fragment(f, l, version);
        lemma_read_fragment(data, pos, l, version, f, list.len() - i, acc);
        lemma_read_fragments(data, q + b.len(), l, version, list, i + 1, acc.push(x));
        assert(acc.push(x) + all.skip(i as int + 1) =~= acc + all.skip(i as int));
    } else {
        assert(acc + all.skip(i as int) =~= acc);
    }
}

proof fn lemma_read_all_fragments(
    data: Seq<u8>,
    pos: int,
    l: Layout,
    version: int,
    list: Seq<Fragment>,
)
    requires
        fragments_writable(list),
        holds_at(data, pos, fragments_bytes(list, l, 0)),
    ensures
        read_layout(data, pos, l, version, list.len() as int, Seq::empty()) == Ok::<
            (Seq<Json>, int),
            int,
        >((shown_fragments(list, l, version), pos + fragments_bytes(list, l, 0).len())),
{
    lemma_read_fragments(data, pos, l, version, list, 0, Seq::empty());
    let all = shown_fragments(list, l, version);
    assert(Seq::<Json>::empty() + all.skip(0) =~= all);
}

/// A number of one byte with its sign.
pub open spec fn signed_byte(b: u8) -> int {
    if b < 128 {
        b as int
    } else {
        b - 256
    }
}

/// How many of the lowest flags of a byte are set.
pub open spec fn flags_set(flags: u8, bits: nat) -> int
    decreases bits,
{
    if bits == 0 {
        0
    } else {
        flags_set(flags, (bits - 1) as nat) + if (flags as int / pow2((bits - 1) as nat)) % 2 == 1 {
            1int
        } else {
            0int
        }
    }
}

/// Two to the power of `n`.
pub open spec fn pow2(n: nat) -> int
    decreases n,
{
    if n == 0 {
        1
    } else {
        2 * pow2((n - 1) as nat)
    }
}

proof fn lemma_flags_set(flags: u8)
    ensures
        low_ones(flags as int, 2) == flags_set(flags, 2),
        low_ones(flags as int, 3) == flags_set(flags, 3),
{
    let n = flags as int;
    assert(pow2(0) == 1 && pow2(1) == 2 && pow2(2) == 4) by {
        reveal_with_fuel(pow2, 3);
    }
    reveal_with_fuel(low_ones, 4);
    reveal_with_fuel(flags_set, 4);
    assert(n / 1 == n && n / 2 / 2 == n / 4);
}

/// The fragments of an attachment with flags: a version, the flags, a script,
/// and a fragment for each flag that is set.
pub open spec fn flagged_bytes(version: u8, flags: u8, s: Script, list: Seq<Fragment>, fmt: u16) -> Seq<
    u8,
> {
    seq![version, flags] + (script_bytes(s, fmt) + fragments_bytes(list, Layout::Named, 0))
}

proof fn lemma_read_flagged<R: FormIdRefResolver>(
    e: Env<R>,
    data: Seq<u8>,
    pos: int,
    fmt: u16,
    bits: nat,
    version: u8,
    flags: u8,
    s: Script,
    list: Seq<Fragment>,
)
    requires
        bits == 2 || bits == 3,
        script_writable(s),
        fragments_writable(list),
        list.len() == flags_set(flags, bits),
        holds_at(data, pos, flagged_bytes(version, flags, s, list, fmt)),
    ensures
        flag_fragments(e, data, pos, fmt, bits) matches Ok((f, q)) && f.flags == flags as int
            && f.script_entry == shown_script(e, s) && f.fragments == shown_fragments(
            list,
            Layout::Named,
            signed_byte(version),
        ) && q == pos + flagged_bytes(version, flags, s, list, fmt).len(),
{
    let lead = seq![version, flags];
    let a = script_bytes(s, fmt);
    let b = fragments_bytes(list, Layout::Named, 0);
    lemma_split(data, pos, lead, a + b);
    lemma_split(data, pos + 2, a, b);
    lemma_byte(data, pos, lead, 0);
    lemma_byte(data, pos, lead, 1);
    lemma_flags_set(flags);
    lemma_read_script(e, data, pos + 2, fmt, s);
    lemma_read_all_fragments(data, pos + 2 + a.len(), Layout::Named, signed_byte(version), list);
}

/// An attachment with flags shows its version, its scripts, its flags, their
/// script, and the fragment of each of the two or three lowest flags that is
/// set.
pub proof fn law_flagged_attachment_reads_back<R: FormIdRefResolver>(
    e: Env<R>,
    data: Seq<u8>,
    bits: nat,
    version: u16,
    fmt: u16,
    list: Seq<Script>,
    bind: u8,
    flags: u8,
    s: Script,
    fragments: Seq<Fragment>,
)
    requires
        bits == 2 || bits == 3,
        scripts_writable(list),
        script_writable(s),
        fragments_writable(fragments),
        fragments.len() == flags_set(flags, bits),
        holds_at(
            data,
            0,
            head_bytes(version, fmt, list) + flagged_bytes(bind, flags, s, fragments, fmt),
        ),
    ensures
        vmad_by_flags(e, data, bits) == Json::Obj(
            obj3(
                "version"@,
                Json::Int(version as int),
                "scripts"@,
                Json::Arr(shown_scripts(e, list)),
                "script_fragments"@,
                Json::Obj(
                    obj3(
                        "flags"@,
                        Json::Int(flags as int),
                        "script_entry"@,
                        shown_script(e, s),
                        "fragments"@,
                        Json::Arr(shown_fragments(fragments, Layout::Named, signed_byte(bind))),
                    ),
                ),
            ),
        ),
{
    let h = head_bytes(version, fmt, list);
    let f = flagged_bytes(bind, flags, s, fragments, fmt);
    lemma_split(data, 0, h, f);
    law_head_reads_back(e, data, version, fmt, list);
    lemma_read_flagged(e, data, h.len() as int, fmt, bits, bind, flags, s, fragments);
}

/// The attachment of a perk shows its version, its scripts, and the script and
/// all indexed fragments behind them.
pub proof fn law_perk_attachment_reads_back<R: FormIdRefResolver>(
    e: Env<R>,
    data: Seq<u8>,
    version: u16,
    fmt: u16,
    list: Seq<Script>,
    bind: u8,
    s: Script,
    fragments: Seq<Fragment>,
)
    requires
        scripts_writable(list),
        script_writable(s),
        fragments_writable(fragments),
        holds_at(
            data,
            0,
            head_bytes(version, fmt, list) + (seq![bind] + (script_bytes(s, fmt) + (bytes2(
                fragments.len() as int,
            ) + fragments_bytes(fragments, Layout::Indexed, 0)))),
        ),
    ensures
        vmad_perk(e, data) == Json::Obj(
            obj3(
                "version"@,
                Json::Int(version as int),
                "scripts"@,
                Json::Arr(shown_scripts(e, list)),
                "script_fragments"@,
                Json::Obj(
                    obj3(
                        "extra_bind_data_version"@,
                        Json::Int(signed_byte(bind)),
                        "script_entry"@,
                        shown_script(e, s),
                        "fragments"@,
                        Json::Arr(shown_fragments(fragments, Layout::Indexed, 0)),
                    ),
                ),
            ),
        ),
{
    let h = head_bytes(version, fmt, list);
    let a = script_bytes(s, fmt);
    let n = bytes2(fragments.len() as int);
    let f = fragments_bytes(fragments, Layout::Indexed, 0);
    let p = h.len() as int;
    lemma_split(data, 0, h, seq![bind] + (a + (n + f)));
    lemma_split(data, p, seq![bind], a + (n + f));
    lemma_split(data, p + 1, a, n + f);
    lemma_split(data, p + 1 + a.len(), n, f);
    law_head_reads_back(e, data, version, fmt, list);
    lemma_byte(data, p, seq![bind], 0);
    lemma_read_script(e, data, p + 1, fmt, s);
    lemma_bytes2(data, p + 1 + a.len(), fragments.len() as int);
    lemma_read_all_fragments(data, p + 1 + a.len() + 2, Layout::Indexed, 0, fragments);
}

/// The attachment of a scene shows its version, its scripts, its flags, their
/// script and fragments, and all phase fragments behind them.
pub proof fn law_scene_attachment_reads_back<R: FormIdRefResolver>(
    e: Env<R>,
    data: Seq<u8>,
    version: u16,
    fmt: u16,
    list: Seq<Script>,
    bind: u8,
    flags: u8,
    s: Script,
    fragments: Seq<Fragment>,
    phases: Seq<Fragment>,
)
    requires
        scripts_writable(list),
        script_writable(s),
        fragments_writable(fragments),
        fragments_writable(phases),
        fragments.len() == flags_set(flags, 2),
        holds_at(
            data,
            0,
            head_bytes(version, fmt, list) + (flagged_bytes(bind, flags, s, fragments, fmt) + (
            bytes2(phases.len() as int) + fragments_bytes(phases, Layout::Phase, 0))),
        ),
    ensures
        vmad_scen(e, data) == Json::Obj(
            obj3(
                "version"@,
                Json::Int(version as int),
                "scripts"@,
                Json::Arr(shown_scripts(e, list)),
                "script_fragments"@,
                Json::Obj(
                    obj4(
                        "flags"@,
                        Json::Int(flags as int),
                        "script_entry"@,
                        shown_script(e, s),
                        "fragments"@,
                        Json::Arr(shown_fragments(fragments, Layout::Named, signed_byte(bind))),
                        "phase_fragments"@,
                        Json::Arr(shown_fragments(phases, Layout::Phase, 0)),
                    ),
                ),
            ),
        ),
{
    let h = head_bytes(version, fmt, list);
    let f = flagged_bytes(bind, flags, s, fragments, fmt);
    let n = bytes2(phases.len() as int);
    let g = fragments_bytes(phases, Layout::Phase, 0);
    let p = h.len() as int;
    lemma_split(data, 0, h, f + (n + g));
    lemma_split(data, p, f, n + g);
    lemma_split(data, p + f.len(), n, g);
    law_head_reads_back(e, data, version, fmt, list);
    lemma_read_flagged(e, data, p, fmt, 2, bind, flags, s, fragments);
    lemma_bytes2(data, p + f.len(), phases.len() as int);
    lemma_read_all_fragments(data, p + f.len() + 2, Layout::Phase, 0, phases);
}

// ── Quests ─────────────────────────────────────────────────────────────────
/// An alias of a quest. Its scripts have an object format of their own.
pub ghost struct Alias {
    pub number: u16,
    pub unused: u16,
    pub form: u32,
    pub version: u16,
    pub fmt: u16,
    pub scripts: Seq<Script>,
}

/// The bytes of an alias; object format 1 has no number.
pub open spec fn alias_bytes(a: Alias, fmt: u16) -> Seq<u8> {
    let tail = bytes2(a.version as int) + (bytes2(a.fmt as int) + (bytes2(a.scripts.len() as int)
        + scripts_bytes(a.scripts, 0, a.fmt)));
    if fmt >= 2 {
        bytes2(a.number as int) + (bytes2(a.unused as int) + (bytes4(a.form as int) + tail))
    } else {
        bytes4(a.form as int) + tail
    }
}

/// The bytes of the aliases from `i` on.
pub open spec fn aliases_bytes(list: Seq<Alias>, fmt: u16, i: nat) -> Seq<u8>
    decreases list.len() - i,
{
    if i >= list.len() {
        Seq::empty()
    } else {
        alias_bytes(list[i as int], fmt) + aliases_bytes(list, fmt, i + 1)
    }
}

/// An alias as it is presented.
pub open spec fn shown_alias<R: FormIdRefResolver>(e: Env<R>, a: Alias, fmt: u16) -> Json {
    Json::Obj(
        obj3(
            "alias_id"@,
            Json::Int(
                if fmt >= 2 {
                    a.number as int
                } else {
                    0
                },
            ),
            "form_id"@,
            resolved(e, false, a.form),
            "alias_scripts"@,
            Json::Arr(shown_scripts(e, a.scripts)),
        ),
    )
}

/// Aliases as they are presented.
pub open spec fn shown_aliases<R: FormIdRefResolver>(e: Env<R>, list: Seq<Alias>, fmt: u16) -> Seq<
    Json,
> {
    Seq::new(list.len(), |i: int| shown_alias(e, list[i], fmt))
}

/// Whether aliases can be written.
pub open spec fn aliases_writable(list: Seq<Alias>) -> bool {
    list.len() < 0x1_0000 && forall|i: int|
        0 <= i < list.len() ==> scripts_writable((#[trigger] list[i]).scripts)
}

proof fn lemma_read_alias_scripts<R: FormIdRefResolver>(
    e: Env<R>,
    data: Seq<u8>,
    p: int,
    a: Alias,
)
    requires
        scripts_writable(a.scripts),
        holds_at(
            data,
            p,
            bytes2(a.version as int) + (bytes2(a.fmt as int) + (bytes2(a.scripts.len() as int)
                + scripts_bytes(a.scripts, 0, a.fmt))),
        ),
    ensures
        p + 6 <= data.len(),
        le2(data, p + 2) == a.fmt,
        le2(data, p + 4) == a.scripts.len(),
        scripts(e, data, p + 6, a.fmt, a.scripts.len() as int, Seq::empty()) == Ok::<
            (Seq<Json>, int),
            int,
        >((shown_scripts(e, a.scripts), p + 6 + scripts_bytes(a.scripts, 0, a.fmt).len())),
{
    let v = bytes2(a.version as int);
    let f = bytes2(a.fmt as int);
    let n = bytes2(a.scripts.len() as int);
    let s = scripts_bytes(a.scripts, 0, a.fmt);
    lemma_split(data, p, v, f + (n + s));
    lemma_split(data, p + 2, f, n + s);
    lemma_split(data, p + 4, n, s);
    lemma_bytes2(data, p + 2, a.fmt as int);
    lemma_bytes2(data, p + 4, a.scripts.len() as int);
    lemma_read_scripts(e, data, p + 6, a.fmt, a.scripts, 0, Seq::empty());
    let all = shown_scripts(e, a.scripts);
    assert(Seq::<Json>::empty() + all.skip(0) =~= all);
}

proof fn lemma_read_alias_form(data: Seq<u8>, pos: int, fmt: u16, a: Alias)
    requires
        holds_at(data, pos, alias_bytes(a, fmt)),
    ensures
        ({
            let tail = bytes2(a.version as int) + (bytes2(a.fmt as int) + (bytes2(
                a.scripts.len() as int,
            ) + scripts_bytes(a.scripts, 0, a.fmt)));
            if fmt >= 2 {
                &&& le2(data, pos) == a.number
                &&& le4(data, pos + 4) == a.form
                &&& holds_at(data, pos + 8, tail)
                &&& alias_bytes(a, fmt).len() == 8 + tail.len()
            } else {
                &&& le4(data, pos) == a.form
                &&& holds_at(data, pos + 4, tail)
                &&& alias_bytes(a, fmt).len() == 4 + tail.len()
            }
        }),
{
    let tail = bytes2(a.version as int) + (bytes2(a.fmt as int) + (bytes2(a.scripts.len() as int)
        + scripts_bytes(a.scripts, 0, a.fmt)));
    let form = bytes4(a.form as int);
    if fmt >= 2 {
        let num = bytes2(a.number as int);
        let un = bytes2(a.unused as int);
        lemma_split(data, pos, num, un + (form + tail));
        lemma_split(data, pos + 2, un, form + tail);
        lemma_split(data, pos + 4, form, tail);
        lemma_bytes2(data, pos, a.number as int);
        lemma_bytes4(data, pos + 4, a.form as int);
    } else {
        lemma_split(data, pos, form, tail);
        lemma_bytes4(data, pos, a.form as int);
    }
}

proof fn lemma_read_alias<R: FormIdRefResolver>(
    e: Env<R>,
    data: Seq<u8>,
    pos: int,
    fmt: u16,
    a: Alias,
)
    requires
        scripts_writable(a.scripts),
        holds_at(data, pos, alias_bytes(a, fmt)),
    ensures
        alias(e, data, pos, fmt) == Ok::<(Json, int), int>(
            (shown_alias(e, a, fmt), pos + alias_bytes(a, fmt).len()),
        ),
{
    lemma_read_alias_form(data, pos, fmt, a);
    let size: int = if fmt >= 2 {
        8
    } else {
        4
    };
    lemma_read_alias_scripts(e, data, pos + size, a);
}

#[verifier::rlimit(60)]
proof fn lemma_read_aliases<R: FormIdRefResolver>(
    e: Env<R>,
    data: Seq<u8>,
    pos: int,
    fmt: u16,
    list: Seq<Alias>,
    i: nat,
    acc: Seq<Json>,
)
    requires
        i <= list.len(),
        aliases_writable(list),
        holds_at(data, pos, aliases_bytes(list, fmt, i)),
    ensures
        aliases(e, data, pos, fmt, list.len() - i, acc) == Ok::<(Seq<Json>, int), int>(
            (
                acc + shown_aliases(e, list, fmt).skip(i as int),
                pos + aliases_bytes(list, fmt, i).len(),
            ),
        ),
    decreases list.len() - i,
{
    let all = shown_aliases(e, list, fmt);
    if i < list.len() {
        let a = list[i as int];
        lemma_split(data, pos, alias_bytes(a, fmt), aliases_bytes(list, fmt, i + 1));
        lemma_read_alias(e, data, pos, fmt, a);
        let x = shown_alias(e, a, fmt);
        lemma_read_aliases(
            e,
            data,
            pos + alias_bytes(a, fmt).len(),
            fmt,
            list,
            i + 1,
            acc.push(x),
        );
        assert(acc.push(x) + all.skip(i as int + 1) =~= acc + all.skip(i as int));
    } else {
        assert(acc + all.skip(i as int) =~= acc);
    }
}

/// The stage fragments of a quest: a version, how many there are, the name of
/// their script, where there is one its flags and properties, and the
/// fragments.
pub open spec fn stages_bytes(
    bind: u8,
    name: Seq<u8>,
    flags: u8,
    props: Seq<(Seq<u8>, u8, Papyrus)>,
    list: Seq<Fragment>,
    fmt: u16,
) -> Seq<u8> {
    let own = if lossy(name).len() == 0 {
        Seq::empty()
    } else {
        seq![flags] + (bytes2(props.len() as int) + member_bytes(props, 0, fmt))
    };
    seq![bind] + (bytes2(list.len() as int) + (text_bytes(name) + (own + fragments_bytes(
        list,
        Layout::Stage,
        0,
    ))))
}

/// The stage fragments of a quest as they are presented.
pub open spec fn shown_stages<R: FormIdRefResolver>(
    e: Env<R>,
    bind: u8,
    name: Seq<u8>,
    flags: u8,
    props: Seq<(Seq<u8>, u8, Papyrus)>,
    list: Seq<Fragment>,
) -> Json {
    Json::Obj(
        obj4(
            "extra_bind_data_version"@,
            Json::Int(signed_byte(bind)),
            "script_name"@,
            Json::Str(lossy(name)),
            "script_data"@,
            if lossy(name).len() == 0 {
                Json::Null
            } else {
                Json::Obj(
                    obj2(
                        "flags"@,
                        Json::Int(flags as int),
                        "properties"@,
                        Json::Arr(shown_members(e, props, 0)),
                    ),
                )
            },
            "fragments"@,
            Json::Arr(shown_fragments(list, Layout::Stage, 0)),
        ),
    )
}

#[verifier::rlimit(60)]
proof fn lemma_read_stages<R: FormIdRefResolver>(
    e: Env<R>,
    data: Seq<u8>,
    pos: int,
    fmt: u16,
    bind: u8,
    name: Seq<u8>,
    flags: u8,
    props: Seq<(Seq<u8>, u8, Papyrus)>,
    list: Seq<Fragment>,
)
    requires
        name.len() < 0x1_0000,
        props.len() < 0x1_0000,
        members_writable(props, 0),
        fragments_writable(list),
        holds_at(data, pos, stages_bytes(bind, name, flags, props, list, fmt)),
    ensures
        quest_fragments(e, data, pos, fmt) == Ok::<(Json, int), int>(
            (
                shown_stages(e, bind, name, flags, props, list),
                pos + stages_bytes(bind, name, flags, props, list, fmt).len(),
            ),
        ),
{
    let own = if lossy(name).len() == 0 {
        Seq::empty()
    } else {
        seq![flags] + (bytes2(props.len() as int) + member_bytes(props, 0, fmt))
    };
    let n = bytes2(list.len() as int);
    let t = text_bytes(name);
    let g = fragments_bytes(list, Layout::Stage, 0);
    lemma_split(data, pos, seq![bind], n + (t + (own + g)));
    lemma_split(data, pos + 1, n, t + (own + g));
    lemma_split(data, pos + 3, t, own + g);
    let p = pos + 3 + t.len();
    lemma_split(data, p, own, g);
    lemma_byte(data, pos, seq![bind], 0);
    lemma_bytes2(data, pos + 1, list.len() as int);
    lemma_text(data, pos + 3, name);
    if lossy(name).len() > 0 {
        let c = bytes2(props.len() as int);
        let m = member_bytes(props, 0, fmt);
        lemma_split(data, p, seq![flags], c + m);
        lemma_split(data, p + 1, c, m);
        lemma_byte(data, p, seq![flags], 0);
        lemma_bytes2(data, p + 1, props.len() as int);
        lemma_read_members(e, data, p + 3, fmt, props, 0, Seq::empty());
        assert(Seq::<Json>::empty() + shown_members(e, props, 0) =~= shown_members(e, props, 0));
    }
    lemma_read_all_fragments(data, p + own.len(), Layout::Stage, 0, list);
}

/// The attachment of a quest shows its version, its scripts, its stage
/// fragments and all its aliases.
#[verifier::rlimit(60)]
pub proof fn law_quest_attachment_reads_back<R: FormIdRefResolver>(
    e: Env<R>,
    data: Seq<u8>,
    version: u16,
    fmt: u16,
    list: Seq<Script>,
    bind: u8,
    name: Seq<u8>,
    flags: u8,
    props: Seq<(Seq<u8>, u8, Papyrus)>,
    stages: Seq<Fragment>,
    quest_aliases: Seq<Alias>,
)
    requires
        scripts_writable(list),
        name.len() < 0x1_0000,
        props.len() < 0x1_0000,
        members_writable(props, 0),
        fragments_writable(stages),
        aliases_writable(quest_aliases),
        holds_at(
            data,
            0,
            head_bytes(version, fmt, list) + (stages_bytes(bind, name, flags, props, stages, fmt)
                + (bytes2(quest_aliases.len() as int) + aliases_bytes(quest_aliases, fmt, 0))),
        ),
    ensures
        vmad_qust(e, data) == Json::Obj(
            obj4(
                "version"@,
                Json::Int(version as int),
                "scripts"@,
                Json::Arr(shown_scripts(e, list)),
                "script_fragments"@,
                shown_stages(e, bind, name, flags, props, stages),
                "aliases"@,
                Json::Arr(shown_aliases(e, quest_aliases, fmt)),
            ),
        ),
{
    let h = head_bytes(version, fmt, list);
    let s = stages_bytes(bind, name, flags, props, stages, fmt);
    let n = bytes2(quest_aliases.len() as int);
    let g = aliases_bytes(quest_aliases, fmt, 0);
    let p = h.len() as int;
    lemma_split(data, 0, h, s + (n + g));
    lemma_split(data, p, s, n + g);
    lemma_split(data, p + s.len(), n, g);
    law_head_reads_back(e, data, version, fmt, list);
    lemma_read_stages(e, data, p, fmt, bind, name, flags, props, stages);
    lemma_bytes2(data, p + s.len(), quest_aliases.len() as int);
    lemma_read_aliases(e, data, p + s.len() + 2, fmt, quest_aliases, 0, Seq::empty());
    let all = shown_aliases(e, quest_aliases, fmt);
    assert(Seq::<Json>::empty() + all.skip(0) =~= all);
}

} // verus!
