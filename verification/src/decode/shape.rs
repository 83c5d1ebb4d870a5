//! What decoding gives, in terms of the bytes and subrecords it is given.
use crate::curves::float_json;
use crate::decode::context::{Env, FormIdRefResolver, ResolveDepth};
use crate::decode::meaning::{field_size, member, packed, packed_sub, packed_subs, value};
use crate::decode::scalars::{
    float_at, formatted, formid_at, int_at, pattern64, rgba_at, set_flags, string_json, vec3_at,
};
use crate::decode::scope::{with_sig, without_sig};
use crate::format::{le2, le4, le8};
use crate::json::{get, nothing, obj1, obj2, obj3, obj4, put, Entries, Json};
use crate::order::{keys_increase, law_get_after_put};
use crate::reader::Sub;
use crate::schema::{lookup, EnumFormat, FieldDef, IntegerWidth, MemberDef, ValueFormat};
use crate::text::{before_nul, decimal, hex8, hex_upper, lossy, trim_nuls};
use vstd::prelude::*;

verus! {

// ── Numbers ────────────────────────────────────────────────────────────────
/// The number that `n` bytes from `pos` on write, the lowest byte first.
pub open spec fn stored(data: Seq<u8>, pos: int, n: nat) -> int
    decreases n,
{
    if n == 0 {
        0
    } else {
        data[pos] + 256 * stored(data, pos + 1, (n - 1) as nat)
    }
}

/// What has to be subtracted from a number of `n` bytes to read it with a
/// sign: twice its half where its highest bit is set.
pub open spec fn with_sign(v: int, half: int) -> int {
    if v < half {
        v
    } else {
        v - half - half
    }
}

proof fn lemma_stored(data: Seq<u8>, pos: int)
    ensures
        stored(data, pos, 1) == data[pos],
        stored(data, pos, 2) == le2(data, pos),
        stored(data, pos, 4) == le4(data, pos),
        stored(data, pos, 8) == le8(data, pos),
{
    reveal_with_fuel(stored, 9);
}

/// An integer is its bytes, the lowest first, with or without a sign; a number
/// of eight bytes always has one. It is there where all its bytes are.
pub proof fn law_integer_is_its_bytes(data: Seq<u8>)
    ensures
        data.len() >= 1 ==> int_at(data, IntegerWidth::U8) == Some(stored(data, 0, 1)),
        data.len() >= 1 ==> int_at(data, IntegerWidth::S8) == Some(
            with_sign(stored(data, 0, 1), 0x80),
        ),
        data.len() >= 2 ==> int_at(data, IntegerWidth::U16) == Some(stored(data, 0, 2)),
        data.len() >= 2 ==> int_at(data, IntegerWidth::S16) == Some(
            with_sign(stored(data, 0, 2), 0x8000),
        ),
        data.len() >= 4 ==> int_at(data, IntegerWidth::U32) == Some(stored(data, 0, 4)),
        data.len() >= 4 ==> int_at(data, IntegerWidth::S32) == Some(
            with_sign(stored(data, 0, 4), 0x8000_0000),
        ),
        data.len() >= 8 ==> int_at(data, IntegerWidth::U64) == Some(
            with_sign(stored(data, 0, 8), 0x8000_0000_0000_0000),
        ),
        data.len() >= 8 ==> int_at(data, IntegerWidth::S64) == Some(
            with_sign(stored(data, 0, 8), 0x8000_0000_0000_0000),
        ),
        data.len() < 1 ==> int_at(data, IntegerWidth::U8) is None && int_at(
            data,
            IntegerWidth::S8,
        ) is None,
        data.len() < 2 ==> int_at(data, IntegerWidth::U16) is None && int_at(
            data,
            IntegerWidth::S16,
        ) is None,
        data.len() < 4 ==> int_at(data, IntegerWidth::U32) is None && int_at(
            data,
            IntegerWidth::S32,
        ) is None,
        data.len() < 8 ==> int_at(data, IntegerWidth::U64) is None && int_at(
            data,
            IntegerWidth::S64,
        ) is None,
{
    lemma_stored(data, 0);
}

proof fn lemma_two(a: Seq<char>, x: Json, b: Seq<char>, y: Json)
    requires
        a != b,
    ensures
        get(obj2(a, x, b, y), a) == Some(x),
        get(obj2(a, x, b, y), b) == Some(y),
{
    assert(keys_increase(nothing()));
    crate::order::law_put_keeps_order(nothing(), a, x);
    law_get_after_put(nothing(), a, x, a);
    law_get_after_put(obj1(a, x), b, y, a);
    law_get_after_put(obj1(a, x), b, y, b);
}

/// Whether a value is a number with a name.
pub open spec fn number_named(v: Json, n: int, name: Seq<char>) -> bool {
    v matches Json::Obj(o) && get(o, "value"@) == Some(Json::Int(n)) && get(o, "name"@) == Some(
        Json::Str(name),
    )
}

/// A number without a format is the number; one of an enum has the name at its
/// place in the list, or the one that the table has for it in decimal, and is
/// the plain number where there is none.
pub proof fn law_enums_name_numbers(v: int, names: Vec<String>, map: Vec<(String, String)>)
    ensures
        formatted(v, None) == Json::Int(v),
        ({
            let f = formatted(v, Some(ValueFormat::Enum { values: EnumFormat::Dense(names) }));
            if 0 <= v < names.len() {
                number_named(f, v, names@[v]@)
            } else {
                f == Json::Int(v)
            }
        }),
        ({
            let f = formatted(v, Some(ValueFormat::Enum { values: EnumFormat::Sparse(map) }));
            lookup(map@, decimal(v)) matches Some(name) ==> number_named(f, v, name@)
        }),
{
    reveal_strlit("value");
    reveal_strlit("name");
    assert("value"@.len() != "name"@.len());
    if 0 <= v < names.len() {
        lemma_two("value"@, Json::Int(v), "name"@, Json::Str(names@[v]@));
    }
    if let Some(name) = lookup(map@, decimal(v)) {
        lemma_two("value"@, Json::Int(v), "name"@, Json::Str(name@));
    }
}

/// Whether bit `i` of a number is set.
pub open spec fn bit_set(v: u64, i: int) -> bool {
    0 <= i < 64 && (v >> (i as u64)) & 1 == 1
}

proof fn lemma_flags(v: u64, flags: Seq<String>, n: int)
    requires
        0 <= n <= flags.len(),
    ensures
        forall|i: int|
            0 <= i < n && bit_set(v, i) ==> set_flags(v, flags, n).contains(
                Json::Str((#[trigger] flags[i])@),
            ),
        forall|j: int|
            0 <= j < set_flags(v, flags, n).len() ==> exists|i: int|
                0 <= i < n && bit_set(v, i) && (#[trigger] set_flags(v, flags, n)[j]) == Json::Str(
                    (#[trigger] flags[i])@,
                ),
    decreases n,
{
    if n > 0 {
        lemma_flags(v, flags, n - 1);
        let before = set_flags(v, flags, n - 1);
        let now = set_flags(v, flags, n);
        assert(bit_set(v, n - 1) <==> n <= 64 && (v >> ((n - 1) as u64)) & 1 == 1);
        assert forall|i: int| 0 <= i < n && bit_set(v, i) implies now.contains(
            Json::Str((#[trigger] flags[i])@),
        ) by {
            if i < n - 1 {
                let j = choose|j: int| 0 <= j < before.len() && before[j] == Json::Str(flags[i]@);
                assert(now[j] == Json::Str(flags[i]@));
            } else {
                assert(now[now.len() - 1] == Json::Str(flags[i]@));
            }
        }
        assert forall|j: int| 0 <= j < now.len() implies exists|i: int|
            0 <= i < n && bit_set(v, i) && (#[trigger] now[j]) == Json::Str(
                (#[trigger] flags[i])@,
            ) by {
            if j < before.len() {
                assert(now[j] == before[j]);
                let i = choose|i: int|
                    0 <= i < n - 1 && bit_set(v, i) && before[j] == Json::Str(
                        (#[trigger] flags[i])@,
                    );
                assert(now[j] == Json::Str(flags[i]@));
            } else {
                assert(now[j] == Json::Str(flags[n - 1]@));
            }
        }
    }
}

/// Flags are the number in hexadecimal and the names of exactly those bits
/// that are set in it.
pub proof fn law_flags_name_set_bits(v: int, flags: Vec<String>)
    requires
        -0x8000_0000_0000_0000 <= v < 0x1_0000_0000_0000_0000,
    ensures
        formatted(v, Some(ValueFormat::Flags { flags })) matches Json::Obj(o) && {
            let bits = (if v < 0 {
                v + 0x1_0000_0000_0000_0000
            } else {
                v
            }) as u64;
            &&& get(o, "value"@) == Some(Json::Str(hex_upper(bits as nat)))
            &&& get(o, "flags"@) matches Some(Json::Arr(list)) && {
                &&& forall|i: int|
                    0 <= i < flags.len() && bit_set(bits, i) ==> list.contains(
                        Json::Str((#[trigger] flags@[i])@),
                    )
                &&& forall|j: int|
                    0 <= j < list.len() ==> exists|i: int|
                        0 <= i < flags.len() && bit_set(bits, i) && (#[trigger] list[j])
                            == Json::Str((#[trigger] flags@[i])@)
            }
        },
{
    reveal_strlit("value");
    reveal_strlit("flags");
    let bits = pattern64(v) as u64;
    assert("value"@[0] != "flags"@[0]);
    lemma_flags(bits, flags@, flags.len() as int);
    lemma_two(
        "value"@,
        Json::Str(hex_upper(pattern64(v) as nat)),
        "flags"@,
        Json::Arr(set_flags(bits, flags@, flags.len() as int)),
    );
}

/// A float is its four bytes; what is no finite number is null.
pub proof fn law_float_is_its_bytes(data: Seq<u8>)
    ensures
        data.len() < 4 ==> float_at(data) is None,
        data.len() >= 4 ==> float_at(data) == Some(
            if stored(data, 0, 4) / 0x80_0000 % 256 == 255 {
                Json::Null
            } else {
                Json::Float(stored(data, 0, 4) as u32)
            },
        ),
{
    lemma_stored(data, 0);
}

/// A reference that is not followed is the FormID of its four bytes, as it is
/// shown; zero is none.
pub proof fn law_plain_reference<R: FormIdRefResolver>(
    e: Env<R>,
    refs: Seq<String>,
    data: Seq<u8>,
)
    requires
        e.depth == ResolveDepth::Plain || e.resolver is None,
        e.curves is None,
    ensures
        data.len() < 4 ==> formid_at(e, refs, data) is None,
        data.len() >= 4 ==> formid_at(e, refs, data) == Some(
            if stored(data, 0, 4) == 0 {
                Json::Null
            } else {
                Json::Str(hex8(stored(data, 0, 4) as u32))
            },
        ),
{
    lemma_stored(data, 0);
}

/// A colour is four bytes in the order red, green, blue, alpha.
pub proof fn law_colour_is_four_bytes(data: Seq<u8>)
    requires
        data.len() >= 4,
    ensures
        rgba_at(data) matches Some(Json::Obj(o)) && get(o, "r"@) == Some(Json::Int(data[0] as int))
            && get(o, "g"@) == Some(Json::Int(data[1] as int)) && get(o, "b"@) == Some(
            Json::Int(data[2] as int),
        ) && get(o, "a"@) == Some(Json::Int(data[3] as int)),
{
    reveal_strlit("r");
    reveal_strlit("g");
    reveal_strlit("b");
    reveal_strlit("a");
    let (r, g, b, a) = ("r"@, "g"@, "b"@, "a"@);
    assert(r[0] == 'r' && g[0] == 'g' && b[0] == 'b' && a[0] == 'a');
    lemma_four(
        r,
        Json::Int(data[0] as int),
        g,
        Json::Int(data[1] as int),
        b,
        Json::Int(data[2] as int),
        a,
        Json::Int(data[3] as int),
    );
}

proof fn lemma_three(a: Seq<char>, x: Json, b: Seq<char>, y: Json, c: Seq<char>, z: Json)
    requires
        a != b,
        a != c,
        b != c,
    ensures
        get(obj3(a, x, b, y, c, z), a) == Some(x),
        get(obj3(a, x, b, y, c, z), b) == Some(y),
        get(obj3(a, x, b, y, c, z), c) == Some(z),
        keys_increase(obj3(a, x, b, y, c, z)),
{
    assert(keys_increase(nothing()));
    crate::order::law_put_keeps_order(nothing(), a, x);
    crate::order::law_put_keeps_order(obj1(a, x), b, y);
    crate::order::law_put_keeps_order(obj2(a, x, b, y), c, z);
    lemma_two(a, x, b, y);
    law_get_after_put(obj2(a, x, b, y), c, z, a);
    law_get_after_put(obj2(a, x, b, y), c, z, b);
    law_get_after_put(obj2(a, x, b, y), c, z, c);
}

proof fn lemma_four(
    a: Seq<char>,
    x: Json,
    b: Seq<char>,
    y: Json,
    c: Seq<char>,
    z: Json,
    d: Seq<char>,
    w: Json,
)
    requires
        a != b,
        a != c,
        a != d,
        b != c,
        b != d,
        c != d,
    ensures
        get(obj4(a, x, b, y, c, z, d, w), a) == Some(x),
        get(obj4(a, x, b, y, c, z, d, w), b) == Some(y),
        get(obj4(a, x, b, y, c, z, d, w), c) == Some(z),
        get(obj4(a, x, b, y, c, z, d, w), d) == Some(w),
{
    lemma_three(a, x, b, y, c, z);
    let o = obj3(a, x, b, y, c, z);
    law_get_after_put(o, d, w, a);
    law_get_after_put(o, d, w, b);
    law_get_after_put(o, d, w, c);
    law_get_after_put(o, d, w, d);
}

/// A vector is three floats in the order x, y, z.
pub proof fn law_vector_is_three_floats(data: Seq<u8>)
    requires
        data.len() >= 12,
    ensures
        vec3_at(data) matches Some(Json::Obj(o)) && get(o, "x"@) == float_at(data) && get(o, "y"@)
            == float_at(data.skip(4)) && get(o, "z"@) == float_at(data.skip(8)),
{
    reveal_strlit("x");
    reveal_strlit("y");
    reveal_strlit("z");
    assert("x"@[0] == 'x' && "y"@[0] == 'y' && "z"@[0] == 'z');
    lemma_three(
        "x"@,
        float_json(le4(data, 0) as u32),
        "y"@,
        float_json(le4(data, 4) as u32),
        "z"@,
        float_json(le4(data, 8) as u32),
    );
}

// ── Texts ──────────────────────────────────────────────────────────────────
proof fn lemma_before_nul_at(data: Seq<u8>, p: int)
    requires
        0 <= p <= data.len(),
        p < data.len() ==> data[p] == 0,
        forall|j: int| 0 <= j < p ==> data[j] != 0,
    ensures
        before_nul(data) == data.take(p),
    decreases data.len(),
{
    if p > 0 {
        let rest = data.drop_first();
        assert forall|j: int| 0 <= j < p - 1 implies rest[j] != 0 by {
            assert(rest[j] == data[j + 1]);
        }
        lemma_before_nul_at(rest, p - 1);
        assert(before_nul(data) =~= data.take(p));
    } else {
        assert(before_nul(data) =~= data.take(p));
    }
}

/// A string without a size ends before its first zero byte.
pub proof fn law_string_ends_at_zero(data: Seq<u8>, p: int)
    requires
        0 <= p <= data.len(),
        p < data.len() ==> data[p] == 0,
        forall|j: int| 0 <= j < p ==> data[j] != 0,
    ensures
        string_json(data, None) == Json::Str(lossy(data.take(p))),
{
    lemma_before_nul_at(data, p);
}

/// A string of a fixed size has that many bytes, without the zeros at its end.
pub proof fn law_sized_string(data: Seq<u8>, n: u32)
    requires
        0 < n <= data.len(),
    ensures
        string_json(data, Some(n)) matches Json::Str(s) && {
            let all = lossy(data.take(n as int));
            &&& s.len() <= all.len()
            &&& s == all.take(s.len() as int)
            &&& s.len() > 0 ==> s.last() != '\0'
            &&& forall|i: int| s.len() <= i < all.len() ==> all[i] == '\0'
        },
{
    lemma_trim_nuls(lossy(data.take(n as int)));
}

proof fn lemma_trim_nuls(s: Seq<char>)
    ensures
        trim_nuls(s).len() <= s.len(),
        trim_nuls(s) == s.take(trim_nuls(s).len() as int),
        trim_nuls(s).len() > 0 ==> trim_nuls(s).last() != '\0',
        forall|i: int| trim_nuls(s).len() <= i < s.len() ==> s[i] == '\0',
    decreases s.len(),
{
    if s.len() > 0 && s.last() == '\0' {
        let t = s.drop_last();
        lemma_trim_nuls(t);
        assert(trim_nuls(s) =~= s.take(trim_nuls(s).len() as int));
        assert forall|i: int| trim_nuls(s).len() <= i < s.len() implies s[i] == '\0' by {
            if i < t.len() {
                assert(t[i] == s[i]);
            }
        }
    } else {
        assert(s =~= s.take(s.len() as int));
    }
}

// ── Packed elements ────────────────────────────────────────────────────────
/// How many elements of `size` bytes lie between `pos` and the end, but at
/// most `count`.
pub open spec fn fitting(len: int, pos: int, size: int, count: int) -> int {
    if (len - pos) / size <= count {
        (len - pos) / size
    } else {
        count
    }
}

/// The pieces of `size` bytes from `pos` on, at most `count`, that `f` reads,
/// after `acc`.
spec fn cut(
    f: spec_fn(Seq<u8>) -> Json,
    data: Seq<u8>,
    pos: int,
    size: int,
    count: nat,
    acc: Seq<Json>,
) -> (Seq<Json>, int)
    decreases count,
{
    if count == 0 || pos + size > data.len() {
        (acc, pos)
    } else {
        cut(
            f,
            data,
            pos + size,
            size,
            (count - 1) as nat,
            acc.push(f(data.subrange(pos, pos + size))),
        )
    }
}

proof fn lemma_packed_is_cut<R: FormIdRefResolver>(
    e: Env<R>,
    element: FieldDef,
    data: Seq<u8>,
    pos: int,
    size: int,
    count: nat,
    acc: Seq<Json>,
    f: spec_fn(Seq<u8>) -> Json,
)
    requires
        f == (|d: Seq<u8>| value(e, element, d)),
    ensures
        packed(e, element, data, pos, size, count, acc) == cut(f, data, pos, size, count, acc),
    decreases count,
{
    if !(count == 0 || pos + size > data.len()) {
        lemma_packed_is_cut(
            e,
            element,
            data,
            pos + size,
            size,
            (count - 1) as nat,
            acc.push(f(data.subrange(pos, pos + size))),
            f,
        );
    }
}

proof fn lemma_cut(
    f: spec_fn(Seq<u8>) -> Json,
    data: Seq<u8>,
    pos: int,
    size: int,
    count: nat,
    acc: Seq<Json>,
)
    requires
        0 <= pos <= data.len(),
        size > 0,
    ensures
        ({
            let (items, end) = cut(f, data, pos, size, count, acc);
            let n = fitting(data.len() as int, pos, size, count as int);
            &&& n >= 0
            &&& items.len() == acc.len() + n
            &&& end == pos + n * size
            &&& end <= data.len()
            &&& items.take(acc.len() as int) == acc
            &&& forall|k: int|
                0 <= k < n ==> #[trigger] items[acc.len() + k] == f(data.subrange(pos + k * size, pos + (k + 1) * size))
        }),
    decreases count,
{
    let len = data.len() as int;
    let (items, end) = cut(f, data, pos, size, count, acc);
    if count == 0 || pos + size > len {
        assert((len - pos) / size >= 0 && (pos + size > len ==> (len - pos) / size == 0))
            by (nonlinear_arith)
            requires
                0 <= pos <= len,
                size > 0,
        ;
        let n = fitting(len, pos, size, count as int);
        assert(n == 0);
        assert(items.take(acc.len() as int) =~= acc);
        assert(n * size == 0) by (nonlinear_arith)
            requires
                n == 0,
        ;
    } else {
        let x = f(data.subrange(pos, pos + size));
        lemma_cut(f, data, pos + size, size, (count - 1) as nat, acc.push(x));
        let n = fitting(len, pos, size, count as int);
        let m = fitting(len, pos + size, size, count - 1);
        assert((len - pos) / size == (len - pos - size) / size + 1) by (nonlinear_arith)
            requires
                size > 0,
        ;
        assert(n == m + 1);
        assert(n * size == m * size + size) by (nonlinear_arith)
            requires
                n == m + 1,
        ;
        let first = items.take(acc.len() as int + 1);
        assert(first == acc.push(x));
        assert(items.take(acc.len() as int) =~= first.take(acc.len() as int));
        assert(acc.push(x).take(acc.len() as int) =~= acc);
        assert forall|k: int| 0 <= k < n implies #[trigger] items[acc.len() + k] == f(data.subrange(pos + k * size, pos + (k + 1) * size)) by {
            if k == 0 {
                assert(items[acc.len() as int] == first[acc.len() as int]);
                assert(k * size == 0 && (k + 1) * size == size) by (nonlinear_arith)
                    requires
                        k == 0,
                ;
            } else {
                let h = k - 1;
                assert(items[acc.push(x).len() + h] == f(
                    data.subrange(pos + size + h * size, pos + size + (h + 1) * size),
                ));
                assert(pos + size + h * size == pos + k * size && pos + size + (h + 1) * size
                    == pos + (k + 1) * size) by (nonlinear_arith)
                    requires
                        h == k - 1,
                ;
            }
        }
        assert(items.len() == acc.len() + n);
        assert(end == pos + n * size);
    }
}

/// Elements of a fixed size lie one behind the other: as many as are asked for
/// and fit are read, each from its own bytes.
pub proof fn law_packed_elements<R: FormIdRefResolver>(
    e: Env<R>,
    element: FieldDef,
    data: Seq<u8>,
    pos: int,
    size: int,
    count: nat,
    acc: Seq<Json>,
)
    requires
        0 <= pos <= data.len(),
        size > 0,
    ensures
        ({
            let (items, end) = packed(e, element, data, pos, size, count, acc);
            let n = fitting(data.len() as int, pos, size, count as int);
            &&& n >= 0
            &&& items.len() == acc.len() + n
            &&& end == pos + n * size
            &&& end <= data.len()
            &&& items.take(acc.len() as int) == acc
            &&& forall|k: int|
                0 <= k < n ==> #[trigger] items[acc.len() + k] == value(e, element, data.subrange(pos + k * size, pos + (k + 1) * size))
        }),
{
    let f = |d: Seq<u8>| value(e, element, d);
    lemma_packed_is_cut(e, element, data, pos, size, count, acc, f);
    lemma_cut(f, data, pos, size, count, acc);
}

/// A subrecord holds as many elements of a fixed size as fit into it, each
/// read from its own bytes; they come after those that are there.
pub proof fn law_packed_subrecord<R: FormIdRefResolver>(
    e: Env<R>,
    element: FieldDef,
    size: int,
    data: Seq<u8>,
    acc: Seq<Json>,
)
    requires
        0 < size <= data.len(),
    ensures
        ({
            let items = packed_sub(e, element, Some(size), data, acc);
            let n = data.len() / size as nat;
            &&& n >= 1
            &&& items.len() == acc.len() + n
            &&& items.take(acc.len() as int) == acc
            &&& forall|k: int|
                0 <= k < n ==> #[trigger] items[acc.len() + k] == value(e, element, data.subrange(k * size, (k + 1) * size))
        }),
{
    let len = data.len() as int;
    assert(len / size >= 1) by (nonlinear_arith)
        requires
            0 < size <= len,
    ;
    assert(len / size <= len) by (nonlinear_arith)
        requires
            0 < size <= len,
    ;
    if len > size {
        law_packed_elements(e, element, data, 0, size, data.len(), acc);
    } else {
        assert(len / size == 1) by (nonlinear_arith)
            requires
                0 < size == len,
        ;
        let items = packed_sub(e, element, Some(size), data, acc);
        assert(items.take(acc.len() as int) =~= acc);
        assert(data.subrange(0, size) =~= data);
        assert forall|k: int| 0 <= k < 1 implies #[trigger] items[acc.len() + k] == value(e, element, data.subrange(k * size, (k + 1) * size)) by {
            assert(k == 0);
            assert(0 * size == 0 && 1 * size == size);
        }
    }
}

/// The elements of several subrecords are those of the first and then those of
/// the others.
pub proof fn law_packed_subrecords<R: FormIdRefResolver>(
    e: Env<R>,
    element: FieldDef,
    size: Option<int>,
    subs: Seq<Sub>,
    i: nat,
    acc: Seq<Json>,
)
    ensures
        packed_subs(e, element, size, subs, i, acc) == if i >= subs.len() {
            acc
        } else {
            packed_subs(
                e,
                element,
                size,
                subs,
                i + 1,
                packed_sub(e, element, size, subs[i as int].data, acc),
            )
        },
{
}

/// How many elements of a fixed size the first `n` subrecords hold.
pub open spec fn held(subs: Seq<Sub>, size: int, n: nat) -> int
    decreases n,
{
    if n == 0 || n > subs.len() {
        0
    } else {
        held(subs, size, (n - 1) as nat) + subs[n - 1].data.len() / size as nat
    }
}

/// The `k`-th element of a fixed size in packed bytes.
#[verifier::opaque]
spec fn piece<R: FormIdRefResolver>(
    e: Env<R>,
    element: FieldDef,
    data: Seq<u8>,
    k: int,
    size: int,
) -> Json {
    value(e, element, data.subrange(k * size, (k + 1) * size))
}

proof fn lemma_pieces<R: FormIdRefResolver>(
    e: Env<R>,
    element: FieldDef,
    size: int,
    data: Seq<u8>,
    acc: Seq<Json>,
) -> (items: Seq<Json>)
    requires
        0 < size <= data.len(),
    ensures
        items == packed_sub(e, element, Some(size), data, acc),
        items.len() == acc.len() + data.len() / size as nat,
        items.take(acc.len() as int) == acc,
        forall|k: int|
            0 <= k < data.len() / size as nat ==> #[trigger] items[acc.len() + k] == piece(
                e,
                element,
                data,
                k,
                size,
            ),
{
    reveal(piece);
    law_packed_subrecord(e, element, size, data, acc);
    packed_sub(e, element, Some(size), data, acc)
}

/// Where the elements of the subrecords from `i` on stand behind others.
spec fn stands_packed<R: FormIdRefResolver>(
    e: Env<R>,
    element: FieldDef,
    size: int,
    subs: Seq<Sub>,
    i: nat,
    acc: Seq<Json>,
    items: Seq<Json>,
) -> bool {
    &&& items.len() == acc.len() + held(subs, size, subs.len()) - held(subs, size, i)
    &&& items.take(acc.len() as int) == acc
    &&& forall|j: int, k: int|
        i <= j < subs.len() && 0 <= k < subs[j].data.len() / size as nat ==> items[acc.len() + held(
            subs,
            size,
            j as nat,
        ) - held(subs, size, i) + k] == #[trigger] piece(e, element, subs[j].data, k, size)
}

proof fn lemma_stands_packed<R: FormIdRefResolver>(
    e: Env<R>,
    element: FieldDef,
    size: int,
    subs: Seq<Sub>,
    i: nat,
    acc: Seq<Json>,
    next: Seq<Json>,
    items: Seq<Json>,
)
    requires
        i < subs.len(),
        size > 0,
        next.len() == acc.len() + subs[i as int].data.len() / size as nat,
        next.take(acc.len() as int) == acc,
        forall|k: int|
            0 <= k < subs[i as int].data.len() / size as nat ==> #[trigger] next[acc.len() + k]
                == piece(e, element, subs[i as int].data, k, size),
        stands_packed(e, element, size, subs, i + 1, next, items),
    ensures
        stands_packed(e, element, size, subs, i, acc, items),
{
    let n = (subs[i as int].data.len() / size as nat) as int;
    lemma_held_grows(subs, size, i + 1, subs.len());
    assert(held(subs, size, i + 1) == held(subs, size, i) + n);
    assert(items.take(acc.len() as int) =~= items.take(next.len() as int).take(acc.len() as int));
    assert forall|j: int, k: int|
        i <= j < subs.len() && 0 <= k < subs[j].data.len() / size as nat implies items[acc.len()
        + held(subs, size, j as nat) - held(subs, size, i) + k] == #[trigger] piece(
        e,
        element,
        subs[j].data,
        k,
        size,
    ) by {
        if j == i {
            assert(items[acc.len() + k] == items.take(next.len() as int)[acc.len() + k]);
            assert(next[acc.len() + k] == piece(e, element, subs[i as int].data, k, size));
        } else {
            lemma_held_grows(subs, size, i + 1, j as nat);
            assert(acc.len() + held(subs, size, j as nat) - held(subs, size, i) + k == next.len()
                + held(subs, size, j as nat) - held(subs, size, i + 1) + k);
        }
    }
}

proof fn lemma_packed_subs<R: FormIdRefResolver>(
    e: Env<R>,
    element: FieldDef,
    size: int,
    subs: Seq<Sub>,
    i: nat,
    acc: Seq<Json>,
)
    requires
        i <= subs.len(),
        size > 0,
        forall|j: int| 0 <= j < subs.len() ==> (#[trigger] subs[j]).data.len() >= size,
    ensures
        stands_packed(
            e,
            element,
            size,
            subs,
            i,
            acc,
            packed_subs(e, element, Some(size), subs, i, acc),
        ),
    decreases subs.len() - i,
{
    law_packed_subrecords(e, element, Some(size), subs, i, acc);
    let items = packed_subs(e, element, Some(size), subs, i, acc);
    if i < subs.len() {
        let next = lemma_pieces(e, element, size, subs[i as int].data, acc);
        lemma_packed_subs(e, element, size, subs, i + 1, next);
        lemma_stands_packed(e, element, size, subs, i, acc, next, items);
    } else {
        assert(items.take(acc.len() as int) =~= acc);
    }
}

proof fn lemma_held_grows(subs: Seq<Sub>, size: int, a: nat, b: nat)
    requires
        size > 0,
        a <= b <= subs.len(),
    ensures
        0 <= held(subs, size, a) <= held(subs, size, b),
    decreases b,
{
    if a < b {
        lemma_held_grows(subs, size, a, (b - 1) as nat);
        let len = subs[b - 1].data.len() as int;
        assert(len / size >= 0) by (nonlinear_arith)
            requires
                len >= 0,
                size > 0,
        ;
    } else if a > 0 {
        lemma_held_grows(subs, size, (a - 1) as nat, (a - 1) as nat);
        let len = subs[a - 1].data.len() as int;
        assert(len / size >= 0) by (nonlinear_arith)
            requires
                len >= 0,
                size > 0,
        ;
    }
}

/// Those of the first `n` subrecords that have the signature `sig`.
pub open spec fn bearing(pool: Seq<Sub>, sig: Seq<char>, n: nat) -> Seq<Sub>
    decreases n,
{
    if n == 0 || n > pool.len() {
        Seq::empty()
    } else if pool[n - 1].sig == sig {
        bearing(pool, sig, (n - 1) as nat).push(pool[n - 1])
    } else {
        bearing(pool, sig, (n - 1) as nat)
    }
}

/// Those of the first `n` subrecords that have another signature than `sig`.
pub open spec fn bearing_others(pool: Seq<Sub>, sig: Seq<char>, n: nat) -> Seq<Sub>
    decreases n,
{
    if n == 0 || n > pool.len() {
        Seq::empty()
    } else if pool[n - 1].sig != sig {
        bearing_others(pool, sig, (n - 1) as nat).push(pool[n - 1])
    } else {
        bearing_others(pool, sig, (n - 1) as nat)
    }
}

proof fn lemma_bearing(pool: Seq<Sub>, sig: Seq<char>)
    ensures
        with_sig(pool, sig) == bearing(pool, sig, pool.len()),
        without_sig(pool, sig) == bearing_others(pool, sig, pool.len()),
    decreases pool.len(),
{
    reveal(Seq::filter);
    if pool.len() > 0 {
        lemma_bearing(pool.drop_last(), sig);
        lemma_bearing_prefix(pool, sig, (pool.len() - 1) as nat);
    }
}

proof fn lemma_bearing_prefix(pool: Seq<Sub>, sig: Seq<char>, n: nat)
    requires
        n < pool.len(),
    ensures
        bearing(pool.drop_last(), sig, n) == bearing(pool, sig, n),
        bearing_others(pool.drop_last(), sig, n) == bearing_others(pool, sig, n),
    decreases n,
{
    if n > 0 {
        lemma_bearing_prefix(pool, sig, (n - 1) as nat);
    }
}

/// The list of a repeated subrecord holds the elements of all subrecords with
/// its signature, one subrecord behind the other and each packed full; all of
/// those subrecords are taken, and no other.
pub proof fn law_array_reads_every_subrecord<R: FormIdRefResolver>(
    e: Env<R>,
    sig: String,
    name: String,
    element: Box<FieldDef>,
    out: Entries,
    pool: Seq<Sub>,
    payload: Option<Seq<u8>>,
    size: int,
)
    requires
        field_size(e.form_version, e.edid, *element) == Some(size),
        size > 0,
        bearing(pool, sig@, pool.len()).len() > 0,
        forall|j: int|
            0 <= j < bearing(pool, sig@, pool.len()).len() ==> (#[trigger] bearing(
                pool,
                sig@,
                pool.len(),
            )[j]).data.len() >= size,
    ensures
        ({
            let m = MemberDef::Array { sig: Some(sig), name, element, count: None };
            let subs = bearing(pool, sig@, pool.len());
            let (fields, rest) = member(e, m, out, pool, payload);
            &&& rest == bearing_others(pool, sig@, pool.len())
            &&& get(fields, name@) matches Some(Json::Arr(items)) && {
                &&& items.len() == held(subs, size, subs.len())
                &&& forall|j: int, k: int|
                    0 <= j < subs.len() && 0 <= k < subs[j].data.len() / size as nat ==> items[held(
                        subs,
                        size,
                        j as nat,
                    ) + k] == #[trigger] value(
                        e,
                        *element,
                        subs[j].data.subrange(k * size, (k + 1) * size),
                    )
            }
            &&& forall|k: Seq<char>| k != name@ ==> #[trigger] get(fields, k) == get(out, k)
        }),
{
    let subs = bearing(pool, sig@, pool.len());
    lemma_bearing(pool, sig@);
    lemma_packed_subs(e, *element, size, subs, 0, Seq::empty());
    let items = packed_subs(e, *element, Some(size), subs, 0, Seq::empty());
    assert forall|j: int, k: int|
        0 <= j < subs.len() && 0 <= k < subs[j].data.len() / size as nat implies items[held(
        subs,
        size,
        j as nat,
    ) + k] == #[trigger] value(
        e,
        *element,
        subs[j].data.subrange(k * size, (k + 1) * size),
    ) by {
        assert(items[held(subs, size, j as nat) + k] == piece(e, *element, subs[j].data, k, size));
        reveal(piece);
    }
    lemma_held_grows(subs, size, 1, subs.len());
    let len = subs[0].data.len() as int;
    assert(len / size >= 1) by (nonlinear_arith)
        requires
            0 < size <= len,
    ;
    assert(held(subs, size, 0) == 0);
    assert(held(subs, size, 1) == held(subs, size, 0) + subs[0].data.len() / size as nat);
    assert(items.len() > 0);
    law_get_after_put(out, name@, Json::Arr(items), name@);
    assert forall|k: Seq<char>| k != name@ implies #[trigger] get(
        put(out, name@, Json::Arr(items)),
        k,
    ) == get(out, k) by {
        law_get_after_put(out, name@, Json::Arr(items), k);
    }
}

} // verus!
