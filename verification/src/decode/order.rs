//! In which order a record is decoded, and what each member gives.
use crate::decode::context::{Env, FormIdRefResolver};
use crate::decode::meaning::{
    array_count, field_size, field_step, fields_from, le_bytes, lstring, member, members_from,
    packed, value,
};
use crate::decode::scalars::{
    bytes_json, float_at, formatted, formid_at, int_at, raw_json, rgba_at, size_ok, string_json,
    vec3_at, version_ok,
};
use crate::decode::scope::scoped_sig;
use crate::decode::shape::{law_packed_elements, law_string_ends_at_zero, stored};
use crate::json::{get, put, Entries, Json};
use crate::order::law_get_after_put;
use crate::reader::{find_sig, Sub};
use crate::schema::{ArrayCount, FieldDef, IntegerWidth, MemberDef};
use crate::text::{before_nul, lossy};
use vstd::prelude::*;

verus! {

// ── Members of a record ────────────────────────────────────────────────────
/// The fields and the waiting subrecords at some moment.
pub ghost struct Moment {
    pub out: Entries,
    pub pool: Seq<Sub>,
}

/// Whether every member from `i` on was decoded, one after the other, from the
/// first moment to the last.
pub open spec fn members_in_turn<R: FormIdRefResolver>(
    e: Env<R>,
    members: Vec<MemberDef>,
    i: nat,
    at: Seq<Moment>,
) -> bool {
    &&& at.len() == members.len() - i + 1
    &&& forall|k: int|
        0 <= k < members.len() - i ==> member(
            e,
            members@[i + k],
            at[k].out,
            #[trigger] at[k].pool,
            None,
        ) == (at[k + 1].out, at[k + 1].pool)
}

/// Decoding members decodes every one of them, in the order of the schema,
/// each on what those before it have left.
pub proof fn law_every_member_is_decoded<R: FormIdRefResolver>(
    e: Env<R>,
    members: Vec<MemberDef>,
    i: nat,
    out: Entries,
    pool: Seq<Sub>,
) -> (at: Seq<Moment>)
    requires
        i <= members.len(),
    ensures
        members_in_turn(e, members, i, at),
        at[0] == (Moment { out, pool }),
        members_from(e, members, i, out, pool) == (
            at[members.len() - i].out,
            at[members.len() - i].pool,
        ),
    decreases members.len() - i,
{
    if i == members.len() {
        seq![Moment { out, pool }]
    } else {
        let (out2, pool2) = member(e, members@[i as int], out, pool, None);
        let more = law_every_member_is_decoded(e, members, i + 1, out2, pool2);
        let at = seq![Moment { out, pool }] + more;
        assert forall|k: int| 0 <= k < members.len() - i implies member(
            e,
            members@[i + k],
            at[k].out,
            #[trigger] at[k].pool,
            None,
        ) == (at[k + 1].out, at[k + 1].pool) by {
            if k > 0 {
                let h = k - 1;
                assert(at[k] == more[h] && at[k + 1] == more[h + 1]);
                assert(member(e, members@[(i + 1) + h], more[h].out, more[h].pool, None) == (
                    more[h + 1].out,
                    more[h + 1].pool,
                ));
            }
        }
        at
    }
}

/// What the bytes of a subrecord mean to a member that holds one value.
pub open spec fn read_as<R: FormIdRefResolver>(e: Env<R>, m: MemberDef, data: Seq<u8>) -> Option<
    Json,
> {
    match m {
        MemberDef::Integer { width, format, .. } => match int_at(data, width) {
            Some(n) => Some(formatted(n, format)),
            None => None,
        },
        MemberDef::Float { .. } => float_at(data),
        MemberDef::String { sized, .. } => Some(string_json(data, sized)),
        MemberDef::LString { sig, table, .. } => Some(lstring(e, table, sig->0@, data)),
        MemberDef::FormId { valid_refs, .. } => formid_at(e, valid_refs@, data),
        MemberDef::Bytes { len, .. } => Some(
            bytes_json(
                match len {
                    Some(n) if n < data.len() => data.take(n as int),
                    _ => data,
                },
            ),
        ),
        MemberDef::ByteRgba { .. } => rgba_at(data),
        MemberDef::Vec3 { .. } => vec3_at(data),
        MemberDef::Unknown { .. } => Some(raw_json(data)),
        MemberDef::Ctda { .. } => Some(Json::Condition(data)),
        _ => None,
    }
}

/// The signature and the name of a member that holds one value.
pub open spec fn single(m: MemberDef) -> Option<(Seq<char>, Seq<char>)> {
    match m {
        MemberDef::Integer { sig: Some(s), name, stop_before, .. } => if stop_before.len() == 0 {
            Some((s@, name@))
        } else {
            None
        },
        MemberDef::Float { sig: Some(s), name, .. } => Some((s@, name@)),
        MemberDef::String { sig: Some(s), name, .. } => Some((s@, name@)),
        MemberDef::LString { sig: Some(s), name, .. } => Some((s@, name@)),
        MemberDef::FormId { sig: Some(s), name, .. } => Some((s@, name@)),
        MemberDef::Bytes { sig: Some(s), name, .. } => Some((s@, name@)),
        MemberDef::ByteRgba { sig: Some(s), name, .. } => Some((s@, name@)),
        MemberDef::Vec3 { sig: Some(s), name, .. } => Some((s@, name@)),
        MemberDef::Unknown { sig: Some(s), name, .. } => Some((s@, name@)),
        MemberDef::Ctda { sig: Some(s), name, .. } => Some((s@, name@)),
        _ => None,
    }
}

/// The signature of a member that holds one value.
pub open spec fn own_sig(m: MemberDef) -> Seq<char> {
    let (sig, name) = single(m)->Some_0;
    sig
}

/// The name of a member that holds one value.
pub open spec fn own_name(m: MemberDef) -> Seq<char> {
    let (sig, name) = single(m)->Some_0;
    name
}

/// Whether subrecord `i` is the first that waits with the signature `sig`.
pub open spec fn first_waiting(pool: Seq<Sub>, sig: Seq<char>, i: int) -> bool {
    0 <= i < pool.len() && pool[i].sig == sig && forall|j: int|
        0 <= j < i ==> (#[trigger] pool[j]).sig != sig
}

proof fn lemma_first_waiting(pool: Seq<Sub>, sig: Seq<char>, i: int)
    requires
        first_waiting(pool, sig, i),
    ensures
        find_sig(pool, sig) == i,
    decreases pool.len(),
{
    if i > 0 {
        assert(pool[0].sig != sig);
        let rest = pool.drop_first();
        assert forall|j: int| 0 <= j < i - 1 implies (#[trigger] rest[j]).sig != sig by {
            assert(rest[j] == pool[j + 1]);
        }
        lemma_first_waiting(rest, sig, i - 1);
    }
}

proof fn lemma_none_waiting(pool: Seq<Sub>, sig: Seq<char>)
    requires
        forall|j: int| 0 <= j < pool.len() ==> (#[trigger] pool[j]).sig != sig,
    ensures
        find_sig(pool, sig) == pool.len(),
    decreases pool.len(),
{
    if pool.len() > 0 {
        assert(pool[0].sig != sig);
        let rest = pool.drop_first();
        assert forall|j: int| 0 <= j < rest.len() implies (#[trigger] rest[j]).sig != sig by {
            assert(rest[j] == pool[j + 1]);
        }
        lemma_none_waiting(rest, sig);
    }
}

/// A member that holds one value takes the first subrecord that waits with its
/// signature, where that lies in the scope, and sets its field to what the
/// bytes mean; other fields and subrecords stay as they are.
pub proof fn law_member_takes_its_subrecord<R: FormIdRefResolver>(
    e: Env<R>,
    m: MemberDef,
    out: Entries,
    pool: Seq<Sub>,
    i: int,
    k: Seq<char>,
)
    requires
        single(m) is Some,
        version_ok(e.form_version, m),
        first_waiting(pool, own_sig(m), i),
        e.in_scope(pool[i].doc),
    ensures
        ({
            let (fields, rest) = member(e, m, out, pool, None);
            &&& rest == pool.remove(i)
            &&& get(fields, k) == if k == own_name(m) && read_as(e, m, pool[i].data) is Some {
                read_as(e, m, pool[i].data)
            } else {
                get(out, k)
            }
        }),
{
    let sig = own_sig(m);
    let name = own_name(m);
    let data = pool[i].data;
    lemma_first_waiting(pool, sig, i);
    if let Some(v) = read_as(e, m, data) {
        law_get_after_put(out, name, v, k);
    }
    if let MemberDef::Bytes { len: Some(n), .. } = m {
        if n >= data.len() {
            assert(data.take(data.len() as int) =~= data);
        }
    }
}

/// Without a subrecord of its signature in scope a member sets nothing and
/// takes nothing, and so does one that the version has not.
pub proof fn law_absent_member_sets_nothing<R: FormIdRefResolver>(
    e: Env<R>,
    m: MemberDef,
    out: Entries,
    pool: Seq<Sub>,
)
    requires
        single(m) is Some,
        (forall|j: int| 0 <= j < pool.len() ==> (#[trigger] pool[j]).sig != own_sig(m)) || (
        exists|i: int|
            #[trigger] first_waiting(pool, own_sig(m), i) && !e.in_scope(pool[i].doc))
            || !version_ok(e.form_version, m),
    ensures
        member(e, m, out, pool, None) == (out, pool),
{
    let sig = own_sig(m);
    if version_ok(e.form_version, m) {
        if forall|j: int| 0 <= j < pool.len() ==> (#[trigger] pool[j]).sig != sig {
            lemma_none_waiting(pool, sig);
        } else {
            let i = choose|i: int|
                #[trigger] first_waiting(pool, sig, i) && !e.in_scope(pool[i].doc);
            lemma_first_waiting(pool, sig, i);
        }
        lemma_nothing_in_scope(e, m, out, pool);
    }
}

#[verifier::rlimit(60)]
proof fn lemma_nothing_in_scope<R: FormIdRefResolver>(
    e: Env<R>,
    m: MemberDef,
    out: Entries,
    pool: Seq<Sub>,
)
    requires
        single(m) is Some,
        scoped_sig(e, pool, own_sig(m)) is None,
    ensures
        member(e, m, out, pool, None) == (out, pool),
{
    match m {
        MemberDef::Integer { .. } => {},
        MemberDef::Float { .. } => {},
        MemberDef::String { .. } => {},
        MemberDef::LString { .. } => {},
        MemberDef::FormId { .. } => {},
        MemberDef::Bytes { .. } => {},
        MemberDef::ByteRgba { .. } => {},
        MemberDef::Vec3 { .. } => {},
        MemberDef::Unknown { .. } => {},
        MemberDef::Ctda { .. } => {},
        _ => {},
    }
}

/// A member that marks a place takes the mark wherever it lies and is null; a
/// member that is not used takes its subrecord and gives nothing.
pub proof fn law_marks_and_padding<R: FormIdRefResolver>(
    e: Env<R>,
    m: MemberDef,
    sig: String,
    name: Seq<char>,
    out: Entries,
    pool: Seq<Sub>,
    i: int,
)
    requires
        version_ok(e.form_version, m),
        first_waiting(pool, sig@, i),
    ensures
        m matches MemberDef::Empty { sig: Some(s), name: n, .. } && s == sig && n@ == name ==> {
            let (fields, rest) = member(e, m, out, pool, None);
            rest == pool.remove(i) && get(fields, name) == Some(Json::Null)
        },
        m matches MemberDef::Unused { sig: Some(s), .. } && s == sig && e.in_scope(pool[i].doc)
            ==> member(e, m, out, pool, None) == (out, pool.remove(i)),
{
    lemma_first_waiting(pool, sig@, i);
    law_get_after_put(out, name, Json::Null, name);
}

// ── Fields of a struct ─────────────────────────────────────────────────────
/// The fields of a struct and the position in its bytes at some moment.
pub ghost struct Step {
    pub fields: Entries,
    pub pos: int,
}

/// Whether fields from `i` on were decoded one after the other, from the first
/// step to the last: all of them, or up to one that ended the struct.
pub open spec fn fields_in_turn<R: FormIdRefResolver>(
    e: Env<R>,
    defs: Vec<FieldDef>,
    i: nat,
    data: Seq<u8>,
    at: Seq<Step>,
) -> bool {
    let n = at.len() - 1;
    &&& 0 <= n <= defs.len() - i
    &&& forall|k: int|
        0 <= k < n ==> {
            let (o, p, stop) = field_step(
                e,
                defs@[i + k],
                data,
                at[k].pos,
                #[trigger] at[k].fields,
            );
            &&& o == at[k + 1].fields
            &&& p == at[k + 1].pos
            &&& stop ==> k == n - 1
            &&& k == n - 1 && n < defs.len() - i ==> stop
        }
    &&& n == 0 ==> defs.len() == i
}

/// What `step` makes of the fields from `i` on.
spec fn chained(
    step: spec_fn(FieldDef, Step) -> (Step, bool),
    defs: Seq<FieldDef>,
    i: nat,
    s: Step,
) -> Step
    decreases defs.len() - i,
{
    if i >= defs.len() {
        s
    } else {
        let (next, stop) = step(defs[i as int], s);
        if stop {
            next
        } else {
            chained(step, defs, i + 1, next)
        }
    }
}

/// Whether `step` was made from each of `at` to the next, for the fields from
/// `i` on: for all of them, or up to one that ended the struct.
spec fn chain(
    step: spec_fn(FieldDef, Step) -> (Step, bool),
    defs: Seq<FieldDef>,
    i: nat,
    at: Seq<Step>,
) -> bool {
    let n = at.len() - 1;
    &&& 0 <= n <= defs.len() - i
    &&& forall|k: int| 0 <= k < n ==> #[trigger] linked(step, defs, i, at, k)
    &&& n == 0 ==> defs.len() == i
}

/// Whether `step` was made from the `k`-th of `at` to the next.
spec fn linked(
    step: spec_fn(FieldDef, Step) -> (Step, bool),
    defs: Seq<FieldDef>,
    i: nat,
    at: Seq<Step>,
    k: int,
) -> bool {
    let n = at.len() - 1;
    let (next, stop) = step(defs[i + k], at[k]);
    &&& next == at[k + 1]
    &&& stop ==> k == n - 1
    &&& k == n - 1 && n < defs.len() - i ==> stop
}

proof fn lemma_chain(
    step: spec_fn(FieldDef, Step) -> (Step, bool),
    defs: Seq<FieldDef>,
    i: nat,
    s: Step,
) -> (at: Seq<Step>)
    requires
        i <= defs.len(),
    ensures
        at.len() >= 1,
        at[0] == s,
        at.last() == chained(step, defs, i, s),
        chain(step, defs, i, at),
    decreases defs.len() - i,
{
    if i == defs.len() {
        seq![s]
    } else {
        let (next, stop) = step(defs[i as int], s);
        if stop {
            seq![s, next]
        } else {
            let more = lemma_chain(step, defs, i + 1, next);
            let at = seq![s] + more;
            let n = at.len() - 1;
            assert(at.last() == more.last());
            assert forall|k: int| 0 <= k < n implies #[trigger] linked(step, defs, i, at, k) by {
                if k > 0 {
                    let h = k - 1;
                    assert(linked(step, defs, i + 1, more, h));
                    assert(at[k] == more[h] && at[k + 1] == more[h + 1]);
                    assert(defs[(i + 1) + h] == defs[i + k]);
                } else {
                    assert(at[0] == s && at[1] == more[0]);
                }
            }
            at
        }
    }
}

/// One field of a struct.
spec fn one_field<R: FormIdRefResolver>(e: Env<R>, data: Seq<u8>) -> spec_fn(FieldDef, Step) -> (
    Step,
    bool,
) {
    |f: FieldDef, s: Step|
        {
            let (o, p, stop) = field_step(e, f, data, s.pos, s.fields);
            (Step { fields: o, pos: p }, stop)
        }
}

proof fn lemma_fields_chained<R: FormIdRefResolver>(
    e: Env<R>,
    defs: Vec<FieldDef>,
    i: nat,
    data: Seq<u8>,
    s: Step,
)
    ensures
        fields_from(e, defs, i, data, s.pos, s.fields) == (
            chained(one_field(e, data), defs@, i, s).fields,
            chained(one_field(e, data), defs@, i, s).pos,
        ),
    decreases defs.len() - i,
{
    if i < defs.len() {
        let (o, p, stop) = field_step(e, defs@[i as int], data, s.pos, s.fields);
        lemma_fields_chained(e, defs, i + 1, data, Step { fields: o, pos: p });
    }
}

/// Decoding a struct decodes every field, in the order of the schema, each
/// where the one before it ended, up to the first that ends the struct.
pub proof fn law_every_field_is_decoded<R: FormIdRefResolver>(
    e: Env<R>,
    defs: Vec<FieldDef>,
    i: nat,
    data: Seq<u8>,
    pos: int,
    o: Entries,
) -> (at: Seq<Step>)
    requires
        i <= defs.len(),
    ensures
        at[0] == (Step { fields: o, pos }),
        fields_in_turn(e, defs, i, data, at),
        fields_from(e, defs, i, data, pos, o) == (at.last().fields, at.last().pos),
{
    let s = Step { fields: o, pos };
    lemma_fields_chained(e, defs, i, data, s);
    let at = lemma_chain(one_field(e, data), defs@, i, s);
    let n = at.len() - 1;
    assert forall|k: int| 0 <= k < n implies {
        let (o, p, stop) = field_step(
            e,
            defs@[i + k],
            data,
            at[k].pos,
            #[trigger] at[k].fields,
        );
        &&& o == at[k + 1].fields
        &&& p == at[k + 1].pos
        &&& stop ==> k == n - 1
        &&& k == n - 1 && n < defs.len() - i ==> stop
    } by {
        assert(linked(one_field(e, data), defs@, i, at, k));
    }
    at
}

/// The position after a field and the values it set.
pub open spec fn sets_and_moves(
    before: Entries,
    after: (Entries, int, bool),
    name: Seq<char>,
    v: Option<Json>,
    end: int,
) -> bool {
    let (o, pos, stop) = after;
    &&& pos == end
    &&& !stop
    &&& forall|k: Seq<char>| #[trigger]
        get(o, k) == if k == name && v is Some {
            v
        } else {
            get(before, k)
        }
}

proof fn lemma_put_sets(before: Entries, name: Seq<char>, v: Json)
    ensures
        forall|k: Seq<char>| #[trigger]
            get(put(before, name, v), k) == if k == name {
                Some(v)
            } else {
                get(before, k)
            },
{
    assert forall|k: Seq<char>| #[trigger] get(put(before, name, v), k) == if k == name {
        Some(v)
    } else {
        get(before, k)
    } by {
        law_get_after_put(before, name, v, k);
    }
}

/// How many bytes a field of one value takes in a struct.
pub open spec fn bytes_taken(f: FieldDef) -> Option<int> {
    match f {
        MemberDef::Integer { width, .. } => Some(
            match width {
                IntegerWidth::U8 | IntegerWidth::S8 => 1,
                IntegerWidth::U16 | IntegerWidth::S16 => 2,
                IntegerWidth::U32 | IntegerWidth::S32 => 4,
                IntegerWidth::U64 | IntegerWidth::S64 => 8,
            },
        ),
        MemberDef::Float { .. } => Some(4),
        MemberDef::FormId { .. } => Some(4),
        MemberDef::ByteRgba { .. } => Some(4),
        MemberDef::Vec3 { .. } => Some(12),
        _ => None,
    }
}

/// The name of a field of one value.
pub open spec fn field_name(f: FieldDef) -> Seq<char> {
    match f {
        MemberDef::Integer { name, .. } => name@,
        MemberDef::Float { name, .. } => name@,
        MemberDef::FormId { name, .. } => name@,
        MemberDef::ByteRgba { name, .. } => name@,
        MemberDef::Vec3 { name, .. } => name@,
        _ => Seq::empty(),
    }
}

/// A field of one value is read from the bytes at its position and moves the
/// position behind them; without enough bytes, or where the version or the
/// size of the struct leaves the field out, nothing is set and nothing moves.
pub proof fn law_field_reads_its_bytes<R: FormIdRefResolver>(
    e: Env<R>,
    f: FieldDef,
    data: Seq<u8>,
    pos: int,
    o: Entries,
)
    requires
        0 <= pos <= data.len(),
        bytes_taken(f) is Some,
    ensures
        ({
            let there = version_ok(e.form_version, f) && size_ok(data.len() as int, f) && pos
                + bytes_taken(f)->Some_0 <= data.len();
            if there {
                sets_and_moves(
                    o,
                    field_step(e, f, data, pos, o),
                    field_name(f),
                    read_as(e, f, data.skip(pos)),
                    pos + bytes_taken(f)->Some_0,
                )
            } else {
                field_step(e, f, data, pos, o) == (o, pos, false)
            }
        }),
{
    if let Some(v) = read_as(e, f, data.skip(pos)) {
        lemma_put_sets(o, field_name(f), v);
    }
}

/// Padding moves the position over its bytes, or to the end, and sets nothing.
/// Bytes of a given length, or all that are left, are shown as they are and
/// passed over.
pub proof fn law_padding_and_bytes<R: FormIdRefResolver>(
    e: Env<R>,
    f: FieldDef,
    data: Seq<u8>,
    pos: int,
    o: Entries,
)
    requires
        0 <= pos <= data.len(),
        version_ok(e.form_version, f),
        size_ok(data.len() as int, f),
    ensures
        f matches MemberDef::Unused { bytes, .. } ==> {
            let (o2, p, stop) = field_step(e, f, data, pos, o);
            o2 == o && !stop && p == if pos + bytes <= data.len() {
                pos + bytes
            } else {
                data.len() as int
            }
        },
        f matches MemberDef::Bytes { name, len: None, .. } ==> sets_and_moves(
            o,
            field_step(e, f, data, pos, o),
            name@,
            Some(bytes_json(data.skip(pos))),
            data.len() as int,
        ),
        f matches MemberDef::Bytes { name, len: Some(n), .. } ==> pos + n <= data.len() ==> {
            sets_and_moves(
                o,
                field_step(e, f, data, pos, o),
                name@,
                Some(bytes_json(data.subrange(pos, pos + n))),
                pos + n,
            )
        },
{
    if let MemberDef::Bytes { name, len, .. } = f {
        match len {
            None => {
                assert(data.skip(pos) =~= data.subrange(pos, data.len() as int));
                lemma_put_sets(o, name@, bytes_json(data.skip(pos)));
            },
            Some(n) => {
                if pos + n <= data.len() {
                    lemma_put_sets(o, name@, bytes_json(data.subrange(pos, pos + n)));
                }
            },
        }
    }
}

/// A text in a struct ends before its first zero, and the position moves
/// behind the zero.
pub proof fn law_text_field<R: FormIdRefResolver>(
    e: Env<R>,
    f: FieldDef,
    data: Seq<u8>,
    pos: int,
    o: Entries,
    z: int,
)
    requires
        f matches MemberDef::String { sized: None, .. },
        0 <= pos <= z < data.len(),
        data[z] == 0,
        forall|j: int| pos <= j < z ==> data[j] != 0,
    ensures
        sets_and_moves(
            o,
            field_step(e, f, data, pos, o),
            f->String_name@,
            Some(Json::Str(lossy(data.subrange(pos, z)))),
            z + 1,
        ),
{
    let tail = data.skip(pos);
    assert forall|j: int| 0 <= j < z - pos implies tail[j] != 0 by {
        assert(tail[j] == data[pos + j]);
    }
    law_string_ends_at_zero(tail, z - pos);
    assert(tail.take(z - pos) =~= data.subrange(pos, z));
    lemma_nul_length(tail, z - pos);
    lemma_put_sets(o, f->String_name@, Json::Str(lossy(data.subrange(pos, z))));
}

/// A text of a fixed size in a struct takes that many bytes.
pub proof fn law_sized_text_field<R: FormIdRefResolver>(
    e: Env<R>,
    f: FieldDef,
    data: Seq<u8>,
    pos: int,
    o: Entries,
    n: u32,
)
    requires
        f matches MemberDef::String { sized: Some(m), .. } && m == n,
        0 < n,
        0 <= pos,
        pos + n <= data.len(),
    ensures
        sets_and_moves(
            o,
            field_step(e, f, data, pos, o),
            f->String_name@,
            Some(string_json(data.subrange(pos, pos + n), Some(n))),
            pos + n,
        ),
{
    lemma_put_sets(o, f->String_name@, string_json(data.subrange(pos, pos + n), Some(n)));
}

proof fn lemma_nul_length(data: Seq<u8>, p: int)
    requires
        0 <= p < data.len(),
        data[p] == 0,
        forall|j: int| 0 <= j < p ==> data[j] != 0,
    ensures
        before_nul(data).len() == p,
    decreases data.len(),
{
    if p > 0 {
        assert(data[0] != 0);
        let rest = data.drop_first();
        assert forall|j: int| 0 <= j < p - 1 implies rest[j] != 0 by {
            assert(rest[j] == data[j + 1]);
        }
        lemma_nul_length(rest, p - 1);
    }
}

/// An array in a struct has as many elements as its count says and fit: a
/// fixed number, the number before it, or the number of an earlier field. Each
/// is read from its own bytes.
pub proof fn law_array_field<R: FormIdRefResolver>(
    e: Env<R>,
    f: FieldDef,
    data: Seq<u8>,
    pos: int,
    o: Entries,
    n: int,
    start: int,
    size: int,
)
    requires
        0 <= pos <= start <= data.len(),
        size > 0,
        n > 0,
        f matches MemberDef::Array { element, count, .. } && field_size(
            e.form_version,
            e.edid,
            *element,
        ) == Some(size) && match count {
            Some(ArrayCount::Fixed(m)) => m as int == n && start == pos,
            Some(ArrayCount::CountPrefix(w)) => (w == 1 || w == 2 || w == 4) && start == pos + w
                && n == stored(data, pos, w as nat),
            Some(ArrayCount::CountPath(path)) => start == pos && n <= u64::MAX && get(o, path@)
                == Some(Json::Int(n)),
            _ => false,
        },
        start + n * size <= data.len(),
    ensures
        f matches MemberDef::Array { name, element, .. } && ({
            let (o2, p, stop) = field_step(e, f, data, pos, o);
            &&& p == start + n * size
            &&& !stop
            &&& get(o2, name@) matches Some(Json::Arr(items)) && items.len() == n && forall|k: int|
                0 <= k < n ==> #[trigger] items[k] == value(
                    e.within(o),
                    *element,
                    data.subrange(start + k * size, start + (k + 1) * size),
                )
            &&& forall|k: Seq<char>| k != name@ ==> #[trigger] get(o2, k) == get(o, k)
        }),
{
    if let MemberDef::Array { name, element, count, .. } = f {
        if let Some(ArrayCount::CountPrefix(w)) = count {
            lemma_prefix(data, pos, w as nat);
        }
        assert(array_count(count, data, pos, o) == (n as nat, start));
        law_packed_elements(e.within(o), *element, data, start, size, n as nat, Seq::empty());
        assert((data.len() - start) / size >= n) by (nonlinear_arith)
            requires
                start + n * size <= data.len(),
                size > 0,
        ;
        let items = packed(e.within(o), *element, data, start, size, n as nat, Seq::empty()).0;
        assert forall|k: int| 0 <= k < n implies #[trigger] items[k] == value(
            e.within(o),
            *element,
            data.subrange(start + k * size, start + (k + 1) * size),
        ) by {
            assert(items[0 + k] == items[k]);
        }
        lemma_put_sets(o, name@, Json::Arr(items));
    }
}

proof fn lemma_prefix(data: Seq<u8>, pos: int, w: nat)
    requires
        0 <= pos,
        pos + w <= data.len(),
        w == 1 || w == 2 || w == 4,
    ensures
        le_bytes(data, pos, w) == stored(data, pos, w),
        0 <= stored(data, pos, w) <= u64::MAX,
{
    reveal_with_fuel(le_bytes, 5);
    reveal_with_fuel(stored, 5);
}

} // verus!
