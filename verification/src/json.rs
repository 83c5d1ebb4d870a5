//! JSON values as the decoder produces them and the diff engine compares them.
//!
//! A single-precision number is carried as its bit pattern. What only
//! floating-point arithmetic (or a decoder outside this library) can finish
//! is carried as a query: [`Value::Quantity`], [`Value::Bash`] and
//! [`Value::Condition`] hold what the answer is computed from, and
//! [`settle`] puts answers in their place.
use crate::text::{str_eq, str_lt, text_lt};
use vstd::prelude::*;

verus! {

/// A JSON value as mathematics. An object is the sequence of its entries.
pub enum Json {
    Null,
    Bool(bool),
    Int(int),
    Float(u32),
    Str(Seq<char>),
    Arr(Seq<Json>),
    Obj(Seq<(Seq<char>, Json)>),
    Quantity(Seq<Json>, int),
    Bash(Seq<Json>, Box<Json>, bool),
    Condition(Seq<u8>),
}

/// The entries of an object, in key order.
pub type Entries = Seq<(Seq<char>, Json)>;

/// A JSON value.
#[derive(Debug)]
pub enum Value {
    Null,
    Bool(bool),
    /// An integer, in the range of `i64` and `u64` together.
    Int(i128),
    /// A finite single-precision number, by its bit pattern.
    Float(u32),
    String(String),
    Array(Vec<Value>),
    Object(Object),
    /// The value of a curve through `points` at `count`.
    Quantity { points: Vec<Value>, count: u64 },
    /// The bash damage table of a weapon with secondary damage `secondary`
    /// and the damage curve through `points`.
    Bash { points: Vec<Value>, secondary: Box<Value>, eligible: bool },
    /// The undecoded bytes of a condition.
    Condition(Vec<u8>),
}

/// A JSON object: entries with their keys in increasing order.
#[derive(Debug)]
pub struct Object {
    pub entries: Vec<(String, Value)>,
}

/// The mathematical value of `v`.
pub open spec fn json_of(v: Value) -> Json
    decreases v,
{
    match v {
        Value::Null => Json::Null,
        Value::Bool(b) => Json::Bool(b),
        Value::Int(n) => Json::Int(n as int),
        Value::Float(b) => Json::Float(b),
        Value::String(s) => Json::Str(s@),
        Value::Array(items) => Json::Arr(views(items@)),
        Value::Object(o) => Json::Obj(entries_of(o.entries@)),
        Value::Quantity { points, count } => Json::Quantity(views(points@), count as int),
        Value::Bash { points, secondary, eligible } => Json::Bash(
            views(points@),
            Box::new(json_of(*secondary)),
            eligible,
        ),
        Value::Condition(data) => Json::Condition(data@),
    }
}

/// The mathematical values of a list.
pub open spec fn views(items: Seq<Value>) -> Seq<Json>
    decreases items,
{
    Seq::new(
        items.len(),
        |i: int|
            if 0 <= i < items.len() {
                json_of(items[i])
            } else {
                Json::Null
            },
    )
}

/// The mathematical entries of an object.
pub open spec fn entries_of(entries: Seq<(String, Value)>) -> Entries
    decreases entries,
{
    Seq::new(
        entries.len(),
        |i: int|
            if 0 <= i < entries.len() {
                (entries[i].0@, json_of(entries[i].1))
            } else {
                (Seq::empty(), Json::Null)
            },
    )
}

impl View for Value {
    type V = Json;

    open spec fn view(&self) -> Json {
        json_of(*self)
    }
}

impl View for Object {
    type V = Seq<(Seq<char>, Json)>;

    open spec fn view(&self) -> Seq<(Seq<char>, Json)> {
        entries_of(self.entries@)
    }
}

/// The view of what a lookup returned.
pub open spec fn opt_view(v: Option<&Value>) -> Option<Json> {
    match v {
        Some(v) => Some(v@),
        None => None,
    }
}

// ── Objects ────────────────────────────────────────────────────────────────
/// The empty object.
pub open spec fn nothing() -> Entries {
    Seq::empty()
}

/// The value of key `k`, if `o` has one.
pub open spec fn get(o: Entries, k: Seq<char>) -> Option<Json>
    decreases o.len(),
{
    if o.len() == 0 {
        None
    } else if o[0].0 == k {
        Some(o[0].1)
    } else {
        get(o.drop_first(), k)
    }
}

/// The position of key `k` in `o`, or the length.
pub open spec fn key_index(o: Entries, k: Seq<char>) -> int
    decreases o.len(),
{
    if o.len() == 0 || o[0].0 == k {
        0
    } else {
        1 + key_index(o.drop_first(), k)
    }
}

/// The value of a key is the one at its position.
pub proof fn lemma_key_index(o: Entries, k: Seq<char>)
    ensures
        0 <= key_index(o, k) <= o.len(),
        key_index(o, k) < o.len() ==> o[key_index(o, k)].0 == k && get(o, k) == Some(
            o[key_index(o, k)].1,
        ),
        key_index(o, k) == o.len() ==> get(o, k) is None,
        forall|j: int| 0 <= j < key_index(o, k) ==> (#[trigger] o[j]).0 != k,
    decreases o.len(),
{
    if !(o.len() == 0 || o[0].0 == k) {
        lemma_key_index(o.drop_first(), k);
        assert forall|j: int| 0 <= j < key_index(o, k) implies (#[trigger] o[j]).0 != k by {
            if j > 0 {
                assert(o[j] == o.drop_first()[j - 1]);
            }
        }
    }
}

/// Whether `o` has the key `k`.
pub open spec fn has_key(o: Entries, k: Seq<char>) -> bool {
    get(o, k) is Some
}

/// Where key `k` stands in `o`, or where it would be put in.
pub open spec fn slot(o: Entries, k: Seq<char>) -> int
    decreases o.len(),
{
    if o.len() == 0 || o[0].0 == k || text_lt(k, o[0].0) {
        0
    } else {
        1 + slot(o.drop_first(), k)
    }
}

/// The object `o` with key `k` set to `v`.
pub open spec fn put(o: Entries, k: Seq<char>, v: Json) -> Entries {
    let i = slot(o, k);
    if 0 <= i < o.len() && o[i].0 == k {
        o.update(i, (k, v))
    } else {
        o.insert(i, (k, v))
    }
}

/// The object `o` without its entry of key `k`.
pub open spec fn del(o: Entries, k: Seq<char>) -> Entries
    decreases o.len(),
{
    if o.len() == 0 {
        o
    } else if o[0].0 == k {
        o.drop_first()
    } else {
        seq![o[0]] + del(o.drop_first(), k)
    }
}

/// The object with one entry.
pub open spec fn obj1(k: Seq<char>, v: Json) -> Entries {
    put(nothing(), k, v)
}

/// The object with two entries.
pub open spec fn obj2(k1: Seq<char>, v1: Json, k2: Seq<char>, v2: Json) -> Entries {
    put(obj1(k1, v1), k2, v2)
}

/// The object with three entries.
pub open spec fn obj3(
    k1: Seq<char>,
    v1: Json,
    k2: Seq<char>,
    v2: Json,
    k3: Seq<char>,
    v3: Json,
) -> Entries {
    put(obj2(k1, v1, k2, v2), k3, v3)
}

/// The object with four entries.
pub open spec fn obj4(
    k1: Seq<char>,
    v1: Json,
    k2: Seq<char>,
    v2: Json,
    k3: Seq<char>,
    v3: Json,
    k4: Seq<char>,
    v4: Json,
) -> Entries {
    put(obj3(k1, v1, k2, v2, k3, v3), k4, v4)
}

/// The slot of a key is a position in the object, or its end.
pub proof fn lemma_slot_bounds(o: Entries, k: Seq<char>)
    ensures
        0 <= slot(o, k) <= o.len(),
    decreases o.len(),
{
    if !(o.len() == 0 || o[0].0 == k || text_lt(k, o[0].0)) {
        lemma_slot_bounds(o.drop_first(), k);
    }
}

impl Object {
    /// The empty object.
    pub fn new() -> (r: Object)
        ensures
            r@ == nothing(),
    {
        let r = Object { entries: Vec::new() };
        assert(r@ =~= nothing());
        r
    }

    /// The number of entries.
    pub fn len(&self) -> (n: usize)
        ensures
            n == self@.len(),
    {
        self.entries.len()
    }

    /// Whether there is no entry.
    pub fn is_empty(&self) -> (b: bool)
        ensures
            b == (self@ == nothing()),
    {
        let b = self.entries.len() == 0;
        assert(b ==> self@ =~= nothing());
        assert(!b ==> self@.len() != 0);
        b
    }

    /// The position of key `k`, or the number of entries.
    pub fn find(&self, k: &str) -> (i: usize)
        ensures
            i <= self@.len(),
            i == key_index(self@, k@),
            i < self@.len() ==> self@[i as int].0 == k@ && get(self@, k@) == Some(
                self@[i as int].1,
            ),
            i == self@.len() ==> get(self@, k@) is None,
            forall|j: int| 0 <= j < i ==> self@[j].0 != k@,
    {
        let mut i: usize = 0;
        assert(self@.skip(0) =~= self@);
        while i < self.entries.len()
            invariant
                i <= self.entries.len(),
                self@.len() == self.entries.len(),
                get(self@, k@) == get(self@.skip(i as int), k@),
                key_index(self@, k@) == i + key_index(self@.skip(i as int), k@),
                forall|j: int| 0 <= j < i ==> self@[j].0 != k@,
            decreases self.entries.len() - i,
        {
            assert(self@.skip(i as int)[0] == self@[i as int]);
            if str_eq(&self.entries[i].0, k) {
                return i;
            }
            assert(self@.skip(i as int).drop_first() =~= self@.skip(i + 1));
            i += 1;
        }
        i
    }

    /// The value of key `k`.
    pub fn get(&self, k: &str) -> (r: Option<&Value>)
        ensures
            opt_view(r) == get(self@, k@),
            r matches Some(v) ==> exists|i: int|
                0 <= i < self.entries@.len() && self.entries@[i].1 == v,
    {
        let i: usize = self.find(k);
        if i < self.entries.len() {
            Some(&self.entries[i].1)
        } else {
            None
        }
    }

    /// Whether key `k` has a value.
    pub fn contains_key(&self, k: &str) -> (b: bool)
        ensures
            b == has_key(self@, k@),
    {
        self.find(k) < self.entries.len()
    }

    /// Sets key `k` to `v`.
    pub fn insert(&mut self, k: String, v: Value)
        ensures
            final(self)@ == put(old(self)@, k@, v@),
    {
        let mut i: usize = 0;
        assert(self@.skip(0) =~= self@);
        while i < self.entries.len() && !str_eq(&self.entries[i].0, &k) && !str_lt(
            &k,
            &self.entries[i].0,
        )
            invariant
                self@ == old(self)@,
                i <= self.entries.len(),
                self@.len() == self.entries.len(),
                slot(self@, k@) == i + slot(self@.skip(i as int), k@),
            decreases self.entries.len() - i,
        {
            assert(self@.skip(i as int)[0] == self@[i as int]);
            assert(self@.skip(i as int).drop_first() =~= self@.skip(i + 1));
            i += 1;
        }
        assert(i < self@.len() ==> self@.skip(i as int)[0] == self@[i as int]);
        assert(slot(self@, k@) == i);
        let ghost kv = (k@, v@);
        if i < self.entries.len() && str_eq(&self.entries[i].0, &k) {
            self.entries[i] = (k, v);
            assert(self@ =~= old(self)@.update(i as int, kv));
        } else {
            self.entries.insert(i, (k, v));
            assert(self@ =~= old(self)@.insert(i as int, kv));
        }
    }

    /// This object with key `k` set to `v`.
    pub fn with(self, k: &str, v: Value) -> (r: Object)
        ensures
            r@ == put(self@, k@, v@),
    {
        let mut r = self;
        r.insert(k.to_owned(), v);
        r
    }

    /// Takes the entry of key `k` out.
    pub fn remove(&mut self, k: &str) -> (r: Option<Value>)
        ensures
            final(self)@ == del(old(self)@, k@),
            (match r {
                Some(v) => Some(v@),
                None => None,
            }) == get(old(self)@, k@),
    {
        let i: usize = self.find(k);
        if i < self.entries.len() {
            let (key, v) = self.entries.remove(i);
            assert(self@ =~= old(self)@.remove(i as int));
            proof {
                lemma_del_at(old(self)@, k@, i as int);
            }
            Some(v)
        } else {
            proof {
                lemma_del_absent(old(self)@, k@);
            }
            None
        }
    }
}

/// Taking out a key removes its first entry.
pub proof fn lemma_del_at(o: Entries, k: Seq<char>, i: int)
    requires
        0 <= i < o.len(),
        o[i].0 == k,
        forall|j: int| 0 <= j < i ==> o[j].0 != k,
    ensures
        del(o, k) == o.remove(i),
    decreases o.len(),
{
    if i == 0 {
        assert(o.drop_first() =~= o.remove(0));
    } else {
        assert forall|j: int| 0 <= j < i - 1 implies o.drop_first()[j].0 != k by {
            assert(o.drop_first()[j] == o[j + 1]);
        }
        lemma_del_at(o.drop_first(), k, i - 1);
        assert(seq![o[0]] + o.drop_first().remove(i - 1) =~= o.remove(i));
    }
}

/// Taking out a key that is not there changes nothing.
pub proof fn lemma_del_absent(o: Entries, k: Seq<char>)
    requires
        get(o, k) is None,
    ensures
        del(o, k) == o,
    decreases o.len(),
{
    if o.len() > 0 {
        lemma_del_absent(o.drop_first(), k);
        assert(seq![o[0]] + o.drop_first() =~= o);
    }
}

// ── Values ─────────────────────────────────────────────────────────────────
/// The unsigned integer that `v` is.
pub open spec fn as_uint(v: Json) -> Option<int> {
    match v {
        Json::Int(n) => if 0 <= n <= u64::MAX {
            Some(n)
        } else {
            None
        },
        _ => None,
    }
}

/// The signed integer that `v` is.
pub open spec fn as_sint(v: Json) -> Option<int> {
    match v {
        Json::Int(n) => if i64::MIN <= n <= i64::MAX {
            Some(n)
        } else {
            None
        },
        _ => None,
    }
}

/// The text that `v` is.
pub open spec fn as_text(v: Json) -> Option<Seq<char>> {
    match v {
        Json::Str(s) => Some(s),
        _ => None,
    }
}

/// The entries of the object that `v` is.
pub open spec fn as_obj(v: Json) -> Option<Entries> {
    match v {
        Json::Obj(o) => Some(o),
        _ => None,
    }
}

/// The elements of the array that `v` is.
pub open spec fn as_arr(v: Json) -> Option<Seq<Json>> {
    match v {
        Json::Arr(a) => Some(a),
        _ => None,
    }
}

/// The value of key `k` in the object that `v` is.
pub open spec fn field(v: Json, k: Seq<char>) -> Option<Json> {
    match v {
        Json::Obj(o) => get(o, k),
        _ => None,
    }
}

/// Whether a bit pattern is that of a zero of either sign.
pub open spec fn zero_bits(b: u32) -> bool {
    b == 0 || b == 0x8000_0000
}

/// Value equality: the two zeros are the same number.
pub open spec fn same(a: Json, b: Json) -> bool
    decreases a,
{
    match (a, b) {
        (Json::Float(x), Json::Float(y)) => x == y || (zero_bits(x) && zero_bits(y)),
        (Json::Arr(x), Json::Arr(y)) => x.len() == y.len() && forall|i: int|
            0 <= i < x.len() ==> same(#[trigger] x[i], y[i]),
        (Json::Obj(x), Json::Obj(y)) => x.len() == y.len() && forall|i: int|
            0 <= i < x.len() ==> (#[trigger] x[i]).0 == y[i].0 && same(x[i].1, y[i].1),
        _ => a == b,
    }
}

/// Equality of lists of values.
pub open spec fn same_all(a: Seq<Json>, b: Seq<Json>) -> bool {
    a.len() == b.len() && forall|i: int| 0 <= i < a.len() ==> same(#[trigger] a[i], b[i])
}

/// A copy of a list of values.
pub fn copy_all(items: &Vec<Value>) -> (r: Vec<Value>)
    ensures
        views(r@) == views(items@),
    decreases items, 0nat,
{
    let mut r: Vec<Value> = Vec::new();
    let mut i: usize = 0;
    while i < items.len()
        invariant
            i <= items.len(),
            r@.len() == i,
            forall|j: int| 0 <= j < i ==> (#[trigger] r@[j])@ == items@[j]@,
        decreases items.len() - i,
    {
        r.push(items[i].copy());
        i += 1;
    }
    assert(views(r@) =~= views(items@));
    r
}

/// Whether two lists hold the same values, to the bit.
pub fn identical_all(a: &Vec<Value>, b: &Vec<Value>) -> (r: bool)
    ensures
        r == (views(a@) == views(b@)),
    decreases a, 0nat,
{
    if a.len() != b.len() {
        assert(views(a@).len() != views(b@).len());
        return false;
    }
    let mut i: usize = 0;
    while i < a.len()
        invariant
            a.len() == b.len(),
            i <= a.len(),
            forall|j: int| 0 <= j < i ==> (#[trigger] a@[j])@ == b@[j]@,
        decreases a.len() - i,
    {
        if !a[i].identical(&b[i]) {
            assert(views(a@)[i as int] != views(b@)[i as int]);
            return false;
        }
        i += 1;
    }
    assert(views(a@) =~= views(b@));
    true
}

/// Whether two lists hold equal values.
pub fn equals_all(a: &Vec<Value>, b: &Vec<Value>) -> (r: bool)
    ensures
        r == same_all(views(a@), views(b@)),
    decreases a, 0nat,
{
    if a.len() != b.len() {
        return false;
    }
    let mut i: usize = 0;
    while i < a.len()
        invariant
            a.len() == b.len(),
            i <= a.len(),
            forall|j: int| 0 <= j < i ==> same(#[trigger] views(a@)[j], views(b@)[j]),
        decreases a.len() - i,
    {
        if !a[i].equals(&b[i]) {
            assert(!same(views(a@)[i as int], views(b@)[i as int]));
            return false;
        }
        i += 1;
    }
    true
}

impl Object {
    /// A copy of this object.
    pub fn copy(&self) -> (r: Object)
        ensures
            r@ == self@,
        decreases self, 0nat,
    {
        let mut entries: Vec<(String, Value)> = Vec::new();
        let mut i: usize = 0;
        while i < self.entries.len()
            invariant
                i <= self.entries.len(),
                entries@.len() == i,
                forall|j: int|
                    0 <= j < i ==> (#[trigger] entries@[j]).0@ == self.entries@[j].0@
                        && entries@[j].1@ == self.entries@[j].1@,
            decreases self.entries.len() - i,
        {
            entries.push((self.entries[i].0.clone(), self.entries[i].1.copy()));
            i += 1;
        }
        let r = Object { entries };
        assert(r@ =~= self@);
        r
    }

    /// Whether two objects hold the same entries, to the bit.
    pub fn identical(&self, other: &Object) -> (r: bool)
        ensures
            r == (self@ == other@),
        decreases self, 0nat,
    {
        if self.entries.len() != other.entries.len() {
            assert(self@.len() != other@.len());
            return false;
        }
        let mut i: usize = 0;
        while i < self.entries.len()
            invariant
                self.entries.len() == other.entries.len(),
                i <= self.entries.len(),
                forall|j: int| 0 <= j < i ==> #[trigger] self@[j] == other@[j],
            decreases self.entries.len() - i,
        {
            if !str_eq(&self.entries[i].0, &other.entries[i].0) || !self.entries[i].1.identical(
                &other.entries[i].1,
            ) {
                assert(self@[i as int] != other@[i as int]);
                return false;
            }
            i += 1;
        }
        assert(self@ =~= other@);
        true
    }
}

impl Value {
    /// A copy of this value.
    pub fn copy(&self) -> (r: Value)
        ensures
            r@ == self@,
        decreases self, 0nat,
    {
        match self {
            Value::Null => Value::Null,
            Value::Bool(b) => Value::Bool(*b),
            Value::Int(n) => Value::Int(*n),
            Value::Float(b) => Value::Float(*b),
            Value::String(s) => Value::String(s.clone()),
            Value::Array(items) => Value::Array(copy_all(items)),
            Value::Object(o) => Value::Object(o.copy()),
            Value::Quantity { points, count } => Value::Quantity {
                points: copy_all(points),
                count: *count,
            },
            Value::Bash { points, secondary, eligible } => Value::Bash {
                points: copy_all(points),
                secondary: Box::new(secondary.copy()),
                eligible: *eligible,
            },
            Value::Condition(data) => Value::Condition(copy_bytes(data)),
        }
    }

    /// Whether two values are the same, to the bit.
    pub fn identical(&self, other: &Value) -> (r: bool)
        ensures
            r == (self@ == other@),
        decreases self, 0nat,
    {
        match (self, other) {
            (Value::Null, Value::Null) => true,
            (Value::Bool(a), Value::Bool(b)) => *a == *b,
            (Value::Int(a), Value::Int(b)) => *a == *b,
            (Value::Float(a), Value::Float(b)) => *a == *b,
            (Value::String(a), Value::String(b)) => str_eq(a, b),
            (Value::Array(a), Value::Array(b)) => identical_all(a, b),
            (Value::Object(a), Value::Object(b)) => a.identical(b),
            (
                Value::Quantity { points: p, count: c },
                Value::Quantity { points: q, count: d },
            ) => identical_all(p, q) && *c == *d,
            (
                Value::Bash { points: p, secondary: s, eligible: e },
                Value::Bash { points: q, secondary: t, eligible: f },
            ) => identical_all(p, q) && s.identical(t) && *e == *f,
            (Value::Condition(a), Value::Condition(b)) => crate::text::bytes_eq(a, b),
            _ => false,
        }
    }

    /// Whether two values are equal.
    pub fn equals(&self, other: &Value) -> (r: bool)
        ensures
            r == same(self@, other@),
        decreases self, 0nat,
    {
        match (self, other) {
            (Value::Float(a), Value::Float(b)) => *a == *b || ((*a == 0 || *a == 0x8000_0000) && (*b
                == 0 || *b == 0x8000_0000)),
            (Value::Array(a), Value::Array(b)) => equals_all(a, b),
            (Value::Object(a), Value::Object(b)) => a.equals(b),
            _ => self.identical(other),
        }
    }

    /// The unsigned integer that this value is.
    pub fn as_u64(&self) -> (r: Option<u64>)
        ensures
            match r {
                Some(n) => as_uint(self@) == Some(n as int),
                None => as_uint(self@) is None,
            },
    {
        match self {
            Value::Int(n) => if 0 <= *n && *n <= u64::MAX as i128 {
                Some(*n as u64)
            } else {
                None
            },
            _ => None,
        }
    }

    /// The text that this value is.
    pub fn as_str(&self) -> (r: Option<&str>)
        ensures
            match r {
                Some(s) => as_text(self@) == Some(s@),
                None => as_text(self@) is None,
            },
    {
        match self {
            Value::String(s) => Some(s.as_str()),
            _ => None,
        }
    }

    /// The object that this value is.
    pub fn as_object(&self) -> (r: Option<&Object>)
        ensures
            match r {
                Some(o) => as_obj(self@) == Some(o@) && *self == Value::Object(*o),
                None => as_obj(self@) is None,
            },
    {
        match self {
            Value::Object(o) => Some(o),
            _ => None,
        }
    }

    /// The elements of the array that this value is.
    pub fn as_array(&self) -> (r: Option<&Vec<Value>>)
        ensures
            match r {
                Some(a) => as_arr(self@) == Some(views(a@)) && *self == Value::Array(*a),
                None => as_arr(self@) is None,
            },
    {
        match self {
            Value::Array(a) => Some(a),
            _ => None,
        }
    }

    /// The value of key `k` in the object that this value is.
    pub fn get(&self, k: &str) -> (r: Option<&Value>)
        ensures
            opt_view(r) == field(self@, k@),
    {
        match self {
            Value::Object(o) => o.get(k),
            _ => None,
        }
    }

    /// Whether this is the null value.
    pub fn is_null(&self) -> (b: bool)
        ensures
            b == (self@ == Json::Null),
    {
        match self {
            Value::Null => true,
            _ => false,
        }
    }

    /// Whether this is a boolean that is true.
    pub fn is_true(&self) -> (b: bool)
        ensures
            b == (self@ == Json::Bool(true)),
    {
        match self {
            Value::Bool(b) => *b,
            _ => false,
        }
    }
}

impl Object {
    /// Whether two objects are equal.
    pub fn equals(&self, other: &Object) -> (r: bool)
        ensures
            r == same(Json::Obj(self@), Json::Obj(other@)),
        decreases self, 0nat,
    {
        if self.entries.len() != other.entries.len() {
            return false;
        }
        let mut i: usize = 0;
        while i < self.entries.len()
            invariant
                self.entries.len() == other.entries.len(),
                i <= self.entries.len(),
                forall|j: int|
                    0 <= j < i ==> (#[trigger] self@[j]).0 == other@[j].0 && same(
                        self@[j].1,
                        other@[j].1,
                    ),
            decreases self.entries.len() - i,
        {
            if !str_eq(&self.entries[i].0, &other.entries[i].0) || !self.entries[i].1.equals(
                &other.entries[i].1,
            ) {
                assert(!(self@[i as int].0 == other@[i as int].0 && same(
                    self@[i as int].1,
                    other@[i as int].1,
                )));
                return false;
            }
            i += 1;
        }
        true
    }
}

/// A copy of a byte vector.
pub fn copy_bytes(data: &Vec<u8>) -> (r: Vec<u8>)
    ensures
        r@ == data@,
{
    let r = data.clone();
    assert(r@ =~= data@);
    r
}

/// Text as a JSON value.
pub fn text(s: &str) -> (v: Value)
    ensures
        v@ == Json::Str(s@),
{
    Value::String(s.to_owned())
}

} // verus!
